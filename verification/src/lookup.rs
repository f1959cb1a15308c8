//! Completing a receipt from the tax service's service page that a QR code
//! may link to (`GET /add`), and what the pages around it show.

use vstd::prelude::*;

use crate::receipt::{Receipt, ReceiptView};
use crate::text::{
    between, between_of, chars_of, pieces, split_all, split_once, split_once_of, starts_with,
    starts_with_of, string_of, texts, trim, trim_of,
};

verus! {

/// The texts of `parts`, one after another.
pub open spec fn joined(parts: Seq<Seq<char>>) -> Seq<char>
    decreases parts.len(),
{
    if parts.len() == 0 {
        Seq::empty()
    } else {
        joined(parts.drop_last()) + parts.last()
    }
}

/// The first two parts of `s` (all of them where there are fewer).
pub open spec fn at_most_two(s: Seq<Seq<char>>) -> Seq<Seq<char>> {
    if s.len() <= 2 {
        s
    } else {
        s.take(2)
    }
}

/// A date and time as the service page writes it, `DD.MM.YYYY hh:mm`, as
/// `YYYYMMDDThhmm`: the parts of the date in reverse, `T`, and the first two
/// parts of the time.  Empty where there is no space.
pub open spec fn compact_date(x: Seq<char>) -> Seq<char> {
    match split_once(trim(x), ' ') {
        Some((date, time)) => joined(pieces(date, "."@).reverse()) + "T"@ + joined(
            at_most_two(pieces(time, ":"@)),
        ),
        None => Seq::empty(),
    }
}

/// The value that the service page gives after `label`, up to the next `<`.
pub open spec fn page_value(text: Seq<char>, label: Seq<char>) -> Option<Seq<char>> {
    between(text, label, "<"@)
}

/// `r` completed from the service page `text`: the fiscal drive, fiscal sign
/// and document number where the page gives them, the kind of operation 1
/// where `r` has none, and the date where the page gives one.
pub open spec fn completed(r: ReceiptView, text: Seq<char>) -> ReceiptView {
    let r1 = match page_value(text, "<div>ФН №: <right>"@) {
        Some(x) => ReceiptView { fiscal_number: x, ..r },
        None => r,
    };
    let r2 = match page_value(text, "<div>ФП: <right>"@) {
        Some(x) => ReceiptView { fp: x, ..r1 },
        None => r1,
    };
    let r3 = match page_value(text, "<div>ФД №: <right>"@) {
        Some(x) => ReceiptView { i: x, ..r2 },
        None => r2,
    };
    let r4 = if r3.n.len() == 0 {
        ReceiptView { n: "1"@, ..r3 }
    } else {
        r3
    };
    match page_value(text, "<div>Дата Время <right>"@) {
        Some(x) => ReceiptView { date: compact_date(x), ..r4 },
        None => r4,
    }
}

/// Whether the receipt that the QR text `q` gave lacks what the operator
/// needs, so that `q` has to be followed as a link to the service page.
pub open spec fn needs_service_page(r: ReceiptView, q: Seq<char>) -> bool {
    r.fiscal_number.len() == 0 || r.fp.len() == 0 || (r.i.len() == 0 && starts_with(q, "http"@))
}

/// Whether the receipt has what the operator needs to find it.
pub open spec fn is_searchable(r: ReceiptView) -> bool {
    r.fiscal_number.len() > 0 && r.fp.len() > 0 && r.i.len() > 0
}

/// Whether the receipt read from the QR text `q` has to be completed from
/// the service page that `q` links to.
pub fn needs_service_page_of(rec: &Receipt, q: &str) -> (r: bool)
    ensures
        r == needs_service_page(rec@, q@),
{
    rec.fiscal_number.as_str().is_empty() || rec.fp.as_str().is_empty() || (
    rec.i.as_str().is_empty() && starts_with_of(&chars_of(q), &chars_of("http")))
}

/// Whether the receipt has what the operator needs to find it.
pub fn is_searchable_of(rec: &Receipt) -> (r: bool)
    ensures
        r == is_searchable(rec@),
{
    !rec.fiscal_number.as_str().is_empty() && !rec.fp.as_str().is_empty() && !rec.i.as_str().is_empty()
}

fn joined_of(parts: &Vec<Vec<char>>, out: &mut Vec<char>)
    ensures
        final(out)@ == old(out)@ + joined(texts(parts@)),
{
    let ghost start = out@;
    for k in 0..parts.len()
        invariant
            out@ == start + joined(texts(parts@).take(k as int)),
    {
        assert(texts(parts@).take(k + 1).drop_last() =~= texts(parts@).take(k as int));
        let ghost before = out@;
        let len = parts[k].len();
        for c in 0..len
            invariant
                k < parts.len(),
                len == parts@[k as int]@.len(),
                out@ == before + parts@[k as int]@.take(c as int),
        {
            out.push(parts[k][c]);
            assert(parts@[k as int]@.take(c + 1) =~= parts@[k as int]@.take(c as int).push(
                parts@[k as int]@[c as int],
            ));
        }
        assert(parts@[k as int]@.take(parts@[k as int]@.len() as int) =~= parts@[k as int]@);
        assert(texts(parts@).take(k + 1).last() == parts@[k as int]@);
    }
    assert(texts(parts@).take(parts.len() as int) =~= texts(parts@));
}

/// `compact_date` of `x`.
pub fn compact_date_of(x: &str) -> (r: String)
    ensures
        r@ == compact_date(x@),
{
    let t = trim_of(&chars_of(x));
    match split_once_of(&t, ' ') {
        Some((date, time)) => {
            let mut out: Vec<char> = Vec::new();
            let mut parts = split_all(&date, &chars_of("."));
            let ghost all = texts(parts@);
            let mut rev: Vec<Vec<char>> = Vec::new();
            while parts.len() > 0
                invariant
                    texts(parts@) == all.take(parts.len() as int),
                    texts(rev@) == all.reverse().take(rev.len() as int),
                    parts.len() + rev.len() == all.len(),
                decreases parts.len(),
            {
                let ghost before = rev@;
                let ghost k = rev.len();
                let ghost op = parts@;
                let x = parts.pop().unwrap();
                assert(x == op.last());
                assert(texts(op)[op.len() - 1] == x@);
                assert(x@ == all[all.len() - 1 - k]);
                rev.push(x);
                assert(texts(rev@) =~= all.reverse().take(rev.len() as int));
                assert(texts(parts@) =~= all.take(parts.len() as int));
            }
            joined_of(&rev, &mut out);
            out.push('T');
            let mut tparts = split_all(&time, &chars_of(":"));
            let ghost tall = texts(tparts@);
            if tparts.len() > 2 {
                tparts.truncate(2);
            }
            assert(texts(tparts@) =~= at_most_two(tall));
            let ghost mid = out@;
            joined_of(&tparts, &mut out);
            proof {
                reveal_strlit("T");
                assert(all.reverse().take(all.len() as int) =~= all.reverse());
                assert(mid =~= joined(all.reverse()) + "T"@);
                assert(out@ =~= joined(all.reverse()) + "T"@ + joined(at_most_two(tall)));
            }
            string_of(&out)
        },
        None => String::new(),
    }
}

fn page_value_of(text: &Vec<char>, label: &str) -> (r: Option<String>)
    ensures
        r matches Some(x) ==> page_value(text@, label@) == Some(x@),
        r is None ==> page_value(text@, label@) is None,
{
    match between_of(text, &chars_of(label), &chars_of("<")) {
        Some(x) => Some(string_of(&x)),
        None => None,
    }
}

/// Completes the receipt `rec` from the tax service's service page `text`.
pub fn complete_from_service_page(text: &str, rec: &mut Receipt)
    ensures
        final(rec)@ == completed(old(rec)@, text@),
{
    let t = chars_of(text);
    match page_value_of(&t, "<div>ФН №: <right>") {
        Some(x) => {
            rec.fiscal_number = x;
        },
        None => {},
    }
    match page_value_of(&t, "<div>ФП: <right>") {
        Some(x) => {
            rec.fp = x;
        },
        None => {},
    }
    match page_value_of(&t, "<div>ФД №: <right>") {
        Some(x) => {
            rec.i = x;
        },
        None => {},
    }
    if rec.n.as_str().is_empty() {
        rec.n = String::from_str("1");
    }
    match page_value_of(&t, "<div>Дата Время <right>") {
        Some(x) => {
            rec.date = compact_date_of(x.as_str());
        },
        None => {},
    }
}

} // verus!
