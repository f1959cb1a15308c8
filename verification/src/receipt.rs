//! Receipts: what the QR code on a receipt says, and what the receipt page
//! of the fiscal data operator lists (the seller, the items and the totals).

use vstd::prelude::*;

use crate::numbers::{parse_u64_of, parse_unsigned};
use crate::text::{
    between, between_of, chars_of, find_from, first_piece, lemma_find_first, lemma_find_from_bounds,
    lemma_find_none, lemma_match_chars, lemma_piece_at, lemma_pieces_join, matches_at, piece_end,
    pieces_from, first_piece_of, first_word, first_word_of, last_piece,
    last_piece_of, lemma_pieces_nonempty, nth_piece, nth_piece_of, pieces, same_chars, split_all,
    starts_with, starts_with_of, trim_of,
    split_once, split_once_of, string_of, texts, trim, without_char, without_char_of,
};

verus! {

// ---------------------------------------------------------------------
// Types
// ---------------------------------------------------------------------

/// The seller.
#[derive(Clone, Debug)]
pub struct Company {
    pub name: String,
    /// The taxpayer number (ИНН).
    pub inn: String,
}

/// One position of a receipt.  Amounts are in kopecks.
#[derive(Clone, Debug)]
pub struct Item {
    pub name: String,
    /// The quantity as the receipt writes it (a decimal number, read as a
    /// float where it is shown); `None` where the page gives none.
    pub count: Option<String>,
    pub unit: String,
    pub per_item: u64,
    pub total: u64,
    pub tax: u64,
}

/// A receipt.  Amounts are in kopecks.
#[derive(Clone, Debug)]
pub struct Receipt {
    pub company: Company,
    pub items: Vec<Item>,
    pub total: u64,
    pub total_cash: u64,
    pub total_card: u64,
    pub total_tax: u64,
    /// The number of the fiscal drive (ФН).
    pub fiscal_number: String,
    /// The fiscal sign of the document (ФП).
    pub fp: String,
    /// The number of the fiscal document (ФД).
    pub i: String,
    /// The kind of operation.
    pub n: String,
    /// The operator's identifier of the receipt page.
    pub id: String,
    /// The date and time, as `YYYYMMDDThhmm`.
    pub date: String,
}

/// What an item holds, as plain values.
pub struct ItemView {
    pub name: Seq<char>,
    pub count: Option<Seq<char>>,
    pub unit: Seq<char>,
    pub per_item: u64,
    pub total: u64,
    pub tax: u64,
}

/// What a receipt holds, as plain values.
pub struct ReceiptView {
    pub company_name: Seq<char>,
    pub company_inn: Seq<char>,
    pub items: Seq<ItemView>,
    pub total: u64,
    pub total_cash: u64,
    pub total_card: u64,
    pub total_tax: u64,
    pub fiscal_number: Seq<char>,
    pub fp: Seq<char>,
    pub i: Seq<char>,
    pub n: Seq<char>,
    pub id: Seq<char>,
    pub date: Seq<char>,
}

impl View for Item {
    type V = ItemView;

    open spec fn view(&self) -> ItemView {
        ItemView {
            name: self.name@,
            count: match self.count {
                Some(c) => Some(c@),
                None => None,
            },
            unit: self.unit@,
            per_item: self.per_item,
            total: self.total,
            tax: self.tax,
        }
    }
}

/// The plain values of a list of items.
pub open spec fn item_views(items: Seq<Item>) -> Seq<ItemView> {
    items.map_values(|it: Item| it@)
}

impl View for Receipt {
    type V = ReceiptView;

    open spec fn view(&self) -> ReceiptView {
        ReceiptView {
            company_name: self.company.name@,
            company_inn: self.company.inn@,
            items: item_views(self.items@),
            total: self.total,
            total_cash: self.total_cash,
            total_card: self.total_card,
            total_tax: self.total_tax,
            fiscal_number: self.fiscal_number@,
            fp: self.fp@,
            i: self.i@,
            n: self.n@,
            id: self.id@,
            date: self.date@,
        }
    }
}

/// The empty receipt.
pub open spec fn empty_receipt() -> ReceiptView {
    ReceiptView {
        company_name: Seq::empty(),
        company_inn: Seq::empty(),
        items: Seq::empty(),
        total: 0,
        total_cash: 0,
        total_card: 0,
        total_tax: 0,
        fiscal_number: Seq::empty(),
        fp: Seq::empty(),
        i: Seq::empty(),
        n: Seq::empty(),
        id: Seq::empty(),
        date: Seq::empty(),
    }
}

/// The empty item.
pub open spec fn empty_item() -> ItemView {
    ItemView {
        name: Seq::empty(),
        count: None,
        unit: Seq::empty(),
        per_item: 0,
        total: 0,
        tax: 0,
    }
}

impl Default for Company {
    fn default() -> (r: Company)
        ensures
            r.name@ == Seq::<char>::empty(),
            r.inn@ == Seq::<char>::empty(),
    {
        Company { name: String::new(), inn: String::new() }
    }
}

impl Default for Item {
    fn default() -> (r: Item)
        ensures
            r@ == empty_item(),
    {
        Item {
            name: String::new(),
            count: None,
            unit: String::new(),
            per_item: 0,
            total: 0,
            tax: 0,
        }
    }
}

impl Default for Receipt {
    fn default() -> (r: Receipt)
        ensures
            r@ == empty_receipt(),
    {
        let r = Receipt {
            company: Company { name: String::new(), inn: String::new() },
            items: Vec::new(),
            total: 0,
            total_cash: 0,
            total_card: 0,
            total_tax: 0,
            fiscal_number: String::new(),
            fp: String::new(),
            i: String::new(),
            n: String::new(),
            id: String::new(),
            date: String::new(),
        };
        assert(item_views(r.items@) =~= Seq::<ItemView>::empty());
        r
    }
}

// ---------------------------------------------------------------------
// Text helpers
// ---------------------------------------------------------------------

/// What `html_escape::decode_html_entities` makes of `s`.
pub uninterp spec fn html_decoded(s: Seq<char>) -> Seq<char>;

/// `html_escape::decode_html_entities(s).into_owned()`.  Claims that the
/// result is the named function of the text, and that a text without `&`
/// comes back unchanged (the decoder only starts an entity at `&`).
#[verifier::external_body]
fn decode_entities(s: &str) -> (r: String)
    ensures
        r@ == html_decoded(s@),
        !s@.contains('&') ==> r@ == s@,
{
    html_escape::decode_html_entities(s).into_owned()
}

/// `decode_entities` of a character vector.
fn decoded(s: &Vec<char>) -> (r: String)
    ensures
        r@ == html_decoded(s@),
{
    let t = string_of(s);
    decode_entities(t.as_str())
}

/// An amount of money as the pages write it, in roubles with a decimal
/// point: `s.replace('.', "").parse::<u64>()`, the amount in kopecks.
pub open spec fn kopecks(s: Seq<char>) -> Option<u64> {
    match parse_unsigned(without_char(s, '.'), u64::MAX as int) {
        Some(v) => Some(v as u64),
        None => None,
    }
}

fn kopecks_of(s: &Vec<char>) -> (r: Option<u64>)
    ensures
        r == kopecks(s@),
{
    let digits = without_char_of(s, '.');
    parse_u64_of(&digits)
}

/// `kopecks(s)`, or 0 where `s` is no amount.
pub open spec fn kopecks_or_zero(s: Seq<char>) -> u64 {
    match kopecks(s) {
        Some(v) => v,
        None => 0,
    }
}

// ---------------------------------------------------------------------
// The QR code
// ---------------------------------------------------------------------

/// One `key=value` field of the QR text applied to `r`.
pub open spec fn qr_field(r: ReceiptView, part: Seq<char>) -> ReceiptView {
    match split_once(part, '=') {
        Some((k, v)) => if k == "t"@ {
            ReceiptView { date: v, ..r }
        } else if k == "s"@ {
            ReceiptView { total: kopecks_or_zero(v), ..r }
        } else if k == "fn"@ {
            ReceiptView { fiscal_number: v, ..r }
        } else if k == "i"@ {
            ReceiptView { i: v, ..r }
        } else if k == "fp"@ {
            ReceiptView { fp: v, ..r }
        } else if k == "n"@ {
            ReceiptView { n: v, ..r }
        } else {
            r
        },
        None => r,
    }
}

/// The fields `parts` applied in order to `r`.
pub open spec fn qr_fields(r: ReceiptView, parts: Seq<Seq<char>>) -> ReceiptView
    decreases parts.len(),
{
    if parts.len() == 0 {
        r
    } else {
        qr_field(qr_fields(r, parts.drop_last()), parts.last())
    }
}

/// The receipt that the QR text `s` (`t=..&s=..&fn=..&i=..&fp=..&n=..`)
/// describes.
pub open spec fn qr_receipt(s: Seq<char>) -> ReceiptView {
    qr_fields(empty_receipt(), pieces(s, "&"@))
}

/// The key of a `key=value` part of the QR text; `None` for a part
/// without `=`.
pub open spec fn part_key(part: Seq<char>) -> Option<Seq<char>> {
    match split_once(part, '=') {
        Some((k, _)) => Some(k),
        None => None,
    }
}

/// The value of the last of `parts` with the key `k`.
pub open spec fn last_value(parts: Seq<Seq<char>>, k: Seq<char>) -> Option<Seq<char>>
    decreases parts.len(),
{
    if parts.len() == 0 {
        None
    } else {
        match split_once(parts.last(), '=') {
            Some((k2, v)) => if k2 == k {
                Some(v)
            } else {
                last_value(parts.drop_last(), k)
            },
            None => last_value(parts.drop_last(), k),
        }
    }
}

/// One of the keys that the QR text sets: `t`, `s`, `fn`, `i`, `fp`, `n`.
pub open spec fn is_qr_key(k: Seq<char>) -> bool {
    k == "t"@ || k == "s"@ || k == "fn"@ || k == "i"@ || k == "fp"@ || k == "n"@
}

/// The QR text `s` has a part with the key `k`.
pub open spec fn has_qr_key(s: Seq<char>, k: Seq<char>) -> bool {
    exists|j: int| 0 <= j < pieces(s, "&"@).len() && #[trigger] part_key(pieces(s, "&"@)[j]) == Some(k)
}

/// `r` with each field that `parts` set taken from the last part that sets
/// it.
pub open spec fn qr_by_last(r: ReceiptView, parts: Seq<Seq<char>>) -> ReceiptView {
    ReceiptView {
        date: match last_value(parts, "t"@) {
            Some(v) => v,
            None => r.date,
        },
        total: match last_value(parts, "s"@) {
            Some(v) => kopecks_or_zero(v),
            None => r.total,
        },
        fiscal_number: match last_value(parts, "fn"@) {
            Some(v) => v,
            None => r.fiscal_number,
        },
        i: match last_value(parts, "i"@) {
            Some(v) => v,
            None => r.i,
        },
        fp: match last_value(parts, "fp"@) {
            Some(v) => v,
            None => r.fp,
        },
        n: match last_value(parts, "n"@) {
            Some(v) => v,
            None => r.n,
        },
        ..r
    }
}

/// The keys of the QR text are six different texts.
proof fn lemma_qr_keys_distinct()
    ensures
        "t"@ != "s"@ && "t"@ != "fn"@ && "t"@ != "i"@ && "t"@ != "fp"@ && "t"@ != "n"@,
        "s"@ != "fn"@ && "s"@ != "i"@ && "s"@ != "fp"@ && "s"@ != "n"@,
        "fn"@ != "i"@ && "fn"@ != "fp"@ && "fn"@ != "n"@,
        "i"@ != "fp"@ && "i"@ != "n"@,
        "fp"@ != "n"@,
{
    reveal_strlit("t");
    reveal_strlit("s");
    reveal_strlit("fn");
    reveal_strlit("i");
    reveal_strlit("fp");
    reveal_strlit("n");
    assert("t"@[0] == 't' && "s"@[0] == 's' && "i"@[0] == 'i' && "n"@[0] == 'n');
    assert("fn"@[1] == 'n' && "fp"@[1] == 'p');
    assert("t"@.len() == 1 && "s"@.len() == 1 && "i"@.len() == 1 && "n"@.len() == 1);
    assert("fn"@.len() == 2 && "fp"@.len() == 2);
}

/// Applying the parts in order sets each field from the last part with its
/// key.
proof fn lemma_qr_fields_last(r: ReceiptView, parts: Seq<Seq<char>>)
    ensures
        qr_fields(r, parts) == qr_by_last(r, parts),
    decreases parts.len(),
{
    if parts.len() > 0 {
        let prev = parts.drop_last();
        lemma_qr_fields_last(r, prev);
        let q = qr_by_last(r, prev);
        assert(qr_fields(r, parts) == qr_field(q, parts.last()));
        match split_once(parts.last(), '=') {
            Some((k, v)) => {
                assert(last_value(parts, k) == Some(v));
                assert(forall|k3: Seq<char>| k3 != k ==> last_value(parts, k3) == last_value(prev, k3));
                lemma_qr_keys_distinct();
            },
            None => {
                assert(forall|k3: Seq<char>| last_value(parts, k3) == last_value(prev, k3));
            },
        }
    }
}

/// The last part of `a + b` with key `k` is that of `b`, or else that of
/// `a`.
proof fn lemma_last_value_join(a: Seq<Seq<char>>, b: Seq<Seq<char>>, k: Seq<char>)
    ensures
        last_value(a + b, k) == match last_value(b, k) {
            Some(v) => Some(v),
            None => last_value(a, k),
        },
    decreases b.len(),
{
    if b.len() == 0 {
        assert(a + b =~= a);
    } else {
        assert((a + b).drop_last() =~= a + b.drop_last());
        assert((a + b).last() == b.last());
        lemma_last_value_join(a, b.drop_last(), k);
    }
}

/// Parts without the key `k` give it no value.
proof fn lemma_last_value_absent(a: Seq<Seq<char>>, k: Seq<char>)
    requires
        forall|j: int| 0 <= j < a.len() ==> #[trigger] part_key(a[j]) != Some(k),
    ensures
        last_value(a, k) is None,
    decreases a.len(),
{
    if a.len() > 0 {
        assert(part_key(a[a.len() - 1]) != Some(k));
        assert forall|j: int| 0 <= j < a.drop_last().len() implies #[trigger] part_key(a.drop_last()[j]) != Some(k) by {
            assert(a.drop_last()[j] == a[j]);
        }
        lemma_last_value_absent(a.drop_last(), k);
    }
}

/// Where at most one of `a` and `b` has the key `k`, the order of their
/// parts does not change which value `k` gets.
proof fn lemma_last_value_swap(a: Seq<char>, b: Seq<char>, k: Seq<char>)
    requires
        !(has_qr_key(a, k) && has_qr_key(b, k)),
    ensures
        last_value(pieces(a, "&"@) + pieces(b, "&"@), k) == last_value(pieces(b, "&"@) + pieces(a, "&"@), k),
{
    let pa = pieces(a, "&"@);
    let pb = pieces(b, "&"@);
    lemma_last_value_join(pa, pb, k);
    lemma_last_value_join(pb, pa, k);
    if !has_qr_key(a, k) {
        lemma_last_value_absent(pa, k);
    } else {
        lemma_last_value_absent(pb, k);
    }
}

/// Parts with different keys may come in either order: where no key that
/// the QR text sets occurs in both `a` and `b`, `a&b` and `b&a` describe
/// the same receipt.
pub proof fn law_qr_order(a: Seq<char>, b: Seq<char>)
    requires
        forall|k: Seq<char>| #[trigger] is_qr_key(k) ==> !(has_qr_key(a, k) && has_qr_key(b, k)),
    ensures
        qr_receipt(a + "&"@ + b) == qr_receipt(b + "&"@ + a),
{
    reveal_strlit("&");
    lemma_pieces_join(a, b, "&"@);
    lemma_pieces_join(b, a, "&"@);
    let pa = pieces(a, "&"@);
    let pb = pieces(b, "&"@);
    lemma_qr_fields_last(empty_receipt(), pa + pb);
    lemma_qr_fields_last(empty_receipt(), pb + pa);
    assert(is_qr_key("t"@));
    assert(is_qr_key("s"@));
    assert(is_qr_key("fn"@));
    assert(is_qr_key("i"@));
    assert(is_qr_key("fp"@));
    assert(is_qr_key("n"@));
    lemma_last_value_swap(a, b, "t"@);
    lemma_last_value_swap(a, b, "s"@);
    lemma_last_value_swap(a, b, "fn"@);
    lemma_last_value_swap(a, b, "i"@);
    lemma_last_value_swap(a, b, "fp"@);
    lemma_last_value_swap(a, b, "n"@);
}

/// Reads the text of a receipt's QR code: the date (`t`), the total (`s`,
/// in roubles; 0 where it is no amount), the fiscal drive (`fn`), the
/// document number (`i`), the fiscal sign (`fp`) and the kind of operation
/// (`n`).  Other fields, and parts without `=`, are ignored; a later field
/// wins over an earlier one.
pub fn parse_qr(s: &str) -> (r: Receipt)
    ensures
        r@ == qr_receipt(s@),
{
    let text = chars_of(s);
    let parts = split_all(&text, &chars_of("&"));
    let mut r = Receipt::default();
    let key_t = chars_of("t");
    let key_s = chars_of("s");
    let key_fn = chars_of("fn");
    let key_i = chars_of("i");
    let key_fp = chars_of("fp");
    let key_n = chars_of("n");
    for j in 0..parts.len()
        invariant
            texts(parts@) == pieces(s@, "&"@),
            key_t@ == "t"@,
            key_s@ == "s"@,
            key_fn@ == "fn"@,
            key_i@ == "i"@,
            key_fp@ == "fp"@,
            key_n@ == "n"@,
            r@ == qr_fields(empty_receipt(), texts(parts@).take(j as int)),
    {
        assert(texts(parts@).take(j + 1).drop_last() =~= texts(parts@).take(j as int));
        assert(texts(parts@)[j as int] == parts@[j as int]@);
        match split_once_of(&parts[j], '=') {
            Some((k, v)) => {
                if same_chars(&k, &key_t) {
                    r.date = string_of(&v);
                } else if same_chars(&k, &key_s) {
                    r.total = match kopecks_of(&v) {
                        Some(x) => x,
                        None => 0,
                    };
                } else if same_chars(&k, &key_fn) {
                    r.fiscal_number = string_of(&v);
                } else if same_chars(&k, &key_i) {
                    r.i = string_of(&v);
                } else if same_chars(&k, &key_fp) {
                    r.fp = string_of(&v);
                } else if same_chars(&k, &key_n) {
                    r.n = string_of(&v);
                }
            },
            None => {},
        }
    }
    assert(texts(parts@).take(parts.len() as int) =~= texts(parts@));
    r
}

} // verus!

verus! {

// ---------------------------------------------------------------------
// The receipt page
// ---------------------------------------------------------------------

/// The text that follows `marker` and, in it, the piece after the `n`th
/// occurrence of `p`.
pub open spec fn nth_after(o: Option<Seq<char>>, p: Seq<char>, n: int) -> Option<Seq<char>> {
    match o {
        Some(x) => nth_piece(x, p, n),
        None => None,
    }
}

/// The item name: the text between `<b>` and `</b>` after its first space,
/// with HTML entities decoded; empty where there is none.
pub open spec fn item_name(f: Seq<char>) -> Seq<char> {
    match between(f, "&lt;b&gt;"@, "&lt;/b&gt;"@) {
        Some(x) => match split_once(x, ' ') {
            Some((_, rest)) => html_decoded(rest),
            None => Seq::empty(),
        },
        None => Seq::empty(),
    }
}

/// The bold part of the price block of an item.
pub open spec fn price_block(f: Seq<char>) -> Option<Seq<char>> {
    match nth_piece(f, "&lt;!-- Цена --&gt;"@, 1) {
        Some(x) => between(x, "&lt;b&gt;"@, "&lt;/b&gt;"@),
        None => None,
    }
}

/// The quantity: the first word after the first `<span>` of the price block.
pub open spec fn item_count(f: Seq<char>) -> Option<Seq<char>> {
    match nth_after(price_block(f), "&lt;span&gt;"@, 1) {
        Some(x) => first_word(x),
        None => None,
    }
}

/// The unit: before the `x` of the price block, after the first `</span>`,
/// what follows the last `<span>`, decoded; empty where that is an empty
/// comment or there is none.
pub open spec fn item_unit(f: Seq<char>) -> Seq<char> {
    match price_block(f) {
        Some(pb) => match nth_piece(first_piece(pb, "x"@), "&lt;/span&gt;"@, 1) {
            Some(x) => if last_piece(x, "&lt;span&gt;"@) != "&lt;!-- --&gt;"@ {
                html_decoded(last_piece(x, "&lt;span&gt;"@))
            } else {
                Seq::empty()
            },
            None => Seq::empty(),
        },
        None => Seq::empty(),
    }
}

/// The price of one unit: after the `x` of the price block, the amount in
/// the first `<span>`; 0 where there is none.
pub open spec fn item_per_item(f: Seq<char>) -> u64 {
    match nth_after(nth_after(price_block(f), "x"@, 1), "&lt;span&gt;"@, 1) {
        Some(z) => kopecks_or_zero(first_piece(z, "&lt;/span&gt;"@)),
        None => 0,
    }
}

/// The amount of a table cell: in the second `<span` of the block, after
/// `">`, up to `</span>`.
pub open spec fn cell_amount(block: Option<Seq<char>>) -> Option<u64> {
    match nth_after(nth_after(block, "&lt;span"@, 2), "&quot;&gt;"@, 1) {
        Some(z) => kopecks(first_piece(z, "&lt;/span&gt;"@)),
        None => None,
    }
}

/// The total of the item; 0 where there is none.
pub open spec fn item_total(f: Seq<char>) -> u64 {
    match cell_amount(
        between(f, "&lt;!-- Общая стоимость позиции --&gt;"@, "&lt;!-- /Общая стоимость позиции --&gt;"@),
    ) {
        Some(v) => v,
        None => 0,
    }
}

/// The tax of the item; 0 where there is none or where it equals the
/// item's total.
pub open spec fn item_tax(f: Seq<char>) -> u64 {
    match cell_amount(
        between(
            f,
            "&lt;!-- Сумма НДС за предмет расчета --&gt;"@,
            "&lt;!-- /Сумма НДС за предмет расчета --&gt;"@,
        ),
    ) {
        Some(v) => if v != item_total(f) {
            v
        } else {
            0
        },
        None => 0,
    }
}

/// The item that the fragment `f` of the page describes.
pub open spec fn page_item(f: Seq<char>) -> ItemView {
    ItemView {
        name: item_name(f),
        count: item_count(f),
        unit: item_unit(f),
        per_item: item_per_item(f),
        total: item_total(f),
        tax: item_tax(f),
    }
}

fn nth_after_of(o: Option<Vec<char>>, p: &Vec<char>, n: usize) -> (r: Option<Vec<char>>)
    ensures
        r matches Some(x) ==> nth_after(
            match o {
                Some(y) => Some(y@),
                None => None,
            },
            p@,
            n as int,
        ) == Some(x@),
        r is None ==> nth_after(
            match o {
                Some(y) => Some(y@),
                None => None,
            },
            p@,
            n as int,
        ) is None,
{
    match o {
        Some(x) => nth_piece_of(&x, p, n),
        None => None,
    }
}

fn cell_amount_of(block: Option<Vec<char>>) -> (r: Option<u64>)
    ensures
        r == cell_amount(
            match block {
                Some(y) => Some(y@),
                None => None,
            },
        ),
{
    let a = nth_after_of(block, &chars_of("&lt;span"), 2);
    match nth_after_of(a, &chars_of("&quot;&gt;"), 1) {
        Some(z) => kopecks_of(&first_piece_of(&z, &chars_of("&lt;/span&gt;"))),
        None => None,
    }
}

/// Reads the item that the fragment `f` of the page describes.
fn page_item_of(f: &Vec<char>) -> (r: Item)
    ensures
        r@ == page_item(f@),
{
    let b = chars_of("&lt;b&gt;");
    let eb = chars_of("&lt;/b&gt;");
    let span = chars_of("&lt;span&gt;");
    let espan = chars_of("&lt;/span&gt;");
    let x = chars_of("x");
    let mut item = Item::default();
    match between_of(f, &b, &eb) {
        Some(t) => match split_once_of(&t, ' ') {
            Some((_, rest)) => {
                item.name = decoded(&rest);
            },
            None => {},
        },
        None => {},
    }
    let pb = match nth_piece_of(f, &chars_of("&lt;!-- Цена --&gt;"), 1) {
        Some(t) => between_of(&t, &b, &eb),
        None => None,
    };
    match pb {
        Some(pb) => {
            match nth_piece_of(&pb, &span, 1) {
                Some(t) => match first_word_of(&t) {
                    Some(w) => {
                        item.count = Some(string_of(&w));
                    },
                    None => {},
                },
                None => {},
            }
            match nth_piece_of(&first_piece_of(&pb, &x), &espan, 1) {
                Some(t) => {
                    let u = last_piece_of(&t, &span);
                    if !same_chars(&u, &chars_of("&lt;!-- --&gt;")) {
                        item.unit = decoded(&u);
                    }
                },
                None => {},
            }
            let after_x = nth_piece_of(&pb, &x, 1);
            match nth_after_of(after_x, &span, 1) {
                Some(z) => {
                    item.per_item = match kopecks_of(&first_piece_of(&z, &espan)) {
                        Some(v) => v,
                        None => 0,
                    };
                },
                None => {},
            }
        },
        None => {},
    }
    let total_block = between_of(
        f,
        &chars_of("&lt;!-- Общая стоимость позиции --&gt;"),
        &chars_of("&lt;!-- /Общая стоимость позиции --&gt;"),
    );
    match cell_amount_of(total_block) {
        Some(v) => {
            item.total = v;
        },
        None => {},
    }
    let tax_block = between_of(
        f,
        &chars_of("&lt;!-- Сумма НДС за предмет расчета --&gt;"),
        &chars_of("&lt;!-- /Сумма НДС за предмет расчета --&gt;"),
    );
    match cell_amount_of(tax_block) {
        Some(v) => {
            if item.total != v {
                item.tax = v;
            }
        },
        None => {},
    }
    item
}

} // verus!

verus! {

/// The marker that opens the receipt part of the operator's page.
pub open spec fn page_marker() -> Seq<char> {
    "fido_cheque_container\">"@
}

/// The receipt part of the page: after the marker, up to the next `<`,
/// trimmed.
pub open spec fn page_body(data: Seq<char>) -> Option<Seq<char>> {
    match nth_piece(data, page_marker(), 1) {
        Some(d) => Some(trim(first_piece(d, "<"@))),
        None => None,
    }
}

/// `r` with the seller's name and taxpayer number that `d` gives.
pub open spec fn with_company(r: ReceiptView, d: Seq<char>) -> ReceiptView {
    match between(d, "&lt;!-- Название --&gt;"@, "&lt;!-- /Название --&gt;"@) {
        Some(c) => ReceiptView {
            company_name: match between(c, "&lt;b&gt;"@, "&lt;/b&gt;"@) {
                Some(x) => html_decoded(x),
                None => r.company_name,
            },
            company_inn: match between(c, "&gt;ИНН"@, "&lt;"@) {
                Some(x) => trim(x),
                None => r.company_inn,
            },
            ..r
        },
        None => r,
    }
}

/// The items of the list `p`: one per fragment, but for the text after the
/// last fragment marker.
pub open spec fn page_items(p: Seq<char>) -> Seq<ItemView> {
    pieces(p, "&lt;!-- Fragment - field --&gt;"@).drop_last().map_values(|f: Seq<char>| page_item(f))
}

/// `r` with the items that `d` lists appended.
pub open spec fn with_items(r: ReceiptView, d: Seq<char>) -> ReceiptView {
    match between(d, "&lt;!-- Предоплата --&gt;"@, "&lt;!-- /Предоплата --&gt;"@) {
        Some(p) => ReceiptView { items: r.items + page_items(p), ..r },
        None => r,
    }
}

/// `r` with the total that `d` gives.
pub open spec fn with_total(r: ReceiptView, d: Seq<char>) -> ReceiptView {
    match between(d, "&lt;!-- ИТОГ --&gt;"@, "&lt;!-- /ИТОГ --&gt;"@) {
        Some(t) => match between(t, "&lt;span&gt;"@, "&lt;/span&gt;"@) {
            Some(x) => match kopecks(x) {
                Some(v) => ReceiptView { total: v, ..r },
                None => r,
            },
            None => r,
        },
        None => r,
    }
}

/// The cells of the totals table: what follows each `block">`, up to
/// `</span>`.
pub open spec fn table_cells(b: Seq<char>) -> Seq<Seq<char>> {
    pieces(b, "block&quot;&gt;"@).drop_first().map_values(|x: Seq<char>| first_piece(x, "&lt;/span&gt;"@))
}

/// A row that names a VAT rate.
pub open spec fn is_vat_row(k: Seq<char>) -> bool {
    k != "НАЛИЧНЫМИ"@ && k != "БЕЗНАЛИЧНЫМИ"@ && starts_with(k, "СУММА НДС ЧЕКА ПО СТАВКЕ"@)
}

/// The tax that the row (`k`, `v`) adds.
pub open spec fn row_tax(k: Seq<char>, v: Seq<char>) -> int {
    match kopecks(v) {
        Some(x) => if is_vat_row(k) {
            x as int
        } else {
            0
        },
        None => 0,
    }
}

/// The tax that the first `m` rows of `cells` add.
pub open spec fn tax_sum(cells: Seq<Seq<char>>, m: int) -> int
    decreases m,
{
    if m <= 0 {
        0
    } else {
        tax_sum(cells, m - 1) + row_tax(cells[2 * m - 2], cells[2 * m - 1])
    }
}

/// `r` after the row (`k`, `v`) of the totals table: cash, card, or one
/// more VAT amount.
pub open spec fn table_row(r: ReceiptView, k: Seq<char>, v: Seq<char>) -> ReceiptView {
    match kopecks(v) {
        Some(x) => if k == "НАЛИЧНЫМИ"@ {
            ReceiptView { total_cash: x, ..r }
        } else if k == "БЕЗНАЛИЧНЫМИ"@ {
            ReceiptView { total_card: x, ..r }
        } else if is_vat_row(k) {
            ReceiptView { total_tax: (r.total_tax + x) as u64, ..r }
        } else {
            r
        },
        None => r,
    }
}

/// `r` after the first `m` rows of `cells`.
pub open spec fn table_rows(r: ReceiptView, cells: Seq<Seq<char>>, m: int) -> ReceiptView
    decreases m,
{
    if m <= 0 {
        r
    } else {
        table_row(table_rows(r, cells, m - 1), cells[2 * m - 2], cells[2 * m - 1])
    }
}

/// The amount of the last of the first `m` rows of `cells` that is labelled
/// `key` and holds an amount.
pub open spec fn row_amount(cells: Seq<Seq<char>>, m: int, key: Seq<char>) -> Option<u64>
    decreases m,
{
    if m <= 0 {
        None
    } else if cells[2 * m - 2] == key && kopecks(cells[2 * m - 1]) is Some {
        kopecks(cells[2 * m - 1])
    } else {
        row_amount(cells, m - 1, key)
    }
}

/// Reading the rows of the totals table sets the cash amount from the last
/// `НАЛИЧНЫМИ` row and the card amount from the last `БЕЗНАЛИЧНЫМИ` row
/// (each with an amount); without such a row it stays as it was.
pub proof fn law_table_cash_card(r: ReceiptView, cells: Seq<Seq<char>>, m: int)
    ensures
        table_rows(r, cells, m).total_cash == match row_amount(cells, m, "НАЛИЧНЫМИ"@) {
            Some(x) => x,
            None => r.total_cash,
        },
        table_rows(r, cells, m).total_card == match row_amount(cells, m, "БЕЗНАЛИЧНЫМИ"@) {
            Some(x) => x,
            None => r.total_card,
        },
    decreases m,
{
    reveal_strlit("НАЛИЧНЫМИ");
    reveal_strlit("БЕЗНАЛИЧНЫМИ");
    assert("НАЛИЧНЫМИ"@.len() != "БЕЗНАЛИЧНЫМИ"@.len());
    if m > 0 {
        law_table_cash_card(r, cells, m - 1);
    }
}

/// The amounts of the first `m` rows of `cells` that name a VAT rate (their
/// label begins with `СУММА НДС ЧЕКА ПО СТАВКЕ`) and hold an amount.
pub open spec fn vat_sum(cells: Seq<Seq<char>>, m: int) -> int
    decreases m,
{
    if m <= 0 {
        0
    } else {
        vat_sum(cells, m - 1) + match kopecks(cells[2 * m - 1]) {
            Some(x) => if starts_with(cells[2 * m - 2], "СУММА НДС ЧЕКА ПО СТАВКЕ"@) {
                x as int
            } else {
                0
            },
            None => 0,
        }
    }
}

/// Reading the rows of the totals table adds the amount of every VAT row
/// to the VAT, and only those.
pub proof fn law_table_tax(r: ReceiptView, cells: Seq<Seq<char>>, m: int)
    requires
        r.total_tax + vat_sum(cells, m) <= u64::MAX,
    ensures
        table_rows(r, cells, m).total_tax == r.total_tax + vat_sum(cells, m),
    decreases m,
{
    if m > 0 {
        reveal_strlit("НАЛИЧНЫМИ");
        reveal_strlit("БЕЗНАЛИЧНЫМИ");
        reveal_strlit("СУММА НДС ЧЕКА ПО СТАВКЕ");
        let pre = "СУММА НДС ЧЕКА ПО СТАВКЕ"@;
        assert(!starts_with("НАЛИЧНЫМИ"@, pre)) by {
            if starts_with("НАЛИЧНЫМИ"@, pre) {
                assert("НАЛИЧНЫМИ"@.take(pre.len() as int)[0] == pre[0]);
            }
        }
        assert(!starts_with("БЕЗНАЛИЧНЫМИ"@, pre)) by {
            if starts_with("БЕЗНАЛИЧНЫМИ"@, pre) {
                assert("БЕЗНАЛИЧНЫМИ"@.take(pre.len() as int)[0] == pre[0]);
            }
        }
        assert(vat_sum(cells, m - 1) <= vat_sum(cells, m));
        law_table_tax(r, cells, m - 1);
    }
}

/// Reading the operator's page takes the cash and card amounts from the
/// last `НАЛИЧНЫМИ` and `БЕЗНАЛИЧНЫМИ` rows of its totals table; where the
/// page has no such row, the amount is left as it was.
pub proof fn law_page_cash_card(data: Seq<char>, r: ReceiptView)
    ensures
        parsed_page(data, r) matches Some(v) ==> match page_body(data) {
            Some(d) => match page_table(d) {
                Some(cells) => {
                    &&& v.total_cash == match row_amount(cells, cells.len() as int / 2, "НАЛИЧНЫМИ"@) {
                        Some(x) => x,
                        None => r.total_cash,
                    }
                    &&& v.total_card == match row_amount(cells, cells.len() as int / 2, "БЕЗНАЛИЧНЫМИ"@) {
                        Some(x) => x,
                        None => r.total_card,
                    }
                },
                None => v.total_cash == r.total_cash && v.total_card == r.total_card,
            },
            None => false,
        },
{
    if let Some(d) = page_body(data) {
        let r3 = with_total(with_items(with_company(r, d), d), d);
        assert(r3.total_cash == r.total_cash && r3.total_card == r.total_card);
        if let Some(cells) = page_table(d) {
            law_table_cash_card(r3, cells, cells.len() as int / 2);
        }
    }
}

/// The totals table of `d`, as its cells.
pub open spec fn page_table(d: Seq<char>) -> Option<Seq<Seq<char>>> {
    match between(d, "&lt;!-- ИТОГ - Тело таблицы --&gt;"@, "&lt;!-- /ИТОГ - Тело таблицы --&gt;"@) {
        Some(b) => Some(table_cells(b)),
        None => None,
    }
}

/// `r` after the rows of the totals table of `d` (a cell left without a
/// partner at the end is ignored).
pub open spec fn with_table(r: ReceiptView, d: Seq<char>) -> ReceiptView {
    match page_table(d) {
        Some(cells) => table_rows(r, cells, cells.len() as int / 2),
        None => r,
    }
}

/// The VAT that reading the page `data` adds to the receipt.
pub open spec fn added_tax(data: Seq<char>) -> int {
    match page_body(data) {
        Some(d) => match page_table(d) {
            Some(cells) => tax_sum(cells, cells.len() as int / 2),
            None => 0,
        },
        None => 0,
    }
}

/// What reading the page `data` makes of `r`; `None` where the page holds
/// no receipt.
pub open spec fn parsed_page(data: Seq<char>, r: ReceiptView) -> Option<ReceiptView> {
    match page_body(data) {
        Some(d) => Some(with_table(with_total(with_items(with_company(r, d), d), d), d)),
        None => None,
    }
}

proof fn lemma_tax_sum_grows(cells: Seq<Seq<char>>, m: int, n: int)
    requires
        0 <= m <= n,
    ensures
        0 <= tax_sum(cells, m) <= tax_sum(cells, n),
    decreases n,
{
    if m < n {
        lemma_tax_sum_grows(cells, m, n - 1);
    } else if m > 0 {
        lemma_tax_sum_grows(cells, m - 1, m - 1);
    }
}

fn table_cells_of(b: &Vec<char>) -> (r: Vec<Vec<char>>)
    ensures
        texts(r@) == table_cells(b@),
{
    let all = split_all(b, &chars_of("block&quot;&gt;"));
    let espan = chars_of("&lt;/span&gt;");
    let ghost src = texts(all@).drop_first();
    let mut r: Vec<Vec<char>> = Vec::new();
    let mut j: usize = 1;
    while j < all.len()
        invariant
            texts(all@) == pieces(b@, "block&quot;&gt;"@),
            src == texts(all@).drop_first(),
            espan@ == "&lt;/span&gt;"@,
            1 <= j <= all.len() || all.len() == 0,
            j >= 1,
            texts(r@) == src.take(j - 1).map_values(|x: Seq<char>| first_piece(x, "&lt;/span&gt;"@)),
        decreases all.len() - j,
    {
        let cell = first_piece_of(&all[j], &espan);
        let ghost before = r@;
        r.push(cell);
        assert(src[j - 1] == all@[j as int]@);
        assert(texts(r@) =~= texts(before).push(first_piece(src[j - 1], "&lt;/span&gt;"@)));
        assert(src.take(j as int).map_values(|x: Seq<char>| first_piece(x, "&lt;/span&gt;"@))
            =~= src.take(j - 1).map_values(|x: Seq<char>| first_piece(x, "&lt;/span&gt;"@)).push(
            first_piece(src[j - 1], "&lt;/span&gt;"@),
        ));
        assert(texts(r@) =~= src.take(j as int).map_values(
            |x: Seq<char>| first_piece(x, "&lt;/span&gt;"@),
        ));
        j = j + 1;
    }
    proof {
        lemma_pieces_nonempty(b@, "block&quot;&gt;"@, 0);
        assert(src.take(j - 1) =~= src);
    }
    r
}

fn is_vat_row_of(k: &Vec<char>) -> (r: bool)
    ensures
        r == is_vat_row(k@),
{
    !same_chars(k, &chars_of("НАЛИЧНЫМИ")) && !same_chars(k, &chars_of("БЕЗНАЛИЧНЫМИ"))
        && starts_with_of(k, &chars_of("СУММА НДС ЧЕКА ПО СТАВКЕ"))
}

/// Reads the totals table of the receipt page `d`.
fn page_table_of(d: &Vec<char>) -> (r: Option<Vec<Vec<char>>>)
    ensures
        r matches Some(c) ==> page_table(d@) == Some(texts(c@)),
        r is None ==> page_table(d@) is None,
{
    match between_of(
        d,
        &chars_of("&lt;!-- ИТОГ - Тело таблицы --&gt;"),
        &chars_of("&lt;!-- /ИТОГ - Тело таблицы --&gt;"),
    ) {
        Some(b) => Some(table_cells_of(&b)),
        None => None,
    }
}

/// Reads the receipt part of the page `data`.
fn page_body_of(data: &Vec<char>) -> (r: Option<Vec<char>>)
    ensures
        r matches Some(d) ==> page_body(data@) == Some(d@),
        r is None ==> page_body(data@) is None,
{
    match nth_piece_of(data, &chars_of("fido_cheque_container\">"), 1) {
        Some(d) => Some(trim_of(&first_piece_of(&d, &chars_of("<")))),
        None => None,
    }
}

/// Whether reading the page `data` into a receipt that already holds the
/// VAT `total_tax` keeps the VAT a value of `u64`.
pub fn tax_fits(data: &str, total_tax: u64) -> (r: bool)
    ensures
        r == (total_tax + added_tax(data@) <= u64::MAX),
{
    let text = chars_of(data);
    let d = match page_body_of(&text) {
        Some(d) => d,
        None => {
            return true;
        },
    };
    let cells = match page_table_of(&d) {
        Some(c) => c,
        None => {
            return true;
        },
    };
    let ghost cs = texts(cells@);
    let npairs = cells.len() / 2;
    assert(cs.len() == cells.len());
    assert(added_tax(data@) == tax_sum(cs, npairs as int));
    let mut acc: u128 = total_tax as u128;
    let mut m: usize = 0;
    while m < npairs
        invariant
            cs == texts(cells@),
            npairs == cells.len() / 2,
            m <= npairs,
            acc == total_tax + tax_sum(cs, m as int),
            acc <= u64::MAX,
            added_tax(data@) == tax_sum(cs, npairs as int),
        decreases npairs - m,
    {
        let k = &cells[2 * m];
        let v = &cells[2 * m + 1];
        assert(cs[2 * m as int] == k@);
        assert(cs[2 * m + 1] == v@);
        match kopecks_of(v) {
            Some(x) => {
                if is_vat_row_of(k) {
                    acc = acc + x as u128;
                }
            },
            None => {},
        }
        m = m + 1;
        assert(acc == total_tax + tax_sum(cs, m as int));
        if acc > u64::MAX as u128 {
            proof {
                lemma_tax_sum_grows(cs, m as int, npairs as int);
            }
            return false;
        }
    }
    true
}

/// Reads the receipt page `data` of the fiscal data operator into `ret`:
/// the seller, the items (appended to those `ret` holds), the total, and
/// the cash, card and VAT amounts of the totals table (the VAT is added to
/// what `ret` holds).  `None`, with `ret` unchanged, where the page holds
/// no receipt.
pub fn parse(data: &str, ret: &mut Receipt) -> (r: Option<()>)
    requires
        old(ret).total_tax + added_tax(data@) <= u64::MAX,
    ensures
        match parsed_page(data@, old(ret)@) {
            Some(v) => r is Some && final(ret)@ == v,
            None => r is None && *final(ret) == *old(ret),
        },
{
    let text = chars_of(data);
    let d = match page_body_of(&text) {
        Some(d) => d,
        None => {
            return None;
        },
    };
    let ghost r0 = ret@;
    let b = chars_of("&lt;b&gt;");
    let eb = chars_of("&lt;/b&gt;");
    let span = chars_of("&lt;span&gt;");
    let espan = chars_of("&lt;/span&gt;");
    // the seller
    match between_of(&d, &chars_of("&lt;!-- Название --&gt;"), &chars_of("&lt;!-- /Название --&gt;")) {
        Some(c) => {
            match between_of(&c, &b, &eb) {
                Some(x) => {
                    ret.company.name = decoded(&x);
                },
                None => {},
            }
            match between_of(&c, &chars_of("&gt;ИНН"), &chars_of("&lt;")) {
                Some(x) => {
                    ret.company.inn = string_of(&trim_of(&x));
                },
                None => {},
            }
        },
        None => {},
    }
    let ghost r1 = ret@;
    assert(r1 == with_company(r0, d@));
    // the items
    match between_of(&d, &chars_of("&lt;!-- Предоплата --&gt;"), &chars_of("&lt;!-- /Предоплата --&gt;")) {
        Some(p) => {
            let frags = split_all(&p, &chars_of("&lt;!-- Fragment - field --&gt;"));
            let ghost fs = texts(frags@);
            let ghost start = item_views(ret.items@);
            for j in 0..frags.len()
                invariant
                    fs == texts(frags@),
                    item_views(ret.items@) == start + fs.take(j as int).map_values(
                        |f: Seq<char>| page_item(f),
                    ),
                    ret@ == (ReceiptView { items: item_views(ret.items@), ..r1 }),
            {
                let item = page_item_of(&frags[j]);
                let ghost before = ret.items@;
                ret.items.push(item);
                assert(fs[j as int] == frags@[j as int]@);
                assert(item_views(ret.items@) =~= item_views(before).push(page_item(fs[j as int])));
                assert(fs.take(j + 1).map_values(|f: Seq<char>| page_item(f)) =~= fs.take(
                    j as int,
                ).map_values(|f: Seq<char>| page_item(f)).push(page_item(fs[j as int])));
            }
            proof {
                lemma_pieces_nonempty(p@, "&lt;!-- Fragment - field --&gt;"@, 0);
                assert(fs.take(frags.len() as int) =~= fs);
            }
            let ghost full = ret.items@;
            ret.items.pop();
            assert(item_views(ret.items@) =~= item_views(full).drop_last());
            assert(fs.map_values(|f: Seq<char>| page_item(f)).drop_last() =~= fs.drop_last().map_values(
                |f: Seq<char>| page_item(f),
            ));
            assert((start + fs.map_values(|f: Seq<char>| page_item(f))).drop_last() =~= start
                + fs.map_values(|f: Seq<char>| page_item(f)).drop_last());
        },
        None => {},
    }
    let ghost r2 = ret@;
    assert(r2 == with_items(r1, d@));
    // the total
    match between_of(&d, &chars_of("&lt;!-- ИТОГ --&gt;"), &chars_of("&lt;!-- /ИТОГ --&gt;")) {
        Some(t) => match between_of(&t, &span, &espan) {
            Some(x) => match kopecks_of(&x) {
                Some(v) => {
                    ret.total = v;
                },
                None => {},
            },
            None => {},
        },
        None => {},
    }
    let ghost r3 = ret@;
    assert(r3 == with_total(r2, d@));
    // the totals table
    match page_table_of(&d) {
        Some(cells) => {
            let ghost cs = texts(cells@);
            let npairs = cells.len() / 2;
            proof {
                lemma_tax_sum_grows(cs, 0, npairs as int);
            }
            let mut m: usize = 0;
            while m < npairs
                invariant
                    cs == texts(cells@),
                    npairs == cells.len() / 2,
                    m <= npairs,
                    ret@ == table_rows(r3, cs, m as int),
                    ret.total_tax == r3.total_tax + tax_sum(cs, m as int),
                    r3.total_tax + tax_sum(cs, npairs as int) <= u64::MAX,
                decreases npairs - m,
            {
                let k = &cells[2 * m];
                let v = &cells[2 * m + 1];
                assert(cs[2 * m as int] == k@);
                assert(cs[2 * m + 1] == v@);
                proof {
                    lemma_tax_sum_grows(cs, m + 1, npairs as int);
                }
                match kopecks_of(v) {
                    Some(x) => {
                        if same_chars(k, &chars_of("НАЛИЧНЫМИ")) {
                            ret.total_cash = x;
                        } else if same_chars(k, &chars_of("БЕЗНАЛИЧНЫМИ")) {
                            ret.total_card = x;
                        } else if starts_with_of(k, &chars_of("СУММА НДС ЧЕКА ПО СТАВКЕ")) {
                            ret.total_tax = ret.total_tax + x;
                        }
                    },
                    None => {},
                }
                m = m + 1;
            }
        },
        None => {},
    }
    Some(())
}

} // verus!

verus! {

proof fn lemma_table_rows_keep(r: ReceiptView, cells: Seq<Seq<char>>, m: int)
    ensures
        table_rows(r, cells, m).fiscal_number == r.fiscal_number,
        table_rows(r, cells, m).fp == r.fp,
        table_rows(r, cells, m).i == r.i,
        table_rows(r, cells, m).n == r.n,
        table_rows(r, cells, m).id == r.id,
        table_rows(r, cells, m).date == r.date,
        table_rows(r, cells, m).items == r.items,
    decreases m,
{
    if m > 0 {
        lemma_table_rows_keep(r, cells, m - 1);
    }
}

/// The marker holds no `<`, and `>` only as its last character.
proof fn lemma_page_marker()
    ensures
        page_marker().len() == 23,
        page_marker()[22] == '>',
        forall|t: int| 0 <= t < 22 ==> #[trigger] page_marker()[t] != '>',
        forall|t: int| 0 <= t < 23 ==> #[trigger] page_marker()[t] != '<',
{
    reveal_strlit("fido_cheque_container\">");
}

/// The piece of `m + c` after the marker `m` (which occurs at 0) is `c` up
/// to its first occurrence of `m`.
proof fn lemma_piece_after_leading(m: Seq<char>, c: Seq<char>)
    requires
        m.len() > 0,
    ensures
        nth_piece(m + c, m, 1) == Some(c.subrange(0, piece_end(c, m, 0))),
{
    let d = m + c;
    let st = m.len() as int;
    assert(d.subrange(0, st) =~= m);
    lemma_find_first(d, m, 0, 0);
    lemma_pieces_nonempty(d, m, st);
    lemma_piece_at(d, m, st);
    lemma_find_from_bounds(c, m, 0);
    lemma_find_from_bounds(d, m, st);
    assert forall|k: int| st <= k && matches_at(d, m, k) implies matches_at(c, m, k - st) by {
        assert(d.subrange(k, k + m.len()) =~= c.subrange(k - st, k - st + m.len()));
    }
    match find_from(c, m, 0) {
        Some(j0) => {
            assert(d.subrange(st + j0, st + j0 + m.len()) =~= c.subrange(j0, j0 + m.len()));
            lemma_find_first(d, m, st, st + j0);
            assert(d.subrange(st, st + j0) =~= c.subrange(0, j0));
        },
        None => {
            lemma_find_none(d, m, st);
            assert(d.subrange(st, d.len() as int) =~= c.subrange(0, c.len() as int));
        },
    }
}

/// `first_piece(c + "<" + t, "<")` and `first_piece(c, "<")` are `c` where
/// `c` holds no `<`.
proof fn lemma_first_tag(c: Seq<char>, t: Seq<char>)
    requires
        forall|i: int| 0 <= i < c.len() ==> c[i] != '<',
    ensures
        first_piece(c + "<"@ + t, "<"@) == c,
        first_piece(c, "<"@) == c,
{
    reveal_strlit("<");
    let lt = "<"@;
    let x = c + lt + t;
    assert forall|k: int| matches_at(c, lt, k) implies false by {
        lemma_match_chars(c, lt, k);
        assert(c[k] == lt[0]);
    }
    lemma_find_none(c, lt, 0);
    lemma_piece_at(c, lt, 0);
    assert(c.subrange(0, c.len() as int) =~= c);
    assert(x.subrange(c.len() as int, c.len() + 1int) =~= lt);
    assert forall|k: int| 0 <= k < c.len() && matches_at(x, lt, k) implies false by {
        lemma_match_chars(x, lt, k);
        assert(x[k] == lt[0]);
        assert(x[k] == c[k]);
    }
    lemma_find_first(x, lt, 0, c.len() as int);
    lemma_piece_at(x, lt, 0);
    assert(x.subrange(0, c.len() as int) =~= c);
}

/// Reading the operator's page takes nothing from past the first `<` that
/// follows the marker `fido_cheque_container">`: with `p` free of the
/// marker and `c` free of `<`, the page `p + marker + c + "<" + s` reads as
/// `marker + c` does, whatever `s` holds.
pub proof fn law_page_reads_up_to_first_tag(p: Seq<char>, c: Seq<char>, s: Seq<char>, r: ReceiptView)
    requires
        forall|i: int| !matches_at(p, page_marker(), i),
        forall|i: int| 0 <= i < c.len() ==> c[i] != '<',
    ensures
        parsed_page(p + page_marker() + c + "<"@ + s, r) == parsed_page(page_marker() + c, r),
{
    reveal_strlit("<");
    lemma_page_marker();
    let m = page_marker();
    let lt = "<"@;
    let data = p + m + c + lt + s;
    let pl = p.len() as int;
    let st = pl + m.len();
    let rest = c + lt + s;
    assert(data =~= p + m + rest);
    // the marker first occurs right after `p`
    assert(data.subrange(pl, st) =~= m);
    assert forall|k: int| 0 <= k < pl implies !matches_at(data, m, k) by {
        if matches_at(data, m, k) {
            if k + m.len() <= pl {
                assert(data.subrange(k, k + m.len()) =~= p.subrange(k, k + m.len()));
                assert(matches_at(p, m, k));
            } else {
                lemma_match_chars(data, m, k);
                assert(data[k + 22] == m[22]);
                assert(data[k + 22] == m[k + 22 - pl]);
            }
        }
    }
    lemma_find_first(data, m, 0, pl);
    assert(data.subrange(0, pl) =~= p);
    lemma_pieces_nonempty(data, m, st);
    lemma_piece_at(data, m, st);
    assert(nth_piece(data, m, 1) == Some(data.subrange(st, piece_end(data, m, st))));
    // after the marker, the page goes on as `rest` does
    assert forall|k: int| st <= k && matches_at(data, m, k) implies matches_at(rest, m, k - st) by {
        assert(data.subrange(k, k + m.len()) =~= rest.subrange(k - st, k - st + m.len()));
    }
    lemma_piece_after_leading(m, c);
    lemma_find_from_bounds(c, m, 0);
    lemma_find_from_bounds(data, m, st);
    match find_from(c, m, 0) {
        Some(j0) => {
            assert(data.subrange(st + j0, st + j0 + m.len()) =~= c.subrange(j0, j0 + m.len()));
            assert forall|k: int| st <= k < st + j0 implies !matches_at(data, m, k) by {
                if matches_at(data, m, k) {
                    assert(data.subrange(k, k + m.len()) =~= c.subrange(k - st, k - st + m.len()));
                    assert(matches_at(c, m, k - st));
                }
            }
            lemma_find_first(data, m, st, st + j0);
            assert(data.subrange(st, st + j0) =~= c.subrange(0, j0));
        },
        None => {
            let cl = c.len() as int;
            assert forall|k: int| st <= k <= st + cl implies !matches_at(data, m, k) by {
                if matches_at(data, m, k) {
                    if k + m.len() <= st + cl {
                        assert(data.subrange(k, k + m.len()) =~= c.subrange(k - st, k - st + m.len()));
                        assert(matches_at(c, m, k - st));
                    } else {
                        lemma_match_chars(data, m, k);
                        assert(data[st + cl] == m[st + cl - k]);
                        assert(data[st + cl] == '<');
                    }
                }
            }
            let e = piece_end(data, m, st);
            assert(e > st + cl);
            let piece = data.subrange(st, e);
            assert(piece =~= c + lt + piece.subrange(cl + 1, piece.len() as int));
            lemma_first_tag(c, piece.subrange(cl + 1, piece.len() as int));
            assert(c.subrange(0, piece_end(c, m, 0)) =~= c);
        },
    }
}

/// Reading the operator's page leaves what identifies the receipt (fiscal
/// drive, fiscal sign, document number, kind, identifier and date) as it
/// was, and keeps the items the receipt already had in front of the new
/// ones.
pub proof fn law_page_keeps_identity(data: Seq<char>, r: ReceiptView)
    ensures
        parsed_page(data, r) matches Some(v) ==> {
            &&& v.fiscal_number == r.fiscal_number
            &&& v.fp == r.fp
            &&& v.i == r.i
            &&& v.n == r.n
            &&& v.id == r.id
            &&& v.date == r.date
            &&& r.items.len() <= v.items.len()
            &&& v.items.take(r.items.len() as int) == r.items
        },
{
    if let Some(d) = page_body(data) {
        let r3 = with_total(with_items(with_company(r, d), d), d);
        match page_table(d) {
            Some(cells) => {
                lemma_table_rows_keep(r3, cells, cells.len() as int / 2);
            },
            None => {},
        }
        let v = with_table(r3, d);
        assert(v.items.take(r.items.len() as int) =~= r.items);
    }
}

} // verus!
