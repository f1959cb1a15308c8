//! Fetching a receipt from the fiscal data operator: the decisions between
//! the requests (read the cache, load the search form, read the captcha,
//! search, store the page and the receipt).  Each event that the caller
//! reports after doing an action gives the next action.

use vstd::prelude::*;

use crate::payment::{form_get, form_value, form_view};
use crate::receipt::{added_tax, parse, parsed_page, tax_fits, Receipt};
use crate::text::{between, between_of, chars_of, ends_with, ends_with_of, string_of};

verus! {

/// The receipt identifier in the query of the search's answer: the value
/// of its first `id` parameter, or the empty text where it has none.
pub fn search_result_id(query: &Vec<(String, String)>) -> (r: String)
    ensures
        r@ == match form_value(form_view(query@), "id"@) {
            Some(v) => v,
            None => Seq::<char>::empty(),
        },
{
    match form_get(query, "id") {
        Some(v) => v,
        None => String::new(),
    }
}

/// Where a fetch stands.
#[derive(Clone, Copy, Debug, PartialEq, Eq, Structural)]
pub enum FetchStage {
    Start,
    ReadingCache,
    LoadingForm,
    ReadingCaptcha,
    Searching,
    SavingPage,
    SavingReceipt,
    Done,
}

/// What the caller is to do next.
#[derive(Clone, Debug)]
pub enum FetchAction {
    /// Read and decode the stored receipt `name` in the `parsed` directory.
    ReadCache { name: String },
    /// Load the search form at `url`.
    GetForm { url: String },
    /// Load the captcha image at `url` and read its text.
    GetCaptcha { url: String },
    /// Post the form `fields` to the search address, with `referer`.
    PostSearch { fields: Vec<(String, String)>, referer: String },
    /// Store the page `text` as `name` in the `raw` directory.
    SavePage { name: String, text: String },
    /// Store the receipt as `name` in the `parsed` directory.
    SaveReceipt { name: String },
    /// The fetch is over; `found` tells whether the receipt was found.
    Finish { found: bool },
    /// The VAT amounts of the page add up past what a `u64` holds.
    Overflow,
    /// The event does not fit the stage; nothing changed.
    Ignored,
}

/// A fetch in progress.
pub struct Fetch {
    pub stage: FetchStage,
    /// The receipt being completed.
    pub rec: Receipt,
    /// The receipt page, between finding it and reading it.
    pub page: String,
    /// The search form's CSRF token.
    pub csrf: Option<String>,
}

/// The operator's site.
pub open spec fn site() -> Seq<char> {
    "https://lk.platformaofd.ru"@
}

/// The search address for a receipt.
pub open spec fn search_url(fiscal_number: Seq<char>, fp: Seq<char>, i: Seq<char>) -> Seq<char> {
    "https://lk.platformaofd.ru/web/noauth/cheque/search?fn="@ + fiscal_number + "&fp="@ + fp + "&i="@ + i
}

/// The address of the captcha image in the search form.
pub open spec fn captcha_path(form: Seq<char>) -> Option<Seq<char>> {
    between(form, "class=\"form-captcha-image\" src=\""@, "\""@)
}

/// The CSRF token of the search form.
pub open spec fn csrf_token(form: Seq<char>) -> Option<Seq<char>> {
    between(form, "type=\"hidden\" name=\"_csrf\" value=\""@, "\""@)
}

/// The ASCII digits of `s`, in order.
pub open spec fn digits_only(s: Seq<char>) -> Seq<char>
    decreases s.len(),
{
    if s.len() == 0 {
        s
    } else if '0' <= s.last() <= '9' {
        digits_only(s.drop_last()).push(s.last())
    } else {
        digits_only(s.drop_last())
    }
}

/// Reading digits keeps a text made of ASCII digits `0`-`9` as it is.
pub proof fn law_digits_kept(s: Seq<char>)
    requires
        forall|i: int| 0 <= i < s.len() ==> '0' <= #[trigger] s[i] <= '9',
    ensures
        digits_only(s) == s,
    decreases s.len(),
{
    if s.len() > 0 {
        law_digits_kept(s.drop_last());
        assert(s.drop_last().push(s.last()) =~= s);
    }
}

/// Reading digits drops every character that is not an ASCII digit, and
/// only those: what it gives holds only digits, and a character after a
/// text is kept exactly when it is one of `0`-`9`.
pub proof fn law_digits_filter(s: Seq<char>, c: char)
    ensures
        forall|i: int| 0 <= i < digits_only(s).len() ==> '0' <= #[trigger] digits_only(s)[i] <= '9',
        digits_only(s).len() <= s.len(),
        ('0' <= c <= '9') ==> digits_only(s.push(c)) == digits_only(s).push(c),
        !('0' <= c <= '9') ==> digits_only(s.push(c)) == digits_only(s),
    decreases s.len(),
{
    assert(s.push(c).drop_last() =~= s);
    if s.len() > 0 {
        law_digits_filter(s.drop_last(), s.last());
    }
}

/// Reading the digits of two texts one after the other gives the digits of
/// the first followed by those of the second.
pub proof fn law_digits_concat(s: Seq<char>, t: Seq<char>)
    ensures
        digits_only(s + t) == digits_only(s) + digits_only(t),
    decreases t.len(),
{
    if t.len() == 0 {
        assert(s + t =~= s);
        assert(digits_only(s) + digits_only(t) =~= digits_only(s));
    } else {
        law_digits_concat(s, t.drop_last());
        assert((s + t).drop_last() =~= s + t.drop_last());
        assert((s + t).last() == t.last());
        if '0' <= t.last() <= '9' {
            assert(digits_only(s) + digits_only(t) =~= (digits_only(s) + digits_only(t.drop_last())).push(t.last()));
        }
    }
}

/// The file name under which the receipt with fiscal drive
/// `fiscal_number` is stored.
pub open spec fn receipt_file(fiscal_number: Seq<char>) -> Seq<char> {
    fiscal_number + ".json"@
}

fn search_url_of(rec: &Receipt) -> (r: String)
    ensures
        r@ == search_url(rec.fiscal_number@, rec.fp@, rec.i@),
{
    let mut u = String::from_str("https://lk.platformaofd.ru/web/noauth/cheque/search?fn=");
    u.append(rec.fiscal_number.as_str());
    u.append("&fp=");
    u.append(rec.fp.as_str());
    u.append("&i=");
    u.append(rec.i.as_str());
    u
}

/// `digits_only` of `s`.
pub fn digits_of(s: &str) -> (r: String)
    ensures
        r@ == digits_only(s@),
{
    let cs = chars_of(s);
    let mut out: Vec<char> = Vec::new();
    for i in 0..cs.len()
        invariant
            out@ == digits_only(cs@.take(i as int)),
    {
        assert(cs@.take(i + 1).drop_last() =~= cs@.take(i as int));
        if '0' <= cs[i] && cs[i] <= '9' {
            out.push(cs[i]);
        }
    }
    assert(cs@.take(cs.len() as int) =~= cs@);
    string_of(&out)
}

/// The file name under which a receipt is stored.
pub fn receipt_file_of(fiscal_number: &String) -> (r: String)
    ensures
        r@ == receipt_file(fiscal_number@),
{
    let mut n = fiscal_number.clone();
    n.append(".json");
    n
}

/// The form fields of the search request.
pub open spec fn search_fields(rec: crate::receipt::ReceiptView, captcha: Seq<char>, csrf: Seq<char>) -> Seq<
    (Seq<char>, Seq<char>),
> {
    seq![
        ("fn"@, rec.fiscal_number),
        ("fp"@, rec.fp),
        ("i"@, rec.i),
        ("captcha"@, captcha),
        ("_csrf"@, csrf),
    ]
}

impl Fetch {
    /// A fetch of the receipt `rec`, not yet started.
    pub fn new(rec: Receipt) -> (r: Fetch)
        ensures
            r.stage == FetchStage::Start,
            r.rec == rec,
    {
        Fetch { stage: FetchStage::Start, rec, page: String::new(), csrf: None }
    }

    /// Starts: read the stored receipt where the fiscal drive is known,
    /// else load the search form.
    pub fn begin(&mut self) -> (r: FetchAction)
        ensures
            old(self).stage != FetchStage::Start ==> r is Ignored && *final(self) == *old(self),
            old(self).stage == FetchStage::Start ==> final(self).rec == old(self).rec && if old(
                self,
            ).rec.fiscal_number@.len() > 0 {
                final(self).stage == FetchStage::ReadingCache && (r matches FetchAction::ReadCache {
                    name,
                } && name@ == receipt_file(old(self).rec.fiscal_number@))
            } else {
                final(self).stage == FetchStage::LoadingForm && (r matches FetchAction::GetForm { url }
                    && url@ == search_url(old(self).rec.fiscal_number@, old(self).rec.fp@, old(self).rec.i@))
            },
    {
        if self.stage != FetchStage::Start {
            return FetchAction::Ignored;
        }
        if !self.rec.fiscal_number.as_str().is_empty() {
            self.stage = FetchStage::ReadingCache;
            FetchAction::ReadCache { name: receipt_file_of(&self.rec.fiscal_number) }
        } else {
            self.stage = FetchStage::LoadingForm;
            FetchAction::GetForm { url: search_url_of(&self.rec) }
        }
    }

    /// The stored receipt, where it could be read and decoded, ends the
    /// fetch; otherwise load the search form.
    pub fn on_cache(&mut self, cached: Option<Receipt>) -> (r: FetchAction)
        ensures
            old(self).stage != FetchStage::ReadingCache ==> r is Ignored && *final(self) == *old(self),
            old(self).stage == FetchStage::ReadingCache ==> match cached {
                Some(c) => final(self).stage == FetchStage::Done && final(self).rec == c && r
                    == (FetchAction::Finish { found: true }),
                None => final(self).stage == FetchStage::LoadingForm && final(self).rec == old(
                    self,
                ).rec && (r matches FetchAction::GetForm { url } && url@ == search_url(
                    old(self).rec.fiscal_number@,
                    old(self).rec.fp@,
                    old(self).rec.i@,
                )),
            },
    {
        if self.stage != FetchStage::ReadingCache {
            return FetchAction::Ignored;
        }
        match cached {
            Some(c) => {
                self.rec = c;
                self.stage = FetchStage::Done;
                FetchAction::Finish { found: true }
            },
            None => {
                self.stage = FetchStage::LoadingForm;
                FetchAction::GetForm { url: search_url_of(&self.rec) }
            },
        }
    }

    /// The search form: load its captcha, or give up where it has none.
    pub fn on_form(&mut self, form: &str) -> (r: FetchAction)
        ensures
            old(self).stage != FetchStage::LoadingForm ==> r is Ignored && *final(self) == *old(self),
            old(self).stage == FetchStage::LoadingForm ==> final(self).rec == old(self).rec && match captcha_path(
                form@,
            ) {
                Some(p) => final(self).stage == FetchStage::ReadingCaptcha && (r matches FetchAction::GetCaptcha {
                    url,
                } && url@ == site() + p) && match csrf_token(form@) {
                    Some(t) => final(self).csrf matches Some(c) && c@ == t,
                    None => final(self).csrf is None,
                },
                None => final(self).stage == FetchStage::Done && r == (FetchAction::Finish { found: false }),
            },
    {
        if self.stage != FetchStage::LoadingForm {
            return FetchAction::Ignored;
        }
        let f = chars_of(form);
        let quote = chars_of("\"");
        match between_of(&f, &chars_of("class=\"form-captcha-image\" src=\""), &quote) {
            Some(p) => {
                self.csrf = match between_of(&f, &chars_of("type=\"hidden\" name=\"_csrf\" value=\""), &quote) {
                    Some(t) => Some(string_of(&t)),
                    None => None,
                };
                self.stage = FetchStage::ReadingCaptcha;
                let mut url = String::from_str("https://lk.platformaofd.ru");
                let ps = string_of(&p);
                url.append(ps.as_str());
                FetchAction::GetCaptcha { url }
            },
            None => {
                self.stage = FetchStage::Done;
                FetchAction::Finish { found: false }
            },
        }
    }

    /// The text read from the captcha: search with its digits, or give up
    /// where the form had no CSRF token.
    pub fn on_captcha(&mut self, text: &str) -> (r: FetchAction)
        ensures
            old(self).stage != FetchStage::ReadingCaptcha ==> r is Ignored && *final(self) == *old(self),
            old(self).stage == FetchStage::ReadingCaptcha ==> final(self).rec == old(self).rec && match old(
                self,
            ).csrf {
                Some(c) => final(self).stage == FetchStage::Searching && (r matches FetchAction::PostSearch {
                    fields,
                    referer,
                } && crate::payment::form_view(fields@) == search_fields(old(self).rec@, digits_only(text@), c@)
                    && referer@ == search_url(old(self).rec.fiscal_number@, old(self).rec.fp@, old(self).rec.i@)),
                None => final(self).stage == FetchStage::Done && r == (FetchAction::Finish { found: false }),
            },
    {
        if self.stage != FetchStage::ReadingCaptcha {
            return FetchAction::Ignored;
        }
        let digits = digits_of(text);
        match &self.csrf {
            Some(c) => {
                let mut fields: Vec<(String, String)> = Vec::new();
                fields.push((String::from_str("fn"), self.rec.fiscal_number.clone()));
                fields.push((String::from_str("fp"), self.rec.fp.clone()));
                fields.push((String::from_str("i"), self.rec.i.clone()));
                fields.push((String::from_str("captcha"), digits));
                fields.push((String::from_str("_csrf"), c.clone()));
                let referer = search_url_of(&self.rec);
                self.stage = FetchStage::Searching;
                assert(crate::payment::form_view(fields@) =~= search_fields(self.rec@, digits_only(text@), c@));
                FetchAction::PostSearch { fields, referer }
            },
            None => {
                self.stage = FetchStage::Done;
                FetchAction::Finish { found: false }
            },
        }
    }

    /// The answer to the search, at the address with path `path` and query
    /// parameter `id`: where the path ends in `/id` the receipt was found,
    /// and its page is to be stored.
    pub fn on_search(&mut self, path: &str, id: &str, text: String) -> (r: FetchAction)
        ensures
            old(self).stage != FetchStage::Searching ==> r is Ignored && *final(self) == *old(self),
            old(self).stage == FetchStage::Searching ==> if ends_with(path@, "/id"@) {
                &&& final(self).stage == FetchStage::SavingPage
                &&& final(self).rec@ == (crate::receipt::ReceiptView { id: id@, ..old(self).rec@ })
                &&& final(self).page@ == text@
                &&& r matches FetchAction::SavePage { name, text: t } && name@ == id@ + ".html"@ && t@
                    == text@
            } else {
                final(self).stage == FetchStage::Done && final(self).rec == old(self).rec && r == (
                FetchAction::Finish { found: false })
            },
    {
        if self.stage != FetchStage::Searching {
            return FetchAction::Ignored;
        }
        if !ends_with_of(&chars_of(path), &chars_of("/id")) {
            self.stage = FetchStage::Done;
            return FetchAction::Finish { found: false };
        }
        self.rec.id = id.to_owned();
        let mut name = id.to_owned();
        name.append(".html");
        let page = text.clone();
        self.page = text;
        self.stage = FetchStage::SavingPage;
        FetchAction::SavePage { name, text: page }
    }

    /// A store is done (or failed, which does not matter): after the page,
    /// read it into the receipt and store the receipt where its fiscal
    /// drive is known; after the receipt, the fetch is over.
    pub fn on_saved(&mut self) -> (r: FetchAction)
        ensures
            old(self).stage != FetchStage::SavingPage && old(self).stage != FetchStage::SavingReceipt
                ==> r is Ignored && *final(self) == *old(self),
            old(self).stage == FetchStage::SavingReceipt ==> final(self).stage == FetchStage::Done
                && final(self).rec == old(self).rec && r == (FetchAction::Finish { found: true }),
            old(self).stage == FetchStage::SavingPage ==> if old(self).rec.total_tax + added_tax(old(self).page@) > u64::MAX {
                r is Overflow && final(self).rec == old(self).rec
            } else {
                &&& (match parsed_page(old(self).page@, old(self).rec@) {
                    Some(v) => final(self).rec@ == v,
                    None => final(self).rec == old(self).rec,
                })
                &&& if final(self).rec.fiscal_number@.len() > 0 {
                    final(self).stage == FetchStage::SavingReceipt && (r matches FetchAction::SaveReceipt {
                        name,
                    } && name@ == receipt_file(final(self).rec.fiscal_number@))
                } else {
                    final(self).stage == FetchStage::Done && r == (FetchAction::Finish { found: true })
                }
            },
    {
        if self.stage == FetchStage::SavingReceipt {
            self.stage = FetchStage::Done;
            return FetchAction::Finish { found: true };
        }
        if self.stage != FetchStage::SavingPage {
            return FetchAction::Ignored;
        }
        if !tax_fits(self.page.as_str(), self.rec.total_tax) {
            return FetchAction::Overflow;
        }
        let _ = parse(self.page.as_str(), &mut self.rec);
        if !self.rec.fiscal_number.as_str().is_empty() {
            self.stage = FetchStage::SavingReceipt;
            FetchAction::SaveReceipt { name: receipt_file_of(&self.rec.fiscal_number) }
        } else {
            self.stage = FetchStage::Done;
            FetchAction::Finish { found: true }
        }
    }
}

} // verus!

verus! {

/// `s` without `/`, `.` and `\`.
pub open spec fn without_path_chars(s: Seq<char>) -> Seq<char>
    decreases s.len(),
{
    if s.len() == 0 {
        s
    } else if s.last() == '/' || s.last() == '.' || s.last() == '\\' {
        without_path_chars(s.drop_last())
    } else {
        without_path_chars(s.drop_last()).push(s.last())
    }
}

/// The file name of the stored receipt that a submitted form names:
/// the fiscal drive without `/`, `.` and `\` (so that it stays in its
/// directory), and `.json`.
pub fn submitted_receipt_file(fiscal_number: &str) -> (r: String)
    ensures
        r@ == without_path_chars(fiscal_number@) + ".json"@,
{
    let cs = chars_of(fiscal_number);
    let mut out: Vec<char> = Vec::new();
    for i in 0..cs.len()
        invariant
            out@ == without_path_chars(cs@.take(i as int)),
    {
        assert(cs@.take(i + 1).drop_last() =~= cs@.take(i as int));
        if cs[i] != '/' && cs[i] != '.' && cs[i] != '\\' {
            out.push(cs[i]);
        }
    }
    assert(cs@.take(cs.len() as int) =~= cs@);
    let mut name = string_of(&out);
    name.append(".json");
    name
}

} // verus!
