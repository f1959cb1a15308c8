//! Transactions: a set of balance changes that sums to zero, when it was
//! recorded, what it was for, and the balances it was recorded against.

use vstd::prelude::*;

use crate::iso8601::{format_rfc3339, now_utc, rfc3339_text, SecondsFormat, UtcTime};
use crate::ledger::{amount, applied, can_apply, credited, fits_i64, paid, Balances};

verus! {

/// What a transaction was for.
#[derive(Clone, Debug)]
pub enum TransactionMeta {
    /// Paying for a receipt: its fiscal number, and for each person the
    /// positions of the receipt's items that they share.
    Receipt { fiscal_number: String, paid: Vec<(String, Vec<usize>)> },
    /// A payment with a free-form comment.
    Comment(String),
}

/// Balance changes recorded together.
#[derive(Clone, Debug)]
pub struct Transaction {
    /// What each person gains (or, when negative, owes).
    pub balance_changes: Balances,
    /// When the transaction was recorded.
    pub date: UtcTime,
    /// What it was for.
    pub meta: Option<TransactionMeta>,
    /// The balances just before it was recorded.
    pub prev_state: Option<Balances>,
}

/// `src` can pay `cnt` to `dst` in `m` with every intermediate amount a
/// value of `i64`.
pub open spec fn can_pay(m: Map<Seq<char>, int>, src: Seq<char>, dst: Seq<char>, cnt: int) -> bool {
    &&& fits_i64(amount(m, src) - cnt)
    &&& fits_i64(amount(credited(m, src, -cnt), dst) + cnt)
}

impl Transaction {
    /// A transaction without changes, dated now.
    pub fn new(meta: Option<TransactionMeta>) -> (r: Transaction)
        ensures
            r.balance_changes.wf(),
            r.balance_changes@ == Map::<Seq<char>, int>::empty(),
            r.balance_changes.total() == 0,
            r.meta == meta,
            r.prev_state is None,
            rfc3339_text(r.date.secs, r.date.nanos, true) is Some,
    {
        Transaction {
            balance_changes: Balances::new(),
            date: now_utc(),
            prev_state: None,
            meta,
        }
    }

    /// Whether `src` can pay `cnt` to `dst` without an amount leaving `i64`.
    pub fn can_pay(&self, src: &str, dst: &str, cnt: i64) -> (r: bool)
        requires
            self.balance_changes.wf(),
        ensures
            r == can_pay(self.balance_changes@, src@, dst@, cnt as int),
    {
        let s = src.to_owned();
        let d = dst.to_owned();
        let have_src = self.balance_changes.get(&s) as i128;
        let after_src = have_src - cnt as i128;
        if after_src < i64::MIN as i128 || after_src > i64::MAX as i128 {
            return false;
        }
        let have_dst: i128 = if s == d {
            after_src
        } else {
            self.balance_changes.get(&d) as i128
        };
        let after_dst = have_dst + cnt as i128;
        i64::MIN as i128 <= after_dst && after_dst <= i64::MAX as i128
    }

    /// `src` pays `cnt` to `dst`: the amount of `src` goes down by `cnt`
    /// and that of `dst` up by `cnt`.
    pub fn pay(&mut self, src: &str, dst: &str, cnt: i64)
        requires
            old(self).balance_changes.wf(),
            can_pay(old(self).balance_changes@, src@, dst@, cnt as int),
        ensures
            final(self).balance_changes.wf(),
            final(self).balance_changes@ == paid(old(self).balance_changes@, src@, dst@, cnt as int),
            final(self).balance_changes.total() == old(self).balance_changes.total(),
            final(self).date == old(self).date,
            final(self).meta == old(self).meta,
            final(self).prev_state == old(self).prev_state,
    {
        let s = src.to_owned();
        let d = dst.to_owned();
        self.balance_changes.subtract(&s, cnt);
        self.balance_changes.add(&d, cnt);
    }

    /// Drops the changes of 0.
    pub fn finalize(&mut self)
        requires
            old(self).balance_changes.wf(),
        ensures
            final(self).balance_changes.wf(),
            final(self).balance_changes@ == crate::ledger::nonzero(old(self).balance_changes@),
            final(self).balance_changes.total() == old(self).balance_changes.total(),
            final(self).date == old(self).date,
            final(self).meta == old(self).meta,
            final(self).prev_state == old(self).prev_state,
    {
        self.balance_changes.retain_nonzero();
    }

    /// A transaction without changes and without a purpose changes nothing
    /// and is not recorded.
    pub fn is_noop(&self) -> (r: bool)
        requires
            self.balance_changes.wf(),
        ensures
            r == (self.balance_changes@.dom().len() == 0 && self.meta is None),
    {
        self.balance_changes.is_empty() && self.meta.is_none()
    }

    /// Dates the transaction now and notes the balances it is recorded
    /// against.
    pub fn stamp(&mut self, balance: &Balances)
        requires
            balance.wf(),
        ensures
            final(self).prev_state matches Some(p) && p.wf() && p@ == balance@,
            final(self).balance_changes == old(self).balance_changes,
            final(self).meta == old(self).meta,
            rfc3339_text(final(self).date.secs, final(self).date.nanos, true) is Some,
    {
        self.date = now_utc();
        self.prev_state = Some(balance.snapshot());
    }
}

/// The name of the file in which a transaction dated `date` is stored:
/// the date in RFC 3339 to the second, `_`, the unique `id`, and `.json`.
pub fn record_file_name(date: &UtcTime, id: &str) -> (r: Option<String>)
    ensures
        match rfc3339_text(date.secs, date.nanos, true) {
            Some(stamp) => r matches Some(x) && x@ == stamp + "_"@ + id@ + ".json"@,
            None => r is None,
        },
{
    match format_rfc3339(date, SecondsFormat::Secs) {
        Some(stamp) => {
            let mut name = stamp;
            name.append("_");
            name.append(id);
            name.append(".json");
            Some(name)
        },
        None => None,
    }
}

/// The balances that replaying the changes `chs` in order, from none,
/// gives.
pub open spec fn replayed(chs: Seq<Map<Seq<char>, int>>) -> Map<Seq<char>, int>
    decreases chs.len(),
{
    if chs.len() == 0 {
        Map::empty()
    } else {
        applied(replayed(chs.drop_last()), chs.last())
    }
}

/// Replaying `chs` in order keeps every amount a value of `i64`.
pub open spec fn replay_fits(chs: Seq<Map<Seq<char>, int>>) -> bool {
    forall|i: int| 0 <= i < chs.len() ==> can_apply(replayed(chs.take(i)), #[trigger] chs[i])
}

/// The balance changes of each transaction.
pub open spec fn changes_of(trs: Seq<Transaction>) -> Seq<Map<Seq<char>, int>> {
    trs.map_values(|t: Transaction| t.balance_changes@)
}

/// The fiscal number of a receipt payment.
pub open spec fn receipt_of(t: Transaction) -> Option<Seq<char>> {
    match t.meta {
        Some(TransactionMeta::Receipt { fiscal_number, .. }) => Some(fiscal_number@),
        _ => None,
    }
}

/// The texts of `v`, as a set.
pub open spec fn text_set(v: Seq<String>) -> Set<Seq<char>> {
    Set::new(|k: Seq<char>| exists|j: int| 0 <= j < v.len() && v[j]@ == k)
}

/// The fiscal numbers of the receipts that transactions in `trs` paid for.
pub open spec fn receipt_numbers(trs: Seq<Transaction>) -> Set<Seq<char>> {
    Set::new(|k: Seq<char>| exists|i: int| 0 <= i < trs.len() && receipt_of(trs[i]) == Some(k))
}

/// Whether `list` holds `s`.
pub fn contains_text(list: &Vec<String>, s: &String) -> (r: bool)
    ensures
        r == exists|i: int| 0 <= i < list.len() && list[i]@ == s@,
{
    for i in 0..list.len()
        invariant
            forall|j: int| 0 <= j < i ==> list[j]@ != s@,
    {
        if list[i] == *s {
            return true;
        }
    }
    false
}

/// The balances that the stored transactions `trs` add up to, and the
/// fiscal numbers of the receipts among them (each once); `None` where an
/// amount would leave `i64` on the way.
pub fn replay(trs: &Vec<Transaction>) -> (r: Option<(Balances, Vec<String>)>)
    requires
        forall|i: int| 0 <= i < trs.len() ==> (#[trigger] trs[i]).balance_changes.wf(),
    ensures
        r is Some <==> replay_fits(changes_of(trs@)),
        r matches Some((b, receipts)) ==> {
            &&& b.wf()
            &&& b@ == replayed(changes_of(trs@))
            &&& text_set(receipts@) == receipt_numbers(trs@)
            &&& forall|a: int, c: int| 0 <= a < c < receipts.len() ==> receipts[a]@ != receipts[c]@
        },
{
    let ghost chs = changes_of(trs@);
    let mut balance = Balances::new();
    let mut receipts: Vec<String> = Vec::new();
    proof {
        assert(text_set(receipts@) =~= receipt_numbers(trs@.take(0)));
    }
    for i in 0..trs.len()
        invariant
            forall|j: int| 0 <= j < trs.len() ==> (#[trigger] trs[j]).balance_changes.wf(),
            chs == changes_of(trs@),
            balance.wf(),
            balance@ == replayed(chs.take(i as int)),
            forall|j: int| 0 <= j < i ==> can_apply(replayed(chs.take(j)), #[trigger] chs[j]),
            text_set(receipts@) == receipt_numbers(trs@.take(i as int)),
            forall|a: int, c: int| 0 <= a < c < receipts.len() ==> receipts[a]@ != receipts[c]@,
    {
        let t = &trs[i];
        assert(chs[i as int] == t.balance_changes@);
        assert(chs.take(i + 1).drop_last() =~= chs.take(i as int));
        if !balance.can_apply(&t.balance_changes) {
            proof {
                assert(!replay_fits(chs));
            }
            return None;
        }
        balance.apply(&t.balance_changes);
        let ghost before = receipts@;
        match &t.meta {
            Some(TransactionMeta::Receipt { fiscal_number, .. }) => {
                if !contains_text(&receipts, fiscal_number) {
                    receipts.push(fiscal_number.clone());
                }
            },
            _ => {},
        }
        proof {
            let done = trs@.take(i as int);
            let next = trs@.take(i + 1);
            assert forall|k: Seq<char>| #[trigger] text_set(receipts@).contains(k) <==> receipt_numbers(
                next,
            ).contains(k) by {
                if receipt_numbers(next).contains(k) {
                    let m = choose|m: int| 0 <= m < next.len() && receipt_of(next[m]) == Some(k);
                    if m < i {
                        assert(done[m] == next[m]);
                        assert(receipt_numbers(done).contains(k));
                        assert(text_set(before).contains(k));
                        let j = choose|j: int| 0 <= j < before.len() && before[j]@ == k;
                        assert(receipts[j] == before[j]);
                    } else {
                        if text_set(before).contains(k) {
                            let j = choose|j: int| 0 <= j < before.len() && before[j]@ == k;
                            assert(receipts[j] == before[j]);
                        } else {
                            assert(receipts[receipts.len() - 1]@ == k);
                        }
                    }
                }
                if text_set(receipts@).contains(k) {
                    let j = choose|j: int| 0 <= j < receipts.len() && receipts[j]@ == k;
                    if j < before.len() {
                        assert(receipts[j] == before[j]);
                        assert(text_set(before).contains(k));
                        assert(receipt_numbers(done).contains(k));
                        let m = choose|m: int| 0 <= m < done.len() && receipt_of(done[m]) == Some(k);
                        assert(next[m] == done[m]);
                    } else {
                        assert(next[i as int] == trs[i as int]);
                        assert(receipt_of(trs[i as int]) == Some(k));
                    }
                }
            }
            assert(text_set(receipts@) =~= receipt_numbers(next));
        }
    }
    proof {
        assert(chs.take(trs.len() as int) =~= chs);
        assert(trs@.take(trs.len() as int) =~= trs@);
    }
    Some((balance, receipts))
}

} // verus!

verus! {

/// The sum of what the changes `chs` give `k`.
pub open spec fn summed_amount(chs: Seq<Map<Seq<char>, int>>, k: Seq<char>) -> int
    decreases chs.len(),
{
    if chs.len() == 0 {
        0
    } else {
        summed_amount(chs.drop_last(), k) + amount(chs.last(), k)
    }
}

/// Replaying transactions gives everybody the sum of their changes, so the
/// balances do not depend on the order in which the transactions are read.
pub proof fn law_replayed_amounts(chs: Seq<Map<Seq<char>, int>>, k: Seq<char>)
    ensures
        amount(replayed(chs), k) == summed_amount(chs, k),
    decreases chs.len(),
{
    if chs.len() > 0 {
        law_replayed_amounts(chs.drop_last(), k);
    }
}

/// Replaying two transactions in either order gives the same balances.
pub proof fn law_replay_swap(chs: Seq<Map<Seq<char>, int>>, a: Map<Seq<char>, int>, b: Map<Seq<char>, int>)
    ensures
        replayed(chs.push(a).push(b)) == replayed(chs.push(b).push(a)),
{
    assert(chs.push(a).push(b).drop_last() =~= chs.push(a));
    assert(chs.push(b).push(a).drop_last() =~= chs.push(b));
    assert(chs.push(a).drop_last() =~= chs);
    assert(chs.push(b).drop_last() =~= chs);
    assert(replayed(chs.push(a)) == applied(replayed(chs), a));
    assert(replayed(chs.push(b)) == applied(replayed(chs), b));
    assert(replayed(chs.push(a).push(b)) == applied(applied(replayed(chs), a), b));
    assert(replayed(chs.push(b).push(a)) == applied(applied(replayed(chs), b), a));
    crate::ledger::law_apply_commutes(replayed(chs), a, b);
}

} // verus!
