//! Per-person amounts of money in kopecks: the running balances and the
//! changes that a transaction makes to them.  A person without an entry
//! has the amount 0.

use vstd::prelude::*;

verus! {

// ---------------------------------------------------------------------
// The model: maps from names to amounts
// ---------------------------------------------------------------------

/// The amount that `m` gives `k`: 0 where `m` has no entry for it.
pub open spec fn amount(m: Map<Seq<char>, int>, k: Seq<char>) -> int {
    if m.dom().contains(k) {
        m[k]
    } else {
        0
    }
}

/// `m` after adding `delta` to the amount of `k`
/// (`*m.entry(k).or_default() += delta`).
pub open spec fn credited(m: Map<Seq<char>, int>, k: Seq<char>, delta: int) -> Map<Seq<char>, int> {
    m.insert(k, amount(m, k) + delta)
}

/// `m` after `src` pays `cnt` to `dst`.
pub open spec fn paid(m: Map<Seq<char>, int>, src: Seq<char>, dst: Seq<char>, cnt: int) -> Map<
    Seq<char>,
    int,
> {
    credited(credited(m, src, -cnt), dst, cnt)
}

/// The entries of `m` whose amount is not 0 (`m.retain(|_, v| *v != 0)`).
pub open spec fn nonzero(m: Map<Seq<char>, int>) -> Map<Seq<char>, int> {
    Map::new(|k: Seq<char>| m.dom().contains(k) && m[k] != 0, |k: Seq<char>| m[k])
}

/// The amounts of `m` plus those of `ch`, keeping only the entries that
/// are not 0.
pub open spec fn applied(m: Map<Seq<char>, int>, ch: Map<Seq<char>, int>) -> Map<Seq<char>, int> {
    Map::new(
        |k: Seq<char>| amount(m, k) + amount(ch, k) != 0,
        |k: Seq<char>| amount(m, k) + amount(ch, k),
    )
}

/// `x` is a value of `i64`.
pub open spec fn fits_i64(x: int) -> bool {
    i64::MIN <= x <= i64::MAX
}

/// Every amount of `m` plus the matching amount of `ch` is a value of `i64`.
pub open spec fn can_apply(m: Map<Seq<char>, int>, ch: Map<Seq<char>, int>) -> bool {
    forall|k: Seq<char>| ch.dom().contains(k) ==> fits_i64(#[trigger] amount(m, k) + ch[k])
}

// ---------------------------------------------------------------------
// The representation: a list of (name, amount) with distinct names
// ---------------------------------------------------------------------

spec fn pairs(s: Seq<(String, i64)>) -> Seq<(Seq<char>, i64)> {
    s.map_values(|e: (String, i64)| (e.0@, e.1))
}

spec fn distinct_keys(s: Seq<(Seq<char>, i64)>) -> bool {
    forall|i: int, j: int|
        0 <= i < s.len() && 0 <= j < s.len() && i != j ==> #[trigger] s[i].0 != #[trigger] s[j].0
}

spec fn model(s: Seq<(Seq<char>, i64)>) -> Map<Seq<char>, int>
    decreases s.len(),
{
    if s.len() == 0 {
        Map::empty()
    } else {
        model(s.drop_last()).insert(s.last().0, s.last().1 as int)
    }
}

spec fn sum(s: Seq<(Seq<char>, i64)>) -> int
    decreases s.len(),
{
    if s.len() == 0 {
        0
    } else {
        sum(s.drop_last()) + s.last().1
    }
}

spec fn keep_nonzero(s: Seq<(Seq<char>, i64)>) -> Seq<(Seq<char>, i64)>
    decreases s.len(),
{
    if s.len() == 0 {
        s
    } else if s.last().1 == 0 {
        keep_nonzero(s.drop_last())
    } else {
        keep_nonzero(s.drop_last()).push(s.last())
    }
}

proof fn lemma_distinct_drop_last(s: Seq<(Seq<char>, i64)>)
    requires
        distinct_keys(s),
        s.len() > 0,
    ensures
        distinct_keys(s.drop_last()),
{
    assert forall|i: int, j: int|
        0 <= i < s.drop_last().len() && 0 <= j < s.drop_last().len() && i != j implies #[trigger] s.drop_last()[i].0
        != #[trigger] s.drop_last()[j].0 by {
        assert(s.drop_last()[i] == s[i]);
        assert(s.drop_last()[j] == s[j]);
    }
}

/// The model holds exactly the listed names, each with its listed amount.
proof fn lemma_model(s: Seq<(Seq<char>, i64)>)
    requires
        distinct_keys(s),
    ensures
        forall|j: int|
            0 <= j < s.len() ==> #[trigger] model(s).dom().contains(s[j].0) && model(s)[s[j].0] == s[j].1,
        forall|k: Seq<char>|
            #[trigger] model(s).dom().contains(k) ==> exists|j: int| 0 <= j < s.len() && s[j].0 == k,
    decreases s.len(),
{
    if s.len() > 0 {
        let d = s.drop_last();
        lemma_distinct_drop_last(s);
        lemma_model(d);
        assert(model(s) == model(d).insert(s.last().0, s.last().1 as int));
        assert forall|j: int| 0 <= j < s.len() implies #[trigger] model(s).dom().contains(s[j].0)
            && model(s)[s[j].0] == s[j].1 by {
            if j < s.len() - 1 {
                assert(d[j] == s[j]);
                assert(s[j].0 != s[s.len() - 1].0);
                assert(model(d).dom().contains(d[j].0));
            }
        }
        assert forall|k: Seq<char>| #[trigger] model(s).dom().contains(k) implies exists|j: int|
            0 <= j < s.len() && s[j].0 == k by {
            if k == s.last().0 {
                assert(s[s.len() - 1].0 == k);
            } else {
                assert(model(d).dom().contains(k));
                let j = choose|j: int| 0 <= j < d.len() && d[j].0 == k;
                assert(s[j] == d[j]);
            }
        }
    }
}

/// A name that is not listed has no entry in the model.
proof fn lemma_model_absent(s: Seq<(Seq<char>, i64)>, k: Seq<char>)
    requires
        distinct_keys(s),
        forall|j: int| 0 <= j < s.len() ==> s[j].0 != k,
    ensures
        !model(s).dom().contains(k),
{
    lemma_model(s);
}

proof fn lemma_sum_update(s: Seq<(Seq<char>, i64)>, i: int, x: (Seq<char>, i64))
    requires
        0 <= i < s.len(),
    ensures
        sum(s.update(i, x)) == sum(s) - s[i].1 + x.1,
    decreases s.len(),
{
    let u = s.update(i, x);
    if i == s.len() - 1 {
        assert(u.drop_last() =~= s.drop_last());
    } else {
        assert(u.drop_last() =~= s.drop_last().update(i, x));
        lemma_sum_update(s.drop_last(), i, x);
    }
}

proof fn lemma_model_update(s: Seq<(Seq<char>, i64)>, i: int, v: i64)
    requires
        distinct_keys(s),
        0 <= i < s.len(),
    ensures
        distinct_keys(s.update(i, (s[i].0, v))),
        model(s.update(i, (s[i].0, v))) =~= model(s).insert(s[i].0, v as int),
{
    let u = s.update(i, (s[i].0, v));
    assert(distinct_keys(u)) by {
        assert forall|a: int, b: int|
            0 <= a < u.len() && 0 <= b < u.len() && a != b implies #[trigger] u[a].0
            != #[trigger] u[b].0 by {
            assert(u[a].0 == s[a].0);
            assert(u[b].0 == s[b].0);
        }
    }
    lemma_model(s);
    lemma_model(u);
    let m = model(s).insert(s[i].0, v as int);
    assert forall|k: Seq<char>| #[trigger] model(u).dom().contains(k) <==> m.dom().contains(k) by {
        if model(u).dom().contains(k) {
            let j = choose|j: int| 0 <= j < u.len() && u[j].0 == k;
            assert(u[j].0 == s[j].0);
        }
        if m.dom().contains(k) && k != s[i].0 {
            let j = choose|j: int| 0 <= j < s.len() && s[j].0 == k;
            assert(u[j].0 == s[j].0);
        }
        if k == s[i].0 {
            assert(u[i].0 == k);
        }
    }
    assert forall|k: Seq<char>| #[trigger] model(u).dom().contains(k) implies model(u)[k] == m[k] by {
        let j = choose|j: int| 0 <= j < u.len() && u[j].0 == k;
        if j == i {
        } else {
            assert(u[j] == s[j]);
        }
    }
}

proof fn lemma_push_fresh(s: Seq<(Seq<char>, i64)>, x: (Seq<char>, i64))
    requires
        distinct_keys(s),
        forall|j: int| 0 <= j < s.len() ==> s[j].0 != x.0,
    ensures
        distinct_keys(s.push(x)),
        model(s.push(x)) == model(s).insert(x.0, x.1 as int),
        sum(s.push(x)) == sum(s) + x.1,
{
    let t = s.push(x);
    assert(t.drop_last() =~= s);
    assert forall|a: int, b: int|
        0 <= a < t.len() && 0 <= b < t.len() && a != b implies #[trigger] t[a].0 != #[trigger] t[b].0 by {
        if a < s.len() {
            assert(t[a] == s[a]);
        }
        if b < s.len() {
            assert(t[b] == s[b]);
        }
    }
}

proof fn lemma_keep_nonzero(s: Seq<(Seq<char>, i64)>)
    requires
        distinct_keys(s),
    ensures
        distinct_keys(keep_nonzero(s)),
        forall|j: int|
            0 <= j < keep_nonzero(s).len() ==> exists|i: int|
                0 <= i < s.len() && #[trigger] keep_nonzero(s)[j] == s[i],
        model(keep_nonzero(s)) =~= nonzero(model(s)),
        sum(keep_nonzero(s)) == sum(s),
    decreases s.len(),
{
    if s.len() > 0 {
        let d = s.drop_last();
        let x = s.last();
        lemma_distinct_drop_last(s);
        lemma_keep_nonzero(d);
        let kd = keep_nonzero(d);
        assert forall|j: int| 0 <= j < kd.len() implies kd[j].0 != x.0 by {
            let i = choose|i: int| 0 <= i < d.len() && #[trigger] kd[j] == d[i];
            assert(d[i] == s[i]);
            assert(s[i].0 != s[s.len() - 1].0);
        }
        if x.1 == 0 {
            assert forall|j: int| 0 <= j < keep_nonzero(s).len() implies exists|i: int|
                0 <= i < s.len() && #[trigger] keep_nonzero(s)[j] == s[i] by {
                let i = choose|i: int| 0 <= i < d.len() && #[trigger] kd[j] == d[i];
                assert(d[i] == s[i]);
            }
            lemma_model(d);
            assert(!model(d).dom().contains(x.0)) by {
                if model(d).dom().contains(x.0) {
                    let i = choose|i: int| 0 <= i < d.len() && d[i].0 == x.0;
                    assert(d[i] == s[i]);
                    assert(s[i].0 != s[s.len() - 1].0);
                }
            }
        } else {
            lemma_push_fresh(kd, x);
            let ks = keep_nonzero(s);
            assert(ks == kd.push(x));
            assert forall|j: int| 0 <= j < ks.len() implies exists|i: int|
                0 <= i < s.len() && #[trigger] ks[j] == s[i] by {
                if j == ks.len() - 1 {
                    assert(ks[j] == s[s.len() - 1]);
                } else {
                    assert(ks[j] == kd[j]);
                    let i = choose|i: int| 0 <= i < d.len() && #[trigger] kd[j] == d[i];
                    assert(d[i] == s[i]);
                }
            }
        }
    }
}

// ---------------------------------------------------------------------
// Balances
// ---------------------------------------------------------------------

/// Amounts of money per person (`HashMap<String, i64>`), as a list in
/// which each name occurs once.
#[derive(Clone, Debug)]
pub struct Balances {
    entries: Vec<(String, i64)>,
}

impl View for Balances {
    type V = Map<Seq<char>, int>;

    closed spec fn view(&self) -> Map<Seq<char>, int> {
        model(pairs(self.entries@))
    }
}

impl Balances {
    /// Each name occurs once.
    pub closed spec fn wf(&self) -> bool {
        distinct_keys(pairs(self.entries@))
    }

    /// The sum of all amounts.
    pub closed spec fn total(&self) -> int {
        sum(pairs(self.entries@))
    }

    /// No entries.
    pub fn new() -> (r: Balances)
        ensures
            r.wf(),
            r@ == Map::<Seq<char>, int>::empty(),
            r.total() == 0,
    {
        let r = Balances { entries: Vec::new() };
        assert(pairs(r.entries@) =~= Seq::<(Seq<char>, i64)>::empty());
        r
    }

    /// Every amount is a value of `i64`.
    pub proof fn lemma_amounts_fit(&self)
        requires
            self.wf(),
        ensures
            forall|k: Seq<char>| fits_i64(#[trigger] amount(self@, k)),
    {
        lemma_model(pairs(self.entries@));
        assert forall|k: Seq<char>| fits_i64(#[trigger] amount(self@, k)) by {
            if self@.dom().contains(k) {
                let j = choose|j: int| 0 <= j < pairs(self.entries@).len() && pairs(self.entries@)[j].0 == k;
                assert(self@.dom().contains(pairs(self.entries@)[j].0));
            }
        }
    }

    /// The number of entries.
    pub fn len(&self) -> (r: usize)
        requires
            self.wf(),
        ensures
            r == self@.dom().len(),
    {
        proof {
            self.lemma_dom_len();
        }
        self.entries.len()
    }

    /// Whether there are no entries.
    pub fn is_empty(&self) -> (r: bool)
        requires
            self.wf(),
        ensures
            r == (self@.dom().len() == 0),
    {
        self.len() == 0
    }

    proof fn lemma_dom_len(&self)
        requires
            self.wf(),
        ensures
            self@.dom().finite(),
            self@.dom().len() == self.entries.len(),
    {
        lemma_model_len(pairs(self.entries@));
    }

    /// The position of `k` in the list.
    fn position(&self, k: &String) -> (r: Option<usize>)
        requires
            self.wf(),
        ensures
            r matches Some(i) ==> i < self.entries.len() && pairs(self.entries@)[i as int].0 == k@,
            r is None ==> forall|j: int|
                0 <= j < self.entries.len() ==> pairs(self.entries@)[j].0 != k@,
    {
        let mut i: usize = 0;
        while i < self.entries.len()
            invariant
                i <= self.entries.len(),
                forall|j: int| 0 <= j < i ==> pairs(self.entries@)[j].0 != k@,
            decreases self.entries.len() - i,
        {
            if self.entries[i].0 == *k {
                return Some(i);
            }
            i = i + 1;
        }
        None
    }

    /// The amount of `k` (0 where there is no entry).
    pub fn get(&self, k: &String) -> (r: i64)
        requires
            self.wf(),
        ensures
            r == amount(self@, k@),
    {
        proof {
            lemma_model(pairs(self.entries@));
        }
        match self.position(k) {
            Some(i) => self.entries[i].1,
            None => {
                proof {
                    lemma_model_absent(pairs(self.entries@), k@);
                }
                0
            },
        }
    }

    /// The entries, in their stored order.
    pub fn to_vec(&self) -> (r: Vec<(String, i64)>)
        requires
            self.wf(),
        ensures
            r.len() == self@.dom().len(),
            forall|i: int|
                0 <= i < r.len() ==> #[trigger] self@.dom().contains(r[i].0@) && self@[r[i].0@]
                    == r[i].1,
            forall|i: int, j: int| 0 <= i < j < r.len() ==> r[i].0@ != r[j].0@,
    {
        proof {
            self.lemma_dom_len();
            lemma_model(pairs(self.entries@));
        }
        let mut r: Vec<(String, i64)> = Vec::new();
        for i in 0..self.entries.len()
            invariant
                pairs(r@) == pairs(self.entries@).take(i as int),
        {
            let name = self.entries[i].0.clone();
            let ghost before = r@;
            r.push((name, self.entries[i].1));
            assert(r@ == before.push((name, self.entries@[i as int].1)));
            assert(pairs(r@) =~= pairs(before).push(pairs(self.entries@)[i as int]));
            assert(pairs(r@) =~= pairs(self.entries@).take(i + 1));
        }
        assert(pairs(r@) =~= pairs(self.entries@));
        assert forall|i: int| 0 <= i < r.len() implies #[trigger] self@.dom().contains(r[i].0@)
            && self@[r[i].0@] == r[i].1 by {
            assert(pairs(r@)[i] == (r[i].0@, r[i].1));
            assert(self@.dom().contains(pairs(self.entries@)[i].0));
        }
        assert forall|i: int, j: int| 0 <= i < j < r.len() implies r[i].0@ != r[j].0@ by {
            assert(pairs(r@)[i].0 == r[i].0@);
            assert(pairs(r@)[j].0 == r[j].0@);
        }
        r
    }

    /// Sets the amount of `k` to `v`, creating its entry where there is none.
    fn set_amount(&mut self, k: &String, v: i64)
        requires
            old(self).wf(),
        ensures
            final(self).wf(),
            final(self)@ == old(self)@.insert(k@, v as int),
            final(self).total() == old(self).total() - amount(old(self)@, k@) + v,
    {
        let ghost s = pairs(self.entries@);
        proof {
            lemma_model(s);
        }
        match self.position(k) {
            Some(i) => {
                let name = k.clone();
                self.entries.set(i, (name, v));
                proof {
                    assert(pairs(self.entries@) =~= s.update(i as int, (s[i as int].0, v)));
                    lemma_model_update(s, i as int, v);
                    lemma_sum_update(s, i as int, (s[i as int].0, v));
                }
            },
            None => {
                proof {
                    lemma_model_absent(s, k@);
                }
                let name = k.clone();
                self.entries.push((name, v));
                proof {
                    assert(pairs(self.entries@) =~= s.push((k@, v)));
                    lemma_push_fresh(s, (k@, v));
                }
            },
        }
    }

    /// Adds `delta` to the amount of `k`, creating its entry where there is
    /// none (`*entry(k).or_default() += delta`).
    pub fn add(&mut self, k: &String, delta: i64)
        requires
            old(self).wf(),
            fits_i64(amount(old(self)@, k@) + delta),
        ensures
            final(self).wf(),
            final(self)@ == credited(old(self)@, k@, delta as int),
            final(self).total() == old(self).total() + delta,
    {
        let have = self.get(k);
        self.set_amount(k, have + delta);
    }

    /// Takes `delta` from the amount of `k`, creating its entry where there
    /// is none (`*entry(k).or_default() -= delta`).
    pub fn subtract(&mut self, k: &String, delta: i64)
        requires
            old(self).wf(),
            fits_i64(amount(old(self)@, k@) - delta),
        ensures
            final(self).wf(),
            final(self)@ == credited(old(self)@, k@, -delta),
            final(self).total() == old(self).total() - delta,
    {
        let have = self.get(k);
        self.set_amount(k, have - delta);
    }

    /// Drops the entries whose amount is 0 (`retain(|_, v| *v != 0)`).
    pub fn retain_nonzero(&mut self)
        requires
            old(self).wf(),
        ensures
            final(self).wf(),
            final(self)@ == nonzero(old(self)@),
            final(self).total() == old(self).total(),
    {
        let ghost s = pairs(self.entries@);
        let mut kept: Vec<(String, i64)> = Vec::new();
        for i in 0..self.entries.len()
            invariant
                s == pairs(self.entries@),
                pairs(kept@) == keep_nonzero(s.take(i as int)),
        {
            assert(s.take(i + 1).drop_last() =~= s.take(i as int));
            if self.entries[i].1 != 0 {
                let name = self.entries[i].0.clone();
                let v = self.entries[i].1;
                kept.push((name, v));
                assert(pairs(kept@) =~= keep_nonzero(s.take(i as int)).push(s[i as int]));
            }
        }
        assert(s.take(self.entries.len() as int) =~= s);
        self.entries = kept;
        proof {
            lemma_keep_nonzero(s);
        }
    }
}

impl Balances {
    /// An entry-for-entry copy.
    pub fn snapshot(&self) -> (r: Balances)
        requires
            self.wf(),
        ensures
            r.wf(),
            r@ == self@,
            r.total() == self.total(),
    {
        let mut r: Vec<(String, i64)> = Vec::new();
        for i in 0..self.entries.len()
            invariant
                pairs(r@) == pairs(self.entries@).take(i as int),
        {
            let name = self.entries[i].0.clone();
            let ghost before = r@;
            r.push((name, self.entries[i].1));
            assert(r@ == before.push((name, self.entries@[i as int].1)));
            assert(pairs(r@) =~= pairs(before).push(pairs(self.entries@)[i as int]));
            assert(pairs(r@) =~= pairs(self.entries@).take(i + 1));
        }
        assert(pairs(r@) =~= pairs(self.entries@));
        Balances { entries: r }
    }

    /// Whether adding the amounts of `ch` to these keeps every amount a
    /// value of `i64`.
    pub fn can_apply(&self, ch: &Balances) -> (r: bool)
        requires
            self.wf(),
            ch.wf(),
        ensures
            r == can_apply(self@, ch@),
    {
        let ghost p = pairs(ch.entries@);
        proof {
            lemma_model(p);
        }
        for i in 0..ch.entries.len()
            invariant
                self.wf(),
                ch.wf(),
                p == pairs(ch.entries@),
                forall|j: int| 0 <= j < i ==> fits_i64(amount(self@, p[j].0) + p[j].1),
        {
            proof {
                lemma_model(p);
            }
            let have = self.get(&ch.entries[i].0);
            let next: i128 = have as i128 + ch.entries[i].1 as i128;
            if next < i64::MIN as i128 || next > i64::MAX as i128 {
                assert(ch@.dom().contains(p[i as int].0));
                assert(!fits_i64(amount(self@, p[i as int].0) + ch@[p[i as int].0]));
                return false;
            }
        }
        assert forall|k: Seq<char>| ch@.dom().contains(k) implies fits_i64(
            #[trigger] amount(self@, k) + ch@[k],
        ) by {
            let j = choose|j: int| 0 <= j < p.len() && p[j].0 == k;
            assert(ch@.dom().contains(p[j].0));
        }
        true
    }

    /// Adds the amounts of `ch` to these and drops the entries that end at
    /// 0: what recording a transaction does to the running balances.
    pub fn apply(&mut self, ch: &Balances)
        requires
            old(self).wf(),
            ch.wf(),
            can_apply(old(self)@, ch@),
        ensures
            final(self).wf(),
            final(self)@ == applied(old(self)@, ch@),
            final(self).total() == old(self).total() + ch.total(),
            forall|k: Seq<char>| #[trigger] final(self)@.dom().contains(k) ==> final(self)@[k] != 0,
    {
        let ghost start = self@;
        let ghost start_total = self.total();
        let ghost p = pairs(ch.entries@);
        proof {
            lemma_model(p);
            assert(p.take(0) =~= Seq::<(Seq<char>, i64)>::empty());
        }
        for i in 0..ch.entries.len()
            invariant
                self.wf(),
                ch.wf(),
                p == pairs(ch.entries@),
                can_apply(start, ch@),
                forall|k: Seq<char>|
                    #[trigger] amount(self@, k) == amount(start, k) + amount(model(p.take(i as int)), k),
                self.total() == start_total + sum(p.take(i as int)),
        {
            let ghost before = self@;
            let ghost q = p.take(i as int);
            proof {
                lemma_model(p);
                assert(p.take(i + 1) =~= q.push(p[i as int]));
                assert(distinct_keys(p.take(i + 1))) by {
                    assert forall|a: int, b: int|
                        0 <= a < p.take(i + 1).len() && 0 <= b < p.take(i + 1).len() && a != b implies
                        #[trigger] p.take(i + 1)[a].0 != #[trigger] p.take(i + 1)[b].0 by {
                        assert(p.take(i + 1)[a] == p[a]);
                        assert(p.take(i + 1)[b] == p[b]);
                    }
                }
                assert(distinct_keys(q)) by {
                    assert forall|a: int, b: int|
                        0 <= a < q.len() && 0 <= b < q.len() && a != b implies #[trigger] q[a].0
                        != #[trigger] q[b].0 by {
                        assert(q[a] == p[a]);
                        assert(q[b] == p[b]);
                    }
                }
                assert forall|j: int| 0 <= j < q.len() implies q[j].0 != p[i as int].0 by {
                    assert(q[j] == p[j]);
                }
                lemma_model_absent(q, p[i as int].0);
                lemma_push_fresh(q, p[i as int]);
                assert(ch@.dom().contains(p[i as int].0));
                assert(amount(before, p[i as int].0) == amount(start, p[i as int].0));
            }
            let name = &ch.entries[i].0;
            self.add(name, ch.entries[i].1);
            proof {
                assert forall|k: Seq<char>| #[trigger] amount(self@, k) == amount(start, k) + amount(
                    model(p.take(i + 1)),
                    k,
                ) by {
                    assert(amount(before, k) == amount(start, k) + amount(model(q), k));
                }
            }
        }
        proof {
            assert(p.take(ch.entries.len() as int) =~= p);
        }
        let ghost mid = self@;
        self.retain_nonzero();
        proof {
            assert(self@ =~= applied(start, ch@)) by {
                assert forall|k: Seq<char>| #[trigger] self@.dom().contains(k) <==> applied(start, ch@).dom().contains(k) by {
                    assert(amount(mid, k) == amount(start, k) + amount(ch@, k));
                }
                assert forall|k: Seq<char>| #[trigger] self@.dom().contains(k) implies self@[k] == applied(start, ch@)[k] by {
                    assert(amount(mid, k) == amount(start, k) + amount(ch@, k));
                }
            }
        }
    }
}

proof fn lemma_model_len(s: Seq<(Seq<char>, i64)>)
    requires
        distinct_keys(s),
    ensures
        model(s).dom().finite(),
        model(s).dom().len() == s.len(),
    decreases s.len(),
{
    if s.len() > 0 {
        let d = s.drop_last();
        lemma_distinct_drop_last(s);
        lemma_model_len(d);
        lemma_model(d);
        assert(!model(d).dom().contains(s.last().0)) by {
            if model(d).dom().contains(s.last().0) {
                let j = choose|j: int| 0 <= j < d.len() && d[j].0 == s.last().0;
                assert(d[j] == s[j]);
                assert(s[j].0 != s[s.len() - 1].0);
            }
        }
    }
}

} // verus!

verus! {

// ---------------------------------------------------------------------
// Laws
// ---------------------------------------------------------------------

/// Paying back undoes a payment: after `src` pays `cnt` to `dst` and `dst`
/// pays the same amount back to `src`, everybody's amount is what it was.
pub proof fn law_pay_back(m: Map<Seq<char>, int>, src: Seq<char>, dst: Seq<char>, cnt: int)
    ensures
        forall|k: Seq<char>|
            #[trigger] amount(paid(paid(m, src, dst, cnt), dst, src, cnt), k) == amount(m, k),
{
}

/// A payment moves money and creates none: the amounts of `src` and `dst`
/// together are what they were, and nobody else's amount changes.
pub proof fn law_pay_moves(m: Map<Seq<char>, int>, src: Seq<char>, dst: Seq<char>, cnt: int)
    ensures
        src != dst ==> amount(paid(m, src, dst, cnt), src) + amount(paid(m, src, dst, cnt), dst)
            == amount(m, src) + amount(m, dst),
        src == dst ==> amount(paid(m, src, dst, cnt), src) == amount(m, src),
        forall|k: Seq<char>|
            k != src && k != dst ==> #[trigger] amount(paid(m, src, dst, cnt), k) == amount(m, k),
{
}

/// Recording changes adds them to the amounts, name by name.
pub proof fn law_applied_amount(m: Map<Seq<char>, int>, ch: Map<Seq<char>, int>, k: Seq<char>)
    ensures
        amount(applied(m, ch), k) == amount(m, k) + amount(ch, k),
{
}

/// Recorded balances never hold an entry of 0.
pub proof fn law_applied_nonzero(m: Map<Seq<char>, int>, ch: Map<Seq<char>, int>)
    ensures
        forall|k: Seq<char>|
            #[trigger] applied(m, ch).dom().contains(k) ==> applied(m, ch)[k] != 0,
{
}

/// The order in which two sets of changes are recorded does not matter.
pub proof fn law_apply_commutes(m: Map<Seq<char>, int>, a: Map<Seq<char>, int>, b: Map<Seq<char>, int>)
    ensures
        applied(applied(m, a), b) == applied(applied(m, b), a),
{
    assert(applied(applied(m, a), b) =~= applied(applied(m, b), a));
}

/// Dropping the entries of 0 changes nobody's amount, and doing it twice is
/// doing it once.
pub proof fn law_nonzero(m: Map<Seq<char>, int>)
    ensures
        forall|k: Seq<char>| #[trigger] amount(nonzero(m), k) == amount(m, k),
        nonzero(nonzero(m)) == nonzero(m),
{
    assert(nonzero(nonzero(m)) =~= nonzero(m));
}

} // verus!
