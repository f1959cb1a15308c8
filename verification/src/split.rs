//! Splitting a receipt (`POST /submit`): each person ticks the items they
//! share; items ticked by the same people form a group whose total is
//! divided equally among them, and everybody but the payer pays the payer
//! their share of every group they belong to.

use vstd::prelude::*;

use crate::ledger::{amount, fits_i64};
use crate::numbers::{parse_unsigned, parse_usize_of};
use crate::payment::form_view;
use crate::receipt::Receipt;
use crate::text::{chars_of, same_chars, split_once, split_once_of};
use crate::transaction::{contains_text, Transaction, TransactionMeta};

verus! {

// ---------------------------------------------------------------------
// Which items each person ticked
// ---------------------------------------------------------------------

/// The values of a check box that mean it is not ticked.
pub open spec fn is_unticked(v: Seq<char>) -> bool {
    v == ""@ || v == "off"@ || v == "0"@ || v == "false"@
}

/// The (person, item position) that the form field `person$position` with
/// the value `v` ticks.
pub open spec fn tick_of(k: Seq<char>, v: Seq<char>) -> Option<(Seq<char>, usize)> {
    match split_once(k, '$') {
        Some((u, i)) => if is_unticked(v) {
            None
        } else {
            match parse_unsigned(i, usize::MAX as int) {
                Some(n) => Some((u, n as usize)),
                None => None,
            }
        },
        None => None,
    }
}

/// The ticks of the form `f`, in order (a tick may repeat).
pub open spec fn ticks(f: Seq<(Seq<char>, Seq<char>)>) -> Seq<(Seq<char>, usize)>
    decreases f.len(),
{
    if f.len() == 0 {
        Seq::empty()
    } else {
        match tick_of(f.last().0, f.last().1) {
            Some(t) => ticks(f.drop_last()).push(t),
            None => ticks(f.drop_last()),
        }
    }
}

/// The ticked item positions, each once, in the order of their first tick.
pub open spec fn positions(t: Seq<(Seq<char>, usize)>) -> Seq<usize>
    decreases t.len(),
{
    if t.len() == 0 {
        Seq::empty()
    } else if positions(t.drop_last()).contains(t.last().1) {
        positions(t.drop_last())
    } else {
        positions(t.drop_last()).push(t.last().1)
    }
}

/// The people who ticked position `i`, each once, in the order of their
/// first tick of it.
pub open spec fn sharers(t: Seq<(Seq<char>, usize)>, i: usize) -> Seq<Seq<char>>
    decreases t.len(),
{
    if t.len() == 0 {
        Seq::empty()
    } else if t.last().1 == i && !sharers(t.drop_last(), i).contains(t.last().0) {
        sharers(t.drop_last(), i).push(t.last().0)
    } else {
        sharers(t.drop_last(), i)
    }
}

/// The people who ticked anything, each once, in the order of their first
/// tick.
pub open spec fn people(t: Seq<(Seq<char>, usize)>) -> Seq<Seq<char>>
    decreases t.len(),
{
    if t.len() == 0 {
        Seq::empty()
    } else if people(t.drop_last()).contains(t.last().0) {
        people(t.drop_last())
    } else {
        people(t.drop_last()).push(t.last().0)
    }
}

/// The positions that `u` ticked, each once, in the order of the ticks.
pub open spec fn ticked_by(t: Seq<(Seq<char>, usize)>, u: Seq<char>) -> Seq<usize>
    decreases t.len(),
{
    if t.len() == 0 {
        Seq::empty()
    } else if t.last().0 == u && !ticked_by(t.drop_last(), u).contains(t.last().1) {
        ticked_by(t.drop_last(), u).push(t.last().1)
    } else {
        ticked_by(t.drop_last(), u)
    }
}

// ---------------------------------------------------------------------
// Groups and shares
// ---------------------------------------------------------------------

/// `a` and `b` hold the same people.
pub open spec fn same_people(a: Seq<Seq<char>>, b: Seq<Seq<char>>) -> bool {
    forall|x: Seq<char>| a.contains(x) <==> b.contains(x)
}

/// The people who share the `j`th ticked position.
pub open spec fn group_of(t: Seq<(Seq<char>, usize)>, j: int) -> Seq<Seq<char>> {
    sharers(t, positions(t)[j])
}

/// The `j`th ticked position is the first one of its group.
pub open spec fn leads(t: Seq<(Seq<char>, usize)>, j: int) -> bool {
    forall|j2: int| 0 <= j2 < j ==> !same_people(#[trigger] group_of(t, j2), group_of(t, j))
}

/// The total of the item at position `i` (0 past the last item).
pub open spec fn item_amount(totals: Seq<u64>, i: usize) -> int {
    if i < totals.len() {
        totals[i as int] as int
    } else {
        0
    }
}

/// The totals of the first `n` ticked positions that the people `g` share.
pub open spec fn group_sum(t: Seq<(Seq<char>, usize)>, totals: Seq<u64>, g: Seq<Seq<char>>, n: int) -> int
    decreases n,
{
    if n <= 0 {
        0
    } else {
        group_sum(t, totals, g, n - 1) + if same_people(group_of(t, n - 1), g) {
            item_amount(totals, positions(t)[n - 1])
        } else {
            0
        }
    }
}

/// The total of the group of the `j`th ticked position.
pub open spec fn group_total(t: Seq<(Seq<char>, usize)>, totals: Seq<u64>, j: int) -> int {
    group_sum(t, totals, group_of(t, j), positions(t).len() as int)
}

/// What each member of the group of the `j`th ticked position pays: its
/// total divided by the number of members, rounded down.
pub open spec fn group_share(t: Seq<(Seq<char>, usize)>, totals: Seq<u64>, j: int) -> int {
    group_total(t, totals, j) / (group_of(t, j).len() as int)
}

/// How many of `g` are not `payer`.
pub open spec fn others(g: Seq<Seq<char>>, payer: Seq<char>) -> int
    decreases g.len(),
{
    if g.len() == 0 {
        0
    } else {
        others(g.drop_last(), payer) + if g.last() != payer {
            1int
        } else {
            0
        }
    }
}

/// What `u` owes the payer for the groups led by the first `n` ticked
/// positions.
pub open spec fn owed(
    t: Seq<(Seq<char>, usize)>,
    totals: Seq<u64>,
    payer: Seq<char>,
    u: Seq<char>,
    n: int,
) -> int
    decreases n,
{
    if n <= 0 {
        0
    } else {
        owed(t, totals, payer, u, n - 1) + if leads(t, n - 1) && group_of(t, n - 1).contains(u) && u
            != payer {
            group_share(t, totals, n - 1)
        } else {
            0
        }
    }
}

/// What the payer collects for the groups led by the first `n` ticked
/// positions.
pub open spec fn collected(t: Seq<(Seq<char>, usize)>, totals: Seq<u64>, payer: Seq<char>, n: int) -> int
    decreases n,
{
    if n <= 0 {
        0
    } else {
        collected(t, totals, payer, n - 1) + if leads(t, n - 1) {
            group_share(t, totals, n - 1) * others(group_of(t, n - 1), payer)
        } else {
            0
        }
    }
}

/// The change of `k`'s balance after the groups led by the first `n`
/// ticked positions.
pub open spec fn split_amount(
    t: Seq<(Seq<char>, usize)>,
    totals: Seq<u64>,
    payer: Seq<char>,
    k: Seq<char>,
    n: int,
) -> int {
    if k == payer {
        collected(t, totals, payer, n)
    } else {
        -owed(t, totals, payer, k, n)
    }
}

/// Splitting stays within the integer types: every group total is a
/// `u64`, every share that somebody pays is an `i64`, and so is every
/// resulting balance change.
pub open spec fn split_fits(t: Seq<(Seq<char>, usize)>, totals: Seq<u64>, payer: Seq<char>) -> bool {
    let n = positions(t).len() as int;
    &&& forall|j: int|
        0 <= j < n && #[trigger] leads(t, j) ==> group_total(t, totals, j) <= u64::MAX && (others(
            group_of(t, j),
            payer,
        ) > 0 ==> group_share(t, totals, j) <= i64::MAX)
    &&& forall|k: Seq<char>| fits_i64(#[trigger] split_amount(t, totals, payer, k, n))
}

/// The item totals of a receipt.
pub open spec fn item_totals(r: Receipt) -> Seq<u64> {
    r.items@.map_values(|it: crate::receipt::Item| it.total)
}

/// Why a receipt could not be split.
#[derive(Clone, Copy, Debug, PartialEq, Eq, Structural)]
pub enum SplitError {
    /// A group total, a share or a balance change leaves its integer type.
    TooLarge,
}

} // verus!

verus! {

// ---------------------------------------------------------------------
// Reading the ticks
// ---------------------------------------------------------------------

/// The (person, position) pairs of a list of ticks.
pub open spec fn tick_views(v: Seq<(String, usize)>) -> Seq<(Seq<char>, usize)> {
    v.map_values(|e: (String, usize)| (e.0@, e.1))
}

/// The texts of a list of strings.
pub open spec fn name_views(v: Seq<String>) -> Seq<Seq<char>> {
    v.map_values(|s: String| s@)
}

fn is_unticked_of(v: &Vec<char>) -> (r: bool)
    ensures
        r == is_unticked(v@),
{
    same_chars(v, &chars_of("")) || same_chars(v, &chars_of("off")) || same_chars(v, &chars_of("0"))
        || same_chars(v, &chars_of("false"))
}

fn tick_of_field(k: &String, v: &String) -> (r: Option<(String, usize)>)
    ensures
        r matches Some(x) ==> tick_of(k@, v@) == Some((x.0@, x.1)),
        r is None ==> tick_of(k@, v@) is None,
{
    match split_once_of(&chars_of(k.as_str()), '$') {
        Some((u, i)) => {
            if is_unticked_of(&chars_of(v.as_str())) {
                return None;
            }
            match parse_usize_of(&i) {
                Some(n) => Some((crate::text::string_of(&u), n)),
                None => None,
            }
        },
        None => None,
    }
}

/// The ticks of the form `form`, in order.
fn ticks_of(form: &Vec<(String, String)>) -> (r: Vec<(String, usize)>)
    ensures
        tick_views(r@) == ticks(form_view(form@)),
{
    let ghost f = form_view(form@);
    let mut r: Vec<(String, usize)> = Vec::new();
    for i in 0..form.len()
        invariant
            f == form_view(form@),
            tick_views(r@) == ticks(f.take(i as int)),
    {
        assert(f.take(i + 1).drop_last() =~= f.take(i as int));
        assert(f.take(i + 1).last() == (form@[i as int].0@, form@[i as int].1@));
        let ghost before = r@;
        match tick_of_field(&form[i].0, &form[i].1) {
            Some(x) => {
                r.push(x);
                assert(tick_views(r@) =~= tick_views(before).push((x.0@, x.1)));
            },
            None => {},
        }
    }
    assert(f.take(form.len() as int) =~= f);
    r
}

fn contains_position(v: &Vec<usize>, x: usize) -> (r: bool)
    ensures
        r == v@.contains(x),
{
    for i in 0..v.len()
        invariant
            forall|j: int| 0 <= j < i ==> v@[j] != x,
    {
        if v[i] == x {
            assert(v@[i as int] == x);
            return true;
        }
    }
    false
}

fn contains_name(v: &Vec<String>, x: &String) -> (r: bool)
    ensures
        r == name_views(v@).contains(x@),
{
    let r = contains_text(v, x);
    proof {
        if r {
            let i = choose|i: int| 0 <= i < v.len() && v[i]@ == x@;
            assert(name_views(v@)[i] == x@);
        }
        if name_views(v@).contains(x@) {
            let i = choose|i: int| 0 <= i < name_views(v@).len() && name_views(v@)[i] == x@;
            assert(v[i]@ == x@);
        }
    }
    r
}

/// The ticked positions, each once.
fn positions_of(t: &Vec<(String, usize)>) -> (r: Vec<usize>)
    ensures
        r@ == positions(tick_views(t@)),
{
    let ghost tv = tick_views(t@);
    let mut r: Vec<usize> = Vec::new();
    for i in 0..t.len()
        invariant
            tv == tick_views(t@),
            r@ == positions(tv.take(i as int)),
    {
        assert(tv.take(i + 1).drop_last() =~= tv.take(i as int));
        assert(tv.take(i + 1).last() == (t@[i as int].0@, t@[i as int].1));
        if !contains_position(&r, t[i].1) {
            r.push(t[i].1);
        }
    }
    assert(tv.take(t.len() as int) =~= tv);
    r
}

/// The people who ticked position `p`, each once.
fn sharers_of(t: &Vec<(String, usize)>, p: usize) -> (r: Vec<String>)
    ensures
        name_views(r@) == sharers(tick_views(t@), p),
{
    let ghost tv = tick_views(t@);
    let mut r: Vec<String> = Vec::new();
    for i in 0..t.len()
        invariant
            tv == tick_views(t@),
            name_views(r@) == sharers(tv.take(i as int), p),
    {
        assert(tv.take(i + 1).drop_last() =~= tv.take(i as int));
        assert(tv.take(i + 1).last() == (t@[i as int].0@, t@[i as int].1));
        if t[i].1 == p && !contains_name(&r, &t[i].0) {
            let ghost before = r@;
            r.push(t[i].0.clone());
            assert(name_views(r@) =~= name_views(before).push(t@[i as int].0@));
        }
    }
    assert(tv.take(t.len() as int) =~= tv);
    r
}

/// The people who ticked anything, each once.
fn people_of(t: &Vec<(String, usize)>) -> (r: Vec<String>)
    ensures
        name_views(r@) == people(tick_views(t@)),
{
    let ghost tv = tick_views(t@);
    let mut r: Vec<String> = Vec::new();
    for i in 0..t.len()
        invariant
            tv == tick_views(t@),
            name_views(r@) == people(tv.take(i as int)),
    {
        assert(tv.take(i + 1).drop_last() =~= tv.take(i as int));
        assert(tv.take(i + 1).last() == (t@[i as int].0@, t@[i as int].1));
        if !contains_name(&r, &t[i].0) {
            let ghost before = r@;
            r.push(t[i].0.clone());
            assert(name_views(r@) =~= name_views(before).push(t@[i as int].0@));
        }
    }
    assert(tv.take(t.len() as int) =~= tv);
    r
}

/// The positions that `u` ticked, each once.
fn ticked_by_of(t: &Vec<(String, usize)>, u: &String) -> (r: Vec<usize>)
    ensures
        r@ == ticked_by(tick_views(t@), u@),
{
    let ghost tv = tick_views(t@);
    let mut r: Vec<usize> = Vec::new();
    for i in 0..t.len()
        invariant
            tv == tick_views(t@),
            r@ == ticked_by(tv.take(i as int), u@),
    {
        assert(tv.take(i + 1).drop_last() =~= tv.take(i as int));
        assert(tv.take(i + 1).last() == (t@[i as int].0@, t@[i as int].1));
        if t[i].0 == *u && !contains_position(&r, t[i].1) {
            r.push(t[i].1);
        }
    }
    assert(tv.take(t.len() as int) =~= tv);
    r
}

/// Whether `a` and `b` hold the same people.
fn same_people_of(a: &Vec<String>, b: &Vec<String>) -> (r: bool)
    ensures
        r == same_people(name_views(a@), name_views(b@)),
        r <==> forall|x: Seq<char>| name_views(a@).contains(x) <==> name_views(b@).contains(x),
{
    for i in 0..a.len()
        invariant
            forall|j: int| 0 <= j < i ==> name_views(b@).contains(#[trigger] name_views(a@)[j]),
    {
        if !contains_name(b, &a[i]) {
            assert(name_views(a@).contains(name_views(a@)[i as int]));
            return false;
        }
    }
    for i in 0..b.len()
        invariant
            forall|j: int| 0 <= j < a.len() ==> name_views(b@).contains(#[trigger] name_views(a@)[j]),
            forall|j: int| 0 <= j < i ==> name_views(a@).contains(#[trigger] name_views(b@)[j]),
    {
        if !contains_name(a, &b[i]) {
            assert(name_views(b@).contains(name_views(b@)[i as int]));
            return false;
        }
    }
    assert forall|x: Seq<char>| name_views(a@).contains(x) <==> name_views(b@).contains(x) by {
        if name_views(a@).contains(x) {
            let j = choose|j: int| 0 <= j < name_views(a@).len() && name_views(a@)[j] == x;
            assert(name_views(b@).contains(name_views(a@)[j]));
        }
        if name_views(b@).contains(x) {
            let j = choose|j: int| 0 <= j < name_views(b@).len() && name_views(b@)[j] == x;
            assert(name_views(a@).contains(name_views(b@)[j]));
        }
    }
    true
}

} // verus!

verus! {

// ---------------------------------------------------------------------
// Lemmas
// ---------------------------------------------------------------------

/// Nobody shares a position twice.
pub proof fn lemma_sharers_distinct(t: Seq<(Seq<char>, usize)>, i: usize)
    ensures
        sharers(t, i).no_duplicates(),
    decreases t.len(),
{
    if t.len() > 0 {
        lemma_sharers_distinct(t.drop_last(), i);
    }
}

/// Every ticked position has somebody who shares it.
pub proof fn lemma_positions_shared(t: Seq<(Seq<char>, usize)>)
    ensures
        forall|p: usize| positions(t).contains(p) ==> #[trigger] sharers(t, p).len() > 0,
    decreases t.len(),
{
    if t.len() > 0 {
        let d = t.drop_last();
        lemma_positions_shared(d);
        assert forall|p: usize| positions(t).contains(p) implies #[trigger] sharers(t, p).len() > 0 by {
            if positions(d).contains(p) {
                assert(sharers(d, p).len() > 0);
            } else {
                assert(p == t.last().1);
                if sharers(d, p).contains(t.last().0) {
                    assert(sharers(d, p).len() > 0);
                }
            }
        }
    }
}

proof fn lemma_group_nonempty(t: Seq<(Seq<char>, usize)>, j: int)
    requires
        0 <= j < positions(t).len(),
    ensures
        group_of(t, j).len() > 0,
{
    lemma_positions_shared(t);
    assert(positions(t).contains(positions(t)[j]));
}

proof fn lemma_share_nonneg(t: Seq<(Seq<char>, usize)>, totals: Seq<u64>, j: int)
    requires
        0 <= j < positions(t).len(),
    ensures
        group_share(t, totals, j) >= 0,
        group_total(t, totals, j) >= 0,
{
    lemma_group_nonempty(t, j);
    lemma_group_sum_grows(t, totals, group_of(t, j), 0, positions(t).len() as int);
    let tot = group_total(t, totals, j);
    let len = group_of(t, j).len() as int;
    assert(tot / len >= 0) by (nonlinear_arith)
        requires
            tot >= 0,
            len > 0,
    ;
}

proof fn lemma_group_sum_grows(t: Seq<(Seq<char>, usize)>, totals: Seq<u64>, g: Seq<Seq<char>>, a: int, b: int)
    requires
        0 <= a <= b,
    ensures
        0 <= group_sum(t, totals, g, a) <= group_sum(t, totals, g, b),
    decreases b,
{
    if a < b {
        lemma_group_sum_grows(t, totals, g, a, b - 1);
    } else if a > 0 {
        lemma_group_sum_grows(t, totals, g, a - 1, a - 1);
    }
}

proof fn lemma_others_bounds(g: Seq<Seq<char>>, payer: Seq<char>)
    ensures
        0 <= others(g, payer) <= g.len(),
    decreases g.len(),
{
    if g.len() > 0 {
        lemma_others_bounds(g.drop_last(), payer);
    }
}

proof fn lemma_others_prefix(g: Seq<Seq<char>>, payer: Seq<char>, m: int)
    requires
        0 <= m <= g.len(),
    ensures
        others(g.take(m), payer) <= others(g, payer),
    decreases g.len() - m,
{
    if m < g.len() {
        assert(g.take(m + 1).drop_last() =~= g.take(m));
        lemma_others_prefix(g, payer, m + 1);
    } else {
        assert(g.take(m) =~= g);
    }
}

proof fn lemma_owed_grows(
    t: Seq<(Seq<char>, usize)>,
    totals: Seq<u64>,
    payer: Seq<char>,
    u: Seq<char>,
    a: int,
    b: int,
)
    requires
        0 <= a <= b <= positions(t).len(),
    ensures
        owed(t, totals, payer, u, a) <= owed(t, totals, payer, u, b),
    decreases b,
{
    if a < b {
        lemma_owed_grows(t, totals, payer, u, a, b - 1);
        lemma_share_nonneg(t, totals, b - 1);
    }
}

proof fn lemma_collected_grows(t: Seq<(Seq<char>, usize)>, totals: Seq<u64>, payer: Seq<char>, a: int, b: int)
    requires
        0 <= a <= b <= positions(t).len(),
    ensures
        collected(t, totals, payer, a) <= collected(t, totals, payer, b),
    decreases b,
{
    if a < b {
        lemma_collected_grows(t, totals, payer, a, b - 1);
        lemma_share_nonneg(t, totals, b - 1);
        lemma_others_bounds(group_of(t, b - 1), payer);
        let s = group_share(t, totals, b - 1);
        let o = others(group_of(t, b - 1), payer);
        assert(s * o >= 0) by (nonlinear_arith)
            requires
                s >= 0,
                o >= 0,
        ;
    }
}

} // verus!

verus! {

// ---------------------------------------------------------------------
// Splitting
// ---------------------------------------------------------------------

/// What the list of who shares which positions says of each person.
pub open spec fn paid_views(v: Seq<(String, Vec<usize>)>) -> Seq<(Seq<char>, Seq<usize>)> {
    v.map_values(|e: (String, Vec<usize>)| (e.0@, e.1@))
}

/// For each person who ticked anything, the positions they ticked.
pub open spec fn ticks_by_person(t: Seq<(Seq<char>, usize)>) -> Seq<(Seq<char>, Seq<usize>)> {
    people(t).map_values(|u: Seq<char>| (u, ticked_by(t, u)))
}

/// The groups of the ticked positions, as computed so far.
spec fn groups_match(groups: Seq<Vec<String>>, t: Seq<(Seq<char>, usize)>, n: int) -> bool {
    &&& groups.len() == n
    &&& forall|j: int| 0 <= j < n ==> name_views(#[trigger] groups[j]@) == group_of(t, j)
}

/// Whether the `j`th ticked position leads its group.
fn leads_of(groups: &Vec<Vec<String>>, j: usize, Ghost(t): Ghost<Seq<(Seq<char>, usize)>>) -> (r: bool)
    requires
        j < groups.len(),
        groups_match(groups@, t, groups.len() as int),
    ensures
        r == leads(t, j as int),
{
    for j2 in 0..j
        invariant
            j < groups.len(),
            groups_match(groups@, t, groups.len() as int),
            forall|x: int| 0 <= x < j2 ==> !same_people(#[trigger] group_of(t, x), group_of(t, j as int)),
    {
        assert(name_views(groups@[j2 as int]@) == group_of(t, j2 as int));
        assert(name_views(groups@[j as int]@) == group_of(t, j as int));
        if same_people_of(&groups[j2], &groups[j]) {
            return false;
        }
    }
    true
}

/// The total of the group of the `j`th ticked position, or `None` where it
/// is more than a `u64` holds.
fn group_total_of(
    groups: &Vec<Vec<String>>,
    pos: &Vec<usize>,
    rec: &Receipt,
    j: usize,
    Ghost(t): Ghost<Seq<(Seq<char>, usize)>>,
) -> (r: Option<u64>)
    requires
        j < groups.len(),
        pos@ == positions(t),
        groups_match(groups@, t, groups.len() as int),
        groups.len() == pos.len(),
    ensures
        r matches Some(v) ==> v == group_total(t, item_totals(*rec), j as int),
        r is None ==> group_total(t, item_totals(*rec), j as int) > u64::MAX,
{
    let ghost totals = item_totals(*rec);
    let ghost g = group_of(t, j as int);
    let mut acc: u128 = 0;
    for j2 in 0..pos.len()
        invariant
            j < groups.len(),
            pos@ == positions(t),
            groups_match(groups@, t, groups.len() as int),
            groups.len() == pos.len(),
            totals == item_totals(*rec),
            g == group_of(t, j as int),
            acc == group_sum(t, totals, g, j2 as int),
            acc <= u64::MAX,
    {
        assert(name_views(groups@[j2 as int]@) == group_of(t, j2 as int));
        assert(name_views(groups@[j as int]@) == g);
        if same_people_of(&groups[j2], &groups[j]) {
            let p = pos[j2];
            if p < rec.items.len() {
                assert(totals[p as int] == rec.items@[p as int].total);
                acc = acc + rec.items[p].total as u128;
            }
        }
        if acc > u64::MAX as u128 {
            proof {
                lemma_group_sum_grows(t, totals, g, j2 + 1, pos.len() as int);
            }
            return None;
        }
    }
    Some(acc as u64)
}

/// Splits the receipt `rec` as the form `form` ticks its items, for the
/// payer `payer`: every person but the payer pays the payer, for each
/// group of people who ticked the same items, the group's total divided
/// equally (rounded down).  The transaction records, for the receipt
/// `fiscal_number`, who ticked which positions.  `Err` where a total, a
/// share or a balance change leaves its integer type.
pub fn split_receipt(
    form: &Vec<(String, String)>,
    rec: &Receipt,
    fiscal_number: &String,
    payer: &String,
) -> (r: Result<Transaction, SplitError>)
    ensures
        ({
            let t = ticks(form_view(form@));
            let totals = item_totals(*rec);
            let n = positions(t).len() as int;
            &&& split_fits(t, totals, payer@) ==> (r matches Ok(tr) && {
                &&& tr.balance_changes.wf()
                &&& forall|k: Seq<char>| #[trigger] amount(tr.balance_changes@, k) == split_amount(t, totals, payer@, k, n)
                &&& forall|k: Seq<char>| #[trigger] tr.balance_changes@.dom().contains(k) ==> tr.balance_changes@[k] != 0
                &&& tr.balance_changes.total() == 0
                &&& tr.prev_state is None
                &&& tr.meta matches Some(TransactionMeta::Receipt { fiscal_number: x, paid })
                    && x@ == fiscal_number@ && paid_views(paid@) == ticks_by_person(t)
            })
            &&& !split_fits(t, totals, payer@) ==> r == Err::<Transaction, SplitError>(SplitError::TooLarge)
        }),
{
    let tk = ticks_of(form);
    let ghost t = tick_views(tk@);
    let ghost totals = item_totals(*rec);
    let pos = positions_of(&tk);
    let n = pos.len();
    let mut groups: Vec<Vec<String>> = Vec::new();
    for j in 0..n
        invariant
            n == pos.len(),
            pos@ == positions(t),
            t == tick_views(tk@),
            groups_match(groups@, t, j as int),
    {
        let g = sharers_of(&tk, pos[j]);
        groups.push(g);
    }
    // who ticked what
    let ppl = people_of(&tk);
    let mut paid_list: Vec<(String, Vec<usize>)> = Vec::new();
    for i in 0..ppl.len()
        invariant
            t == tick_views(tk@),
            name_views(ppl@) == people(t),
            paid_views(paid_list@) == people(t).take(i as int).map_values(
                |u: Seq<char>| (u, ticked_by(t, u)),
            ),
    {
        let idxs = ticked_by_of(&tk, &ppl[i]);
        let ghost before = paid_list@;
        let name = ppl[i].clone();
        paid_list.push((name, idxs));
        assert(name_views(ppl@)[i as int] == ppl@[i as int]@);
        assert(paid_views(paid_list@) =~= paid_views(before).push((ppl@[i as int]@, idxs@)));
        assert(people(t).take(i + 1) =~= people(t).take(i as int).push(people(t)[i as int]));
        assert(paid_views(paid_list@) =~= people(t).take(i + 1).map_values(
            |u: Seq<char>| (u, ticked_by(t, u)),
        ));
    }
    assert(people(t).take(ppl.len() as int) =~= people(t));
    let mut tr = Transaction::new(
        Some(TransactionMeta::Receipt { fiscal_number: fiscal_number.clone(), paid: paid_list }),
    );
    let ghost meta = tr.meta;
    let mut j: usize = 0;
    while j < n
        invariant
            j <= n,
            n == pos.len(),
            pos@ == positions(t),
            t == ticks(form_view(form@)),
            totals == item_totals(*rec),
            groups_match(groups@, t, n as int),
            tr.balance_changes.wf(),
            tr.balance_changes.total() == 0,
            tr.prev_state is None,
            tr.meta == meta,
            meta matches Some(TransactionMeta::Receipt { fiscal_number: x, paid }) && x@
                == fiscal_number@ && paid_views(paid@) == ticks_by_person(t),
            forall|k: Seq<char>| #[trigger] amount(tr.balance_changes@, k) == split_amount(t, totals, payer@, k, j as int),
            forall|j2: int|
                0 <= j2 < j && #[trigger] leads(t, j2) ==> group_total(t, totals, j2) <= u64::MAX && (others(
                    group_of(t, j2),
                    payer@,
                ) > 0 ==> group_share(t, totals, j2) <= i64::MAX),
        decreases n - j,
    {
        if !leads_of(&groups, j, Ghost(t)) {
            assert forall|k: Seq<char>| #[trigger] amount(tr.balance_changes@, k) == split_amount(t, totals, payer@, k, j + 1) by {}
            j = j + 1;
            continue;
        }
        let total = match group_total_of(&groups, &pos, rec, j, Ghost(t)) {
            Some(v) => v,
            None => {
                assert(!split_fits(t, totals, payer@));
                return Err(SplitError::TooLarge);
            },
        };
        let g = &groups[j];
        let len = g.len();
        proof {
            lemma_group_nonempty(t, j as int);
            lemma_share_nonneg(t, totals, j as int);
            lemma_sharers_distinct(t, pos@[j as int]);
            assert(name_views(g@) == group_of(t, j as int));
        }
        let share: u64 = total / len as u64;
        let ghost gv = group_of(t, j as int);
        let ghost base = tr.balance_changes@;
        assert(share == group_share(t, totals, j as int));
        #[verifier::loop_isolation(false)]
        for m in 0..len
            invariant
                len == g.len(),
                name_views(g@) == gv,
                gv == group_of(t, j as int),
                gv.no_duplicates(),
                share == group_share(t, totals, j as int),
                leads(t, j as int),
                tr.balance_changes.wf(),
                tr.balance_changes.total() == 0,
                tr.prev_state is None,
                tr.meta == meta,
                forall|k: Seq<char>| #[trigger] amount(tr.balance_changes@, k) == split_amount(t, totals, payer@, k, j as int) + if k == payer@ {
                    share * others(gv.take(m as int), payer@)
                } else if gv.take(m as int).contains(k) {
                    -share
                } else {
                    0
                },
                others(gv.take(m as int), payer@) > 0 ==> share <= i64::MAX,
        {
            let u = &g[m];
            assert(gv[m as int] == u@);
            assert(gv.take(m + 1).drop_last() =~= gv.take(m as int));
            assert(gv.take(m + 1) =~= gv.take(m as int).push(u@));
            assert(!gv.take(m as int).contains(u@)) by {
                if gv.take(m as int).contains(u@) {
                    let x = choose|x: int| 0 <= x < m && gv.take(m as int)[x] == u@;
                    assert(gv[x] == gv[m as int]);
                }
            }
            if *u != *payer {
                proof {
                    lemma_others_prefix(gv, payer@, m + 1);
                }
                if share > i64::MAX as u64 {
                    proof {
                        lemma_others_bounds(gv.take(m as int), payer@);
                        assert(others(gv.take(m + 1), payer@) == others(gv.take(m as int), payer@) + 1);
                        assert(others(group_of(t, j as int), payer@) > 0);
                        assert(leads(t, j as int));
                    }
                    assert(!split_fits(t, totals, payer@));
                    return Err(SplitError::TooLarge);
                }
                let s = share as i64;
                if !tr.can_pay(u.as_str(), payer.as_str(), s) {
                    proof {
                        let np = positions(t).len() as int;
                        tr.balance_changes.lemma_amounts_fit();
                        lemma_owed_grows(t, totals, payer@, u@, j + 1, np);
                        lemma_collected_grows(t, totals, payer@, j + 1, np);
                        lemma_others_bounds(gv.take(m as int), payer@);
                        let o = others(gv.take(m as int), payer@);
                        let og = others(gv, payer@);
                        assert(share * og >= share * o + share) by (nonlinear_arith)
                            requires
                                og >= o + 1,
                                share >= 0,
                        ;
                        assert(gv.contains(u@));
                        assert(owed(t, totals, payer@, u@, j + 1) == owed(t, totals, payer@, u@, j as int) + share);
                        assert(collected(t, totals, payer@, j + 1) == collected(t, totals, payer@, j as int) + share * og);
                        assert(amount(tr.balance_changes@, u@) == -owed(t, totals, payer@, u@, j as int));
                        assert(amount(tr.balance_changes@, payer@) == collected(t, totals, payer@, j as int) + share * o);
                        assert(!fits_i64(split_amount(t, totals, payer@, u@, np)) || !fits_i64(
                            split_amount(t, totals, payer@, payer@, np),
                        ));
                    }
                    return Err(SplitError::TooLarge);
                }
                let ghost before = tr.balance_changes@;
                tr.pay(u.as_str(), payer.as_str(), s);
                proof {
                    let o = others(gv.take(m as int), payer@);
                    assert(share * (o + 1) == share * o + share) by (nonlinear_arith);
                    assert forall|k: Seq<char>| #[trigger] amount(tr.balance_changes@, k) == split_amount(t, totals, payer@, k, j as int) + if k == payer@ {
                        share * others(gv.take(m + 1), payer@)
                    } else if gv.take(m + 1).contains(k) {
                        -share
                    } else {
                        0
                    } by {
                        assert(amount(before, k) == split_amount(t, totals, payer@, k, j as int) + if k == payer@ {
                            share * o
                        } else if gv.take(m as int).contains(k) {
                            -share
                        } else {
                            0
                        });
                    }
                }
            } else {
                proof {
                    assert forall|k: Seq<char>| #[trigger] amount(tr.balance_changes@, k) == split_amount(t, totals, payer@, k, j as int) + if k == payer@ {
                        share * others(gv.take(m + 1), payer@)
                    } else if gv.take(m + 1).contains(k) {
                        -share
                    } else {
                        0
                    } by {
                    }
                }
            }
        }
        proof {
            assert(gv.take(len as int) =~= gv);
            assert forall|k: Seq<char>| #[trigger] amount(tr.balance_changes@, k) == split_amount(t, totals, payer@, k, j + 1) by {}
        }
        j = j + 1;
    }
    proof {
        tr.balance_changes.lemma_amounts_fit();
        assert forall|k: Seq<char>| fits_i64(#[trigger] split_amount(t, totals, payer@, k, n as int)) by {
            assert(amount(tr.balance_changes@, k) == split_amount(t, totals, payer@, k, n as int));
        }
        assert(split_fits(t, totals, payer@));
    }
    let ghost before_final = tr.balance_changes@;
    tr.finalize();
    proof {
        crate::ledger::law_nonzero(before_final);
    }
    Ok(tr)
}

// ---------------------------------------------------------------------
// Laws
// ---------------------------------------------------------------------

/// No two ticked positions are ticked by the same set of people.
pub open spec fn sets_all_differ(t: Seq<(Seq<char>, usize)>) -> bool {
    forall|j1: int, j2: int|
        #![trigger group_of(t, j1), group_of(t, j2)]
        0 <= j1 < j2 < positions(t).len() ==> exists|x: Seq<char>| group_of(t, j1).contains(x) != group_of(t, j2).contains(x)
}

/// What `u` owes for the first `n` ticked positions when each is split on
/// its own: the item's total divided by the number of people who ticked
/// it, for each item that `u` ticked.
pub open spec fn own_shares(t: Seq<(Seq<char>, usize)>, totals: Seq<u64>, u: Seq<char>, n: int) -> int
    decreases n,
{
    if n <= 0 {
        0
    } else {
        own_shares(t, totals, u, n - 1) + if group_of(t, n - 1).contains(u) {
            item_amount(totals, positions(t)[n - 1]) / (group_of(t, n - 1).len() as int)
        } else {
            0
        }
    }
}

/// What the payer collects for the first `n` ticked positions when each is
/// split on its own: each item's share from everybody else who ticked it.
pub open spec fn payer_shares(t: Seq<(Seq<char>, usize)>, totals: Seq<u64>, payer: Seq<char>, n: int) -> int
    decreases n,
{
    if n <= 0 {
        0
    } else {
        payer_shares(t, totals, payer, n - 1) + item_amount(totals, positions(t)[n - 1]) / (group_of(
            t,
            n - 1,
        ).len() as int) * others(group_of(t, n - 1), payer)
    }
}

/// Where the ticked sets all differ, two different positions are never
/// ticked by the same people.
proof fn lemma_sets_differ(t: Seq<(Seq<char>, usize)>, j1: int, j2: int)
    requires
        sets_all_differ(t),
        0 <= j1 < positions(t).len(),
        0 <= j2 < positions(t).len(),
        j1 != j2,
    ensures
        !same_people(group_of(t, j1), group_of(t, j2)),
{
    let a = group_of(t, j1);
    let b = group_of(t, j2);
    if j1 < j2 {
        let x = choose|x: Seq<char>| a.contains(x) != b.contains(x);
        assert(a.contains(x) != b.contains(x));
    } else {
        let x = choose|x: Seq<char>| b.contains(x) != a.contains(x);
        assert(b.contains(x) != a.contains(x));
    }
}

/// Where the ticked sets all differ, only a position itself is pooled with
/// it.
proof fn lemma_group_sum_alone(t: Seq<(Seq<char>, usize)>, totals: Seq<u64>, j: int, n: int)
    requires
        sets_all_differ(t),
        0 <= j < positions(t).len(),
        0 <= n <= positions(t).len(),
    ensures
        group_sum(t, totals, group_of(t, j), n) == if j < n {
            item_amount(totals, positions(t)[j])
        } else {
            0
        },
    decreases n,
{
    if n > 0 {
        lemma_group_sum_alone(t, totals, j, n - 1);
        let i = n - 1;
        if i == j {
            assert(same_people(group_of(t, i), group_of(t, j)));
        } else {
            lemma_sets_differ(t, i, j);
        }
    }
}

/// Where the ticked sets all differ, every ticked position leads its own
/// group, whose total is the item's.
proof fn lemma_all_lead(t: Seq<(Seq<char>, usize)>, totals: Seq<u64>, j: int)
    requires
        sets_all_differ(t),
        0 <= j < positions(t).len(),
    ensures
        leads(t, j),
        group_total(t, totals, j) == item_amount(totals, positions(t)[j]),
{
    assert forall|j2: int| 0 <= j2 < j implies !same_people(#[trigger] group_of(t, j2), group_of(t, j)) by {
        lemma_sets_differ(t, j2, j);
    }
    lemma_group_sum_alone(t, totals, j, positions(t).len() as int);
}

/// Splitting where no two items were ticked by the same set of people:
/// every item is divided on its own among the people who ticked it, each
/// of them but the payer pays the payer the item's total divided by their
/// number (rounded down), and the payer collects those shares.
pub proof fn law_split_distinct_sets(t: Seq<(Seq<char>, usize)>, totals: Seq<u64>, payer: Seq<char>, k: Seq<char>, n: int)
    requires
        sets_all_differ(t),
        0 <= n <= positions(t).len(),
    ensures
        split_amount(t, totals, payer, k, n) == if k == payer {
            payer_shares(t, totals, payer, n)
        } else {
            -own_shares(t, totals, k, n)
        },
    decreases n,
{
    if n > 0 {
        law_split_distinct_sets(t, totals, payer, k, n - 1);
        lemma_all_lead(t, totals, n - 1);
    }
}

/// The totals of the items among the first `n` ticked positions that `u`
/// ticked.
pub open spec fn ticked_total(t: Seq<(Seq<char>, usize)>, totals: Seq<u64>, u: Seq<char>, n: int) -> int
    decreases n,
{
    if n <= 0 {
        0
    } else {
        ticked_total(t, totals, u, n - 1) + if group_of(t, n - 1).contains(u) {
            item_amount(totals, positions(t)[n - 1])
        } else {
            0
        }
    }
}

/// The first of the positions `i..j` whose sharers are those of the `j`th
/// (or `j` itself).
spec fn first_same(t: Seq<(Seq<char>, usize)>, j: int, i: int) -> int
    decreases j - i,
{
    if i >= j {
        j
    } else if same_people(group_of(t, i), group_of(t, j)) {
        i
    } else {
        first_same(t, j, i + 1)
    }
}

proof fn lemma_first_same(t: Seq<(Seq<char>, usize)>, j: int, i: int)
    requires
        0 <= i <= j,
    ensures
        i <= first_same(t, j, i) <= j,
        same_people(group_of(t, first_same(t, j, i)), group_of(t, j)),
        forall|k: int| i <= k < first_same(t, j, i) ==> !same_people(#[trigger] group_of(t, k), group_of(t, j)),
    decreases j - i,
{
    if i < j && !same_people(group_of(t, i), group_of(t, j)) {
        lemma_first_same(t, j, i + 1);
    }
}

/// The position that leads the group of the `j`th.
spec fn rep(t: Seq<(Seq<char>, usize)>, j: int) -> int {
    first_same(t, j, 0)
}

/// The leader of a position's group leads, and is the first position with
/// its people; a leader is the leader of exactly the positions with its
/// people.
proof fn lemma_rep(t: Seq<(Seq<char>, usize)>, j: int, n: int)
    requires
        0 <= j,
        0 <= n,
    ensures
        0 <= rep(t, j) <= j,
        same_people(group_of(t, rep(t, j)), group_of(t, j)),
        leads(t, rep(t, j)),
        leads(t, n) ==> (rep(t, j) == n <==> same_people(group_of(t, j), group_of(t, n))),
{
    lemma_first_same(t, j, 0);
    let r = rep(t, j);
    assert forall|k: int| 0 <= k < r implies !same_people(#[trigger] group_of(t, k), group_of(t, r)) by {
        assert(!same_people(group_of(t, k), group_of(t, j)));
    }
    if leads(t, n) {
        if same_people(group_of(t, j), group_of(t, n)) {
            if j < n {
                assert(!same_people(group_of(t, j), group_of(t, n)));
            }
            if r < n {
                assert(!same_people(group_of(t, r), group_of(t, n)));
            } else if r > n {
                assert(!same_people(group_of(t, n), group_of(t, j)));
            }
        }
    }
}

/// The totals of the first `m` positions that `u` ticked and whose group is
/// led by one of the first `n` positions.
spec fn pooled(t: Seq<(Seq<char>, usize)>, totals: Seq<u64>, u: Seq<char>, n: int, m: int) -> int
    decreases m,
{
    if m <= 0 {
        0
    } else {
        pooled(t, totals, u, n, m - 1) + if group_of(t, m - 1).contains(u) && rep(t, m - 1) < n {
            item_amount(totals, positions(t)[m - 1])
        } else {
            0
        }
    }
}

proof fn lemma_pooled_step(t: Seq<(Seq<char>, usize)>, totals: Seq<u64>, u: Seq<char>, n: int, m: int)
    requires
        0 <= n,
        0 <= m,
    ensures
        pooled(t, totals, u, n + 1, m) == pooled(t, totals, u, n, m) + if leads(t, n) && group_of(t, n).contains(u) {
            group_sum(t, totals, group_of(t, n), m)
        } else {
            0
        },
    decreases m,
{
    if m > 0 {
        lemma_pooled_step(t, totals, u, n, m - 1);
        lemma_rep(t, m - 1, n);
    }
}

proof fn lemma_pooled_all(t: Seq<(Seq<char>, usize)>, totals: Seq<u64>, u: Seq<char>, m: int)
    requires
        0 <= m <= positions(t).len(),
    ensures
        pooled(t, totals, u, positions(t).len() as int, m) == ticked_total(t, totals, u, m),
    decreases m,
{
    if m > 0 {
        lemma_pooled_all(t, totals, u, m - 1);
        lemma_rep(t, m - 1, 0);
    }
}

proof fn lemma_pooled_none(t: Seq<(Seq<char>, usize)>, totals: Seq<u64>, u: Seq<char>, m: int)
    ensures
        pooled(t, totals, u, 0, m) == 0,
    decreases m,
{
    if m > 0 {
        lemma_pooled_none(t, totals, u, m - 1);
        lemma_rep(t, m - 1, 0);
    }
}

proof fn lemma_owed_pooled(t: Seq<(Seq<char>, usize)>, totals: Seq<u64>, payer: Seq<char>, u: Seq<char>, n: int)
    requires
        0 <= n <= positions(t).len(),
    ensures
        owed(t, totals, payer, u, n) <= pooled(t, totals, u, n, positions(t).len() as int),
    decreases n,
{
    let np = positions(t).len() as int;
    if n == 0 {
        lemma_pooled_none(t, totals, u, np);
    } else {
        lemma_owed_pooled(t, totals, payer, u, n - 1);
        lemma_pooled_step(t, totals, u, n - 1, np);
        lemma_share_nonneg(t, totals, n - 1);
        lemma_group_nonempty(t, n - 1);
        let tot = group_total(t, totals, n - 1);
        let len = group_of(t, n - 1).len() as int;
        assert(tot / len <= tot) by (nonlinear_arith)
            requires
                tot >= 0,
                len >= 1,
        ;
    }
}

/// Nobody but the payer pays more than the totals of the items they
/// ticked, and nobody but the payer gains: a group of items is pooled only
/// where the same people ticked them, so what a person pays for it comes
/// from items they ticked.
pub proof fn law_split_pays_for_own_items(t: Seq<(Seq<char>, usize)>, totals: Seq<u64>, payer: Seq<char>, u: Seq<char>)
    requires
        u != payer,
    ensures
        0 <= -split_amount(t, totals, payer, u, positions(t).len() as int) <= ticked_total(
            t,
            totals,
            u,
            positions(t).len() as int,
        ),
{
    let np = positions(t).len() as int;
    lemma_owed_pooled(t, totals, payer, u, np);
    lemma_pooled_all(t, totals, u, np);
    lemma_owed_grows(t, totals, payer, u, 0, np);
}

} // verus!
