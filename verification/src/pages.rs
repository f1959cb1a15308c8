//! What the pages list, and in which order.

use vstd::prelude::*;

use crate::split::name_views;

verus! {

/// The `<option>` line of the user selector for `u`.
pub open spec fn option_line(u: Seq<char>) -> Seq<char> {
    "<option value=\""@ + u + "\">"@ + u + "</option>\n"@
}

/// The option lines of `users`, one after another.
pub open spec fn option_lines(users: Seq<Seq<char>>) -> Seq<char>
    decreases users.len(),
{
    if users.len() == 0 {
        Seq::empty()
    } else {
        option_lines(users.drop_last()) + option_line(users.last())
    }
}

/// The options of the user selector on the start page, one per user.
pub fn username_options(usernames: &Vec<String>) -> (r: String)
    ensures
        r@ == option_lines(name_views(usernames@)),
{
    let ghost users = name_views(usernames@);
    let mut s = String::new();
    for i in 0..usernames.len()
        invariant
            users == name_views(usernames@),
            s@ == option_lines(users.take(i as int)),
    {
        assert(users.take(i + 1).drop_last() =~= users.take(i as int));
        assert(users[i as int] == usernames@[i as int]@);
        s.append("<option value=\"");
        s.append(usernames[i].as_str());
        s.append("\">");
        s.append(usernames[i].as_str());
        s.append("</option>\n");
        assert(s@ =~= option_lines(users.take(i as int)) + option_line(users[i as int]));
    }
    assert(users.take(usernames.len() as int) =~= users);
    s
}

/// (name, amount) pairs as plain values.
pub open spec fn entry_views(v: Seq<(String, i64)>) -> Seq<(Seq<char>, i64)> {
    v.map_values(|e: (String, i64)| (e.0@, e.1))
}

/// The entries whose name is none of `users`, in their order.
pub open spec fn unlisted(es: Seq<(Seq<char>, i64)>, users: Seq<Seq<char>>) -> Seq<(Seq<char>, i64)>
    decreases es.len(),
{
    if es.len() == 0 {
        Seq::empty()
    } else if users.contains(es.last().0) {
        unlisted(es.drop_last(), users)
    } else {
        unlisted(es.drop_last(), users).push(es.last())
    }
}

/// The first entry named `u`.
pub open spec fn entry_named(es: Seq<(Seq<char>, i64)>, u: Seq<char>) -> Option<(Seq<char>, i64)>
    decreases es.len(),
{
    if es.len() == 0 {
        None
    } else if es[0].0 == u {
        Some(es[0])
    } else {
        entry_named(es.drop_first(), u)
    }
}

/// For each of `users` in order (a name that repeats counts at its first
/// place only), the entry named so, where there is one.
pub open spec fn listed(es: Seq<(Seq<char>, i64)>, users: Seq<Seq<char>>) -> Seq<(Seq<char>, i64)>
    decreases users.len(),
{
    if users.len() == 0 {
        Seq::empty()
    } else if users.drop_last().contains(users.last()) {
        listed(es, users.drop_last())
    } else {
        match entry_named(es, users.last()) {
            Some(e) => listed(es, users.drop_last()).push(e),
            None => listed(es, users.drop_last()),
        }
    }
}

/// The balances in the order the result page shows them: the names that
/// are not users first, in their order, then the users in the order of
/// `usernames` (a stable sort by the position in `usernames`).
pub fn balance_listing(entries: &Vec<(String, i64)>, usernames: &Vec<String>) -> (r: Vec<(String, i64)>)
    ensures
        entry_views(r@) == unlisted(entry_views(entries@), name_views(usernames@)) + listed(
            entry_views(entries@),
            name_views(usernames@),
        ),
{
    let ghost es = entry_views(entries@);
    let ghost users = name_views(usernames@);
    let mut r: Vec<(String, i64)> = Vec::new();
    for i in 0..entries.len()
        invariant
            es == entry_views(entries@),
            users == name_views(usernames@),
            entry_views(r@) == unlisted(es.take(i as int), users),
    {
        assert(es.take(i + 1).drop_last() =~= es.take(i as int));
        assert(es[i as int] == (entries@[i as int].0@, entries@[i as int].1));
        let known = crate::transaction::contains_text(usernames, &entries[i].0);
        proof {
            if known {
                let j = choose|j: int| 0 <= j < usernames.len() && usernames@[j]@ == entries@[i as int].0@;
                assert(users[j] == entries@[i as int].0@);
            }
            if users.contains(es[i as int].0) {
                let j = choose|j: int| 0 <= j < users.len() && users[j] == es[i as int].0;
                assert(usernames@[j]@ == users[j]);
            }
        }
        if !known {
            let ghost before = r@;
            let name = entries[i].0.clone();
            r.push((name, entries[i].1));
            assert(entry_views(r@) =~= entry_views(before).push(es[i as int]));
        }
    }
    assert(es.take(entries.len() as int) =~= es);
    let ghost first = entry_views(r@);
    for u in 0..usernames.len()
        invariant
            es == entry_views(entries@),
            users == name_views(usernames@),
            entry_views(r@) == first + listed(es, users.take(u as int)),
    {
        assert(users.take(u + 1).drop_last() =~= users.take(u as int));
        assert(users[u as int] == usernames@[u as int]@);
        let mut seen = false;
        for v in 0..u
            invariant
                users == name_views(usernames@),
                u < usernames.len(),
                seen == exists|x: int| 0 <= x < v && users[x] == users[u as int],
        {
            assert(users[v as int] == usernames@[v as int]@);
            if usernames[v] == usernames[u] {
                seen = true;
            }
        }
        assert(seen == users.take(u as int).contains(users[u as int])) by {
            if seen {
                let x = choose|x: int| 0 <= x < u && users[x] == users[u as int];
                assert(users.take(u as int)[x] == users[u as int]);
            }
            if users.take(u as int).contains(users[u as int]) {
                let x = choose|x: int| 0 <= x < u && users.take(u as int)[x] == users[u as int];
                assert(users[x] == users[u as int]);
            }
        }
        if seen {
            assert(users.take(u + 1).last() == users[u as int]);
            assert(first + listed(es, users.take(u + 1)) =~= first + listed(es, users.take(u as int)));
        } else {
            let mut k: usize = 0;
            assert(es.skip(0) =~= es);
            while k < entries.len()
                invariant
                    es == entry_views(entries@),
                    u < usernames.len(),
                    users[u as int] == usernames@[u as int]@,
                    k <= entries.len(),
                    entry_named(es, users[u as int]) == entry_named(es.skip(k as int), users[u as int]),
                ensures
                    k <= entries.len(),
                    entry_named(es, users[u as int]) == entry_named(es.skip(k as int), users[u as int]),
                    k < entries.len() ==> es[k as int].0 == users[u as int],
                decreases entries.len() - k,
            {
                assert(es.skip(k as int)[0] == es[k as int]);
                if entries[k].0 == usernames[u] {
                    break;
                }
                assert(es.skip(k as int).drop_first() =~= es.skip(k + 1));
                k = k + 1;
            }
            if k < entries.len() {
                let ghost before = r@;
                let name = entries[k].0.clone();
                r.push((name, entries[k].1));
                assert(entry_views(r@) =~= entry_views(before).push(es[k as int]));
                assert(es.skip(k as int)[0] == es[k as int]);
                assert(entry_named(es, users[u as int]) == Some(es[k as int]));
                assert(first + listed(es, users.take(u + 1)) =~= first + listed(es, users.take(u as int)).push(es[k as int]));
            } else {
                assert(es.skip(k as int) =~= Seq::<(Seq<char>, i64)>::empty());
            }
        }
    }
    assert(users.take(usernames.len() as int) =~= users);
    r
}

/// No two entries of `es` have the same name.
pub open spec fn distinct_names(es: Seq<(Seq<char>, i64)>) -> bool {
    forall|i: int, j: int| 0 <= i < j < es.len() ==> #[trigger] es[i].0 != #[trigger] es[j].0
}

/// The first entry named `u` is an entry of `es` with that name; there is
/// none only where no entry has that name.
proof fn lemma_entry_named(es: Seq<(Seq<char>, i64)>, u: Seq<char>)
    ensures
        entry_named(es, u) matches Some(e) ==> es.contains(e) && e.0 == u,
        entry_named(es, u) is None ==> forall|i: int| 0 <= i < es.len() ==> #[trigger] es[i].0 != u,
    decreases es.len(),
{
    if es.len() > 0 {
        let rest = es.drop_first();
        lemma_entry_named(rest, u);
        if es[0].0 != u {
            if let Some(e) = entry_named(rest, u) {
                let k = choose|k: int| 0 <= k < rest.len() && rest[k] == e;
                assert(es[k + 1] == e);
            } else {
                assert forall|i: int| 0 <= i < es.len() implies #[trigger] es[i].0 != u by {
                    if i > 0 {
                        assert(es[i] == rest[i - 1]);
                    }
                }
            }
        } else {
            assert(es.contains(es[0]));
        }
    }
}

/// With distinct names, the entry named after an entry's name is that
/// entry.
proof fn lemma_entry_named_is(es: Seq<(Seq<char>, i64)>, x: (Seq<char>, i64))
    requires
        distinct_names(es),
        es.contains(x),
    ensures
        entry_named(es, x.0) == Some(x),
{
    lemma_entry_named(es, x.0);
    let j = choose|j: int| 0 <= j < es.len() && es[j] == x;
    assert(es[j].0 == x.0);
    if let Some(e) = entry_named(es, x.0) {
        let i = choose|i: int| 0 <= i < es.len() && es[i] == e;
        if i < j {
            assert(es[i].0 != es[j].0);
        } else if j < i {
            assert(es[j].0 != es[i].0);
        }
    }
}

/// The unlisted entries are those of `es` whose name is none of `users`,
/// each once where `es` holds it once.
proof fn lemma_unlisted(es: Seq<(Seq<char>, i64)>, users: Seq<Seq<char>>)
    ensures
        forall|x: (Seq<char>, i64)| #[trigger] unlisted(es, users).contains(x) <==> (es.contains(x) && !users.contains(x.0)),
        es.no_duplicates() ==> unlisted(es, users).no_duplicates(),
    decreases es.len(),
{
    if es.len() > 0 {
        let prev = es.drop_last();
        let l = es.last();
        lemma_unlisted(prev, users);
        let up = unlisted(prev, users);
        assert forall|x: (Seq<char>, i64)| es.contains(x) <==> (prev.contains(x) || x == l) by {
            if es.contains(x) {
                let k = choose|k: int| 0 <= k < es.len() && es[k] == x;
                if k < es.len() - 1 {
                    assert(prev[k] == x);
                }
            }
            if prev.contains(x) {
                let k = choose|k: int| 0 <= k < prev.len() && prev[k] == x;
                assert(es[k] == x);
            }
            if x == l {
                assert(es[es.len() - 1] == x);
            }
        }
        assert forall|x: (Seq<char>, i64)| #[trigger] unlisted(es, users).contains(x) <==> (es.contains(x) && !users.contains(x.0)) by {
            assert(up.contains(x) <==> (prev.contains(x) && !users.contains(x.0)));
            if !users.contains(l.0) {
                assert(unlisted(es, users) == up.push(l));
                if up.push(l).contains(x) {
                    let k = choose|k: int| 0 <= k < up.push(l).len() && up.push(l)[k] == x;
                    if k < up.len() {
                        assert(up[k] == x);
                    }
                }
                if up.contains(x) {
                    let k = choose|k: int| 0 <= k < up.len() && up[k] == x;
                    assert(up.push(l)[k] == x);
                }
                if x == l {
                    assert(up.push(l)[up.len() as int] == x);
                }
            }
        }
        if !users.contains(l.0) {
            assert forall|x: (Seq<char>, i64)| up.push(l).contains(x) <==> (up.contains(x) || x == l) by {
                if up.push(l).contains(x) {
                    let k = choose|k: int| 0 <= k < up.push(l).len() && up.push(l)[k] == x;
                    if k < up.len() {
                        assert(up[k] == x);
                    }
                }
                if up.contains(x) {
                    let k = choose|k: int| 0 <= k < up.len() && up[k] == x;
                    assert(up.push(l)[k] == x);
                }
                if x == l {
                    assert(up.push(l)[up.len() as int] == x);
                }
            }
            if es.no_duplicates() {
                assert(prev.no_duplicates()) by {
                    assert forall|i: int, j: int| 0 <= i < prev.len() && 0 <= j < prev.len() && i != j implies prev[i] != prev[j] by {
                        assert(prev[i] == es[i] && prev[j] == es[j]);
                    }
                }
                assert(!prev.contains(l)) by {
                    if prev.contains(l) {
                        let k = choose|k: int| 0 <= k < prev.len() && prev[k] == l;
                        assert(es[k] == es[es.len() - 1]);
                    }
                }
                assert(!up.contains(l));
                assert forall|i: int, j: int| 0 <= i < up.push(l).len() && 0 <= j < up.push(l).len() && i != j
                    implies up.push(l)[i] != up.push(l)[j] by {
                    if i < up.len() && j < up.len() {
                        assert(up.push(l)[i] == up[i] && up.push(l)[j] == up[j]);
                    } else if i < up.len() {
                        assert(up.push(l)[i] == up[i]);
                        assert(up.contains(up[i]));
                    } else if j < up.len() {
                        assert(up.push(l)[j] == up[j]);
                        assert(up.contains(up[j]));
                    }
                }
            }
        } else {
            if es.no_duplicates() {
                assert(prev.no_duplicates()) by {
                    assert forall|i: int, j: int| 0 <= i < prev.len() && 0 <= j < prev.len() && i != j implies prev[i] != prev[j] by {
                        assert(prev[i] == es[i] && prev[j] == es[j]);
                    }
                }
            }
        }
    }
}

/// What a sequence holds after a push.
proof fn lemma_push_contains<A>(s: Seq<A>, a: A)
    ensures
        forall|x: A| #[trigger] s.push(a).contains(x) <==> (s.contains(x) || x == a),
        s.no_duplicates() && !s.contains(a) ==> s.push(a).no_duplicates(),
{
    assert forall|x: A| #[trigger] s.push(a).contains(x) <==> (s.contains(x) || x == a) by {
        if s.push(a).contains(x) {
            let k = choose|k: int| 0 <= k < s.push(a).len() && s.push(a)[k] == x;
            if k < s.len() {
                assert(s[k] == x);
            }
        }
        if s.contains(x) {
            let k = choose|k: int| 0 <= k < s.len() && s[k] == x;
            assert(s.push(a)[k] == x);
        }
        if x == a {
            assert(s.push(a)[s.len() as int] == x);
        }
    }
    if s.no_duplicates() && !s.contains(a) {
        assert forall|i: int, j: int| 0 <= i < s.push(a).len() && 0 <= j < s.push(a).len() && i != j
            implies s.push(a)[i] != s.push(a)[j] by {
            if i < s.len() {
                assert(s.push(a)[i] == s[i]);
                assert(s.contains(s[i]));
            }
            if j < s.len() {
                assert(s.push(a)[j] == s[j]);
                assert(s.contains(s[j]));
            }
        }
    }
}

/// With distinct names, the listed entries are those of `es` named after
/// one of `users`, each once.
proof fn lemma_listed(es: Seq<(Seq<char>, i64)>, users: Seq<Seq<char>>)
    requires
        distinct_names(es),
    ensures
        forall|x: (Seq<char>, i64)| #[trigger] listed(es, users).contains(x) <==> (es.contains(x) && users.contains(x.0)),
        listed(es, users).no_duplicates(),
        forall|i: int| 0 <= i < listed(es, users).len() ==> users.contains(#[trigger] listed(es, users)[i].0),
    decreases users.len(),
{
    if users.len() > 0 {
        let prev = users.drop_last();
        let v = users.last();
        lemma_listed(es, prev);
        let lp = listed(es, prev);
        lemma_push_contains(prev, v);
        assert(prev.push(v) =~= users);
        assert forall|i: int| 0 <= i < lp.len() implies users.contains(#[trigger] lp[i].0) by {
            assert(prev.contains(lp[i].0));
        }
        if prev.contains(v) {
            assert forall|x: (Seq<char>, i64)| #[trigger] listed(es, users).contains(x) <==> (es.contains(x) && users.contains(x.0)) by {
                assert(lp.contains(x) <==> (es.contains(x) && prev.contains(x.0)));
            }
        } else {
            lemma_entry_named(es, v);
            match entry_named(es, v) {
                Some(e) => {
                    lemma_push_contains(lp, e);
                    assert(!lp.contains(e));
                    assert forall|x: (Seq<char>, i64)| #[trigger] listed(es, users).contains(x) <==> (es.contains(x) && users.contains(x.0)) by {
                        assert(lp.contains(x) <==> (es.contains(x) && prev.contains(x.0)));
                        if es.contains(x) && x.0 == v {
                            lemma_entry_named_is(es, x);
                        }
                    }
                    assert forall|i: int| 0 <= i < listed(es, users).len() implies users.contains(#[trigger] listed(es, users)[i].0) by {
                        if i < lp.len() {
                            assert(listed(es, users)[i] == lp[i]);
                        }
                    }
                },
                None => {
                    assert forall|x: (Seq<char>, i64)| #[trigger] listed(es, users).contains(x) <==> (es.contains(x) && users.contains(x.0)) by {
                        assert(lp.contains(x) <==> (es.contains(x) && prev.contains(x.0)));
                        if es.contains(x) && x.0 == v {
                            let k = choose|k: int| 0 <= k < es.len() && es[k] == x;
                            assert(es[k].0 != v);
                        }
                    }
                },
            }
        }
    }
}

/// Where the name `x` first stands in `users`; -1 where it does not.
pub open spec fn first_pos(users: Seq<Seq<char>>, x: Seq<char>) -> int
    decreases users.len(),
{
    if users.len() == 0 {
        -1
    } else if users.drop_last().contains(x) {
        first_pos(users.drop_last(), x)
    } else if users.last() == x {
        users.len() - 1
    } else {
        -1
    }
}

proof fn lemma_first_pos(users: Seq<Seq<char>>, x: Seq<char>)
    ensures
        users.contains(x) ==> 0 <= first_pos(users, x) < users.len() && users[first_pos(users, x)] == x,
        !users.contains(x) ==> first_pos(users, x) == -1,
    decreases users.len(),
{
    if users.len() > 0 {
        let prev = users.drop_last();
        lemma_first_pos(prev, x);
        lemma_push_contains(prev, users.last());
        assert(prev.push(users.last()) =~= users);
        if prev.contains(x) {
            assert(users[first_pos(prev, x)] == prev[first_pos(prev, x)]);
        }
    }
}

/// The listed entries come in the order of their names' first places in
/// `users`.
proof fn lemma_listed_order(es: Seq<(Seq<char>, i64)>, users: Seq<Seq<char>>)
    requires
        distinct_names(es),
    ensures
        forall|i: int, j: int|
            0 <= i < j < listed(es, users).len() ==> first_pos(users, (#[trigger] listed(es, users)[i]).0) < first_pos(
                users,
                (#[trigger] listed(es, users)[j]).0,
            ),
    decreases users.len(),
{
    if users.len() > 0 {
        let prev = users.drop_last();
        let v = users.last();
        lemma_listed_order(es, prev);
        lemma_listed(es, prev);
        let lp = listed(es, prev);
        assert forall|i: int| 0 <= i < lp.len() implies first_pos(users, #[trigger] lp[i].0) == first_pos(prev, lp[i].0)
            && 0 <= first_pos(prev, lp[i].0) < prev.len() by {
            assert(prev.contains(lp[i].0));
            lemma_first_pos(prev, lp[i].0);
        }
        if !prev.contains(v) {
            lemma_entry_named(es, v);
            if let Some(e) = entry_named(es, v) {
                assert(first_pos(users, e.0) == users.len() - 1);
                let l = listed(es, users);
                assert(l == lp.push(e));
                assert forall|i: int, j: int| 0 <= i < j < l.len() implies first_pos(users, (#[trigger] l[i]).0) < first_pos(
                    users,
                    (#[trigger] l[j]).0,
                ) by {
                    assert(l[i] == lp[i]);
                    if j < lp.len() {
                        assert(l[j] == lp[j]);
                    }
                }
            }
        }
    }
}

/// The result page lists every balance exactly once: with distinct names,
/// the listing holds the same entries as `es`, as many of them, and puts
/// the names that are no user before those of users, which come in the
/// order of `users`.
pub proof fn law_listing_permutation(es: Seq<(Seq<char>, i64)>, users: Seq<Seq<char>>)
    requires
        distinct_names(es),
    ensures
        (unlisted(es, users) + listed(es, users)).len() == es.len(),
        forall|x: (Seq<char>, i64)| #[trigger] (unlisted(es, users) + listed(es, users)).contains(x) <==> es.contains(x),
        forall|i: int, j: int|
            0 <= i < j < es.len() && users.contains((#[trigger] (unlisted(es, users) + listed(es, users))[i]).0)
                ==> users.contains((#[trigger] (unlisted(es, users) + listed(es, users))[j]).0) && first_pos(
                users,
                (unlisted(es, users) + listed(es, users))[i].0,
            ) < first_pos(users, (unlisted(es, users) + listed(es, users))[j].0),
{
    let a = unlisted(es, users);
    let b = listed(es, users);
    let l = a + b;
    assert(es.no_duplicates()) by {
        assert forall|i: int, j: int| 0 <= i < es.len() && 0 <= j < es.len() && i != j implies es[i] != es[j] by {
            if i < j {
                assert(es[i].0 != es[j].0);
            } else {
                assert(es[j].0 != es[i].0);
            }
        }
    }
    lemma_unlisted(es, users);
    lemma_listed(es, users);
    assert forall|x: (Seq<char>, i64)| #[trigger] l.contains(x) <==> es.contains(x) by {
        if l.contains(x) {
            let k = choose|k: int| 0 <= k < l.len() && l[k] == x;
            if k < a.len() {
                assert(a[k] == x);
                assert(a.contains(x));
            } else {
                assert(b[k - a.len()] == x);
                assert(b.contains(x));
            }
        }
        if es.contains(x) {
            if users.contains(x.0) {
                assert(b.contains(x));
                let k = choose|k: int| 0 <= k < b.len() && b[k] == x;
                assert(l[k + a.len()] == x);
            } else {
                assert(a.contains(x));
                let k = choose|k: int| 0 <= k < a.len() && a[k] == x;
                assert(l[k] == x);
            }
        }
    }
    assert forall|i: int| 0 <= i < l.len() implies (i < a.len() <==> !users.contains(#[trigger] l[i].0)) by {
        if i < a.len() {
            assert(l[i] == a[i]);
            assert(a.contains(a[i]));
        } else {
            assert(l[i] == b[i - a.len()]);
        }
    }
    assert(l.no_duplicates()) by {
        assert forall|i: int, j: int| 0 <= i < l.len() && 0 <= j < l.len() && i != j implies l[i] != l[j] by {
            if i < a.len() && j < a.len() {
                assert(l[i] == a[i] && l[j] == a[j]);
            } else if i >= a.len() && j >= a.len() {
                assert(l[i] == b[i - a.len()] && l[j] == b[j - a.len()]);
            } else {
                assert(users.contains(l[i].0) != users.contains(l[j].0));
            }
        }
    }
    l.unique_seq_to_set();
    es.unique_seq_to_set();
    assert(l.to_set() =~= es.to_set());
    lemma_listed_order(es, users);
    assert forall|i: int, j: int| 0 <= i < j < es.len() && users.contains((#[trigger] l[i]).0) implies users.contains(
        (#[trigger] l[j]).0,
    ) && first_pos(users, l[i].0) < first_pos(users, l[j].0) by {
        assert(i >= a.len());
        assert(l[i] == b[i - a.len()] && l[j] == b[j - a.len()]);
    }
}

} // verus!
