//! Direct payments between people (`POST /api/pay`): one person pays
//! another, or everybody shares an expense that one person paid.

use vstd::prelude::*;

use crate::ledger::{amount, fits_i64, law_nonzero, nonzero, paid};
use crate::split::others;
use crate::numbers::{parse_i64_of, parse_signed};
use crate::text::chars_of;
use crate::transaction::{can_pay, Transaction, TransactionMeta};

verus! {

/// Form fields as (name, value), as a browser submits them.
pub open spec fn form_view(f: Seq<(String, String)>) -> Seq<(Seq<char>, Seq<char>)> {
    f.map_values(|e: (String, String)| (e.0@, e.1@))
}

/// The value of the first field of `f` named `key`.
pub open spec fn form_value(f: Seq<(Seq<char>, Seq<char>)>, key: Seq<char>) -> Option<Seq<char>>
    decreases f.len(),
{
    if f.len() == 0 {
        None
    } else if f[0].0 == key {
        Some(f[0].1)
    } else {
        form_value(f.drop_first(), key)
    }
}

/// The value of the first field of `form` named `key`.
pub fn form_get(form: &Vec<(String, String)>, key: &str) -> (r: Option<String>)
    ensures
        r matches Some(v) ==> form_value(form_view(form@), key@) == Some(v@),
        r is None ==> form_value(form_view(form@), key@) is None,
{
    let k = key.to_owned();
    let ghost f = form_view(form@);
    let mut i: usize = 0;
    assert(f.skip(0) =~= f);
    while i < form.len()
        invariant
            f == form_view(form@),
            i <= form.len(),
            k@ == key@,
            form_value(f, key@) == form_value(f.skip(i as int), key@),
        decreases form.len() - i,
    {
        assert(f.skip(i as int)[0] == f[i as int]);
        if form[i].0 == k {
            return Some(form[i].1.clone());
        }
        assert(f.skip(i as int).drop_first() =~= f.skip(i + 1));
        i = i + 1;
    }
    None
}

/// `a / b` rounded toward zero, as Rust divides integers.
pub open spec fn trunc_div(a: int, b: int) -> int {
    if a >= 0 {
        a / b
    } else {
        -((-a) / b)
    }
}

/// `m` after each of `users` other than `to` pays `share` to `to`, in
/// order; `None` where an amount would leave `i64` on the way.
pub open spec fn shared(
    m: Map<Seq<char>, int>,
    users: Seq<Seq<char>>,
    to: Seq<char>,
    share: int,
) -> Option<Map<Seq<char>, int>>
    decreases users.len(),
{
    if users.len() == 0 {
        Some(m)
    } else {
        match shared(m, users.drop_last(), to, share) {
            Some(m1) => if users.last() == to {
                Some(m1)
            } else if can_pay(m1, users.last(), to, share) {
                Some(paid(m1, users.last(), to, share))
            } else {
                None
            },
            None => None,
        }
    }
}

/// Why a payment form was refused.
#[derive(Clone, Copy, Debug, PartialEq, Eq, Structural)]
pub enum PayError {
    /// There is no `to` field.
    MissingTo,
    /// There is no `amount` field.
    MissingAmount,
    /// The amount is no `i64`, or is 0.
    InvalidAmount,
    /// An amount of the transaction would leave `i64`.
    Overflow,
}

/// The names of a list of strings.
pub open spec fn names(v: Seq<String>) -> Seq<Seq<char>> {
    v.map_values(|s: String| s@)
}

/// The changes that the payment form `f` asks for, or why it is refused:
/// `from` pays `amount` to `to`; without `from`, every user but `to` pays
/// `to` the amount divided by the number of users.
pub open spec fn payment_changes(f: Seq<(Seq<char>, Seq<char>)>, users: Seq<Seq<char>>) -> Result<
    Map<Seq<char>, int>,
    PayError,
> {
    match form_value(f, "to"@) {
        None => Err(PayError::MissingTo),
        Some(to) => match form_value(f, "amount"@) {
            None => Err(PayError::MissingAmount),
            Some(a) => match parse_signed(a) {
                None => Err(PayError::InvalidAmount),
                Some(amt) => if amt == 0 {
                    Err(PayError::InvalidAmount)
                } else {
                    match form_value(f, "from"@) {
                        Some(from) => if can_pay(Map::empty(), from, to, amt) {
                            Ok(nonzero(paid(Map::empty(), from, to, amt)))
                        } else {
                            Err(PayError::Overflow)
                        },
                        None => match shared(Map::empty(), users, to, trunc_div(amt, users.len() as int)) {
                            Some(m) => Ok(nonzero(m)),
                            None => Err(PayError::Overflow),
                        },
                    }
                },
            },
        },
    }
}

/// The transaction that the payment form `form` asks for, with the form's
/// `comment` as its purpose.
pub fn plan_payment(form: &Vec<(String, String)>, usernames: &Vec<String>) -> (r: Result<
    Transaction,
    PayError,
>)
    requires
        usernames.len() <= i64::MAX,
    ensures
        match payment_changes(form_view(form@), names(usernames@)) {
            Ok(m) => r matches Ok(tr) && tr.balance_changes.wf() && tr.balance_changes@ == m
                && tr.balance_changes.total() == 0 && tr.prev_state is None && match form_value(
                form_view(form@),
                "comment"@,
            ) {
                Some(c) => tr.meta matches Some(TransactionMeta::Comment(x)) && x@ == c,
                None => tr.meta is None,
            },
            Err(e) => r == Err::<Transaction, PayError>(e),
        },
{
    let meta = match form_get(form, "comment") {
        Some(c) => Some(TransactionMeta::Comment(c)),
        None => None,
    };
    let to = match form_get(form, "to") {
        Some(t) => t,
        None => {
            return Err(PayError::MissingTo);
        },
    };
    let a = match form_get(form, "amount") {
        Some(a) => a,
        None => {
            return Err(PayError::MissingAmount);
        },
    };
    let amt = match parse_i64_of(&chars_of(a.as_str())) {
        Some(x) => x,
        None => {
            return Err(PayError::InvalidAmount);
        },
    };
    if amt == 0 {
        return Err(PayError::InvalidAmount);
    }
    match form_get(form, "from") {
        Some(from) => {
            let mut tr = Transaction::new(meta);
            if !tr.can_pay(from.as_str(), to.as_str(), amt) {
                return Err(PayError::Overflow);
            }
            tr.pay(from.as_str(), to.as_str(), amt);
            tr.finalize();
            Ok(tr)
        },
        None => {
            let mut tr = Transaction::new(meta);
            let n = usernames.len();
            let ghost users = names(usernames@);
            let ghost share = trunc_div(amt as int, n as int);
            #[verifier::loop_isolation(false)]
            for i in 0..n
                invariant
                    n == usernames.len(),
                    n <= i64::MAX,
                    users == names(usernames@),
                    share == trunc_div(amt as int, n as int),
                    tr.balance_changes.wf(),
                    tr.balance_changes.total() == 0,
                    tr.prev_state is None,
                    shared(Map::empty(), users.take(i as int), to@, share) == Some(
                        tr.balance_changes@,
                    ),
                    tr.meta == meta,
            {
                assert(users.take(i + 1).drop_last() =~= users.take(i as int));
                assert(users[i as int] == usernames@[i as int]@);
                if usernames[i] != to {
                    let q: i128 = if amt >= 0 {
                        amt as i128 / n as i128
                    } else {
                        0 - ((0 - amt as i128) / n as i128)
                    };
                    assert(q == share);
                    assert(fits_i64(q as int)) by {
                        if amt >= 0 {
                            assert(0 <= (amt as int) / (n as int) <= amt) by (nonlinear_arith)
                                requires
                                    amt >= 0,
                                    n >= 1,
                            ;
                        } else {
                            assert(0 <= (-(amt as int)) / (n as int) <= -(amt as int)) by (nonlinear_arith)
                                requires
                                    amt < 0,
                                    n >= 1,
                            ;
                        }
                    }
                    let share_now = q as i64;
                    if !tr.can_pay(usernames[i].as_str(), to.as_str(), share_now) {
                        proof {
                            assert(shared(Map::empty(), users.take(i + 1), to@, share) is None);
                            lemma_shared_stays_none(users, i as int + 1, to@, share);
                        }
                        return Err(PayError::Overflow);
                    }
                    tr.pay(usernames[i].as_str(), to.as_str(), share_now);
                }
            }
            assert(users.take(n as int) =~= users);
            tr.finalize();
            Ok(tr)
        },
    }
}

/// Once a payment leaves `i64`, so does the whole series.
proof fn lemma_shared_stays_none(users: Seq<Seq<char>>, k: int, to: Seq<char>, share: int)
    requires
        0 <= k <= users.len(),
        shared(Map::empty(), users.take(k), to, share) is None,
    ensures
        shared(Map::empty(), users, to, share) is None,
    decreases users.len() - k,
{
    if k == users.len() {
        assert(users.take(k) =~= users);
    } else {
        assert(users.take(k + 1).drop_last() =~= users.take(k));
        lemma_shared_stays_none(users, k + 1, to, share);
    }
}

/// Sharing an expense: each of the (distinct) `users` other than `to` pays
/// `to` the share, so each of them has `share` less, `to` has `share` more
/// for each of them, and nobody else's amount changes.
pub proof fn law_shared_amounts(m: Map<Seq<char>, int>, users: Seq<Seq<char>>, to: Seq<char>, share: int)
    requires
        users.no_duplicates(),
    ensures
        shared(m, users, to, share) matches Some(m2) ==> forall|u: Seq<char>| #[trigger] amount(m2, u) == amount(m, u) + if u == to {
            share * others(users, to)
        } else if users.contains(u) {
            -share
        } else {
            0
        },
    decreases users.len(),
{
    if users.len() > 0 {
        let prev = users.drop_last();
        let l = users.last();
        assert(prev.no_duplicates());
        law_shared_amounts(m, prev, to, share);
        assert(!prev.contains(l));
        assert forall|u: Seq<char>| u != l implies (users.contains(u) == prev.contains(u)) by {
            if users.contains(u) {
                let j = choose|j: int| 0 <= j < users.len() && users[j] == u;
                assert(j < users.len() - 1);
                assert(prev[j] == u);
            }
            if prev.contains(u) {
                let j = choose|j: int| 0 <= j < prev.len() && prev[j] == u;
                assert(users[j] == u);
            }
        }
        assert(users.contains(l)) by {
            assert(users[users.len() - 1] == l);
        }
        let o = others(prev, to);
        assert(share * (o + 1) == share * o + share) by (nonlinear_arith);
        if let Some(m2) = shared(m, users, to, share) {
            let m1 = shared(m, prev, to, share).unwrap();
            assert forall|u: Seq<char>| #[trigger] amount(m2, u) == amount(m, u) + if u == to {
                share * others(users, to)
            } else if users.contains(u) {
                -share
            } else {
                0
            } by {
                assert(amount(m1, u) == amount(m, u) + if u == to {
                    share * o
                } else if prev.contains(u) {
                    -share
                } else {
                    0
                });
                if l == to {
                    assert(others(users, to) == o);
                } else {
                    assert(others(users, to) == o + 1);
                    assert(m2 == paid(m1, l, to, share));
                }
            }
        }
    }
}

/// A shared expense (a form without `from`): every user other than `to`
/// pays `to` the amount divided by the number of users (rounded toward
/// zero), `to` gains that share for each of them, and nobody else takes
/// part.
pub proof fn law_shared_payment(f: Seq<(Seq<char>, Seq<char>)>, users: Seq<Seq<char>>)
    requires
        users.no_duplicates(),
        form_value(f, "from"@) is None,
    ensures
        payment_changes(f, users) matches Ok(m) ==> match (form_value(f, "to"@), form_value(f, "amount"@)) {
            (Some(to), Some(a)) => match parse_signed(a) {
                Some(amt) => {
                    &&& forall|u: Seq<char>| users.contains(u) && u != to ==> #[trigger] amount(m, u) == -trunc_div(amt, users.len() as int)
                    &&& forall|u: Seq<char>| !users.contains(u) && u != to ==> #[trigger] amount(m, u) == 0
                    &&& amount(m, to) == trunc_div(amt, users.len() as int) * others(users, to)
                },
                None => false,
            },
            _ => false,
        },
{
    if let Ok(m) = payment_changes(f, users) {
        let to = form_value(f, "to"@).unwrap();
        let amt = parse_signed(form_value(f, "amount"@).unwrap()).unwrap();
        let share = trunc_div(amt, users.len() as int);
        let m2 = shared(Map::empty(), users, to, share).unwrap();
        law_shared_amounts(Map::empty(), users, to, share);
        law_nonzero(m2);
        assert(m == nonzero(m2));
    }
}

/// A direct payment (a form with `from`): `from` has the amount less, `to`
/// the amount more, and nobody else's amount changes; paying oneself
/// changes nothing.
pub proof fn law_direct_payment(f: Seq<(Seq<char>, Seq<char>)>, users: Seq<Seq<char>>)
    ensures
        payment_changes(f, users) matches Ok(m) ==> match (
            form_value(f, "from"@),
            form_value(f, "to"@),
            form_value(f, "amount"@),
        ) {
            (Some(from), Some(to), Some(a)) => match parse_signed(a) {
                Some(amt) => {
                    &&& from != to ==> amount(m, from) == -amt && amount(m, to) == amt
                    &&& from == to ==> amount(m, from) == 0
                    &&& forall|u: Seq<char>| u != from && u != to ==> #[trigger] amount(m, u) == 0
                },
                None => false,
            },
            (None, _, _) => true,
            _ => false,
        },
{
    if let Ok(m) = payment_changes(f, users) {
        if let Some(from) = form_value(f, "from"@) {
            let to = form_value(f, "to"@).unwrap();
            let amt = parse_signed(form_value(f, "amount"@).unwrap()).unwrap();
            let p = paid(Map::empty(), from, to, amt);
            law_nonzero(p);
            assert(m == nonzero(p));
        }
    }
}

} // verus!
