use receipt_splitter::ledger::Balances;
use receipt_splitter::transaction::{replay, Transaction, TransactionMeta};

fn s(x: &str) -> String {
    x.to_owned()
}

fn sorted(b: &Balances) -> Vec<(String, i64)> {
    let mut v = b.to_vec();
    v.sort();
    v
}

#[test]
fn add_subtract_and_get() {
    let mut b = Balances::new();
    assert!(b.is_empty());
    b.add(&s("ann"), 500);
    b.subtract(&s("bob"), 200);
    b.add(&s("ann"), -100);
    assert_eq!(b.get(&s("ann")), 400);
    assert_eq!(b.get(&s("bob")), -200);
    assert_eq!(b.get(&s("cid")), 0);
    assert_eq!(b.len(), 2);
}

#[test]
fn zero_entries_are_dropped() {
    let mut b = Balances::new();
    b.add(&s("ann"), 5);
    b.add(&s("bob"), 0);
    b.add(&s("ann"), -5);
    b.add(&s("cid"), 7);
    b.retain_nonzero();
    assert_eq!(sorted(&b), vec![(s("cid"), 7)]);
    b.retain_nonzero();
    assert_eq!(sorted(&b), vec![(s("cid"), 7)]);
}

#[test]
fn applying_adds_amounts_and_drops_zeros() {
    let mut bal = Balances::new();
    bal.add(&s("ann"), 100);
    bal.add(&s("bob"), -100);
    let mut ch = Balances::new();
    ch.add(&s("ann"), -100);
    ch.add(&s("cid"), 100);
    assert!(bal.can_apply(&ch));
    bal.apply(&ch);
    assert_eq!(sorted(&bal), vec![(s("bob"), -100), (s("cid"), 100)]);
}

#[test]
fn applying_in_either_order_agrees() {
    let mut a = Balances::new();
    a.add(&s("ann"), 30);
    a.add(&s("bob"), -30);
    let mut b = Balances::new();
    b.add(&s("bob"), 30);
    b.add(&s("cid"), -30);
    let mut x = Balances::new();
    x.apply(&a);
    x.apply(&b);
    let mut y = Balances::new();
    y.apply(&b);
    y.apply(&a);
    assert_eq!(sorted(&x), sorted(&y));
    assert_eq!(sorted(&x), vec![(s("ann"), 30), (s("cid"), -30)]);
}

#[test]
fn overflowing_changes_are_refused() {
    let mut bal = Balances::new();
    bal.add(&s("ann"), i64::MAX);
    let mut ch = Balances::new();
    ch.add(&s("ann"), 1);
    assert!(!bal.can_apply(&ch));
    let mut ok = Balances::new();
    ok.add(&s("ann"), -1);
    assert!(bal.can_apply(&ok));
}

#[test]
fn paying_back_restores_everything() {
    let mut t = Transaction::new(None);
    t.pay("ann", "bob", 250);
    assert_eq!(t.balance_changes.get(&s("ann")), -250);
    assert_eq!(t.balance_changes.get(&s("bob")), 250);
    t.pay("bob", "ann", 250);
    t.finalize();
    assert!(t.balance_changes.is_empty());
}

#[test]
fn paying_oneself_changes_nothing() {
    let mut t = Transaction::new(Some(TransactionMeta::Comment(s("x"))));
    t.pay("ann", "ann", 10);
    t.finalize();
    assert!(t.balance_changes.is_empty());
    assert!(!t.is_noop());
}

#[test]
fn payment_overflow_is_detected() {
    let t = Transaction::new(None);
    assert!(!t.can_pay("ann", "bob", i64::MIN));
    assert!(t.can_pay("ann", "bob", i64::MAX));
    assert!(t.can_pay("ann", "ann", -5));
}

#[test]
fn empty_transaction_without_purpose_is_noop() {
    let mut t = Transaction::new(None);
    assert!(t.is_noop());
    t.pay("a", "b", 1);
    assert!(!t.is_noop());
}

#[test]
fn stamping_notes_the_balances() {
    let mut bal = Balances::new();
    bal.add(&s("ann"), 3);
    let mut t = Transaction::new(None);
    t.stamp(&bal);
    assert_eq!(sorted(t.prev_state.as_ref().unwrap()), vec![(s("ann"), 3)]);
}

#[test]
fn replay_adds_up_transactions_and_receipts() {
    let mut t1 = Transaction::new(Some(TransactionMeta::Receipt { fiscal_number: s("77"), paid: vec![] }));
    t1.pay("bob", "ann", 40);
    let mut t2 = Transaction::new(Some(TransactionMeta::Comment(s("back"))));
    t2.pay("ann", "bob", 40);
    t2.pay("cid", "ann", 5);
    let mut t3 = Transaction::new(Some(TransactionMeta::Receipt { fiscal_number: s("77"), paid: vec![] }));
    t3.pay("bob", "cid", 1);
    let (bal, receipts) = replay(&vec![t1, t2, t3]).unwrap();
    let mut v = bal.to_vec();
    v.sort();
    assert_eq!(v, vec![(s("ann"), 5), (s("bob"), -1), (s("cid"), -4)]);
    assert_eq!(receipts, vec![s("77")]);
}

#[test]
fn replay_overflow_is_refused() {
    let mut t1 = Transaction::new(None);
    t1.pay("bob", "ann", i64::MAX);
    let mut t2 = Transaction::new(None);
    t2.pay("bob", "ann", 1);
    assert!(replay(&vec![t1, t2]).is_none());
}

#[test]
fn replay_order_does_not_matter() {
    let make = || {
        let mut t1 = Transaction::new(None);
        t1.pay("bob", "ann", 40);
        let mut t2 = Transaction::new(None);
        t2.pay("ann", "cid", 15);
        let mut t3 = Transaction::new(None);
        t3.pay("cid", "bob", 40);
        (t1, t2, t3)
    };
    let (a1, a2, a3) = make();
    let (b1, b2, b3) = make();
    let (x, _) = replay(&vec![a1, a2, a3]).unwrap();
    let (y, _) = replay(&vec![b3, b1, b2]).unwrap();
    assert_eq!(sorted(&x), sorted(&y));
    assert_eq!(sorted(&x), vec![(s("ann"), 25), (s("cid"), -25)]);
}

#[test]
fn recorded_total_is_conserved() {
    let mut bal = Balances::new();
    let mut t = Transaction::new(None);
    t.pay("ann", "bob", 70);
    t.pay("cid", "bob", 30);
    bal.apply(&t.balance_changes);
    let sum: i64 = bal.to_vec().iter().map(|(_, v)| v).sum();
    assert_eq!(sum, 0);
}
