use receipt_splitter::receipt::{Item, Receipt};
use receipt_splitter::split::{split_receipt, SplitError};
use receipt_splitter::transaction::TransactionMeta;

fn form(fields: &[(&str, &str)]) -> Vec<(String, String)> {
    fields.iter().map(|(k, v)| (k.to_string(), v.to_string())).collect()
}

fn receipt(totals: &[u64]) -> Receipt {
    let mut r = Receipt::default();
    for t in totals {
        let mut it = Item::default();
        it.total = *t;
        r.items.push(it);
    }
    r
}

fn amount(tr: &receipt_splitter::transaction::Transaction, who: &str) -> i64 {
    tr.balance_changes.get(&who.to_owned())
}

#[test]
fn shared_items_are_split_equally() {
    let rec = receipt(&[300, 100]);
    let f = form(&[
        ("fn", "77"),
        ("username", "ann"),
        ("ann$0", "on"),
        ("bob$0", "on"),
        ("cid$0", "on"),
        ("bob$1", "on"),
    ]);
    let tr = split_receipt(&f, &rec, &"77".to_owned(), &"ann".to_owned()).unwrap();
    assert_eq!(amount(&tr, "bob"), -200);
    assert_eq!(amount(&tr, "cid"), -100);
    assert_eq!(amount(&tr, "ann"), 300);
    assert_eq!(tr.balance_changes.len(), 3);
    match &tr.meta {
        Some(TransactionMeta::Receipt { fiscal_number, paid }) => {
            assert_eq!(fiscal_number, "77");
            assert_eq!(
                paid,
                &vec![("ann".to_owned(), vec![0]), ("bob".to_owned(), vec![0, 1]), ("cid".to_owned(), vec![0])]
            );
        },
        _ => panic!("expected a receipt"),
    }
}

#[test]
fn items_with_the_same_people_are_summed_before_dividing() {
    // 1 + 1 kopecks shared by two: 2 / 2 = 1 each, not 1/2 + 1/2 = 0
    let rec = receipt(&[1, 1]);
    let f = form(&[("ann$0", "on"), ("bob$0", "on"), ("bob$1", "true"), ("ann$1", "1")]);
    let tr = split_receipt(&f, &rec, &"9".to_owned(), &"ann".to_owned()).unwrap();
    assert_eq!(amount(&tr, "bob"), -1);
    assert_eq!(amount(&tr, "ann"), 1);
}

#[test]
fn unticked_and_malformed_fields_are_ignored() {
    let rec = receipt(&[500]);
    let f = form(&[
        ("bob$0", "off"),
        ("cid$0", ""),
        ("dan$0", "0"),
        ("eve$0", "false"),
        ("fay$x", "on"),
        ("gus", "on"),
    ]);
    let tr = split_receipt(&f, &rec, &"1".to_owned(), &"ann".to_owned()).unwrap();
    assert!(tr.balance_changes.is_empty());
}

#[test]
fn positions_past_the_receipt_cost_nothing() {
    let rec = receipt(&[500]);
    let f = form(&[("bob$3", "on")]);
    let tr = split_receipt(&f, &rec, &"1".to_owned(), &"ann".to_owned()).unwrap();
    assert!(tr.balance_changes.is_empty());
    match &tr.meta {
        Some(TransactionMeta::Receipt { paid, .. }) => assert_eq!(paid, &vec![("bob".to_owned(), vec![3])]),
        _ => panic!("expected a receipt"),
    }
}

#[test]
fn shares_round_down() {
    let rec = receipt(&[100]);
    let f = form(&[("ann$0", "on"), ("bob$0", "on"), ("cid$0", "on")]);
    let tr = split_receipt(&f, &rec, &"1".to_owned(), &"ann".to_owned()).unwrap();
    assert_eq!(amount(&tr, "bob"), -33);
    assert_eq!(amount(&tr, "cid"), -33);
    assert_eq!(amount(&tr, "ann"), 66);
}

#[test]
fn the_payer_alone_pays_nobody() {
    let rec = receipt(&[u64::MAX]);
    let f = form(&[("ann$0", "on")]);
    let tr = split_receipt(&f, &rec, &"1".to_owned(), &"ann".to_owned()).unwrap();
    assert!(tr.balance_changes.is_empty());
}

#[test]
fn too_large_totals_are_refused() {
    let rec = receipt(&[u64::MAX, 1]);
    let f = form(&[("bob$0", "on"), ("bob$1", "on")]);
    assert_eq!(split_receipt(&f, &rec, &"1".to_owned(), &"ann".to_owned()).unwrap_err(), SplitError::TooLarge);
    let big = receipt(&[u64::MAX]);
    let g = form(&[("bob$0", "on")]);
    assert_eq!(split_receipt(&g, &big, &"1".to_owned(), &"ann".to_owned()).unwrap_err(), SplitError::TooLarge);
}
