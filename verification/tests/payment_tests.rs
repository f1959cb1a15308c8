use receipt_splitter::payment::{form_get, plan_payment, PayError};

fn form(fields: &[(&str, &str)]) -> Vec<(String, String)> {
    fields.iter().map(|(k, v)| (k.to_string(), v.to_string())).collect()
}

fn users(names: &[&str]) -> Vec<String> {
    names.iter().map(|x| x.to_string()).collect()
}

#[test]
fn form_lookup() {
    let f = form(&[("to", "ann"), ("amount", "5")]);
    assert_eq!(form_get(&f, "amount").as_deref(), Some("5"));
    assert_eq!(form_get(&f, "from"), None);
}

#[test]
fn missing_and_invalid_fields() {
    let u = users(&["ann", "bob"]);
    assert_eq!(plan_payment(&form(&[("amount", "5")]), &u).unwrap_err(), PayError::MissingTo);
    assert_eq!(plan_payment(&form(&[("to", "ann")]), &u).unwrap_err(), PayError::MissingAmount);
    assert_eq!(plan_payment(&form(&[("to", "ann"), ("amount", "x")]), &u).unwrap_err(), PayError::InvalidAmount);
    assert_eq!(plan_payment(&form(&[("to", "ann"), ("amount", "0")]), &u).unwrap_err(), PayError::InvalidAmount);
    assert_eq!(plan_payment(&form(&[("to", "ann"), ("amount", "-0")]), &u).unwrap_err(), PayError::InvalidAmount);
}

#[test]
fn direct_payment() {
    let u = users(&["ann", "bob"]);
    let tr = plan_payment(&form(&[("to", "ann"), ("amount", "+150"), ("from", "bob"), ("comment", "taxi")]), &u).unwrap();
    assert_eq!(tr.balance_changes.get(&"ann".to_owned()), 150);
    assert_eq!(tr.balance_changes.get(&"bob".to_owned()), -150);
    assert_eq!(tr.balance_changes.len(), 2);
    match tr.meta {
        Some(receipt_splitter::transaction::TransactionMeta::Comment(c)) => assert_eq!(c, "taxi"),
        _ => panic!("expected a comment"),
    }
}

#[test]
fn negative_payment_goes_the_other_way() {
    let u = users(&["ann", "bob"]);
    let tr = plan_payment(&form(&[("to", "ann"), ("amount", "-20"), ("from", "bob")]), &u).unwrap();
    assert_eq!(tr.balance_changes.get(&"ann".to_owned()), -20);
    assert_eq!(tr.balance_changes.get(&"bob".to_owned()), 20);
    assert!(tr.meta.is_none());
}

#[test]
fn shared_payment_divides_by_all_users() {
    let u = users(&["ann", "bob", "cid"]);
    let tr = plan_payment(&form(&[("to", "ann"), ("amount", "100")]), &u).unwrap();
    assert_eq!(tr.balance_changes.get(&"bob".to_owned()), -33);
    assert_eq!(tr.balance_changes.get(&"cid".to_owned()), -33);
    assert_eq!(tr.balance_changes.get(&"ann".to_owned()), 66);
    let neg = plan_payment(&form(&[("to", "ann"), ("amount", "-100")]), &u).unwrap();
    assert_eq!(neg.balance_changes.get(&"bob".to_owned()), 33);
    assert_eq!(neg.balance_changes.get(&"ann".to_owned()), -66);
}

#[test]
fn shared_payment_to_an_outsider() {
    let u = users(&["ann", "bob"]);
    let tr = plan_payment(&form(&[("to", "shop"), ("amount", "10")]), &u).unwrap();
    assert_eq!(tr.balance_changes.get(&"ann".to_owned()), -5);
    assert_eq!(tr.balance_changes.get(&"bob".to_owned()), -5);
    assert_eq!(tr.balance_changes.get(&"shop".to_owned()), 10);
}

#[test]
fn small_shares_round_to_nothing() {
    let u = users(&["ann", "bob", "cid"]);
    let tr = plan_payment(&form(&[("to", "ann"), ("amount", "2")]), &u).unwrap();
    assert!(tr.balance_changes.is_empty());
}

#[test]
fn overflowing_payment_is_refused() {
    let u = users(&["ann", "bob"]);
    let min = i64::MIN.to_string();
    assert_eq!(plan_payment(&form(&[("to", "ann"), ("amount", &min), ("from", "bob")]), &u).unwrap_err(), PayError::Overflow);
    assert_eq!(plan_payment(&form(&[("to", "ann"), ("amount", &min)]), &users(&["bob"])).unwrap_err(), PayError::Overflow);
    assert!(plan_payment(&form(&[("to", "ann"), ("amount", &min)]), &u).is_ok());
}
