use receipt_splitter::iso8601::{deserialize, serialize, UtcTime, Visitor};
use receipt_splitter::ledger::Balances;
use receipt_splitter::transaction::{record_file_name, Transaction};

#[test]
fn timestamps_are_read_in_utc() {
    let t = deserialize("2023-11-09T18:09:00+03:00").unwrap();
    assert_eq!(t, UtcTime { secs: 1699542540, nanos: 0 });
    let z = Visitor.visit_string("1970-01-01T00:00:01.25Z".to_owned()).unwrap();
    assert_eq!(z, UtcTime { secs: 1, nanos: 250_000_000 });
}

#[test]
fn bad_timestamps_are_refused_with_their_text() {
    let e = deserialize("09.11.2023 18:09").unwrap_err();
    assert_eq!(e.text, "09.11.2023 18:09");
    assert!(Visitor.visit_borrowed_str("").is_err());
    assert_eq!(Visitor.expecting(), "an iso8601 timestamp");
}

#[test]
fn timestamps_are_written_in_utc_with_needed_digits() {
    assert_eq!(serialize(&UtcTime { secs: 1699542540, nanos: 0 }).unwrap(), "2023-11-09T15:09:00Z");
    assert_eq!(serialize(&UtcTime { secs: 0, nanos: 500_000_000 }).unwrap(), "1970-01-01T00:00:00.500Z");
    assert!(serialize(&UtcTime { secs: i64::MAX, nanos: 0 }).is_none());
}

#[test]
fn written_timestamps_read_back() {
    for t in [
        UtcTime { secs: 1699542540, nanos: 0 },
        UtcTime { secs: -86401, nanos: 1 },
        UtcTime { secs: 1234567890, nanos: 123_456_000 },
    ] {
        let text = serialize(&t).unwrap();
        assert_eq!(deserialize(&text).unwrap(), t);
    }
}

#[test]
fn transaction_file_names() {
    let name = record_file_name(&UtcTime { secs: 1699542540, nanos: 999_000_000 }, "abc").unwrap();
    assert_eq!(name, "2023-11-09T15:09:00Z_abc.json");
}

#[test]
fn stamped_transactions_always_have_a_file_name() {
    let mut t = Transaction::new(None);
    assert!(record_file_name(&t.date, "x").is_some());
    t.stamp(&Balances::new());
    let name = record_file_name(&t.date, "id").unwrap();
    assert!(name.ends_with("Z_id.json"));
    assert_eq!(name.len(), "2023-11-09T15:09:00Z_id.json".len());
}
