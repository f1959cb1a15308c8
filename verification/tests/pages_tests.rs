use receipt_splitter::copy_ref;
use receipt_splitter::fetch::submitted_receipt_file;
use receipt_splitter::lookup::{compact_date_of, complete_from_service_page, is_searchable_of, needs_service_page_of};
use receipt_splitter::numbers::{parse_i64_of, parse_u64_of, parse_usize_of};
use receipt_splitter::pages::{balance_listing, username_options};
use receipt_splitter::receipt::parse_qr;
use receipt_splitter::text::{chars_of, first_word_of, trim_of};

fn v(s: &str) -> Vec<char> {
    chars_of(s)
}

#[test]
fn numbers_read_as_rust_reads_them() {
    assert_eq!(parse_u64_of(&v("18446744073709551615")), Some(u64::MAX));
    assert_eq!(parse_u64_of(&v("18446744073709551616")), None);
    assert_eq!(parse_u64_of(&v("+7")), Some(7));
    assert_eq!(parse_u64_of(&v("+")), None);
    assert_eq!(parse_u64_of(&v("")), None);
    assert_eq!(parse_u64_of(&v("-1")), None);
    assert_eq!(parse_u64_of(&v("00012")), Some(12));
    assert_eq!(parse_i64_of(&v("-9223372036854775808")), Some(i64::MIN));
    assert_eq!(parse_i64_of(&v("9223372036854775808")), None);
    assert_eq!(parse_i64_of(&v("-")), None);
    assert_eq!(parse_i64_of(&v("--1")), None);
    assert_eq!(parse_usize_of(&v("42")), Some(42));
}

#[test]
fn white_space() {
    assert_eq!(trim_of(&v(" \t a b \u{3000}")), v("a b"));
    assert_eq!(first_word_of(&v("  12 шт")), Some(v("12")));
    assert_eq!(first_word_of(&v(" \n ")), None);
}

#[test]
fn service_page_dates_are_compacted() {
    assert_eq!(compact_date_of(" 09.11.2023 18:09 "), "20231109T1809");
    assert_eq!(compact_date_of("09.11.2023 18:09:30"), "20231109T1809");
    assert_eq!(compact_date_of("09.11.2023"), "");
    assert_eq!(compact_date_of("2023 1"), "2023T1");
}

#[test]
fn service_page_completes_the_receipt() {
    let q = "https://check.example/q?id=1";
    let mut rec = parse_qr(q);
    assert!(needs_service_page_of(&rec, q));
    assert!(!is_searchable_of(&rec));
    let page = "<div>ФН №: <right>7380440700076549</right></div>\
                <div>ФП: <right>1234567890</right></div>\
                <div>ФД №: <right>12345</right></div>\
                <div>Дата Время <right>09.11.2023 18:09</right></div>";
    complete_from_service_page(page, &mut rec);
    assert_eq!(rec.fiscal_number, "7380440700076549");
    assert_eq!(rec.fp, "1234567890");
    assert_eq!(rec.i, "12345");
    assert_eq!(rec.n, "1");
    assert_eq!(rec.date, "20231109T1809");
    assert!(is_searchable_of(&rec));
    assert!(!needs_service_page_of(&rec, q));
}

#[test]
fn qr_with_all_fields_needs_no_service_page() {
    let q = "t=1&s=1&fn=1&i=&fp=1&n=1";
    let rec = parse_qr(q);
    // only a link is followed for a missing document number
    assert!(!needs_service_page_of(&rec, q));
    assert!(!is_searchable_of(&rec));
}

#[test]
fn user_options() {
    let users = vec!["ann".to_owned(), "bob".to_owned()];
    assert_eq!(
        username_options(&users),
        "<option value=\"ann\">ann</option>\n<option value=\"bob\">bob</option>\n"
    );
}

#[test]
fn balances_are_listed_in_user_order() {
    let entries = vec![("bob".to_owned(), 5), ("zed".to_owned(), 1), ("ann".to_owned(), -6)];
    let users = vec!["ann".to_owned(), "bob".to_owned(), "cid".to_owned()];
    assert_eq!(
        balance_listing(&entries, &users),
        vec![("zed".to_owned(), 1), ("ann".to_owned(), -6), ("bob".to_owned(), 5)]
    );
}

#[test]
fn submitted_file_names_stay_in_their_directory() {
    assert_eq!(submitted_receipt_file("../7380/44.0\\x"), "7380440x.json");
}

#[test]
fn copied_references_are_the_same() {
    let x = 5;
    assert!(std::ptr::eq(copy_ref(&x), &x));
}
