use receipt_splitter::fetch::{search_result_id, Fetch, FetchAction, FetchStage};
use receipt_splitter::receipt::{parse_qr, Receipt};

fn qr() -> Receipt {
    parse_qr("fn=7380&fp=999&i=12")
}

#[test]
fn cached_receipt_ends_the_fetch() {
    let mut f = Fetch::new(qr());
    match f.begin() {
        FetchAction::ReadCache { name } => assert_eq!(name, "7380.json"),
        other => panic!("{other:?}"),
    }
    let mut cached = qr();
    cached.total = 5;
    match f.on_cache(Some(cached)) {
        FetchAction::Finish { found } => assert!(found),
        other => panic!("{other:?}"),
    }
    assert_eq!(f.rec.total, 5);
    assert_eq!(f.stage, FetchStage::Done);
    assert!(matches!(f.begin(), FetchAction::Ignored));
}

#[test]
fn receipt_without_fiscal_drive_goes_to_the_form() {
    let mut f = Fetch::new(parse_qr("fp=1&i=2"));
    match f.begin() {
        FetchAction::GetForm { url } => {
            assert_eq!(url, "https://lk.platformaofd.ru/web/noauth/cheque/search?fn=&fp=1&i=2")
        },
        other => panic!("{other:?}"),
    }
}

#[test]
fn full_search() {
    let mut f = Fetch::new(qr());
    f.begin();
    match f.on_cache(None) {
        FetchAction::GetForm { url } => {
            assert_eq!(url, "https://lk.platformaofd.ru/web/noauth/cheque/search?fn=7380&fp=999&i=12")
        },
        other => panic!("{other:?}"),
    }
    let form = "<img class=\"form-captcha-image\" src=\"/captcha?x=1\">\
                <input type=\"hidden\" name=\"_csrf\" value=\"tok\">";
    match f.on_form(form) {
        FetchAction::GetCaptcha { url } => assert_eq!(url, "https://lk.platformaofd.ru/captcha?x=1"),
        other => panic!("{other:?}"),
    }
    match f.on_captcha(" 4 2a7\n") {
        FetchAction::PostSearch { fields, referer } => {
            assert_eq!(
                fields,
                vec![
                    ("fn".to_owned(), "7380".to_owned()),
                    ("fp".to_owned(), "999".to_owned()),
                    ("i".to_owned(), "12".to_owned()),
                    ("captcha".to_owned(), "427".to_owned()),
                    ("_csrf".to_owned(), "tok".to_owned()),
                ]
            );
            assert_eq!(referer, "https://lk.platformaofd.ru/web/noauth/cheque/search?fn=7380&fp=999&i=12");
        },
        other => panic!("{other:?}"),
    }
    let page = "<div class=\"fido_cheque_container\">&lt;!-- ИТОГ --&gt;&lt;span&gt;10.00&lt;/span&gt;&lt;!-- /ИТОГ --&gt;</div>";
    match f.on_search("/web/noauth/cheque/id", "abc", page.to_owned()) {
        FetchAction::SavePage { name, text } => {
            assert_eq!(name, "abc.html");
            assert_eq!(text, page);
        },
        other => panic!("{other:?}"),
    }
    assert_eq!(f.rec.id, "abc");
    match f.on_saved() {
        FetchAction::SaveReceipt { name } => assert_eq!(name, "7380.json"),
        other => panic!("{other:?}"),
    }
    assert_eq!(f.rec.total, 1000);
    match f.on_saved() {
        FetchAction::Finish { found } => assert!(found),
        other => panic!("{other:?}"),
    }
}

#[test]
fn search_failures_end_the_fetch() {
    let mut f = Fetch::new(qr());
    f.begin();
    f.on_cache(None);
    assert!(matches!(f.on_form("<html>no captcha</html>"), FetchAction::Finish { found: false }));

    let mut g = Fetch::new(qr());
    g.begin();
    g.on_cache(None);
    g.on_form("class=\"form-captcha-image\" src=\"/c\"");
    assert!(matches!(g.on_captcha("1"), FetchAction::Finish { found: false }));

    let mut h = Fetch::new(qr());
    h.begin();
    h.on_cache(None);
    h.on_form("class=\"form-captcha-image\" src=\"/c\" type=\"hidden\" name=\"_csrf\" value=\"t\"");
    h.on_captcha("1");
    assert!(matches!(h.on_search("/search", "", String::new()), FetchAction::Finish { found: false }));
    assert_eq!(h.stage, FetchStage::Done);
}

#[test]
fn search_result_id_is_the_first_id_parameter() {
    let q = vec![
        ("a".to_string(), "1".to_string()),
        ("id".to_string(), "42".to_string()),
        ("id".to_string(), "43".to_string()),
    ];
    assert_eq!(search_result_id(&q), "42");
    assert_eq!(search_result_id(&vec![("x".to_string(), "1".to_string())]), "");
    assert_eq!(search_result_id(&Vec::new()), "");
}
