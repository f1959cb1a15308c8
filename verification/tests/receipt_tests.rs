use receipt_splitter::receipt::{parse, parse_qr, tax_fits, Receipt};

const FRAG: &str = "&lt;!-- Fragment - field --&gt;";

fn item_html(name: &str, count: &str, unit: &str, price: &str, total: &str, vat: &str) -> String {
    format!(
        "&lt;b&gt;{name}&lt;/b&gt;\
         &lt;!-- Цена --&gt;&lt;b&gt;&lt;span&gt;{count} &lt;/span&gt;&lt;span&gt;{unit}&lt;/span&gt; x &lt;span&gt;{price}&lt;/span&gt;&lt;/b&gt;\
         &lt;!-- Общая стоимость позиции --&gt;&lt;span class=&quot;l&quot;&gt;Сумма&lt;/span&gt;&lt;span class=&quot;r&quot;&gt;{total}&lt;/span&gt;&lt;!-- /Общая стоимость позиции --&gt;\
         &lt;!-- Сумма НДС за предмет расчета --&gt;&lt;span class=&quot;l&quot;&gt;НДС&lt;/span&gt;&lt;span class=&quot;r&quot;&gt;{vat}&lt;/span&gt;&lt;!-- /Сумма НДС за предмет расчета --&gt;"
    )
}

fn sample_page() -> String {
    let items = format!(
        "&lt;!-- Предоплата --&gt;{}{FRAG}{}{FRAG}&lt;!-- /Предоплата --&gt;",
        item_html("1. Молоко 3,2%", "2", "шт", "89.90", "179.80", "29.97"),
        item_html("2. Хлеб &amp;quot;Бородинский&amp;quot;", "1", "&lt;!-- --&gt;", "45.00", "45.00", "45.00"),
    );
    format!(
        "<html><body><div class=\"fido_cheque_container\">\n  \
         &lt;!-- Название --&gt;&lt;div&gt;&lt;b&gt;ООО &amp;quot;Ромашка&amp;quot;&lt;/b&gt;&lt;/div&gt;&lt;span&gt;ИНН 7701234567 &lt;/span&gt;&lt;!-- /Название --&gt;\
         {items}\
         &lt;!-- ИТОГ --&gt;&lt;span&gt;224.80&lt;/span&gt;&lt;!-- /ИТОГ --&gt;\
         &lt;!-- ИТОГ - Тело таблицы --&gt;\
         &lt;span class=&quot;block&quot;&gt;НАЛИЧНЫМИ&lt;/span&gt;&lt;span class=&quot;block&quot;&gt;0.00&lt;/span&gt;\
         &lt;span class=&quot;block&quot;&gt;БЕЗНАЛИЧНЫМИ&lt;/span&gt;&lt;span class=&quot;block&quot;&gt;224.80&lt;/span&gt;\
         &lt;span class=&quot;block&quot;&gt;СУММА НДС ЧЕКА ПО СТАВКЕ 20%&lt;/span&gt;&lt;span class=&quot;block&quot;&gt;29.97&lt;/span&gt;\
         &lt;span class=&quot;block&quot;&gt;СУММА НДС ЧЕКА ПО СТАВКЕ 10%&lt;/span&gt;&lt;span class=&quot;block&quot;&gt;4.09&lt;/span&gt;\
         &lt;span class=&quot;block&quot;&gt;ЛИШНЯЯ&lt;/span&gt;\
         &lt;!-- /ИТОГ - Тело таблицы --&gt;\n</div></body></html>"
    )
}

#[test]
fn qr_fields_are_read() {
    let r = parse_qr("t=20231109T1809&s=1234.50&fn=7380440700076549&i=12345&fp=1234567890&n=1");
    assert_eq!(r.date, "20231109T1809");
    assert_eq!(r.total, 123450);
    assert_eq!(r.fiscal_number, "7380440700076549");
    assert_eq!(r.i, "12345");
    assert_eq!(r.fp, "1234567890");
    assert_eq!(r.n, "1");
    assert!(r.items.is_empty());
}

#[test]
fn qr_bad_total_is_zero_and_later_fields_win() {
    let r = parse_qr("s=12a&fn=1&fn=2&junk&x=y&i=");
    assert_eq!(r.total, 0);
    assert_eq!(r.fiscal_number, "2");
    assert_eq!(r.i, "");
    assert_eq!(r.fp, "");
}

#[test]
fn qr_value_keeps_later_equals_signs() {
    let r = parse_qr("t=a=b");
    assert_eq!(r.date, "a=b");
}

#[test]
fn page_without_receipt_changes_nothing() {
    let mut r = parse_qr("fn=5&s=1.00");
    assert_eq!(parse("<html>nothing here</html>", &mut r), None);
    assert_eq!(r.fiscal_number, "5");
    assert_eq!(r.total, 100);
}

#[test]
fn page_is_read() {
    let page = sample_page();
    let mut r = Receipt::default();
    assert!(tax_fits(&page, 0));
    assert_eq!(parse(&page, &mut r), Some(()));
    assert_eq!(r.company.name, "ООО &quot;Ромашка&quot;");
    assert_eq!(r.company.inn, "7701234567");
    assert_eq!(r.items.len(), 2);
    let milk = &r.items[0];
    assert_eq!(milk.name, "Молоко 3,2%");
    assert_eq!(milk.count.as_deref(), Some("2"));
    assert_eq!(milk.unit, "шт");
    assert_eq!(milk.per_item, 8990);
    assert_eq!(milk.total, 17980);
    assert_eq!(milk.tax, 2997);
    let bread = &r.items[1];
    assert_eq!(bread.name, "Хлеб &quot;Бородинский&quot;");
    assert_eq!(bread.unit, "");
    assert_eq!(bread.per_item, 4500);
    assert_eq!(bread.total, 4500);
    // a tax equal to the item's total is no tax
    assert_eq!(bread.tax, 0);
    assert_eq!(r.total, 22480);
    assert_eq!(r.total_cash, 0);
    assert_eq!(r.total_card, 22480);
    assert_eq!(r.total_tax, 2997 + 409);
}

#[test]
fn page_adds_items_and_tax_to_what_is_there() {
    let page = sample_page();
    let mut r = Receipt::default();
    r.total_tax = 1;
    parse(&page, &mut r);
    parse(&page, &mut r);
    assert_eq!(r.items.len(), 4);
    assert_eq!(r.total_tax, 1 + 2 * (2997 + 409));
}

#[test]
fn tax_overflow_is_detected() {
    let page = sample_page();
    assert!(tax_fits(&page, u64::MAX - 3406));
    assert!(!tax_fits(&page, u64::MAX - 3405));
    assert!(tax_fits("no receipt", u64::MAX));
}

#[test]
fn page_keeps_what_identifies_the_receipt() {
    let page = sample_page();
    let mut r = parse_qr("t=20231109T1809&fn=7380&i=12&fp=999&n=1");
    r.id = "abc".to_owned();
    parse(&page, &mut r);
    assert_eq!(r.fiscal_number, "7380");
    assert_eq!(r.fp, "999");
    assert_eq!(r.i, "12");
    assert_eq!(r.n, "1");
    assert_eq!(r.id, "abc");
    assert_eq!(r.date, "20231109T1809");
    assert_eq!(r.items.len(), 2);
}

fn same_receipt(a: &Receipt, b: &Receipt) -> bool {
    a.company.name == b.company.name
        && a.company.inn == b.company.inn
        && a.items.len() == b.items.len()
        && a.items.iter().zip(b.items.iter()).all(|(x, y)| {
            x.name == y.name
                && x.count == y.count
                && x.unit == y.unit
                && x.per_item == y.per_item
                && x.total == y.total
                && x.tax == y.tax
        })
        && a.total == b.total
        && a.total_cash == b.total_cash
        && a.total_card == b.total_card
        && a.total_tax == b.total_tax
        && a.fiscal_number == b.fiscal_number
        && a.fp == b.fp
        && a.i == b.i
        && a.n == b.n
        && a.id == b.id
        && a.date == b.date
}

#[test]
fn page_is_read_only_up_to_the_first_tag_after_the_marker() {
    let marker = "fido_cheque_container\">";
    let body = "&lt;!-- Название --&gt;&lt;b&gt;ИП Иванов&lt;/b&gt;&lt;!-- /Название --&gt;\
                &lt;!-- ИТОГ --&gt;&lt;span&gt;12.34&lt;/span&gt;&lt;!-- /ИТОГ --&gt;";
    let full = format!("<html><div class=\"{marker}{body}</div><p>{marker}&lt;!-- ИТОГ --&gt;&lt;span&gt;99.99&lt;/span&gt;&lt;!-- /ИТОГ --&gt;</p>");
    let short = format!("{marker}{body}");
    let mut a = parse_qr("fn=1");
    let mut b = parse_qr("fn=1");
    assert_eq!(parse(&full, &mut a), Some(()));
    assert_eq!(parse(&short, &mut b), Some(()));
    assert!(same_receipt(&a, &b));
    assert_eq!(a.company.name, "ИП Иванов");
    assert_eq!(a.total, 1234);
}

#[test]
fn qr_parts_with_different_keys_commute() {
    let a = "t=20231109T1809&s=1234.50&junk";
    let b = "fn=7380440700076549&i=12345&fp=1234567890&n=1&x=y";
    let ab = parse_qr(&format!("{a}&{b}"));
    let ba = parse_qr(&format!("{b}&{a}"));
    assert!(same_receipt(&ab, &ba));
    assert_eq!(ab.total, 123450);
    assert_eq!(ab.fiscal_number, "7380440700076549");
    // with a key in both halves, the order does matter
    let c = parse_qr("fn=1&fn=2");
    assert_eq!(c.fiscal_number, "2");
}
