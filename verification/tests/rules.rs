use hq_lib::css::{rules_from_parsed, ParsedItem, RawRule};
use hq_lib::Error;

fn style(prelude: &str, start: usize, block_end: usize) -> ParsedItem {
    ParsedItem::Style(RawRule { prelude: prelude.to_string(), start, block_end })
}

#[test]
fn raw_rules_become_trimmed_rules() {
    // ".foo { color: red; }\n.bar { color: blue; }"
    let items = vec![style(".foo ", 0, 19), style(".bar ", 21, 41)];
    let rules = rules_from_parsed(items).unwrap();
    assert_eq!(rules.len(), 2);
    assert_eq!(rules[0].selector, ".foo");
    assert_eq!((rules[0].start, rules[0].end), (0, 20));
    assert_eq!(rules[1].selector, ".bar");
    assert_eq!((rules[1].start, rules[1].end), (21, 42));
}

#[test]
fn at_rules_are_skipped() {
    let items = vec![ParsedItem::AtRule, style("body ", 30, 45), ParsedItem::AtRule];
    let rules = rules_from_parsed(items).unwrap();
    assert_eq!(rules.len(), 1);
    assert_eq!(rules[0].selector, "body");
}

#[test]
fn first_parse_error_wins() {
    let items = vec![
        style("a ", 0, 5),
        ParsedItem::Invalid("first".to_string()),
        ParsedItem::Invalid("second".to_string()),
    ];
    match rules_from_parsed(items) {
        Err(Error::CssParse(m)) => assert_eq!(m, "first"),
        _ => panic!("expected a CSS parse error"),
    }
}

#[test]
fn selector_trimmed_of_unicode_white_space() {
    let items = vec![style("\u{a0}\n div.foo > p.bar\t\u{2003}", 3, 40)];
    let rules = rules_from_parsed(items).unwrap();
    assert_eq!(rules[0].selector, "div.foo > p.bar");
}

#[test]
fn no_items_no_rules() {
    assert!(rules_from_parsed(vec![]).unwrap().is_empty());
}
