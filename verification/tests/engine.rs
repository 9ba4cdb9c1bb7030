use hq_lib::engine::check_selector;
use hq_lib::scan::{count_matches_in_html, file_result_from_count};
use hq_lib::{Error, LolHtmlEngine, SelectorEngine};
use std::path::PathBuf;

#[test]
fn counts_div_elements() {
    let engine = LolHtmlEngine;
    let html = b"<html><body><div>a</div><div>b</div><span>c</span></body></html>";
    assert_eq!(engine.count_matches("div", html).unwrap(), 2);
}

#[test]
fn counts_by_class() {
    let engine = LolHtmlEngine;
    let html = b"<div class=\"foo\">a</div><div class=\"bar\">b</div><div class=\"foo\">c</div>";
    assert_eq!(engine.count_matches(".foo", html).unwrap(), 2);
}

#[test]
fn zero_matches() {
    let engine = LolHtmlEngine;
    let html = b"<html><body><p>hello</p></body></html>";
    assert_eq!(engine.count_matches("div", html).unwrap(), 0);
}

#[test]
fn invalid_selector_returns_error() {
    let engine = LolHtmlEngine;
    let html = b"<div>test</div>";
    assert!(engine.count_matches("[[[invalid", html).is_err());
}

#[test]
fn invalid_selector_is_a_selector_error() {
    let engine = LolHtmlEngine;
    assert!(matches!(engine.count_matches("div[[", b"<div></div>"), Err(Error::Selector(_))));
}

#[test]
fn counts_descendants_and_children() {
    let engine = LolHtmlEngine;
    let html = b"<nav><ul><li><a href='/'>x</a></li></ul></nav><a>y</a>";
    assert_eq!(engine.count_matches("nav a", html).unwrap(), 1);
    assert_eq!(engine.count_matches("ul > li", html).unwrap(), 1);
    assert_eq!(engine.count_matches("a[href]", html).unwrap(), 1);
    assert_eq!(engine.count_matches("a", html).unwrap(), 2);
}

#[test]
fn count_in_html_keeps_path() {
    let engine = LolHtmlEngine;
    let r = count_matches_in_html(&engine, PathBuf::from("site/a.html"), "p", b"<p>1</p><p>2</p>").unwrap();
    assert_eq!(r.path, PathBuf::from("site/a.html"));
    assert_eq!(r.matches, 2);
    let dyn_engine: &dyn SelectorEngine = &engine;
    let r2 = count_matches_in_html(dyn_engine, PathBuf::from("b.html"), "div", b"<p></p>").unwrap();
    assert_eq!(r2.matches, 0);
}

#[test]
fn file_result_from_count_passes_count_or_error() {
    let ok = file_result_from_count(PathBuf::from("p.html"), Ok(7)).unwrap();
    assert_eq!((ok.path, ok.matches), (PathBuf::from("p.html"), 7));
    let err = file_result_from_count(PathBuf::from("p.html"), Err(Error::Selector("bad".to_string())));
    assert!(matches!(err, Err(Error::Selector(m)) if m == "bad"));
}

#[test]
fn check_selector_accepts_a_valid_selector() {
    assert!(check_selector("div.content > p").is_ok());
}

#[test]
fn check_selector_refuses_an_invalid_selector() {
    assert!(matches!(check_selector("[[[invalid"), Err(Error::Selector(_))));
}
