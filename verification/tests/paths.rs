use hq_lib::paths::{is_css_file_name, is_html_file_name};

#[test]
fn html_extensions_in_any_case() {
    assert!(is_html_file_name("index.html"));
    assert!(is_html_file_name("b.htm"));
    assert!(is_html_file_name("PAGE.HTML"));
    assert!(is_html_file_name("a.b.HtM"));
    assert!(!is_html_file_name("c.txt"));
    assert!(!is_html_file_name("html"));
    assert!(!is_html_file_name(".html"));
    assert!(is_html_file_name("..html"));
    assert!(!is_html_file_name("x.html.bak"));
    assert!(!is_html_file_name(""));
}

#[test]
fn css_extensions_in_any_case() {
    assert!(is_css_file_name("style.css"));
    assert!(is_css_file_name("A.CSS"));
    assert!(!is_css_file_name("notes.txt"));
    assert!(!is_css_file_name(".css"));
    assert!(!is_css_file_name("x.scss"));
    assert!(!is_css_file_name(".."));
}
