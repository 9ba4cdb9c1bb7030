use hq_lib::check_css::{CssFileResult, SelectorResult, SelectorTable};
use hq_lib::css::CssRule;
use hq_lib::scan::{check_exit_code, query_exit_code};
use hq_lib::FileResult;
use std::path::PathBuf;

fn rule(css: &str, text: &str, selector: &str) -> CssRule {
    let start = css.find(text).unwrap();
    CssRule { selector: selector.to_string(), start, end: start + text.len() }
}

fn used_flags(results: &[CssFileResult]) -> Vec<Vec<(String, bool)>> {
    results
        .iter()
        .map(|r| r.selectors.iter().map(|s| (s.selector.clone(), s.used)).collect())
        .collect()
}

#[test]
fn table_marks_used_and_unused() {
    let css = ".used { color: red; }\n.unused { color: blue; }";
    let mut table = SelectorTable::new();
    table.add_css_file(
        PathBuf::from("style.css"),
        vec![rule(css, ".used { color: red; }", ".used"), rule(css, ".unused { color: blue; }", ".unused")],
        None,
    );
    table.test_html_file(br#"<div class="used">hello</div>"#, None);
    let results = table.to_results();
    assert_eq!(results.len(), 1);
    assert_eq!(results[0].path, PathBuf::from("style.css"));
    assert_eq!(
        used_flags(&results),
        vec![vec![(".used".to_string(), true), (".unused".to_string(), false)]]
    );
}

#[test]
fn table_selector_used_in_one_document_of_many() {
    let css = ".rare { color: red; }";
    let mut table = SelectorTable::new();
    table.add_css_file(PathBuf::from("s.css"), vec![rule(css, css, ".rare")], None);
    table.test_html_file(b"<div>no match</div>", None);
    table.test_html_file(b"<div>still no match</div>", None);
    assert!(!table.to_results()[0].selectors[0].used);
    table.test_html_file(br#"<span class="rare">found</span>"#, None);
    assert!(table.to_results()[0].selectors[0].used);
    table.test_html_file(b"<p>later</p>", None);
    assert!(table.to_results()[0].selectors[0].used);
}

#[test]
fn table_keeps_files_apart() {
    let a = ".foo { color: red; }";
    let b = ".bar { color: blue; }";
    let mut table = SelectorTable::new();
    table.add_css_file(PathBuf::from("css/a.css"), vec![rule(a, a, ".foo")], None);
    table.add_css_file(PathBuf::from("css/b.css"), vec![rule(b, b, ".bar")], None);
    table.test_html_file(br#"<div class="foo">x</div>"#, None);
    let results = table.to_results();
    assert_eq!(results.len(), 2);
    assert!(results[0].path.ends_with("a.css"));
    assert!(results[0].selectors[0].used);
    assert!(results[1].path.ends_with("b.css"));
    assert!(!results[1].selectors[0].used);
}

#[test]
fn uncompilable_selector_is_never_used() {
    let css = "a[[x { x: 1; }\ndiv { x: 2; }";
    let mut table = SelectorTable::new();
    table.add_css_file(
        PathBuf::from("s.css"),
        vec![rule(css, "a[[x { x: 1; }", "a[[x"), rule(css, "div { x: 2; }", "div")],
        None,
    );
    assert_eq!(table.unsettled(), vec![1]);
    table.test_html_file(b"<div><p>t</p></div>", None);
    assert_eq!(
        used_flags(&table.to_results()),
        vec![vec![("a[[x".to_string(), false), ("div".to_string(), true)]]
    );
}

#[test]
fn table_prunes_unused_rules_and_keeps_at_rules() {
    let css = ".used { color: red; }\n.unused { color: blue; }\n@media screen { .m { display: none; } }\n";
    let mut table = SelectorTable::new();
    table.add_css_file(
        PathBuf::from("s.css"),
        vec![rule(css, ".used { color: red; }", ".used"), rule(css, ".unused { color: blue; }", ".unused")],
        None,
    );
    table.test_html_file(br#"<div class="used">hello</div>"#, None);
    let texts = vec![css.to_string()];
    assert!(table.pruning_fits(&texts));
    let pruned = table.into_pruned(texts);
    assert_eq!(pruned.len(), 1);
    assert!(pruned[0].content.contains(".used"));
    assert!(!pruned[0].content.contains(".unused"));
    assert!(pruned[0].content.contains("@media"));
}

#[test]
fn fully_used_stylesheet_is_pruned_to_itself() {
    let css = "div { margin: 0; }\np { padding: 0; }\n";
    let mut table = SelectorTable::new();
    table.add_css_file(
        PathBuf::from("s.css"),
        vec![rule(css, "div { margin: 0; }", "div"), rule(css, "p { padding: 0; }", "p")],
        None,
    );
    table.test_html_file(b"<div><p>text</p></div>", None);
    assert!(table.unused_rules_of(0).is_empty());
    let pruned = table.into_pruned(vec![css.to_string()]);
    assert_eq!(pruned[0].content, css);
}

#[test]
fn pruning_fits_rejects_mismatched_texts() {
    let css = "ab{}";
    let mut table = SelectorTable::new();
    table.add_css_file(PathBuf::from("s.css"), vec![rule(css, "b{}", "b")], None);
    assert!(!table.pruning_fits(&vec![]));
    assert!(!table.pruning_fits(&vec!["\u{e9}{}}".to_string()]));
    assert!(table.pruning_fits(&vec![css.to_string()]));
}

#[test]
fn match_and_mark_by_hand() {
    let css = "a{}\nb{}\ni{}";
    let mut table = SelectorTable::new();
    table.add_css_file(
        PathBuf::from("s.css"),
        vec![rule(css, "a{}", "a"), rule(css, "b{}", "b"), rule(css, "i{}", "i")],
        None,
    );
    let idxs = table.unsettled();
    assert_eq!(idxs, vec![0, 1, 2]);
    let m = table.match_entries(&idxs, b"<b>x</b><i>y</i>").unwrap();
    assert_eq!(m, vec![false, true, true]);
    table.mark_matched(&idxs, &m, None);
    assert_eq!(table.unsettled(), vec![0]);
    assert_eq!(table.file_count(), 1);
    assert_eq!(table.file_path(0), &PathBuf::from("s.css"));
}

#[test]
fn exit_codes_follow_the_readme() {
    let none = vec![FileResult { path: PathBuf::from("a.html"), matches: 0 }];
    let some = vec![
        FileResult { path: PathBuf::from("a.html"), matches: 0 },
        FileResult { path: PathBuf::from("b.html"), matches: 3 },
    ];
    assert_eq!(query_exit_code(&none), 1);
    assert_eq!(query_exit_code(&some), 0);
    assert_eq!(query_exit_code(&vec![]), 1);
    let all_used = vec![CssFileResult {
        path: PathBuf::from("s.css"),
        selectors: vec![SelectorResult { selector: ".a".to_string(), used: true }],
    }];
    let one_unused = vec![CssFileResult {
        path: PathBuf::from("s.css"),
        selectors: vec![
            SelectorResult { selector: ".a".to_string(), used: true },
            SelectorResult { selector: ".b".to_string(), used: false },
        ],
    }];
    assert_eq!(check_exit_code(&all_used), 0);
    assert_eq!(check_exit_code(&one_unused), 1);
}

#[test]
fn no_zeros_hides_files_without_matches() {
    let zero = FileResult { path: PathBuf::from("a.html"), matches: 0 };
    let two = FileResult { path: PathBuf::from("b.html"), matches: 2 };
    assert!(zero.is_shown(false));
    assert!(!zero.is_shown(true));
    assert!(two.is_shown(true));
    assert_eq!(two.clone().matches, 2);
}

#[test]
fn css_file_result_clone_keeps_path_and_selectors() {
    let result = CssFileResult {
        path: PathBuf::from("a.css"),
        selectors: vec![
            SelectorResult { selector: ".a".to_string(), used: true },
            SelectorResult { selector: ".b".to_string(), used: false },
        ],
    };
    let copy = result.clone();
    assert_eq!(copy.path, result.path);
    assert_eq!(copy.selectors.len(), 2);
    assert_eq!((copy.selectors[1].selector.as_str(), copy.selectors[1].used), (".b", false));
    assert_eq!(format!("{:?}", copy.selectors[0]), format!("{:?}", result.selectors[0]));
}
