use hq_lib::css::{prune_accepts, prune_css, CssRule};

/// The rule of `css` whose text is `text`, with selector `selector`, as the
/// stylesheet parser reports it.
fn rule(css: &str, text: &str, selector: &str) -> CssRule {
    let start = css.find(text).unwrap();
    CssRule { selector: selector.to_string(), start, end: start + text.len() }
}

#[test]
fn prune_exact_output_single_rule() {
    let css = ".a { x: 1; }\n\n.unused { x: 2; }\n\n.b { x: 3; }\n";
    let unused = vec![rule(css, ".unused { x: 2; }", ".unused")];
    assert_eq!(prune_css(css, &unused), ".a { x: 1; }\n\n.b { x: 3; }\n");
}

#[test]
fn prune_keeps_final_newline_of_input() {
    let css = ".a { x: 1; }\n.b { x: 2; }\n";
    let unused = vec![rule(css, ".b { x: 2; }", ".b")];
    assert_eq!(prune_css(css, &unused), ".a { x: 1; }\n");
}

#[test]
fn prune_without_final_newline() {
    let css = ".a { x: 1; } .b { x: 2; }";
    let unused = vec![rule(css, ".a { x: 1; }", ".a")];
    assert_eq!(prune_css(css, &unused), " .b { x: 2; }");
}

#[test]
fn prune_rules_given_out_of_order() {
    let css = ".a{}\n.b{}\n.c{}\n";
    let unused = vec![rule(css, ".c{}", ".c"), rule(css, ".a{}", ".a")];
    assert_eq!(prune_css(css, &unused), "\n\n.b{}\n");
}

#[test]
fn prune_blank_line_of_unicode_spaces_counts_as_blank() {
    let css = ".a{}\n\u{a0}\u{3000}\n\n.b{}\n.c{}";
    let unused = vec![rule(css, ".c{}", ".c")];
    assert_eq!(prune_css(css, &unused), ".a{}\n\n.b{}");
}

#[test]
fn prune_crlf_lines() {
    let css = ".a{}\r\n.b{}\r\n.c{}\r\n";
    let unused = vec![rule(css, ".b{}", ".b")];
    assert_eq!(prune_css(css, &unused), ".a{}\n\n.c{}\n");
}

#[test]
fn prune_multibyte_text_around_rules() {
    let css = "/* é */\n.x { content: \"ü\"; }\n.y{}\n";
    let unused = vec![rule(css, ".y{}", ".y")];
    assert_eq!(prune_css(css, &unused), "/* é */\n.x { content: \"ü\"; }\n");
}

#[test]
fn prune_accepts_char_boundaries_only() {
    let css = "é{}";
    let good = vec![CssRule { selector: "é".to_string(), start: 0, end: 4 }];
    let bad = vec![CssRule { selector: "é".to_string(), start: 1, end: 4 }];
    let beyond = vec![CssRule { selector: "x".to_string(), start: 10, end: 12 }];
    assert!(prune_accepts(css, &good));
    assert!(!prune_accepts(css, &bad));
    assert!(!prune_accepts(css, &beyond));
    assert!(prune_accepts(css, &[]));
}

#[test]
fn law_no_triple_newline_on_values() {
    let css = "\n\n\n.a{}\n\n\n\n.b{}\n\n\n";
    let unused = vec![rule(css, ".a{}", ".a")];
    let out = prune_css(css, &unused);
    assert!(!out.contains("\n\n\n"));
    assert_eq!(out, "\n\n.b{}\n");
}

#[test]
fn law_non_blank_lines_kept_on_values() {
    let css = "@import x;\n  .a{}  \n@media y { .m{} }\n.b{}\n";
    let unused = vec![rule(css, ".a{}", ".a"), rule(css, ".b{}", ".b")];
    let out = prune_css(css, &unused);
    let kept: Vec<&str> = out.split('\n').filter(|l| !l.trim().is_empty()).collect();
    assert_eq!(kept, vec!["@import x;", "@media y { .m{} }"]);
}

#[test]
fn law_prune_again_changes_nothing_on_values() {
    let css = ".a{}\n\n\n.gone{}\n\n.b{}\n  \n\n.c{}\n";
    let once = prune_css(css, &[rule(css, ".gone{}", ".gone")]);
    assert_eq!(once, ".a{}\n\n.b{}\n\n.c{}\n");
    let empty = vec![CssRule { selector: String::new(), start: 0, end: 0 }];
    assert_eq!(prune_css(&once, &empty), once);
}

#[test]
fn law_prune_ignores_rule_order_and_selectors_on_values() {
    let css = ".a{}\n.b{}\n.c{}\n.d{}\n";
    let given = vec![rule(css, ".a{}", ".a"), rule(css, ".c{}", ".c")];
    let shuffled = vec![rule(css, ".c{}", "anything"), rule(css, ".a{}", "")];
    assert_eq!(prune_css(css, &given), prune_css(css, &shuffled));
    assert_eq!(prune_css(css, &shuffled), "\n\n.b{}\n\n.d{}\n");
}
