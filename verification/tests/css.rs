use pinto::css::{print_format_declarations, strip_comments, try_print_format_declarations};

fn last_value(decls: &[(String, String)], k: &str) -> Option<String> {
    decls.iter().rev().find(|(n, _)| n == k).map(|(_, v)| v.clone())
}

#[test]
fn matches_frappe_read_options_from_html() {
    let css = r#"
            .print-format {
             margin-top: 0mm;
             margin-left: 10mm;
             margin-right: 0mm;
            }
            "#;
    let decls = print_format_declarations(css);
    assert_eq!(last_value(&decls, "margin-top"), Some("0".into()));
    assert_eq!(last_value(&decls, "margin-left"), Some("10mm".into()));
    assert_eq!(last_value(&decls, "margin-right"), Some("0".into()));
}

#[test]
fn ignores_descendant_selectors() {
    let css = r#"
            .print-format { margin-top: 0mm; margin-left: 10mm; }
            .print-format .more-info { margin-right: 15mm; }
            .print-format, .more-info { margin-bottom: 20mm; }
            "#;
    let decls = print_format_declarations(css);
    assert_eq!(last_value(&decls, "margin-top"), Some("0".into()));
    assert_eq!(last_value(&decls, "margin-left"), Some("10mm".into()));
    assert_eq!(last_value(&decls, "margin-bottom"), Some("20mm".into()));
    assert_eq!(last_value(&decls, "margin-right"), None);
}

#[test]
fn comments_are_removed_and_unterminated_comment_drops_the_rest() {
    assert_eq!(strip_comments("a/* x */b"), "ab");
    assert_eq!(strip_comments("a/* never closed"), "a");
    assert_eq!(strip_comments("no comment"), "no comment");
}

#[test]
fn comment_free_css_passes_unchanged() {
    let once = strip_comments("p { color: red } /* c */ q { }");
    assert_eq!(once, "p { color: red }  q { }");
    assert_eq!(strip_comments(&once), once);
}

#[test]
fn at_rules_and_important_are_handled() {
    let css = "@media print { .print-format { margin-top: 5mm } } .print-format { Margin-Left: 7mm !important; }";
    let decls = print_format_declarations(css);
    assert_eq!(decls, vec![("margin-left".to_string(), "7mm".to_string())]);
}

#[test]
fn brace_at_the_end_is_refused() {
    assert!(try_print_format_declarations(".print-format {").is_none());
    assert_eq!(try_print_format_declarations(".print-format { margin-top: 1mm }"), Some(vec![("margin-top".to_string(), "1mm".to_string())]));
}
