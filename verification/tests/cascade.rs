use pinto::cascade::{cascade_sort, cascaded_declarations, selector_matches, ElementInfo, Matched};
use pinto::style::{parse_selector, parse_stylesheet, ua_stylesheet, MediaCtx};

fn el(name: &str, id: Option<&str>, class: Option<&str>) -> ElementInfo {
    ElementInfo::new(name, id, class)
}

#[test]
fn element_info_lowercases_and_splits_classes() {
    let e = el("DIV", Some("x"), Some("  a   b "));
    assert_eq!(e.tag, "div");
    assert_eq!(e.id, Some("x".to_string()));
    assert_eq!(e.classes, vec!["a".to_string(), "b".to_string()]);
}

#[test]
fn descendant_chain_matches_ancestors_in_order() {
    let sel = parse_selector(".outer .inner p", false).unwrap();
    let node = el("p", None, None);
    let ancestors = vec![el("div", None, Some("inner")), el("section", None, None), el("div", None, Some("outer"))];
    assert!(selector_matches(&sel, &node, &ancestors));
    let swapped = vec![el("div", None, Some("outer")), el("div", None, Some("inner"))];
    assert!(!selector_matches(&sel, &node, &swapped));
    assert!(!selector_matches(&sel, &el("span", None, None), &ancestors));
}

#[test]
fn compound_needs_every_class_and_the_id() {
    let sel = parse_selector("a#go.x.y", false).unwrap();
    assert!(selector_matches(&sel, &el("A", Some("go"), Some("y x z")), &[]));
    assert!(!selector_matches(&sel, &el("a", Some("go"), Some("x")), &[]));
    assert!(!selector_matches(&sel, &el("a", None, Some("x y")), &[]));
}

#[test]
fn author_rules_win_over_user_agent_rules() {
    let m = MediaCtx { print: true, width_num: 794, width_den: 1 };
    let ua = ua_stylesheet();
    let author = parse_stylesheet("th { text-align: left } .c { text-align: right } th { text-align: justify }", false, 100, &m);
    let node = el("th", None, Some("c"));
    let decls = cascaded_declarations(&[&ua, &author], &node, &[], Some("color: red"));
    let aligns: Vec<&str> = decls.iter().filter(|(n, _)| n == "text-align").map(|(_, v)| v.as_str()).collect();
    // UA first, then the author tag rules in order, then the class rule (higher specificity).
    assert_eq!(aligns, vec!["center", "left", "justify", "right"]);
    assert_eq!(decls.last().unwrap(), &("color".to_string(), "red".to_string()));
    assert_eq!(decls[0], ("display".to_string(), "block".to_string()));
}

#[test]
fn sort_is_stable_for_equal_priority() {
    let a = [("k".to_string(), "1".to_string())];
    let b = [("k".to_string(), "2".to_string())];
    let c = [("k".to_string(), "3".to_string())];
    let items = vec![
        Matched { ua: false, spec: (0, 1, 0), order: 5, decls: &a },
        Matched { ua: true, spec: (9, 9, 9), order: 1, decls: &b },
        Matched { ua: false, spec: (0, 1, 0), order: 5, decls: &c },
    ];
    let sorted = cascade_sort(&items);
    let vals: Vec<&str> = sorted.iter().map(|m| m.decls[0].1.as_str()).collect();
    assert_eq!(vals, vec!["2", "1", "3"]);
}

#[test]
fn a_rule_matches_with_its_most_specific_selector() {
    let m = MediaCtx { print: true, width_num: 794, width_den: 1 };
    let sheet = parse_stylesheet("p, .x p, #y { color: red } span { color: blue }", false, 0, &m);
    let node = el("p", Some("y"), None);
    let ancestors = vec![el("div", None, Some("x"))];
    let mut out = Vec::new();
    sheet.matched(&node, &ancestors, &mut out);
    assert_eq!(out.len(), 1);
    assert_eq!(out[0].spec, (1, 0, 0));
    assert_eq!(out[0].order, 0);
    assert!(!out[0].ua);
}

#[test]
fn universal_selector_matches_any_element() {
    let sel = parse_selector("*", false).unwrap();
    assert!(selector_matches(&sel, &el("anything", None, None), &[]));
}
