use pinto::style::{
    eval_media, parse_color, parse_selector, parse_stylesheet, try_parse_color, try_parse_stylesheet, ua_stylesheet, MediaCtx,
};

#[test]
fn colors() {
    assert_eq!(parse_color("#f00", [0, 0, 0, 255]), Some([255, 0, 0, 255]));
    assert_eq!(parse_color("#00ff00", [0, 0, 0, 255]), Some([0, 255, 0, 255]));
    assert_eq!(parse_color("rgb(1, 2, 3)", [0, 0, 0, 255]), Some([1, 2, 3, 255]));
    assert_eq!(parse_color("rgba(1,2,3,0.5)", [0, 0, 0, 255]), Some([1, 2, 3, 127]));
    assert_eq!(parse_color("white", [0, 0, 0, 255]), Some([255, 255, 255, 255]));
    assert_eq!(parse_color("currentcolor", [9, 9, 9, 255]), Some([9, 9, 9, 255]));
}

#[test]
fn selectors_pseudo_and_attr() {
    assert!(parse_selector(".row:before", false).is_none());
    assert!(parse_selector("[hidden]", false).is_none());
    assert!(parse_selector(":root", false).is_none());
    assert!(parse_selector(".row:not(.x)", false).is_some());
    assert!(parse_selector("div:hover", false).is_some());
    assert!(parse_selector("*", false).is_some());
    assert!(parse_selector(".a > .b", false).is_some());
}

#[test]
fn media_print_vs_screen() {
    let m = MediaCtx { print: true, width_num: 794, width_den: 1 };
    assert!(eval_media("print", &m));
    assert!(!eval_media("screen", &m));
    assert!(eval_media("print, screen", &m));
    assert!(eval_media("(min-width: 500px)", &m));
    assert!(!eval_media("(min-width: 900px)", &m));
    assert!(!eval_media("only screen and (max-width: 600px)", &m));
}

#[test]
fn color_edge_cases() {
    assert_eq!(parse_color("  #ABC  ", [0, 0, 0, 255]), Some([170, 187, 204, 255]));
    assert_eq!(parse_color("#11223344", [0, 0, 0, 255]), Some([17, 34, 51, 68]));
    assert_eq!(parse_color("#12345", [0, 0, 0, 255]), None);
    assert_eq!(parse_color("transparent", [1, 1, 1, 1]), Some([0, 0, 0, 0]));
    assert_eq!(parse_color("CurrentColor", [4, 5, 6, 7]), Some([4, 5, 6, 7]));
    assert_eq!(parse_color("rgb(300, -5, 2.9)", [0, 0, 0, 255]), Some([255, 0, 2, 255]));
    assert_eq!(parse_color("nosuchcolor", [0, 0, 0, 255]), None);
    assert_eq!(try_parse_color("#éa", [0, 0, 0, 255]), None);
    assert_eq!(try_parse_color("grey", [0, 0, 0, 255]), Some(Some([128, 128, 128, 255])));
}

#[test]
fn selector_specificity_counts_ids_classes_tags() {
    let s = parse_selector("div#main .a.b p", false).unwrap();
    assert_eq!(s.spec, (1, 2, 2));
    assert_eq!(s.compounds.len(), 3);
    let ua = parse_selector("#x", true).unwrap();
    assert_eq!(ua.spec, (0, 0, 0));
}

#[test]
fn stylesheet_keeps_matching_media_and_numbers_rules() {
    let m = MediaCtx { print: true, width_num: 794, width_den: 1 };
    let sheet = parse_stylesheet("p { color: red } @media screen { p { color: blue } } @media print { .a { margin: 0 } } @page { size: A4 }", false, 10, &m);
    assert_eq!(sheet.rules.len(), 2);
    assert_eq!(sheet.rules[0].order, 10);
    assert_eq!(sheet.rules[1].order, 11);
    assert_eq!(sheet.rules[1].decls, vec![("margin".to_string(), "0".to_string())]);
    assert!(!sheet.rules[0].ua);
}

#[test]
fn stylesheet_with_brace_at_end_is_refused() {
    let m = MediaCtx { print: true, width_num: 794, width_den: 1 };
    assert!(try_parse_stylesheet("p {", false, 0, &m).is_none());
    assert!(try_parse_stylesheet("p { x: y", false, 0, &m).is_some());
}

#[test]
fn user_agent_sheet_has_its_rules() {
    let ua = ua_stylesheet();
    assert_eq!(ua.rules.len(), 17);
    assert!(ua.rules.iter().all(|r| r.ua));
    assert_eq!(ua.rules[16].decls, vec![("text-align".to_string(), "center".to_string())]);
}
