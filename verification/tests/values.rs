use pinto::style::{Display, Float, TextAlign, VerticalAlign};
use pinto::values::{keyword_value_panics, parse_gradient, try_parse_gradient, KeywordStyle};

#[test]
fn gradients() {
    let g = parse_gradient("linear-gradient(to right, #f00 10%, blue)", [0, 0, 0, 255]).unwrap();
    assert_eq!(g.from, [255, 0, 0, 255]);
    assert_eq!(g.to, [0, 0, 255, 255]);
    assert!(g.horizontal);
    let v = parse_gradient("linear-gradient(180deg, red, white, black)", [0, 0, 0, 255]).unwrap();
    assert!(!v.horizontal);
    assert_eq!(v.to, [0, 0, 0, 255]);
    assert!(parse_gradient("linear-gradient(red)", [0, 0, 0, 255]).is_none());
    assert!(parse_gradient("radial-gradient(red, blue)", [0, 0, 0, 255]).is_none());
    assert!(try_parse_gradient("a) linear-gradient(red, blue", [0, 0, 0, 255]).is_none());
}

#[test]
fn keywords_apply() {
    let mut k = KeywordStyle::initial();
    assert!(k.apply_keyword("display", " table-cell "));
    assert_eq!(k.display, Display::TableCell);
    assert!(k.apply_keyword("display", "flex"));
    assert_eq!(k.display, Display::TableCell);
    assert!(k.apply_keyword("font-weight", "bold"));
    assert_eq!(k.font_weight, 700);
    assert!(k.apply_keyword("font-weight", "+650"));
    assert_eq!(k.font_weight, 650);
    assert!(k.apply_keyword("font-weight", "70000"));
    assert_eq!(k.font_weight, 650);
    assert!(k.apply_keyword("font-family", "\"Helvetica Neue\", 'Arial', sans-serif"));
    assert_eq!(k.font_family, vec!["Helvetica Neue".to_string(), "Arial".to_string(), "sans-serif".to_string()]);
    assert!(k.apply_keyword("color", "navy"));
    assert_eq!(k.color, [0, 0, 128, 255]);
    assert!(k.apply_keyword("background", "currentcolor"));
    assert_eq!(k.background, Some([0, 0, 128, 255]));
    assert!(k.apply_keyword("background-image", "none"));
    assert_eq!(k.background, None);
    assert!(k.apply_keyword("background", "linear-gradient(red, blue)"));
    assert!(k.background_gradient.is_some());
    assert!(k.apply_keyword("text-align", "center"));
    assert_eq!(k.text_align, TextAlign::Center);
    assert!(k.apply_keyword("vertical-align", "middle"));
    assert_eq!(k.vertical_align, VerticalAlign::Middle);
    assert!(k.apply_keyword("float", "right"));
    assert_eq!(k.float, Float::Right);
    assert!(k.apply_keyword("break-before", "page"));
    assert!(k.page_break_before);
    assert!(k.apply_keyword("white-space", "pre"));
    assert!(k.white_space_nowrap);
    assert!(!k.apply_keyword("margin-top", "5px"));
    assert!(!k.apply_keyword("Display", "none"));
    assert_eq!(k.display, Display::TableCell);
}

#[test]
fn inherited_properties_pass_down() {
    let mut parent = KeywordStyle::initial();
    parent.apply_keyword("color", "red");
    parent.apply_keyword("display", "block");
    parent.apply_keyword("font-style", "oblique");
    let child = KeywordStyle::inherited_from(&parent);
    assert_eq!(child.color, [255, 0, 0, 255]);
    assert!(child.italic);
    assert_eq!(child.display, Display::Inline);
}

#[test]
fn panicking_values_are_reported() {
    assert!(keyword_value_panics("color", "#éa"));
    assert!(!keyword_value_panics("color", "#fff"));
    assert!(keyword_value_panics("background", "x) linear-gradient(a"));
    assert!(!keyword_value_panics("width", "#é"));
}
