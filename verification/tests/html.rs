use pinto::html::{has_class_token, render_header_footer, uses_page_number, without_class, FIXED_STYLE};

#[test]
fn header_footer_page_layout() {
    let page = render_header_footer(
        "de",
        "rtl",
        &["<title>t</title>".to_string()],
        &["<style>p{}</style>".to_string()],
        &["<p>1</p>".to_string(), "<p>2</p>".to_string()],
    );
    let expected = format!(
        "<!DOCTYPE html>\n<html lang=de dir=rtl>\n\t<head>\n\t\t<meta charset=\"utf-8\">\n<title>t</title>{}<style>p{{}}</style>\n\t</head>\n\t<body>\n\t\t<div class=\"print-format\">\n\t\t\t<div class=\"wrapper\">\n<p>1</p><p>2</p>\t\t\t</div>\n\t\t</div>\n\t</body>\n</html>",
        FIXED_STYLE
    );
    assert_eq!(page, expected);
}

#[test]
fn class_tokens() {
    assert!(has_class_token("a  visible-pdf b", "visible-pdf"));
    assert!(!has_class_token("visible-pdf-x", "visible-pdf"));
    assert_eq!(without_class("  a visible-pdf b visible-pdf ", "visible-pdf"), "a b");
    assert_eq!(without_class("visible-pdf", "visible-pdf"), "");
    assert!(uses_page_number("x page_info_topage"));
    assert!(!uses_page_number("pages"));
}
