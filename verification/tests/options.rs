use pinto::options::{
    first_number_text, is_landscape, last_declared, layout_page_size, named_page_dimensions, number_and_unit, page_size_mm,
    page_option_declarations, requested_page_size, PageSizeError,
};

#[test]
fn parse_units() {
    let a = number_and_unit("15mm", "px").unwrap();
    assert_eq!(a.0.parse::<f64>().unwrap(), 15.0);
    assert_eq!(a.1, "mm");
    let b = number_and_unit("0", "px").unwrap();
    assert_eq!(b.0.parse::<f64>().unwrap(), 0.0);
    assert_eq!(b.1, "px");
    let c = number_and_unit("10mm", "px").unwrap();
    assert_eq!(c.0.parse::<f64>().unwrap(), 10.0);
    assert_eq!(c.1, "mm");
}

#[test]
fn ambiguous_or_missing_units_fall_back() {
    assert_eq!(number_and_unit("10mm or 2in", "px").unwrap().1, "px");
    assert_eq!(number_and_unit("3 inches", "px").unwrap().1, "in");
    assert!(number_and_unit("auto", "px").is_none());
}

#[test]
fn first_number_follows_the_pattern() {
    assert_eq!(first_number_text("width: -12.5px"), Some("-12.5".to_string()));
    assert_eq!(first_number_text("x+.5"), Some("+.5".to_string()));
    assert_eq!(first_number_text("a.b 7."), Some("7.".to_string()));
    assert_eq!(first_number_text("- . +"), None);
    assert_eq!(first_number_text("é3"), Some("3".to_string()));
}

#[test]
fn page_sizes_in_millimetres() {
    assert_eq!(page_size_mm("A4"), Some((210, 297)));
    assert_eq!(page_size_mm("Letter"), Some((216, 279)));
    assert_eq!(page_size_mm("B1+"), Some((1020, 720)));
    assert_eq!(page_size_mm("ANSI B (ledger & tabloid)"), Some((279, 432)));
    assert_eq!(page_size_mm("a4"), None);
    assert_eq!(page_size_mm("Custom"), None);
}

#[test]
fn last_declaration_wins() {
    let d = vec![("a".to_string(), "1".to_string()), ("b".to_string(), "2".to_string()), ("a".to_string(), "3".to_string())];
    assert_eq!(last_declared(&d, "a"), Some("3".to_string()));
    assert_eq!(last_declared(&d, "b"), Some("2".to_string()));
    assert_eq!(last_declared(&d, "c"), None);
}

#[test]
fn layout_page_size_prefers_the_stylesheet() {
    assert_eq!(layout_page_size(Some("A5"), Some("A3"), "A4"), "A5");
    assert_eq!(layout_page_size(None, Some("A3"), "A4"), "A3");
    assert_eq!(layout_page_size(Some("Custom"), Some("A3"), "Letter"), "Letter");
    assert_eq!(layout_page_size(Some(""), Some("A3"), ""), "A4");
    assert!(is_landscape(Some("Landscape"), Some("Portrait")));
    assert!(!is_landscape(Some("Portrait"), Some("Landscape")));
    assert!(is_landscape(None, Some("Landscape")));
    assert!(!is_landscape(None, None));
}

#[test]
fn requested_and_named_sizes() {
    assert_eq!(requested_page_size(Some("A3"), "A4"), "A3");
    assert_eq!(requested_page_size(Some(""), "Letter"), "Letter");
    assert_eq!(requested_page_size(None, ""), "A4");
    assert_eq!(named_page_dimensions(Some("A4")), Ok((210, 297)));
    assert_eq!(named_page_dimensions(None), Err(PageSizeError::Required));
    assert_eq!(named_page_dimensions(Some("CUSTOM")), Err(PageSizeError::CustomNeedsDimensions));
    assert_eq!(named_page_dimensions(Some("Custom")), Err(PageSizeError::Invalid));
}

#[test]
fn only_page_options_are_taken_from_the_stylesheet() {
    let d = vec![
        ("margin-top".to_string(), "0".to_string()),
        ("color".to_string(), "red".to_string()),
        ("page-size".to_string(), "A5".to_string()),
        ("margin-top".to_string(), "5mm".to_string()),
    ];
    let kept = page_option_declarations(&d);
    assert_eq!(kept, vec![d[0].clone(), d[2].clone(), d[3].clone()]);
}
