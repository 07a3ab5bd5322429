use pinto::layout::{collapse_ws, family_of, FontFamily};

#[test]
fn whitespace_runs_collapse() {
    assert_eq!(collapse_ws("  a \n\t b  "), " a b ");
    assert_eq!(collapse_ws("x\u{00A0}\u{3000}y"), "x\u{00A0}\u{3000}y");
    assert_eq!(collapse_ws("a\u{a0}\u{a0}b"), "a\u{a0}\u{a0}b");
    assert_eq!(collapse_ws("a \t\n b"), "a b");
    assert_eq!(collapse_ws(" x  y "), " x y ");
    assert_eq!(collapse_ws("a\u{0C}\r b"), "a b");
    assert_eq!(collapse_ws(""), "");
    assert_eq!(collapse_ws("no-space"), "no-space");
}

#[test]
fn collapsing_twice_is_collapsing_once() {
    let once = collapse_ws(" a\t\tb \n c ");
    assert_eq!(collapse_ws(&once), once);
    assert!(!once.contains("  "));
}

#[test]
fn generic_font_families() {
    assert_eq!(family_of("Serif"), FontFamily::Serif);
    assert_eq!(family_of(""), FontFamily::SansSerif);
    assert_eq!(family_of("sans-serif"), FontFamily::SansSerif);
    assert_eq!(family_of("MONOSPACE"), FontFamily::Monospace);
    assert_eq!(family_of("Helvetica"), FontFamily::Named);
}
