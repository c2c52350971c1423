use mullion::border::{border_glyphs, CornerStyle, LineWeight};


#[test]
fn glyph_sets_are_correct() {
    // Light/Square
    assert_eq!(
        border_glyphs(&LineWeight::Light, &CornerStyle::Square),
        ("─", "│", "┌", "┐", "└", "┘")
    );
    // Light/Rounded
    assert_eq!(
        border_glyphs(&LineWeight::Light, &CornerStyle::Rounded),
        ("─", "│", "╭", "╮", "╰", "╯")
    );
    // Heavy/Square
    assert_eq!(
        border_glyphs(&LineWeight::Heavy, &CornerStyle::Square),
        ("━", "┃", "┏", "┓", "┗", "┛")
    );
    // Heavy/Rounded → square heavy fallback (no curved heavy corners exist)
    assert_eq!(
        border_glyphs(&LineWeight::Heavy, &CornerStyle::Rounded),
        ("━", "┃", "┏", "┓", "┗", "┛"),
        "Rounded+Heavy must fall back to square heavy corners"
    );
    // Double/Square
    assert_eq!(
        border_glyphs(&LineWeight::Double, &CornerStyle::Square),
        ("═", "║", "╔", "╗", "╚", "╝")
    );
    // Double/Rounded → square double fallback
    assert_eq!(
        border_glyphs(&LineWeight::Double, &CornerStyle::Rounded),
        ("═", "║", "╔", "╗", "╚", "╝"),
        "Rounded+Double must fall back to square double corners"
    );
}
