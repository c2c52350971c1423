use mullion::capabilities::{from_env, Capabilities};
use mullion::style::ColorDepth;


// ── Colour depth ──────────────────────────────────────────────────────

#[test]
fn colorterm_truecolor_gives_truecolor() {
    assert_eq!(from_env(Some("truecolor"), None, None).color, ColorDepth::TrueColor);
}

#[test]
fn colorterm_24bit_gives_truecolor() {
    assert_eq!(from_env(Some("24bit"), None, None).color, ColorDepth::TrueColor);
}

#[test]
fn term_xterm_256color_gives_palette256() {
    assert_eq!(from_env(None, Some("xterm-256color"), None).color, ColorDepth::Palette256);
}

#[test]
fn term_screen_256color_gives_palette256() {
    assert_eq!(from_env(None, Some("screen-256color"), None).color, ColorDepth::Palette256);
}

#[test]
fn term_xterm_no_256color_gives_palette16() {
    assert_eq!(from_env(None, Some("xterm"), None).color, ColorDepth::Palette16);
}

#[test]
fn all_absent_gives_palette16() {
    assert_eq!(from_env(None, None, None).color, ColorDepth::Palette16);
}

#[test]
fn colorterm_beats_256color_in_term() {
    // COLORTERM wins over TERM for colour depth.
    assert_eq!(
        from_env(Some("truecolor"), Some("xterm-256color"), None).color,
        ColorDepth::TrueColor,
    );
}

// ── Unicode ───────────────────────────────────────────────────────────

#[test]
fn utf8_locale_enables_unicode() {
    assert!(from_env(None, Some("xterm-256color"), Some("en_US.UTF-8")).unicode);
}

#[test]
fn utf8_lowercase_locale_enables_unicode() {
    assert!(from_env(None, None, Some("en_US.utf8")).unicode);
}

#[test]
fn absent_locale_defaults_unicode_true() {
    // No locale info → optimistic default.
    assert!(from_env(None, Some("xterm"), None).unicode);
}

#[test]
fn non_utf8_locale_still_defaults_true() {
    // A non-UTF-8 locale ("C") → still default true (emulator likely works).
    assert!(from_env(None, Some("xterm"), Some("C")).unicode);
}

#[test]
fn linux_console_disables_unicode() {
    // TERM=linux is the Linux VT; box-drawing is unreliable regardless of locale.
    assert!(!from_env(None, Some("linux"), Some("en_US.UTF-8")).unicode);
}

#[test]
fn linux_console_disables_unicode_even_without_locale() {
    assert!(!from_env(None, Some("linux"), None).unicode);
}

// ── Synchronized output ───────────────────────────────────────────────

#[test]
fn synchronized_output_is_always_true() {
    assert!(from_env(None, None, None).synchronized_output);
    assert!(from_env(Some("truecolor"), Some("linux"), Some("en_US.UTF-8")).synchronized_output);
}

// ── Capabilities::full ────────────────────────────────────────────────

#[test]
fn full_gives_truecolor_and_unicode() {
    let c = Capabilities::full();
    assert_eq!(c.color, ColorDepth::TrueColor);
    assert!(c.unicode);
    assert!(c.synchronized_output);
}
