use vstd::prelude::*;

use crate::style::ColorDepth;
use crate::textops::{seq_contains_run, str_contains, str_equals};

verus! {

/// What a terminal can render: colour depth, Unicode box drawing, and
/// synchronized-output support.
#[derive(Debug, Clone, Copy, PartialEq, Eq, Structural)]
pub struct Capabilities {
    /// Maximum colour depth the terminal reliably supports.
    pub color: ColorDepth,
    /// Whether Unicode box-drawing glyphs and wide graphemes render reliably.
    pub unicode: bool,
    /// Whether the synchronized-output extension is emitted.
    pub synchronized_output: bool,
}

impl Capabilities {
    /// Full-capability preset: truecolor, unicode, synchronized output.
    pub fn full() -> (c: Self)
        ensures
            c == (Capabilities {
                color: ColorDepth::TrueColor,
                unicode: true,
                synchronized_output: true,
            }),
    {
        Capabilities { color: ColorDepth::TrueColor, unicode: true, synchronized_output: true }
    }
}

/// The colour depth the environment strings announce: `COLORTERM` of `truecolor`
/// or `24bit` gives truecolor; else a `TERM` containing `256color` gives the 256
/// palette; else the 16 colours.
pub open spec fn color_from_env(colorterm: Option<Seq<char>>, term: Option<Seq<char>>) -> ColorDepth {
    if colorterm matches Some(c) && (c == "truecolor"@ || c == "24bit"@) {
        ColorDepth::TrueColor
    } else if term matches Some(t) && seq_contains_run(t, "256color"@) {
        ColorDepth::Palette256
    } else {
        ColorDepth::Palette16
    }
}

/// The chars of an optional string.
pub open spec fn opt_chars(s: Option<&str>) -> Option<Seq<char>> {
    match s {
        Some(t) => Some(t@),
        None => None,
    }
}

/// Derive [`Capabilities`] from explicit environment strings (`COLORTERM`, `TERM`,
/// and the locale, which is not inspected). Unicode is off only on the Linux text
/// console (`TERM=linux`); synchronized output is always on.
pub fn from_env(colorterm: Option<&str>, term: Option<&str>, ctype: Option<&str>) -> (c:
    Capabilities)
    ensures
        c.color == color_from_env(opt_chars(colorterm), opt_chars(term)),
        c.unicode == !(opt_chars(term) == Some("linux"@)),
        c.synchronized_output,
{
    let truecolor = match colorterm {
        Some(s) => str_equals(s, "truecolor") || str_equals(s, "24bit"),
        None => false,
    };
    let color = if truecolor {
        ColorDepth::TrueColor
    } else if match term {
        Some(t) => str_contains(t, "256color"),
        None => false,
    } {
        ColorDepth::Palette256
    } else {
        ColorDepth::Palette16
    };
    let linux_console = match term {
        Some(t) => str_equals(t, "linux"),
        None => false,
    };
    let _ = ctype;
    Capabilities { color, unicode: !linux_console, synchronized_output: true }
}

} // verus!
