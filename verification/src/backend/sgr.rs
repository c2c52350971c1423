use vstd::prelude::*;

use crate::buffer::{append_char, display_width, str_width, Cell};
use crate::style::{downsample_spec, plain_style, Color, ColorDepth, Modifier, Style};
use crate::textops::chars_of;

verus! {

/// The SGR changes that move a terminal from one style to another: a full reset
/// first, or not; then a foreground, a background, and attributes to switch on.
#[derive(Debug, Clone, Copy, PartialEq, Eq, Structural)]
pub struct StyleDelta {
    pub reset: bool,
    pub fg: Option<Color>,
    pub bg: Option<Color>,
    pub mods: Modifier,
}

/// The terminal's style after emitting `d` from style `from` (`None`: unknown).
pub open spec fn after_delta(from: Option<Style>, d: StyleDelta) -> Style {
    let base = if d.reset || from is None {
        plain_style()
    } else {
        from->0
    };
    Style {
        fg: match d.fg {
            Some(c) => c,
            None => base.fg,
        },
        bg: match d.bg {
            Some(c) => c,
            None => base.bg,
        },
        mods: Modifier { bits: base.mods.bits | d.mods.bits },
    }
}

/// The minimal SGR changes from `from` to `to`: a reset when the state is unknown or
/// an attribute must go (only a reset clears one), followed by the whole of `to`;
/// otherwise just the colours that differ and the attributes newly added.
pub open spec fn style_delta_spec(from: Option<Style>, to: Style) -> StyleDelta {
    if from is None || from->0.mods.bits & !to.mods.bits != 0 {
        StyleDelta { reset: true, fg: Some(to.fg), bg: Some(to.bg), mods: to.mods }
    } else {
        StyleDelta {
            reset: false,
            fg: if to.fg == from->0.fg { None } else { Some(to.fg) },
            bg: if to.bg == from->0.bg { None } else { Some(to.bg) },
            mods: Modifier { bits: to.mods.bits & !from->0.mods.bits },
        }
    }
}

/// The minimal SGR changes from `from` to `to` (see [`style_delta_spec`]); emitting
/// them from `from` leaves the terminal in style `to`.
pub fn style_delta(from: Option<Style>, to: Style) -> (d: StyleDelta)
    ensures
        d == style_delta_spec(from, to),
        d.reset == (from is None || from->0.mods.bits & !to.mods.bits != 0),
        d.reset ==> d.fg == Some(to.fg) && d.bg == Some(to.bg) && d.mods == to.mods,
        !d.reset ==> d.fg == (if to.fg == from->0.fg {
            None
        } else {
            Some(to.fg)
        }) && d.bg == (if to.bg == from->0.bg {
            None
        } else {
            Some(to.bg)
        }) && d.mods.bits == to.mods.bits & !from->0.mods.bits,
        after_delta(from, d) == to,
{
    let reset = match from {
        None => true,
        Some(f) => !f.mods.difference(to.mods).is_empty(),
    };
    if reset {
        let d = StyleDelta { reset: true, fg: Some(to.fg), bg: Some(to.bg), mods: to.mods };
        proof {
            let m = to.mods.bits;
            assert(0u16 | m == m) by (bit_vector);
        }
        d
    } else {
        let f = match from {
            Some(f) => f,
            None => to,
        };
        let fg = if to.fg == f.fg {
            None
        } else {
            Some(to.fg)
        };
        let bg = if to.bg == f.bg {
            None
        } else {
            Some(to.bg)
        };
        let d = StyleDelta { reset: false, fg, bg, mods: to.mods.difference(f.mods) };
        proof {
            let a = f.mods.bits;
            let b = to.mods.bits;
            assert(a & !b == 0 ==> a | (b & !a) == b) by (bit_vector);
        }
        d
    }
}

/// A box-drawing character as plain ASCII: horizontal lines become `-`, vertical
/// lines `|`, every other box-drawing glyph `+`; any other character is kept.
pub open spec fn box_to_ascii_spec(c: char) -> char {
    if '\u{2500}' <= c <= '\u{257f}' {
        if horizontal_line(c) {
            '-'
        } else if vertical_line(c) {
            '|'
        } else {
            '+'
        }
    } else {
        c
    }
}

/// The box-drawing glyphs that are horizontal lines or half lines.
pub open spec fn horizontal_line(c: char) -> bool {
    c == '─' || c == '━' || c == '┄' || c == '┅' || c == '┈' || c == '┉' || c == '╌' || c == '╍' || c
        == '═' || c == '╴' || c == '╶' || c == '╸' || c == '╺' || c == '╼' || c == '╾'
}

/// The box-drawing glyphs that are vertical lines or half lines.
pub open spec fn vertical_line(c: char) -> bool {
    c == '│' || c == '┃' || c == '┆' || c == '┇' || c == '┊' || c == '┋' || c == '╎' || c == '╏' || c
        == '║' || c == '╵' || c == '╷' || c == '╹' || c == '╻' || c == '╽' || c == '╿'
}

/// A box-drawing character as plain ASCII, for terminals that do not render them.
pub fn box_to_ascii(c: char) -> (r: char)
    ensures
        r == box_to_ascii_spec(c),
{
    if c >= '\u{2500}' && c <= '\u{257f}' {
        if c == '─' || c == '━' || c == '┄' || c == '┅' || c == '┈' || c == '┉' || c == '╌' || c == '╍'
            || c == '═' || c == '╴' || c == '╶' || c == '╸' || c == '╺' || c == '╼' || c == '╾' {
            '-'
        } else if c == '│' || c == '┃' || c == '┆' || c == '┇' || c == '┊' || c == '┋' || c == '╎' || c
            == '╏' || c == '║' || c == '╵' || c == '╷' || c == '╹' || c == '╻' || c == '╽' || c == '╿' {
            '|'
        } else {
            '+'
        }
    } else {
        c
    }
}


/// `s` with every box-drawing character replaced by its ASCII form.
pub fn ascii_text(s: &str) -> (r: String)
    ensures
        r@ == s@.map_values(|c: char| box_to_ascii_spec(c)),
{
    let cs = chars_of(s);
    let mut out = String::new();
    let mut i: usize = 0;
    while i < cs.len()
        invariant
            i <= cs@.len(),
            out@ == cs@.take(i as int).map_values(|c: char| box_to_ascii_spec(c)),
        decreases cs@.len() - i,
    {
        append_char(&mut out, box_to_ascii(cs[i]));
        proof {
            assert(cs@.take(i + 1) =~= cs@.take(i as int).push(cs@[i as int]));
        }
        i = i + 1;
        assert(out@ =~= cs@.take(i as int).map_values(|c: char| box_to_ascii_spec(c)));
    }
    assert(cs@.take(cs@.len() as int) =~= cs@);
    out
}

/// A cell's style as the terminal shows it at colour depth `depth`.
pub open spec fn shown_style(s: Style, depth: ColorDepth) -> Style {
    Style { fg: downsample_spec(s.fg, depth), bg: downsample_spec(s.bg, depth), mods: s.mods }
}

/// The column the cursor reaches after `symbol` is printed at column `x`: the
/// terminal advances by the glyph's width, at least one column.
pub open spec fn column_after(x: u16, symbol: Seq<char>) -> int {
    x + if display_width(symbol) == 0 {
        1
    } else {
        display_width(symbol) as int
    }
}

/// The text printed for `symbol`: itself, or with box-drawing glyphs as ASCII.
pub open spec fn printed(symbol: Seq<char>, unicode: bool) -> Seq<char> {
    if unicode {
        symbol
    } else {
        symbol.map_values(|c: char| box_to_ascii_spec(c))
    }
}

/// The terminal's style before the `k`-th change of a frame: `last` before the
/// first, then the shown style of the change before it.
pub open spec fn style_before(
    changes: Seq<(u16, u16, &Cell)>,
    k: int,
    last: Option<Style>,
    depth: ColorDepth,
) -> Option<Style> {
    if k == 0 {
        last
    } else {
        Some(shown_style(changes[k - 1].2.style, depth))
    }
}

/// The cursor is moved before the `k`-th change unless the change before it left
/// the cursor exactly there.
pub open spec fn needs_move(changes: Seq<(u16, u16, &Cell)>, k: int) -> bool {
    k == 0 || !(changes[k].1 == changes[k - 1].1 && changes[k].0 as int == column_after(
        changes[k - 1].0,
        changes[k - 1].2.symbol@,
    ))
}

/// How one changed cell is drawn: whether the cursor is moved to it first, the style
/// change emitted before it (none when the terminal already shows its style), and
/// the text printed.
#[derive(Debug)]
pub struct CellPlan {
    pub move_to: bool,
    pub delta: Option<StyleDelta>,
    pub text: String,
}

/// Plan the drawing of a frame's changed cells, in order, starting from the terminal
/// style `last` (`None`: unknown): colours are downsampled to `depth`, a style change
/// is the minimal one, a move is skipped where the cursor already stands, and without
/// `unicode` box-drawing glyphs are printed as ASCII.  Also returns the style the
/// terminal is left in.
pub fn plan_frame(changes: &[(u16, u16, &Cell)], last: Option<Style>, depth: ColorDepth, unicode: bool) -> (r: (
    Vec<CellPlan>,
    Option<Style>,
))
    ensures
        r.0@.len() == changes@.len(),
        forall|k: int|
            0 <= k < changes@.len() ==> {
                let shown = shown_style(changes@[k].2.style, depth);
                let before = style_before(changes@, k, last, depth);
                &&& (#[trigger] r.0@[k]).move_to == needs_move(changes@, k)
                &&& r.0@[k].delta == if before == Some(shown) {
                    None
                } else {
                    Some(style_delta_spec(before, shown))
                }
                &&& r.0@[k].text@ == printed(changes@[k].2.symbol@, unicode)
            },
        r.1 == style_before(changes@, changes@.len() as int, last, depth),
{
    let mut plans: Vec<CellPlan> = Vec::new();
    let mut cur: Option<Style> = last;
    let mut prev_col: u64 = 0;
    let mut prev_y: u16 = 0;
    let mut i: usize = 0;
    while i < changes.len()
        invariant
            i <= changes@.len(),
            plans@.len() == i,
            cur == style_before(changes@, i as int, last, depth),
            i > 0 ==> prev_y == changes@[i - 1].1,
            i > 0 ==> (prev_col == column_after(changes@[i - 1].0, changes@[i - 1].2.symbol@) || (
            prev_col == u64::MAX && column_after(changes@[i - 1].0, changes@[i - 1].2.symbol@)
                >= u64::MAX)),
            forall|k: int|
                0 <= k < i ==> {
                    let shown = shown_style(changes@[k].2.style, depth);
                    let before = style_before(changes@, k, last, depth);
                    &&& (#[trigger] plans@[k]).move_to == needs_move(changes@, k)
                    &&& plans@[k].delta == if before == Some(shown) {
                        None
                    } else {
                        Some(style_delta_spec(before, shown))
                    }
                    &&& plans@[k].text@ == printed(changes@[k].2.symbol@, unicode)
                },
        decreases changes@.len() - i,
    {
        let (x, y, cell) = changes[i];
        let move_to = if i == 0 {
            true
        } else {
            !(y == prev_y && (x as u64) == prev_col)
        };
        let shown = Style {
            fg: cell.style.fg.downsample(depth),
            bg: cell.style.bg.downsample(depth),
            mods: cell.style.mods,
        };
        let same = match cur {
            Some(s) => s == shown,
            None => false,
        };
        let delta = if same {
            None
        } else {
            Some(style_delta(cur, shown))
        };
        let text = if unicode {
            cell.symbol.clone()
        } else {
            ascii_text(cell.symbol.as_str())
        };
        let w = str_width(cell.symbol.as_str());
        let adv: u64 = if w == 0 {
            1
        } else {
            w as u64
        };
        prev_col = match (x as u64).checked_add(adv) {
            Some(c) => c,
            None => u64::MAX,
        };
        prev_y = y;
        cur = Some(shown);
        plans.push(CellPlan { move_to, delta, text });
        i = i + 1;
    }
    (plans, cur)
}

} // verus!
