use vstd::prelude::*;

verus! {

/// A terminal colour: the sixteen named ANSI colours, a 256-palette index, or 24-bit RGB.
#[derive(Debug, Clone, Copy, PartialEq, Eq, Structural, Hash)]
pub enum Color {
    Reset,
    Black,
    Red,
    Green,
    Yellow,
    Blue,
    Magenta,
    Cyan,
    Gray,
    DarkGray,
    LightRed,
    LightGreen,
    LightYellow,
    LightBlue,
    LightMagenta,
    LightCyan,
    White,
    Indexed(u8),
    Rgb(u8, u8, u8),
}

/// How many colours a terminal reliably renders.
#[derive(Debug, Clone, Copy, PartialEq, Eq, Structural, Hash)]
pub enum ColorDepth {
    /// The sixteen ANSI colours.
    Palette16,
    /// The xterm 256-colour palette.
    Palette256,
    /// 24-bit RGB.
    TrueColor,
}

impl Default for ColorDepth {
    fn default() -> (r: Self)
        ensures
            r == ColorDepth::TrueColor,
    {
        ColorDepth::TrueColor
    }
}

/// A set of text attributes, one bit each.
#[derive(Debug, Clone, Copy, PartialEq, Eq, Structural, Hash)]
pub struct Modifier {
    pub bits: u16,
}

impl Modifier {
    /// The single attribute bold.
    pub fn bold() -> (m: Modifier)
        ensures
            m.bits == 1,
    {
        Modifier { bits: 1 }
    }

    /// The single attribute dim.
    pub fn dim() -> (m: Modifier)
        ensures
            m.bits == 2,
    {
        Modifier { bits: 2 }
    }

    /// The single attribute italic.
    pub fn italic() -> (m: Modifier)
        ensures
            m.bits == 4,
    {
        Modifier { bits: 4 }
    }

    /// The single attribute underline.
    pub fn underline() -> (m: Modifier)
        ensures
            m.bits == 8,
    {
        Modifier { bits: 8 }
    }

    /// The single attribute reverse.
    pub fn reverse() -> (m: Modifier)
        ensures
            m.bits == 16,
    {
        Modifier { bits: 16 }
    }


    /// The empty attribute set.
    pub fn empty() -> (r: Modifier)
        ensures
            r.bits == 0,
    {
        Modifier { bits: 0 }
    }

    /// `true` when no attribute is set.
    pub fn is_empty(self) -> (r: bool)
        ensures
            r == (self.bits == 0),
    {
        self.bits == 0
    }

    /// `true` when every attribute of `other` is set in `self`.
    pub fn contains(self, other: Modifier) -> (r: bool)
        ensures
            r == (self.bits & other.bits == other.bits),
    {
        self.bits & other.bits == other.bits
    }

    /// The attributes set in either.
    pub fn union(self, other: Modifier) -> (r: Modifier)
        ensures
            r.bits == self.bits | other.bits,
    {
        Modifier { bits: self.bits | other.bits }
    }

    /// The attributes of `self` not in `other`.
    pub fn difference(self, other: Modifier) -> (r: Modifier)
        ensures
            r.bits == self.bits & !other.bits,
    {
        Modifier { bits: self.bits & !other.bits }
    }
}

/// Foreground, background and attributes of a cell.
#[derive(Debug, Clone, Copy, PartialEq, Eq, Structural, Hash)]
pub struct Style {
    pub fg: Color,
    pub bg: Color,
    pub mods: Modifier,
}

/// The style with both colours reset and no attributes.
pub open spec fn plain_style() -> Style {
    Style { fg: Color::Reset, bg: Color::Reset, mods: Modifier { bits: 0 } }
}

impl Default for Style {
    fn default() -> (r: Self)
        ensures
            r == plain_style(),
    {
        Style { fg: Color::Reset, bg: Color::Reset, mods: Modifier { bits: 0 } }
    }
}

impl Style {
    /// The same style with foreground `c`.
    pub fn fg(self, c: Color) -> (r: Style)
        ensures
            r == (Style { fg: c, ..self }),
    {
        Style { fg: c, ..self }
    }

    /// The same style with background `c`.
    pub fn bg(self, c: Color) -> (r: Style)
        ensures
            r == (Style { bg: c, ..self }),
    {
        Style { bg: c, ..self }
    }

    /// The same style with the attributes of `m` added.
    pub fn add_modifier(self, m: Modifier) -> (r: Style)
        ensures
            r == (Style { mods: Modifier { bits: self.mods.bits | m.bits }, ..self }),
    {
        Style { mods: self.mods.union(m), ..self }
    }
}


/// The RGB value of the `i`-th entry of the standard xterm 256-colour palette: the
/// sixteen system colours, the 6×6×6 colour cube, then 24 greys.
pub open spec fn xterm_rgb(i: int) -> (int, int, int) {
    if i < 16 {
        if i == 0 {
            (0, 0, 0)
        } else if i == 1 {
            (205, 0, 0)
        } else if i == 2 {
            (0, 205, 0)
        } else if i == 3 {
            (205, 205, 0)
        } else if i == 4 {
            (0, 0, 238)
        } else if i == 5 {
            (205, 0, 205)
        } else if i == 6 {
            (0, 205, 205)
        } else if i == 7 {
            (229, 229, 229)
        } else if i == 8 {
            (127, 127, 127)
        } else if i == 9 {
            (255, 0, 0)
        } else if i == 10 {
            (0, 255, 0)
        } else if i == 11 {
            (255, 255, 0)
        } else if i == 12 {
            (92, 92, 255)
        } else if i == 13 {
            (255, 0, 255)
        } else if i == 14 {
            (0, 255, 255)
        } else {
            (255, 255, 255)
        }
    } else if i < 232 {
        let k = i - 16;
        (cube_level(k / 36), cube_level((k / 6) % 6), cube_level(k % 6))
    } else {
        (8 + 10 * (i - 232), 8 + 10 * (i - 232), 8 + 10 * (i - 232))
    }
}

/// The intensity of step `s` of the xterm colour cube.
pub open spec fn cube_level(s: int) -> int {
    if s == 0 {
        0
    } else {
        55 + 40 * s
    }
}

/// The squared RGB distance between two colours.
pub open spec fn dist2(a: (int, int, int), b: (int, int, int)) -> int {
    (a.0 - b.0) * (a.0 - b.0) + (a.1 - b.1) * (a.1 - b.1) + (a.2 - b.2) * (a.2 - b.2)
}

/// The palette index in `lo..hi` nearest to `c`, the lowest on a tie.
pub open spec fn is_nearest(c: (int, int, int), lo: int, hi: int, i: int) -> bool {
    &&& lo <= i < hi
    &&& forall|j: int| lo <= j < hi ==> dist2(c, xterm_rgb(i)) <= dist2(c, xterm_rgb(j))
    &&& forall|j: int| lo <= j < i ==> dist2(c, xterm_rgb(i)) < dist2(c, xterm_rgb(j))
}

/// The named colour of ANSI index `i < 16`.
pub open spec fn named(i: int) -> Color {
    if i == 0 {
        Color::Black
    } else if i == 1 {
        Color::Red
    } else if i == 2 {
        Color::Green
    } else if i == 3 {
        Color::Yellow
    } else if i == 4 {
        Color::Blue
    } else if i == 5 {
        Color::Magenta
    } else if i == 6 {
        Color::Cyan
    } else if i == 7 {
        Color::Gray
    } else if i == 8 {
        Color::DarkGray
    } else if i == 9 {
        Color::LightRed
    } else if i == 10 {
        Color::LightGreen
    } else if i == 11 {
        Color::LightYellow
    } else if i == 12 {
        Color::LightBlue
    } else if i == 13 {
        Color::LightMagenta
    } else if i == 14 {
        Color::LightCyan
    } else {
        Color::White
    }
}

/// The RGB value of palette entry `i`, computed.
fn xterm_rgb_exec(i: u16) -> (r: (i32, i32, i32))
    requires
        i < 256,
    ensures
        (r.0 as int, r.1 as int, r.2 as int) == xterm_rgb(i as int),
{
    if i < 16 {
        match i {
            0 => (0, 0, 0),
            1 => (205, 0, 0),
            2 => (0, 205, 0),
            3 => (205, 205, 0),
            4 => (0, 0, 238),
            5 => (205, 0, 205),
            6 => (0, 205, 205),
            7 => (229, 229, 229),
            8 => (127, 127, 127),
            9 => (255, 0, 0),
            10 => (0, 255, 0),
            11 => (255, 255, 0),
            12 => (92, 92, 255),
            13 => (255, 0, 255),
            14 => (0, 255, 255),
            _ => (255, 255, 255),
        }
    } else if i < 232 {
        let k = (i - 16) as i32;
        let lv = |s: i32| -> (l: i32)
            requires
                0 <= s < 6,
            ensures
                l == cube_level(s as int),
            {
                if s == 0 {
                    0
                } else {
                    55 + 40 * s
                }
            };
        (lv(k / 36), lv((k / 6) % 6), lv(k % 6))
    } else {
        let g = 8 + 10 * (i - 232) as i32;
        (g, g, g)
    }
}

/// The palette index in `lo..hi` nearest to `c`, the lowest on a tie.
fn nearest_index(c: (i32, i32, i32), lo: u16, hi: u16) -> (r: u16)
    requires
        lo < hi <= 256,
        0 <= c.0 <= 255,
        0 <= c.1 <= 255,
        0 <= c.2 <= 255,
    ensures
        is_nearest((c.0 as int, c.1 as int, c.2 as int), lo as int, hi as int, r as int),
{
    let ghost cc = (c.0 as int, c.1 as int, c.2 as int);
    let first = xterm_rgb_exec(lo);
    let mut best = lo;
    let mut best_d = sq_dist(c, first);
    let mut i = lo + 1;
    while i < hi
        invariant
            lo < i <= hi <= 256,
            lo <= best < i,
            0 <= c.0 <= 255,
            0 <= c.1 <= 255,
            0 <= c.2 <= 255,
            cc == (c.0 as int, c.1 as int, c.2 as int),
            best_d == dist2(cc, xterm_rgb(best as int)),
            forall|j: int| lo <= j < i ==> dist2(cc, xterm_rgb(best as int)) <= dist2(cc, xterm_rgb(j)),
            forall|j: int| lo <= j < best ==> dist2(cc, xterm_rgb(best as int)) < dist2(cc, xterm_rgb(j)),
        decreases hi - i,
    {
        let d = sq_dist(c, xterm_rgb_exec(i));
        if d < best_d {
            best = i;
            best_d = d;
        }
        i = i + 1;
    }
    best
}

/// The squared distance of two RGB triples of bytes.
fn sq_dist(a: (i32, i32, i32), b: (i32, i32, i32)) -> (d: i32)
    requires
        0 <= a.0 <= 255,
        0 <= a.1 <= 255,
        0 <= a.2 <= 255,
        0 <= b.0 <= 255,
        0 <= b.1 <= 255,
        0 <= b.2 <= 255,
    ensures
        d == dist2((a.0 as int, a.1 as int, a.2 as int), (b.0 as int, b.1 as int, b.2 as int)),
{
    let dr = a.0 - b.0;
    let dg = a.1 - b.1;
    let db = a.2 - b.2;
    proof {
        lemma_square_bound(dr as int);
        lemma_square_bound(dg as int);
        lemma_square_bound(db as int);
    }
    let r2 = dr * dr;
    let g2 = dg * dg;
    let b2 = db * db;
    r2 + g2 + b2
}

proof fn lemma_square_bound(d: int)
    requires
        -255 <= d <= 255,
    ensures
        0 <= d * d <= 65025,
{
    assert(0 <= d * d <= 65025) by (nonlinear_arith)
        requires
            -255 <= d <= 255,
    ;
}

proof fn lemma_xterm_bytes(i: int)
    requires
        0 <= i < 256,
    ensures
        0 <= xterm_rgb(i).0 <= 255,
        0 <= xterm_rgb(i).1 <= 255,
        0 <= xterm_rgb(i).2 <= 255,
{
}

/// The named colour of ANSI index `i < 16`, computed.
fn named_exec(i: u16) -> (c: Color)
    requires
        i < 16,
    ensures
        c == named(i as int),
{
    match i {
        0 => Color::Black,
        1 => Color::Red,
        2 => Color::Green,
        3 => Color::Yellow,
        4 => Color::Blue,
        5 => Color::Magenta,
        6 => Color::Cyan,
        7 => Color::Gray,
        8 => Color::DarkGray,
        9 => Color::LightRed,
        10 => Color::LightGreen,
        11 => Color::LightYellow,
        12 => Color::LightBlue,
        13 => Color::LightMagenta,
        14 => Color::LightCyan,
        _ => Color::White,
    }
}

/// A colour as rendered at colour depth `depth`: unchanged in true colour; under
/// the 256-colour palette an RGB colour becomes the nearest cube or grey entry; under
/// the sixteen-colour palette an RGB or indexed colour becomes the nearest named
/// colour.  "Nearest" is by squared RGB distance to the standard xterm values, the
/// lowest index on a tie.
pub open spec fn downsample_spec(c: Color, depth: ColorDepth) -> Color {
    match (depth, c) {
        (ColorDepth::Palette256, Color::Rgb(r, g, b)) => Color::Indexed(
            (choose|i: int| is_nearest((r as int, g as int, b as int), 16, 256, i)) as u8,
        ),
        (ColorDepth::Palette16, Color::Rgb(r, g, b)) => named(
            choose|i: int| is_nearest((r as int, g as int, b as int), 0, 16, i),
        ),
        (ColorDepth::Palette16, Color::Indexed(n)) => named(
            choose|i: int| is_nearest(xterm_rgb(n as int), 0, 16, i),
        ),
        _ => c,
    }
}

/// At most one palette index is nearest.
proof fn lemma_nearest_unique(c: (int, int, int), lo: int, hi: int, i: int, j: int)
    requires
        is_nearest(c, lo, hi, i),
        is_nearest(c, lo, hi, j),
    ensures
        i == j,
{
    if i < j {
        assert(dist2(c, xterm_rgb(j)) < dist2(c, xterm_rgb(i)));
        assert(dist2(c, xterm_rgb(i)) <= dist2(c, xterm_rgb(j)));
    } else if j < i {
        assert(dist2(c, xterm_rgb(i)) < dist2(c, xterm_rgb(j)));
        assert(dist2(c, xterm_rgb(j)) <= dist2(c, xterm_rgb(i)));
    }
}


/// The standard SGR palette index of a named colour (`Black` 0, `Red` 1, `Green` 2,
/// `Yellow` 3, `Blue` 4, `Magenta` 5, `Cyan` 6, `Gray` 7, `DarkGray` 8, the light
/// colours 9 to 14, `White` 15); `-1` for any other colour.
pub open spec fn ansi_index(c: Color) -> int {
    match c {
        Color::Black => 0,
        Color::Red => 1,
        Color::Green => 2,
        Color::Yellow => 3,
        Color::Blue => 4,
        Color::Magenta => 5,
        Color::Cyan => 6,
        Color::Gray => 7,
        Color::DarkGray => 8,
        Color::LightRed => 9,
        Color::LightGreen => 10,
        Color::LightYellow => 11,
        Color::LightBlue => 12,
        Color::LightMagenta => 13,
        Color::LightCyan => 14,
        Color::White => 15,
        _ => -1,
    }
}

/// The named colour for palette index `i` is the one whose SGR index is `i`.
pub proof fn lemma_named_index(i: int)
    requires
        0 <= i < 16,
    ensures
        ansi_index(named(i)) == i,
{
}

/// Downsampling to sixteen colours gives the named colour whose SGR index is the
/// palette entry nearest to the colour (nearest by squared distance to the standard
/// xterm values, lowest index on a tie).
pub proof fn lemma_downsample16_nearest(c: Color, i: int)
    requires
        match c {
            Color::Rgb(r, g, b) => is_nearest((r as int, g as int, b as int), 0, 16, i),
            Color::Indexed(n) => is_nearest(xterm_rgb(n as int), 0, 16, i),
            _ => false,
        },
    ensures
        ansi_index(downsample_spec(c, ColorDepth::Palette16)) == i,
{
    match c {
        Color::Rgb(r, g, b) => {
            let cc = (r as int, g as int, b as int);
            lemma_nearest_unique(cc, 0, 16, i, choose|k: int| is_nearest(cc, 0, 16, k));
        },
        Color::Indexed(n) => {
            let cc = xterm_rgb(n as int);
            lemma_nearest_unique(cc, 0, 16, i, choose|k: int| is_nearest(cc, 0, 16, k));
        },
        _ => {},
    }
    lemma_named_index(i);
}

impl Color {
    /// This colour as rendered at colour depth `depth` (see [`downsample_spec`]).
    pub fn downsample(self, depth: ColorDepth) -> (r: Color)
        ensures
            r == downsample_spec(self, depth),
            depth != ColorDepth::TrueColor ==> r !is Rgb,
            depth == ColorDepth::Palette16 ==> r !is Rgb && r !is Indexed,
            depth == ColorDepth::Palette16 ==> (self matches Color::Rgb(cr, cg, cb) ==> is_nearest(
                (cr as int, cg as int, cb as int),
                0,
                16,
                ansi_index(r),
            )),
            depth == ColorDepth::Palette16 ==> (self matches Color::Indexed(n) ==> is_nearest(
                xterm_rgb(n as int),
                0,
                16,
                ansi_index(r),
            )),
    {
        match (depth, self) {
            (ColorDepth::Palette256, Color::Rgb(r, g, b)) => {
                let i = nearest_index((r as i32, g as i32, b as i32), 16, 256);
                proof {
                    let cc = (r as int, g as int, b as int);
                    lemma_nearest_unique(cc, 16, 256, i as int, choose|k: int| is_nearest(cc, 16, 256, k));
                }
                Color::Indexed(i as u8)
            },
            (ColorDepth::Palette16, Color::Rgb(r, g, b)) => {
                let i = nearest_index((r as i32, g as i32, b as i32), 0, 16);
                proof {
                    let cc = (r as int, g as int, b as int);
                    lemma_nearest_unique(cc, 0, 16, i as int, choose|k: int| is_nearest(cc, 0, 16, k));
                    lemma_named_index(i as int);
                }
                named_exec(i)
            },
            (ColorDepth::Palette16, Color::Indexed(n)) => {
                proof {
                    lemma_xterm_bytes(n as int);
                }
                let c = xterm_rgb_exec(n as u16);
                let i = nearest_index(c, 0, 16);
                proof {
                    let cc = xterm_rgb(n as int);
                    lemma_nearest_unique(cc, 0, 16, i as int, choose|k: int| is_nearest(cc, 0, 16, k));
                    lemma_named_index(i as int);
                }
                named_exec(i)
            },
            _ => self,
        }
    }
}
} // verus!
