use vstd::prelude::*;

use vstd::utf8::{decode_utf8, encode_scalar, encode_utf8, is_char_boundary};

use crate::buffer::{
    append_char, display_width, grapheme_clusters, graphemes_of, lemma_clusters_flatten,
    cell_index, put_grapheme, str_width, Buffer, Cell, CellView,
};
use crate::geometry::{visible_window, window_offset, Rect};
use crate::input::KeyCode;
use crate::panel::filled;
use crate::style::Style;

verus! {

broadcast use vstd::utf8::group_utf8_lib;

/// The number of bytes of the UTF-8 encoding of `s`.
pub open spec fn blen(s: Seq<char>) -> nat {
    encode_utf8(s).len()
}

/// The characters encoded by the first `b` bytes of `s`.
pub open spec fn head(s: Seq<char>, b: int) -> Seq<char> {
    decode_utf8(encode_utf8(s).subrange(0, b))
}

/// The characters encoded by the bytes of `s` from byte `b` on.
pub open spec fn tail(s: Seq<char>, b: int) -> Seq<char> {
    decode_utf8(encode_utf8(s).subrange(b, blen(s) as int))
}

/// The byte lengths of the sequences summed.
pub open spec fn bsum(gs: Seq<Seq<char>>) -> int
    decreases gs.len(),
{
    if gs.len() == 0 {
        0
    } else {
        bsum(gs.drop_last()) + blen(gs.last())
    }
}

/// Byte `b` is where one of the grapheme clusters of `s` starts.
pub open spec fn starts_cluster(s: Seq<char>, b: int) -> bool {
    exists|k: int| 0 <= k < grapheme_clusters(s).len() && #[trigger] bsum(grapheme_clusters(s).take(k)) == b
}

/// The byte where the last grapheme cluster of the first `b` bytes of `s` starts, or
/// 0 when they hold none.
pub open spec fn prev_spec(s: Seq<char>, b: int) -> int {
    let gp = grapheme_clusters(head(s, b));
    if gp.len() == 0 {
        0
    } else {
        b - blen(gp.last())
    }
}

/// The byte where the first grapheme cluster of `s` from byte `b` on ends, or the end
/// of `s` when there is none.
pub open spec fn next_spec(s: Seq<char>, b: int) -> int {
    let gs = grapheme_clusters(tail(s, b));
    if gs.len() == 0 {
        blen(s) as int
    } else {
        b + blen(gs[0])
    }
}

/// A cursor clamped into `s` and moved back onto a grapheme-cluster boundary: kept
/// when it is at either end or where a cluster starts, else moved to the start of the
/// last cluster before it.
pub open spec fn floor_spec(s: Seq<char>, cursor: int) -> int {
    let b = if cursor <= blen(s) {
        cursor
    } else {
        blen(s) as int
    };
    if b == 0 || b >= blen(s) || starts_cluster(s, b) {
        b
    } else {
        prev_spec(s, b)
    }
}

/// The text, cursor and "changed" flag after one editing key: with the cursor first
/// clamped by [`floor_spec`], a character is inserted at it; Backspace deletes the
/// grapheme cluster before it and Delete the one after it; Left and Right move over one
/// cluster, Home and End to either end.  At the matching edge, and for any other key,
/// the text is kept, the cursor stays clamped and the flag is false.
pub open spec fn edit_spec(s: Seq<char>, cursor: int, key: KeyCode) -> (Seq<char>, int, bool) {
    let c = floor_spec(s, cursor);
    let len = blen(s) as int;
    match key {
        KeyCode::Char(ch) => (head(s, c).push(ch) + tail(s, c), c + blen(seq![ch]), true),
        KeyCode::Backspace => if c == 0 {
            (s, c, false)
        } else {
            let prev = prev_spec(s, c);
            (head(s, prev) + tail(s, c), prev, true)
        },
        KeyCode::Delete => if c >= len {
            (s, c, false)
        } else {
            (head(s, c) + tail(s, next_spec(s, c)), c, true)
        },
        KeyCode::Left => if c == 0 {
            (s, c, false)
        } else {
            (s, prev_spec(s, c), true)
        },
        KeyCode::Right => if c >= len {
            (s, c, false)
        } else {
            (s, next_spec(s, c), true)
        },
        KeyCode::Home => (s, 0, c != 0),
        KeyCode::End => (s, len, c != len),
        _ => (s, c, false),
    }
}

/// Encoding distributes over concatenation.
proof fn lemma_encode_concat(a: Seq<char>, b: Seq<char>)
    ensures
        encode_utf8(a + b) == encode_utf8(a) + encode_utf8(b),
    decreases a.len(),
{
    if a.len() == 0 {
        assert(a + b =~= b);
        assert(encode_utf8(a) + encode_utf8(b) =~= encode_utf8(b));
    } else {
        lemma_encode_concat(a.drop_first(), b);
        assert((a + b).drop_first() =~= a.drop_first() + b);
        assert((a + b)[0] == a[0]);
        assert(encode_utf8(a + b) =~= encode_utf8(a) + encode_utf8(b));
    }
}

/// A character encodes to between one and four bytes.
proof fn lemma_char_len(ch: char)
    ensures
        1 <= blen(seq![ch]) <= 4,
{
    reveal_with_fuel(encode_utf8, 2);
    assert(seq![ch].drop_first() =~= Seq::<char>::empty());
    assert(encode_utf8(seq![ch]) =~= encode_scalar(ch as u32));
}

/// Where one sequence of characters ends inside a longer one, its encoding ends on a
/// character boundary.
proof fn lemma_boundary_concat(a: Seq<char>, b: Seq<char>)
    ensures
        is_char_boundary(encode_utf8(a + b), blen(a) as int),
    decreases a.len(),
{
    if a.len() > 0 {
        let bytes = encode_utf8(a + b);
        lemma_boundary_concat(a.drop_first(), b);
        assert((a + b).drop_first() =~= a.drop_first() + b);
        assert((a + b)[0] == a[0]);
        vstd::utf8::encode_utf8_first_scalar(a + b);
        lemma_encode_concat(a, b);
        lemma_char_len(a[0]);
        assert(vstd::utf8::pop_first_scalar(bytes) =~= encode_utf8(a.drop_first() + b));
    }
}

/// The first `b` bytes and the rest decode to the two parts of `s`, and the first
/// part encodes back to `b` bytes.
proof fn lemma_split(s: Seq<char>, b: int)
    requires
        is_char_boundary(encode_utf8(s), b),
        0 <= b <= blen(s),
    ensures
        head(s, b) + tail(s, b) == s,
        blen(head(s, b)) == b,
{
    let bytes = encode_utf8(s);
    vstd::utf8::decode_utf8_split(bytes, b);
    vstd::utf8::valid_utf8_split(bytes, b);
    assert(encode_utf8(head(s, b)) == bytes.subrange(0, b));
}

/// The byte lengths of clusters sum to the byte length of their concatenation.
proof fn lemma_bsum_flatten(gs: Seq<Seq<char>>)
    ensures
        bsum(gs) == blen(gs.flatten()),
    decreases gs.len(),
{
    if gs.len() > 0 {
        lemma_bsum_flatten(gs.drop_last());
        assert(gs =~= gs.drop_last().push(gs.last()));
        gs.drop_last().lemma_flatten_push(gs.last());
        lemma_encode_concat(gs.drop_last().flatten(), gs.last());
    }
}

/// A prefix of clusters concatenates to a prefix of the concatenation.
proof fn lemma_flatten_take(gs: Seq<Seq<char>>, k: int)
    requires
        0 <= k <= gs.len(),
    ensures
        gs.take(k).flatten() + gs.skip(k).flatten() == gs.flatten(),
{
    vstd::seq_lib::lemma_flatten_concat(gs.take(k), gs.skip(k));
    assert(gs.take(k) + gs.skip(k) =~= gs);
}

/// The start of the last cluster of the first `byte` bytes of `text`: a character
/// boundary at or before `byte`.
fn prev_boundary(text: &str, byte: usize) -> (r: usize)
    requires
        is_char_boundary(encode_utf8(text@), byte as int),
        byte <= blen(text@),
    ensures
        r == prev_spec(text@, byte as int),
        r <= byte,
        is_char_boundary(encode_utf8(text@), r as int),
{
    proof {
        lemma_split(text@, byte as int);
    }
    let (p, _t) = text.split_at(byte);
    let gp = graphemes_of(p);
    proof {
        assert(p@ == head(text@, byte as int));
        lemma_clusters_flatten(p, gp);
    }
    if gp.len() == 0 {
        return 0;
    }
    let last = gp[gp.len() - 1];
    let ghost g = grapheme_clusters(p@);
    let ghost q = g.drop_last().flatten();
    proof {
        assert(g =~= g.drop_last().push(g.last()));
        g.drop_last().lemma_flatten_push(g.last());
        lemma_encode_concat(q, g.last());
        assert(last@ == g.last());
        assert(text@ =~= q + (g.last() + tail(text@, byte as int)));
        lemma_boundary_concat(q, g.last() + tail(text@, byte as int));
    }
    byte - last.len()
}

/// The end of the first cluster of `text` from byte `byte` on: a character boundary
/// after `byte`, or the end of `text`.
fn next_boundary(text: &str, byte: usize) -> (r: usize)
    requires
        is_char_boundary(encode_utf8(text@), byte as int),
        byte <= blen(text@),
        blen(text@) <= usize::MAX,
    ensures
        r == next_spec(text@, byte as int),
        byte <= r <= blen(text@),
        is_char_boundary(encode_utf8(text@), r as int),
{
    proof {
        lemma_split(text@, byte as int);
        lemma_encode_concat(head(text@, byte as int), tail(text@, byte as int));
    }
    let (_p, t) = text.split_at(byte);
    let gs = graphemes_of(t);
    proof {
        assert(t@ == tail(text@, byte as int));
        lemma_clusters_flatten(t, gs);
    }
    if gs.len() == 0 {
        return text.len();
    }
    let first = gs[0];
    let ghost g = grapheme_clusters(t@);
    proof {
        assert(g.flatten() == g[0] + g.drop_first().flatten());
        lemma_encode_concat(g[0], g.drop_first().flatten());
        assert(first@ == g[0]);
        let h = head(text@, byte as int);
        assert(text@ =~= (h + g[0]) + g.drop_first().flatten());
        lemma_boundary_concat(h + g[0], g.drop_first().flatten());
        lemma_encode_concat(h, g[0]);
    }
    byte + first.len()
}

/// Whether byte `byte` is where a grapheme cluster of `text` starts.
fn on_grapheme_boundary(text: &str, byte: usize) -> (r: bool)
    requires
        blen(text@) <= usize::MAX,
    ensures
        r == starts_cluster(text@, byte as int),
{
    let gs = graphemes_of(text);
    let ghost g = grapheme_clusters(text@);
    proof {
        lemma_clusters_flatten(text, gs);
        lemma_bsum_flatten(g);
    }
    let mut off: usize = 0;
    let mut i: usize = 0;
    while i < gs.len()
        invariant
            g == grapheme_clusters(text@),
            gs@.len() == g.len(),
            forall|k: int| 0 <= k < gs@.len() ==> #[trigger] gs@[k]@ == g[k],
            bsum(g) == blen(text@),
            blen(text@) <= usize::MAX,
            i <= g.len(),
            off == bsum(g.take(i as int)),
            forall|k: int| 0 <= k < i ==> bsum(#[trigger] g.take(k)) != byte,
        decreases gs@.len() - i,
    {
        if off == byte {
            return true;
        }
        proof {
            assert(g.take(i + 1).drop_last() =~= g.take(i as int));
            assert(g.take(i + 1).last() == g[i as int]);
            lemma_flatten_take(g, i + 1);
            lemma_bsum_flatten(g.take(i + 1));
            lemma_bsum_flatten(g.skip(i + 1));
            lemma_encode_concat(g.take(i + 1).flatten(), g.skip(i + 1).flatten());
            assert(bsum(g.take(i + 1)) == bsum(g.take(i as int)) + blen(g[i as int]));
            lemma_bsum_flatten(g);
            assert(bsum(g.take(i + 1)) <= bsum(g));
            assert(gs@[i as int]@ == g[i as int]);
        }
        let w = gs[i].len();
        assert(w == blen(g[i as int]));
        off = off + w;
        i = i + 1;
    }
    false
}

/// Clamp `byte` into `text` and move it back onto a grapheme-cluster boundary.
fn floor_boundary(text: &str, byte: usize) -> (r: usize)
    requires
        byte <= blen(text@),
        blen(text@) <= usize::MAX,
        is_char_boundary(encode_utf8(text@), byte as int),
    ensures
        r == floor_spec(text@, byte as int),
        r <= blen(text@),
        is_char_boundary(encode_utf8(text@), r as int),
{
    if byte == 0 || byte >= text.len() {
        return byte;
    }
    if on_grapheme_boundary(text, byte) {
        return byte;
    }
    prev_boundary(text, byte)
}

/// Apply one editing key to `text` and the byte cursor `cursor`, returning whether
/// either changed, as [`edit_spec`] says.  The cursor, clamped first, must sit on a
/// character boundary; it is left on one of the new text.
pub fn line_edit(text: &mut String, cursor: &mut usize, key: KeyCode) -> (changed: bool)
    requires
        blen(old(text)@) + 4 <= usize::MAX,
        is_char_boundary(
            encode_utf8(old(text)@),
            if *old(cursor) <= blen(old(text)@) {
                *old(cursor) as int
            } else {
                blen(old(text)@) as int
            },
        ),
    ensures
        (final(text)@, *final(cursor) as int, changed) == edit_spec(old(text)@, *old(cursor) as int, key),
        *final(cursor) <= blen(final(text)@),
        is_char_boundary(encode_utf8(final(text)@), *final(cursor) as int),
{
    let ghost s = text@;
    let len = text.as_str().len();
    let c0 = if *cursor < len {
        *cursor
    } else {
        len
    };
    let c = floor_boundary(text.as_str(), c0);
    *cursor = c;
    proof {
        lemma_split(s, c as int);
        vstd::utf8::is_char_boundary_start_end_of_seq(encode_utf8(s));
    }
    match key {
        KeyCode::Char(ch) => {
            let (p, t) = text.as_str().split_at(c);
            let mut out = String::new();
            out.append(p);
            append_char(&mut out, ch);
            proof {
                lemma_encode_concat(p@, seq![ch]);
                assert(p@.push(ch) =~= p@ + seq![ch]);
                lemma_char_len(ch);
            }
            let nc = out.as_str().len();
            out.append(t);
            proof {
                lemma_boundary_concat(p@.push(ch), t@);
            }
            *text = out;
            *cursor = nc;
            true
        },
        KeyCode::Backspace => {
            if c == 0 {
                return false;
            }
            let prev = prev_boundary(text.as_str(), c);
            proof {
                lemma_split(s, prev as int);
            }
            let (q, _) = text.as_str().split_at(prev);
            let (_, t) = text.as_str().split_at(c);
            let mut out = String::new();
            out.append(q);
            out.append(t);
            proof {
                lemma_boundary_concat(q@, t@);
            }
            *text = out;
            *cursor = prev;
            true
        },
        KeyCode::Delete => {
            if c >= text.as_str().len() {
                return false;
            }
            let next = next_boundary(text.as_str(), c);
            proof {
                lemma_split(s, next as int);
            }
            let (p, _) = text.as_str().split_at(c);
            let (_, t) = text.as_str().split_at(next);
            let mut out = String::new();
            out.append(p);
            out.append(t);
            proof {
                lemma_boundary_concat(p@, t@);
            }
            *text = out;
            true
        },
        KeyCode::Left => {
            if c == 0 {
                return false;
            }
            *cursor = prev_boundary(text.as_str(), c);
            true
        },
        KeyCode::Right => {
            if c >= text.as_str().len() {
                return false;
            }
            *cursor = next_boundary(text.as_str(), c);
            true
        },
        KeyCode::Home => {
            if c == 0 {
                return false;
            }
            *cursor = 0;
            true
        },
        KeyCode::End => {
            if c == text.as_str().len() {
                return false;
            }
            *cursor = text.as_str().len();
            true
        },
        _ => false,
    }
}


/// A non-empty sequence of characters encodes to at least one byte.
proof fn lemma_blen_pos(g: Seq<char>)
    requires
        g.len() > 0,
    ensures
        blen(g) >= 1,
{
    assert(g =~= seq![g[0]] + g.drop_first());
    lemma_encode_concat(seq![g[0]], g.drop_first());
    lemma_char_len(g[0]);
}

/// Styling for [`render_field`].
#[derive(Debug, Clone, Copy)]
pub struct FieldRender {
    /// Style of the field's text and its blank background.
    pub style: Style,
    /// Style of the single cell under the cursor.
    pub cursor_style: Style,
    /// `Some(ch)` shows every grapheme as `ch`, one column each (passwords).
    pub mask: Option<char>,
}

/// The columns a grapheme takes in a field: one when masked, else its display width
/// capped at two.
pub open spec fn field_width(g: Seq<char>, mask: Option<char>) -> int {
    if mask is Some {
        1
    } else if display_width(g) < 2 {
        display_width(g) as int
    } else {
        2
    }
}

/// What a field shows for grapheme `g`: the mask character, or `g` itself.
pub open spec fn field_symbol(g: Seq<char>, mask: Option<char>) -> Seq<char> {
    match mask {
        Some(m) => seq![m],
        None => g,
    }
}

/// The column where the `k`-th grapheme starts: the widths of those before it summed.
pub open spec fn field_col(gs: Seq<Seq<char>>, mask: Option<char>, k: int) -> int
    decreases k,
{
    if k <= 0 {
        0
    } else {
        field_col(gs, mask, k - 1) + field_width(gs[k - 1], mask)
    }
}

/// The cursor's column: the widths of the first `k` graphemes that start before byte
/// `cursor`, summed.
pub open spec fn cursor_col(gs: Seq<Seq<char>>, mask: Option<char>, cursor: int, k: int) -> int
    decreases k,
{
    if k <= 0 {
        0
    } else {
        cursor_col(gs, mask, cursor, k - 1) + if bsum(gs.take(k - 1)) < cursor {
            field_width(gs[k - 1], mask)
        } else {
            0
        }
    }
}

/// A grapheme written at a position in a style.
pub type StyledStroke = (int, int, Seq<char>, Style);

/// The cells after writing `ss` in order.
pub open spec fn styled_put(v: Seq<CellView>, area: Rect, ss: Seq<StyledStroke>) -> Seq<CellView>
    decreases ss.len(),
{
    if ss.len() == 0 {
        v
    } else {
        let s = ss.last();
        put_grapheme(styled_put(v, area, ss.drop_last()), area, s.0, s.1, s.2, s.3).0
    }
}

/// The graphemes among the first `k` that a field window starting at column `start`,
/// `width` wide, at `(x, y)` shows: each that takes columns and lies wholly inside the
/// window, at its column less `start`, the one at the cursor column `cc` in `cst`.
pub open spec fn field_strokes(
    gs: Seq<Seq<char>>,
    mask: Option<char>,
    cc: int,
    start: int,
    width: int,
    x: int,
    y: int,
    st: Style,
    cst: Style,
    k: int,
) -> Seq<StyledStroke>
    decreases k,
{
    if k <= 0 {
        Seq::empty()
    } else {
        let before = field_strokes(gs, mask, cc, start, width, x, y, st, cst, k - 1);
        let c = field_col(gs, mask, k - 1);
        let w = field_width(gs[k - 1], mask);
        if w == 0 || c < start || c - start + w > width {
            before
        } else {
            before.push((x + c - start, y, field_symbol(gs[k - 1], mask), if c == cc { cst } else { st }))
        }
    }
}

/// The field's cursor cell when the cursor rests past the last grapheme and inside
/// the window: a blank in the cursor style.
pub open spec fn field_end_cursor(cc: int, total: int, start: int, width: int, x: int, y: int, cst: Style) -> Seq<StyledStroke> {
    if cc == total && cc >= start && cc - start < width {
        seq![(x + cc - start, y, seq![' '], cst)]
    } else {
        Seq::empty()
    }
}

/// Render one line of `text` into the first row of `rect`: the row is cleared to the
/// field style, the caller-owned column offset `scroll` is slid (as
/// [`visible_window`] does, over one column more than the text takes) so the cursor
/// column stays visible, and each grapheme wholly inside the window is drawn, the one
/// at the cursor column in the cursor style; a cursor resting past the last grapheme
/// gets a blank cursor cell.  `cursor` is a byte index, clamped to the text.
pub fn render_field(buf: &mut Buffer, rect: Rect, text: &str, cursor: usize, scroll: &mut usize, opts: &FieldRender)
    requires
        old(buf).wf(),
        rect.x + rect.width <= u16::MAX + 1,
        blen(text@) <= usize::MAX / 2,
    ensures
        final(buf).wf(),
        final(buf).area == old(buf).area,
        ({
            let gs = grapheme_clusters(text@);
            let cur = if cursor <= blen(text@) { cursor as int } else { blen(text@) as int };
            let total = field_col(gs, opts.mask, gs.len() as int);
            let cc = cursor_col(gs, opts.mask, cur, gs.len() as int);
            let start = window_offset(cc as nat, *old(scroll) as nat, (total + 1) as nat, rect.width as nat);
            if rect.is_empty_spec() {
                *final(scroll) == *old(scroll) && final(buf).view() == old(buf).view()
            } else {
                &&& *final(scroll) == start
                &&& exists|v1: Seq<CellView>|
                    #![trigger filled(old(buf).view(), v1, old(buf).area, Rect { x: rect.x, y: rect.y, width: rect.width, height: 1 }, (seq![' '], opts.style))]
                    filled(old(buf).view(), v1, old(buf).area, Rect { x: rect.x, y: rect.y, width: rect.width, height: 1 }, (seq![' '], opts.style))
                    && final(buf).view() == styled_put(
                        v1,
                        old(buf).area,
                        field_strokes(gs, opts.mask, cc, start as int, rect.width as int, rect.x as int, rect.y as int, opts.style, opts.cursor_style, gs.len() as int)
                            + field_end_cursor(cc, total, start as int, rect.width as int, rect.x as int, rect.y as int, opts.cursor_style),
                    )
            }
        }),
{
    if rect.is_empty() {
        return;
    }
    let width = rect.width;
    let len = text.len();
    let cur = if cursor < len {
        cursor
    } else {
        len
    };
    let gs = graphemes_of(text);
    let ghost g = grapheme_clusters(text@);
    let ghost mask = opts.mask;
    proof {
        lemma_clusters_flatten(text, gs);
        lemma_bsum_flatten(g);
    }
    // Measure: total columns and the cursor column.
    let mut off: usize = 0;
    let mut col: usize = 0;
    let mut cc: usize = 0;
    let mut i: usize = 0;
    while i < gs.len()
        invariant
            g == grapheme_clusters(text@),
            gs@.len() == g.len(),
            forall|k: int| 0 <= k < gs@.len() ==> #[trigger] gs@[k]@ == g[k],
            forall|k: int| 0 <= k < gs@.len() ==> (#[trigger] gs@[k])@.len() > 0,
            bsum(g) == blen(text@),
            blen(text@) <= usize::MAX / 2,
            mask == opts.mask,
            i <= g.len(),
            off == bsum(g.take(i as int)),
            off <= bsum(g),
            i <= off,
            col == field_col(g, mask, i as int),
            cc == cursor_col(g, mask, cur as int, i as int),
            col <= 2 * i,
            cc <= col,
        decreases gs@.len() - i,
    {
        proof {
            assert(g.take(i + 1).drop_last() =~= g.take(i as int));
            assert(g.take(i + 1).last() == g[i as int]);
            lemma_flatten_take(g, i + 1);
            lemma_bsum_flatten(g.take(i + 1));
            lemma_bsum_flatten(g.skip(i + 1));
            lemma_encode_concat(g.take(i + 1).flatten(), g.skip(i + 1).flatten());
            assert(bsum(g.take(i + 1)) == bsum(g.take(i as int)) + blen(g[i as int]));
            lemma_bsum_flatten(g);
            assert(bsum(g.take(i + 1)) <= bsum(g));
            assert(gs@[i as int]@ == g[i as int]);
            lemma_blen_pos(g[i as int]);
        }
        let gr = gs[i];
        let w: usize = match opts.mask {
            Some(_) => 1,
            None => {
                let dw = str_width(gr);
                if dw < 2 {
                    dw
                } else {
                    2
                }
            },
        };
        if off < cur {
            cc = cc + w;
        }
        col = col + w;
        off = off + gr.len();
        i = i + 1;
    }
    let total = col;
    assert(g.len() <= usize::MAX / 2);
    let start = visible_window(cc, scroll, total + 1, width as usize).start;
    proof {
        reveal_strlit(" ");
    }
    let ghost v0 = buf.view();
    let ghost barea = buf.area;
    let row = Rect::new(rect.x, rect.y, width, 1);
    buf.fill(row, Cell::new(" ", opts.style));
    let ghost v1 = buf.view();
    assert(filled(v0, v1, barea, row, (seq![' '], opts.style))) by {
        assert forall|x: int, y: int| barea.contains_spec(x, y) implies #[trigger] v1[cell_index(barea, x, y)]
            == if barea.intersection_spec(row).contains_spec(x, y) {
            (seq![' '], opts.style)
        } else {
            v0[cell_index(barea, x, y)]
        } by {
            assert(buf.cell(x, y) == v1[cell_index(barea, x, y)]);
        }
    }
    let mut msym = String::new();
    if let Some(m) = opts.mask {
        append_char(&mut msym, m);
    }
    // Draw the graphemes inside the window.
    let mut col: usize = 0;
    let mut i: usize = 0;
    while i < gs.len()
        invariant
            g == grapheme_clusters(text@),
            gs@.len() == g.len(),
            forall|k: int| 0 <= k < gs@.len() ==> #[trigger] gs@[k]@ == g[k],
            mask == opts.mask,
            mask is Some ==> msym@ == seq![mask->0],
            i <= g.len(),
            total == field_col(g, mask, g.len() as int),
            total <= 2 * g.len(),
            2 * g.len() <= usize::MAX - 1,
            col == field_col(g, mask, i as int),
            col <= total,
            buf.wf(),
            buf.area == barea,
            width == rect.width,
            rect.x + rect.width <= u16::MAX + 1,
            buf.view() == styled_put(
                v1,
                barea,
                field_strokes(g, mask, cc as int, start as int, width as int, rect.x as int, rect.y as int, opts.style, opts.cursor_style, i as int),
            ),
        decreases gs@.len() - i,
    {
        let gr = gs[i];
        let w: usize = match opts.mask {
            Some(_) => 1,
            None => {
                let dw = str_width(gr);
                if dw < 2 {
                    dw
                } else {
                    2
                }
            },
        };
        proof {
            lemma_field_col_mono(g, mask, i as int + 1, g.len() as int);
        }
        if w != 0 && col >= start && col - start + w <= width as usize {
            let vis = (col - start) as u16;
            let st = if col == cc {
                opts.cursor_style
            } else {
                opts.style
            };
            let sym: &str = match opts.mask {
                Some(_) => msym.as_str(),
                None => gr,
            };
            let ghost ss = field_strokes(g, mask, cc as int, start as int, width as int, rect.x as int, rect.y as int, opts.style, opts.cursor_style, i as int);
            let ghost s = (rect.x + vis, rect.y as int, field_symbol(g[i as int], mask), st);
            let _ = buf.set_grapheme(rect.x + vis, rect.y, sym, st);
            proof {
                assert(ss.push(s).drop_last() =~= ss);
            }
        }
        col = col + w;
        i = i + 1;
    }
    // A cursor resting past the last grapheme gets a blank cursor cell.
    let ghost ss = field_strokes(g, mask, cc as int, start as int, width as int, rect.x as int, rect.y as int, opts.style, opts.cursor_style, g.len() as int);
    if cc == total && cc >= start && cc - start < width as usize {
        let ghost s = (rect.x + (cc - start), rect.y as int, seq![' '], opts.cursor_style);
        assert(buf.view() == styled_put(v1, barea, ss));
        let ex = rect.x + (cc - start) as u16;
        assert(ex == rect.x + (cc - start));
        let blank = " ";
        assert(blank@ == seq![' ']);
        let _ = buf.set_grapheme(ex, rect.y, blank, opts.cursor_style);
        proof {
            assert((ss + seq![s]).drop_last() =~= ss);
            assert((ss + seq![s]).last() == s);
            assert(field_end_cursor(cc as int, total as int, start as int, width as int, rect.x as int, rect.y as int, opts.cursor_style) == seq![s]);
        }
        assert(buf.view() == styled_put(v1, barea, ss + field_end_cursor(cc as int, total as int, start as int, width as int, rect.x as int, rect.y as int, opts.cursor_style)));
    } else {
        assert(ss + Seq::<StyledStroke>::empty() =~= ss);
        assert(buf.view() == styled_put(v1, barea, ss + field_end_cursor(cc as int, total as int, start as int, width as int, rect.x as int, rect.y as int, opts.cursor_style)));
    }
    assert(filled(v0, v1, barea, Rect { x: rect.x, y: rect.y, width: rect.width, height: 1 }, (seq![' '], opts.style)));
}

/// Column starts grow with the grapheme index.
proof fn lemma_field_col_mono(gs: Seq<Seq<char>>, mask: Option<char>, i: int, j: int)
    requires
        0 <= i <= j,
    ensures
        field_col(gs, mask, i) <= field_col(gs, mask, j),
    decreases j - i,
{
    if i < j {
        lemma_field_col_mono(gs, mask, i, j - 1);
    }
}

} // verus!
