use vstd::prelude::*;

use crate::float::{free_intervals_in_rows, free_rows, scan_first, scan_last, FreeInterval};
use crate::geometry::Rect;

verus! {

/// One free interval on a single row, used as a target for flowed text.
#[derive(Debug, Clone, Copy, PartialEq, Eq, Structural)]
pub struct Slot {
    /// Absolute row.
    pub row: u16,
    /// Absolute column of the slot's left edge.
    pub col: u16,
    /// Width in columns.
    pub width: u16,
}

/// The slot a free interval makes.
pub open spec fn slot_of(iv: FreeInterval) -> Slot {
    Slot { row: iv.row, col: iv.start, width: (iv.end - iv.start) as u16 }
}

/// The ordered slot stream for `rows` of `parent` once the `obstacles`, grown by
/// `gutter`, are taken out: the free intervals of each row, top to bottom and left to
/// right, each one a slot.
pub fn slots_in(parent: Rect, obstacles: &[Rect], gutter: u16, rows: std::ops::Range<u16>) -> (out: Vec<Slot>)
    ensures
        exists|ivs: Seq<FreeInterval>|
            #![trigger free_rows(parent, obstacles@, gutter, scan_first(parent, rows) as int, scan_last(parent, rows) as int, ivs)]
            free_rows(parent, obstacles@, gutter, scan_first(parent, rows) as int, scan_last(parent, rows) as int, ivs)
                && out@ == ivs.map_values(|iv: FreeInterval| slot_of(iv)),
{
    let ghost r0 = rows;
    let ivs = free_intervals_in_rows(parent, obstacles, gutter, rows);
    proof {
        assert forall|k: int| 0 <= k < ivs@.len() implies ivs@[k].start < ivs@[k].end by {
            assert(scan_first(parent, r0) <= ivs@[k].row);
        }
    }
    let mut out: Vec<Slot> = Vec::new();
    let mut i: usize = 0;
    while i < ivs.len()
        invariant
            i <= ivs@.len(),
            out@.len() == i,
            forall|k: int| 0 <= k < i ==> #[trigger] out@[k] == slot_of(ivs@[k]),
            forall|k: int| 0 <= k < ivs@.len() ==> ivs@[k].start < ivs@[k].end,
        decreases ivs@.len() - i,
    {
        let iv = ivs[i];
        out.push(Slot { row: iv.row, col: iv.start, width: iv.end - iv.start });
        i = i + 1;
    }
    proof {
        assert(out@ =~= ivs@.map_values(|iv: FreeInterval| slot_of(iv)));
    }
    out
}

} // verus!
