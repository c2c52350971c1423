use vstd::prelude::*;

use crate::geometry::Direction;
use crate::layout::TileId;

verus! {

/// A key, as the library reads it: the plain keys of a terminal keyboard.
#[derive(Debug, Clone, Copy, PartialEq, Eq, Structural, Hash)]
pub enum KeyCode {
    Backspace,
    Enter,
    Left,
    Right,
    Up,
    Down,
    Home,
    End,
    PageUp,
    PageDown,
    Tab,
    BackTab,
    Delete,
    Insert,
    /// A function key, `F(1)` to `F(12)` and beyond.
    F(u8),
    /// A character key.
    Char(char),
    Null,
    Esc,
    CapsLock,
    ScrollLock,
    NumLock,
    PrintScreen,
    Pause,
    Menu,
    KeypadBegin,
}


/// A navigation action, decoded from a key.
#[derive(Debug, Clone, Copy, PartialEq, Eq, Structural)]
pub enum NavCommand {
    /// Focus the next leaf in depth-first order, wrapping.
    FocusNext,
    /// Focus the previous leaf in depth-first order, wrapping.
    FocusPrev,
    /// Focus the first leaf.
    FocusFirst,
    /// Focus the last leaf.
    FocusLast,
    /// Flip the orientation of the focused leaf's parent split.
    Flip,
    /// Swap the focused leaf with its next sibling.
    SwapNext,
    /// Swap the focused leaf with its previous sibling.
    SwapPrev,
    /// Zoom into the focused leaf.
    ZoomIn,
    /// Pop one zoom level.
    ZoomOut,
    /// Move focus within the nearest enclosing carousel, wrapping.
    FocusDir(Direction),
    /// Move focus to the nearest visible tile in a direction, across layout boundaries.
    FocusDirCross(Direction),
}

/// What one mouse event did.
#[derive(Debug, Clone, Copy, PartialEq, Eq, Structural)]
pub enum MouseOutcome {
    /// A left-button press landed on a tile, now focused.
    Focused(TileId),
    /// A scroll landed on a carousel, now scrolled.
    Scrolled(TileId),
    /// Nothing interactive was hit.
    Ignored,
}

} // verus!
