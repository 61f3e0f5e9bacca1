//! The cursor a host shows over the board, as a small code that crosses to the host on
//! every pointer move.

use vstd::prelude::*;

verus! {

/// The cursor the host should show. Codes are part of the host contract: append only.
#[derive(Clone, Copy, Debug, PartialEq, Eq, Structural)]
pub enum HoverCursor {
    /// Nothing under the pointer; the host falls back to its per-tool cursor.
    Default,
    /// Over something that would be picked up and dragged.
    Move,
    ResizeNs,
    ResizeEw,
    ResizeNesw,
    ResizeNwse,
    /// Over the rotation handle, or panning.
    Grab,
    /// A drag is in progress.
    Grabbing,
    /// Over a point handle on a line or arrow.
    PointHandle,
    Crosshair,
    Text,
}

/// Each cursor's code, in declaration order from zero.
pub open spec fn cursor_code(c: HoverCursor) -> u8 {
    match c {
        HoverCursor::Default => 0,
        HoverCursor::Move => 1,
        HoverCursor::ResizeNs => 2,
        HoverCursor::ResizeEw => 3,
        HoverCursor::ResizeNesw => 4,
        HoverCursor::ResizeNwse => 5,
        HoverCursor::Grab => 6,
        HoverCursor::Grabbing => 7,
        HoverCursor::PointHandle => 8,
        HoverCursor::Crosshair => 9,
        HoverCursor::Text => 10,
    }
}

impl HoverCursor {
    /// The code the host reads.
    pub fn code(self) -> (r: u8)
        ensures
            r == cursor_code(self),
    {
        match self {
            HoverCursor::Default => 0,
            HoverCursor::Move => 1,
            HoverCursor::ResizeNs => 2,
            HoverCursor::ResizeEw => 3,
            HoverCursor::ResizeNesw => 4,
            HoverCursor::ResizeNwse => 5,
            HoverCursor::Grab => 6,
            HoverCursor::Grabbing => 7,
            HoverCursor::PointHandle => 8,
            HoverCursor::Crosshair => 9,
            HoverCursor::Text => 10,
        }
    }
}

/// No two cursors share a code.
pub proof fn lemma_codes_distinct(a: HoverCursor, b: HoverCursor)
    ensures
        cursor_code(a) == cursor_code(b) ==> a == b,
{
}

} // verus!
