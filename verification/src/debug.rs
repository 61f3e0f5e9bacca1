//! The snapshot a debugger reads of a board: counts, the selection, and the gesture in
//! progress.

use vstd::prelude::*;

verus! {

/// What the scene holds.
pub struct DebugScene {
    /// Live elements. Tombstones are left out: they are a synchronisation detail rather
    /// than something anyone drew.
    pub element_count: usize,
    pub deleted_count: usize,
    pub selected_count: usize,
    pub selected_ids: Vec<String>,
    /// Changes whenever the scene does.
    pub revision: u64,
    pub can_undo: bool,
    pub can_redo: bool,
}

/// What the person is doing.
pub struct DebugInteraction {
    pub tool: String,
    pub tool_locked: bool,
    /// The gesture in progress, by name, or `None` between gestures.
    pub kind: Option<&'static str>,
    pub dragging: bool,
    pub resizing: bool,
    /// The linear element being placed point by point, if one is.
    pub placing_linear: Option<String>,
    /// The linear element whose points are on offer.
    pub editing_linear: Option<String>,
}

} // verus!
