//! Editing rules of a drawing board: groups, stacking order, duplication runs, and the
//! decisions the editor makes about the selection, each proved against its contract.

pub mod element;
pub mod group;
pub mod zorder;
pub mod clipboard;
pub mod align;
pub mod flip;
pub mod polygon;
pub mod flowchart;
pub mod style;
pub mod sync;
pub mod remote;
pub mod label;
pub mod cursor;
pub mod bucket;
pub mod peers;
pub mod debug;
pub mod delete;
pub mod eraser;
pub mod lock;
pub mod panel;
pub mod click;
pub mod wrap;
pub mod materialize;
pub mod history;
