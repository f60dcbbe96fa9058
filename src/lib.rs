//! Directory-tree reconstruction and navigation for a terminal browser over
//! per-file code statistics: a flat set of file paths becomes a navigable
//! parent-to-children index, a cursor moves through it in response to keys,
//! and each frame resolves the selected node and clamps the detail pane's
//! scroll offset.
pub mod paths;
pub mod index;
pub mod nav;
pub mod frame;
