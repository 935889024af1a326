//! The buffer engine of a hex editor: an immutable byte rope that shares
//! its buffers between versions, an invertible and composable delta
//! algebra, undo and redo history, a multi-region selection that follows
//! every edit, a window that streams a large file in chunks, and the
//! styling of the bytes on screen.

pub mod buffer;
pub mod delta;
pub mod history;
pub mod modes;
pub mod navigation;
pub mod render;
pub mod rope;
pub mod selection;
pub mod subset;
pub mod view;
pub mod window;
