//! A local terminal pane: text search over an emulator's screen, the
//! decisions of a pane's process lifecycle and geometry, and the plain
//! values of a raw terminal device.
pub mod pane;
pub mod search;
pub mod terminal;
