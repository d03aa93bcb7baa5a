//! The editing, scrolling and rendering logic of `miv`, a small modal
//! terminal text editor.

pub mod text;
pub mod utils;
pub mod display;
pub mod key_bindings;
pub mod terminal;
