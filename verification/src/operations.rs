//! What each operation does, stated of a call by its inputs and its results.
//!
//! Each law takes a call that was made: its arguments and what came back. It says what must then
//! hold of them in terms of bytes, lengths and addresses alone.

pub mod cursor;
pub mod file;
pub mod inputs;
pub mod overlay;
pub mod parts;
pub mod typed;
