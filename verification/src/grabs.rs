//! Pointer grabs: what moving and resizing a window with the pointer decide.

pub mod resize_grab;
