//! Text addressing and search core for a plain-text editor.
//!
//! The buffer is a flat UTF-8 string addressed in two coordinate systems:
//! byte offsets (native to the storage) and character offsets (one unit per
//! Unicode scalar value, used for cursor and selection arithmetic). This
//! crate provides the verified translation between the two, 1-based
//! line/column readouts, forward and backward substring search with optional
//! ASCII case folding and wraparound, and the replace sweeps that mutate the
//! buffer while keeping the selection consistent in both coordinate systems.

pub mod editor;
pub mod panel;
pub mod position;
pub mod replace;
pub mod search;
