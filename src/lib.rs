//! A multi-cursor text buffer for editable text fields.
//!
//! `handler` holds the buffer and its cursors and applies typing, deletion
//! and cursor motion to every cursor at once; `regions` merges the spans that
//! an edit removes, `splice` inserts text at several offsets, `lines` maps
//! offsets to lines and columns, and `words` finds word boundaries. The
//! remaining modules hold the style flags of highlighted tokens, the frame's
//! keyboard state and a hit box.
use vstd::prelude::*;

pub mod collider;
pub mod cursor;
pub mod handler;
pub mod keyboard;
pub mod lines;
pub mod regions;
pub mod semantics;
pub mod splice;
pub mod style_flags;
pub mod styles;
pub mod token_style;
pub mod words;

verus! {

} // verus!
