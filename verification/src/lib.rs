//! Core of an interactive regular-expression visualiser: it maps the capture
//! groups of a pattern onto the parts of an input text that they matched, and
//! describes both texts as runs of formatted bytes for a renderer to draw.

pub mod color;
pub mod engine;
pub mod error_layout;
pub mod glyph;
pub mod layout;
pub mod loop_vec;
pub mod matched_layout;
pub mod parsing;
pub mod regex_layout;
pub mod sections;
pub mod shape;
pub mod state;
pub mod text;
