//! An indentation-block text model: a document whose structure comes from
//! leading whitespace, normalized into per-line depths, with block-aware
//! navigation, editing, search and reformatting.

pub mod text;
pub mod line;
pub mod normalize;
pub mod model;
pub mod document;
pub mod render;
pub mod search;
pub mod reformat;
pub mod text_renderer;
pub mod keys;
