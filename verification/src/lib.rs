//! Core logic of a page-based sketching and annotation tool: rasterising
//! strokes, searching text labels, and keeping the notebook of pages.

pub mod alignment;
pub mod editor;
pub mod line;
pub mod notebook;
pub mod placement;
pub mod raster;
pub mod search;
pub mod text;
