//! Verified core of a tiled raster painting program: pixels and blending
//! rules, layered tile storage, undo/redo history, stroke rasterisation
//! helpers and the small settings types shared with the user interface.

pub mod pixel;
pub mod text;
pub mod region;
pub mod canvas;
pub mod history;
pub mod raster;
pub mod stroke;
pub mod tools;
pub mod settings;
pub mod atlas;
pub mod timeline;
pub mod export;
pub mod profiler;
pub mod bounds;
pub mod input;
pub mod tips;
