//! A retained-mode layout and paint tree for text, with a glyph atlas.
pub mod atlas;
pub mod div;
pub mod frame;
pub mod geometry;
pub mod packing;
pub mod paint;
pub mod scrolling;
pub mod textbook;
pub mod tree;
pub mod wrap;

pub use atlas::{AtlasError, FontAtlas, FontRasterizer, GlyphMetrics, Rasterizer, TextureData};
pub use div::{Div, Style};
pub use frame::{Frame, Rgb, Vertex};
pub use geometry::{Area, Vec2};
pub use textbook::TextBook;
pub use tree::{Node, NodeKind, Tree};
