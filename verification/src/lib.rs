//! Turns a raster image into a set of rectangular brick placements in 3D.
//!
//! Coordinates use the axes l (length, east), w (width, south) and h (height, up).
//! A brick's length, width and height are its extents along those axes.

pub mod color;
pub mod brick;
pub mod pixels;
pub mod visited;
pub mod geometry;
pub mod grid;
pub mod packing;
pub mod chunk;
pub mod slab;
pub mod flood;
pub mod error;
pub mod mosaic;
pub mod ldraw;
pub mod sorting;
pub mod base;
pub mod scene;
pub mod palette;
pub mod catalog;

pub use base::{Base, BaseError};
pub use brick::{Brick, NonUnitBrick, PlacedBrick, UnitBrick};
pub use color::{Color, RawColor, Srgba};
pub use error::MosaicError;
pub use mosaic::Mosaic;
pub use pixels::{Image, Palette};
