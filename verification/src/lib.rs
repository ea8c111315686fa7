//! A hierarchical bitmap pyramid recording visited locations on Earth.
//!
//! The world is a 512 x 512 grid of tiles, each tile a 128 x 128 sparse grid
//! of blocks, each block a 64 x 64 bitmap: one bit per roughly 5 m x 5 m cell
//! at the equator. Line segments in projected pixel coordinates are rasterized
//! into the pyramid with an integer Bresenham walk whose error term is carried
//! across block and tile boundaries, snapshots in a compressed legacy format
//! can be imported, and any Web-Mercator viewport can be rendered to an RGBA
//! pixel buffer at any zoom level.

use vstd::prelude::*;

pub mod bres;
pub mod block;
pub mod tile;
pub mod fogmap;
pub mod codec;
pub mod shader;

pub use block::Block;
pub use fogmap::FogMap;
pub use shader::Rgba8;
pub use shader::TileShader;
pub use shader::TileSize;
pub use tile::Tile;

verus! {

/// Width of a block bitmap in pixels.
pub const BITMAP_WIDTH: i64 = 64;

/// Width of a tile in blocks.
pub const TILE_WIDTH: i64 = 128;

/// Width of a tile in pixels.
pub const TILE_PIXELS: i64 = 8192;

/// Width of the world in tiles.
pub const MAP_WIDTH: i64 = 512;

/// Width of the world in pixels at the native zoom of the pyramid.
pub const MAP_PIXELS: i64 = 4194304;

/// Errors reported by the fallible operations of the library.
#[derive(Debug, Clone, Copy, PartialEq, Eq, Structural)]
pub enum FogError {
    /// An imported file name holds characters outside the cipher alphabet,
    /// is too short, or decodes to a tile id of 2^18 or more.
    BadFilename,
    /// An imported payload fails to inflate, inflates to less than the size
    /// of the slot table, or holds a slot pointing past the end of the data.
    BadPayload,
    /// A caller-provided render target is smaller than the requested size.
    BufferTooSmall,
    /// A geographic coordinate is not a number or projects outside the
    /// pixel grid of the pyramid.
    BadCoordinate,
}

} // verus!
