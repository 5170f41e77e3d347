//! Level maps from level images.
//!
//! An image shows a level: every opaque black pixel is a wall tile, every
//! opaque red pixel a spawn tile. [`GameMap::from_image`] reads the tiles off
//! the image, moves them so that the middle of the level lies at the origin,
//! and derives the outline of the walls: the wall tiles that touch free
//! space, and a list of level and upright segments along the walls.

pub mod bounds;
pub mod files;
pub mod game_map;
pub mod neighbors;
pub mod pixels;
pub mod segments;
pub mod tile;

pub use bounds::GameMapBounds;
pub use game_map::GameMap;
pub use neighbors::{GameTileComputations, GameTileExistHashMap};
pub use tile::{GameMapSegment, GameMapTile};
