//! Wave-function-collapse tile map generation.
//!
//! A grid of cells starts with every cell holding the full catalog of tile
//! types and is resolved one cell per tick: the most constrained open cell is
//! collapsed to a single tile by a weighted random draw, and the choice is
//! propagated outward, removing candidates that can no longer sit next to
//! their neighbours. Adjacency is legal exactly when the two touching edges
//! carry equal connector labels.

pub mod grid;
pub mod laws;
pub mod random;
pub mod tiles;

pub use grid::Grid;
pub use random::RandomSource;
pub use random::SeededRandom;
pub use random::ThreadRandom;
pub use tiles::ConnectionRules;
pub use tiles::Direction;
pub use tiles::Tile;
pub use tiles::TileCollection;
pub use tiles::WfcError;
