//! Procedural dungeon generation over a dense tile grid, with the
//! distance-field and path-search queries used to navigate it.

pub mod tile;
pub mod feature;
pub mod random;
pub mod grid;
pub mod world_map;
pub mod dijkstra;
pub mod matrix;
pub mod explore;
pub mod path_search;

pub use tile::{Location, Terrain, Tile};
pub use feature::{Feature, HorizontalAlignment, VerticalAlignment};
pub use random::{IterRandomExt, RandomTable};
pub use world_map::{FeatureKind, GenerateError, WorldMap};
pub use dijkstra::{Dijkstra, UNREACHED};
pub use matrix::DistanceMatrix;
pub use explore::explore;
