//! Geometric layout engine for a tiling window manager.
//!
//! A `Workspace` owns an append-only sequence of axis-aligned rectangular
//! `Region`s that partition a fixed outer rectangle.  Regions can be split in
//! two, queried for edge neighbors, resized with the change cascading to the
//! touching neighbors, and swapped with their largest neighbor.

pub mod geometry;
pub mod region;
pub mod workspace;
pub mod tiling;

pub use geometry::Direction;
pub use geometry::ErrorKind;
pub use geometry::Position;
pub use geometry::Rectangle;
pub use geometry::Resize;
pub use region::Region;
pub use region::MIN_REGION_HEIGHT;
pub use region::MIN_REGION_WIDTH;
pub use workspace::Manager;
pub use workspace::Monitor;
pub use workspace::Workspace;
