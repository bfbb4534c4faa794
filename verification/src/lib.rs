//! Persistence engine for canvassing-campaign projects.
//!
//! A project lives on disk as one compressed archive holding a database
//! image and a set of raster map files.  Opened, it becomes a working
//! store of typed rows (areas, streets, addresses, teams) behind a
//! repository interface that enforces area scoping and uniqueness of
//! team assignment.  Snapshotting packs the working store back into a
//! fresh archive.

pub mod codec;
pub mod contour;
pub mod model;
pub mod outside;
pub mod project;
pub mod store;
pub mod text;

pub use model::AreaState;
pub use model::Color;
pub use model::Point;
