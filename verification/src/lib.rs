//! A 2D visibility-polygon engine over exact integer coordinates.
//!
//! Given an origin point and a set of opaque boundary segments (occluders
//! plus enclosing walls), [`compute_visibility`] returns the boundary
//! segments of the region directly visible from the origin.  The sweep
//! works over angular events around the origin and keeps the currently
//! nearest occluder in an ordered active set, ordered by
//! [`SegmentByDistance`], a comparator that decides which of two occluders
//! a common ray from the origin hits first using only exact side tests.
//!
//! Coordinates are integers, so every side test, angle comparison and
//! distance comparison is exact; the only rounding happens when a ray is
//! intersected with a segment's supporting line, and that rounding is
//! specified exactly as well.

pub mod active;
pub mod config;
pub mod distance;
pub mod events;
pub mod point;
pub mod rounding;
pub mod segment;
pub mod torus;
pub mod translation;
pub mod visibility;

pub use config::Shader;
pub use config::TilePieceDesignation;
pub use distance::SegmentByDistance;
pub use point::Point;
pub use segment::Segment;
pub use segment::SegmentSide;
pub use torus::ToricGeometry;
pub use visibility::compute_visibility;
