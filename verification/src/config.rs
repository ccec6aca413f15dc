//! Plain configuration records of the surrounding engine.
//!
//! These carry no behaviour of their own; they name the assets and the
//! tile roles that the engine's loaders resolve.  They are held here so
//! that the rest of the engine can exchange them with the verified core
//! without conversion.

use vstd::prelude::*;

verus! {

/// A shader known to the renderer, by name.
pub struct Shader {
    pub name: String,
}

/// The role a tile piece plays within its tile: which boundary of a
/// solid region it draws, or its interior.
#[derive(Clone, Copy, PartialEq, Eq, Structural, Debug)]
pub enum TilePieceDesignation {
    Top,
    Right,
    Bottom,
    Left,
    Inner,
}

} // verus!
