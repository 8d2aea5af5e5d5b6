//! A world: the maps it places and where.

use vstd::prelude::*;

verus! {

/// A map placed in a world, with its position and size in pixels.
#[derive(Clone, Debug, PartialEq, Eq)]
pub struct MapRef {
    pub file_name: String,
    pub height: u32,
    pub width: u32,
    pub x: i32,
    pub y: i32,
}

/// A world file: the maps it places.
#[derive(Clone, Debug, PartialEq, Eq)]
pub struct World {
    pub maps: Vec<MapRef>,
}

} // verus!
