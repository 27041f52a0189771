use vstd::prelude::*;

use crate::map::Point;

verus! {

/// Where the player stands, kept apart from the player's entity so that
/// every system can read it.
#[derive(Clone, Copy, Debug, PartialEq, Eq, Structural)]
pub struct PlayerPosition {
    pub x: i32,
    pub y: i32,
}

#[derive(Debug)]
pub struct Name {
    pub name: String,
}

#[derive(Clone, Copy, Debug)]
pub struct BlocksTile {}

#[derive(Clone, Copy, Debug, PartialEq, Eq, Structural)]
pub struct Position {
    pub x: i32,
    pub y: i32,
}

/// The tint an entity is drawn with.
#[derive(Clone, Copy, Debug, PartialEq, Eq, Structural)]
pub enum Color {
    Black,
    Green,
}

#[derive(Clone, Copy, Debug, PartialEq, Eq, Structural)]
pub struct Renderable {
    pub glyph: char,
    pub color: Color,
}

/// What an entity sees: the cells in view, how far it sees, and whether
/// the cells have to be computed anew before they are read.
#[derive(Debug)]
pub struct Viewshed {
    pub visible_tiles: Vec<Point>,
    pub range: i32,
    pub dirty: bool,
}

#[derive(Clone, Copy, Debug)]
pub struct Player {}

#[derive(Clone, Copy, Debug)]
pub struct Tile {}

#[derive(Clone, Copy, Debug)]
pub struct Monster {}

#[derive(Clone, Copy, Debug)]
pub struct RandomMover {}

} // verus!
