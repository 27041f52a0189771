//! The core of a tile-based roguelike: a grid map, cave generation by a
//! cellular automaton, field of view, grid pathfinding, and the per-tick
//! decisions of the game's systems.

use vstd::prelude::*;

use crate::components::{Color, PlayerPosition, Position, Renderable, Viewshed};
use crate::map::GridMap;
use crate::systems::{clamp_move, stepped};

pub mod components;
pub mod estimate;
pub mod fov;
pub mod map;
pub mod pathfinding;
mod random;
pub mod systems;

verus! {

/// Whether the simulation advances on a tick.
#[derive(PartialEq, Eq, Copy, Clone, Debug, Structural)]
pub enum RunState {
    Paused,
    Running,
}

impl RunState {
    /// The other state.
    pub open spec fn toggled(self) -> RunState {
        match self {
            RunState::Paused => RunState::Running,
            RunState::Running => RunState::Paused,
        }
    }
}

/// The run state after a tick's input: a press of the pause key turns a
/// running game into a paused one and a paused one into a running one.
pub fn game_input(runstate: RunState, pause_pressed: bool) -> (next: RunState)
    ensures
        next == if pause_pressed {
            runstate.toggled()
        } else {
            runstate
        },
{
    if pause_pressed {
        if runstate == RunState::Running {
            RunState::Paused
        } else {
            RunState::Running
        }
    } else {
        runstate
    }
}

/// Moves the player by `(delta_x, delta_y)`, stopping at the rim of the
/// map, notes the new cell as the player's position and marks the
/// player's view as out of date.
pub fn try_move_player(
    delta_x: i32,
    delta_y: i32,
    map: &GridMap,
    pos: &mut Position,
    viewshed: &mut Viewshed,
    player_position: &mut PlayerPosition,
)
    requires
        0 <= map.width,
        0 <= map.height,
    ensures
        *final(pos) == stepped(
            *old(pos),
            delta_x as int,
            delta_y as int,
            map.width as int,
            map.height as int,
        ),
        final(player_position).x == final(pos).x,
        final(player_position).y == final(pos).y,
        final(viewshed).dirty,
        final(viewshed).range == old(viewshed).range,
        final(viewshed).visible_tiles == old(viewshed).visible_tiles,
{
    pos.x = clamp_move(pos.x, delta_x, map.width);
    pos.y = clamp_move(pos.y, delta_y, map.height);

    player_position.x = pos.x;
    player_position.y = pos.y;

    viewshed.dirty = true;
}

/// The keys for moving that were pressed on a tick.
#[derive(Clone, Copy, Debug, PartialEq, Eq, Structural)]
pub struct Intents {
    pub left: bool,
    pub right: bool,
    pub up: bool,
    pub down: bool,
}

impl Intents {
    /// Where the presses take a player that stands at `pos`: one step for
    /// each key that is down, to the left, to the right, up and down, in
    /// that order, each stopping at the rim.
    pub open spec fn target(self, pos: Position, width: int, height: int) -> Position {
        let after_left = if self.left {
            stepped(pos, -1, 0, width, height)
        } else {
            pos
        };
        let after_right = if self.right {
            stepped(after_left, 1, 0, width, height)
        } else {
            after_left
        };
        let after_up = if self.up {
            stepped(after_right, 0, -1, width, height)
        } else {
            after_right
        };
        if self.down {
            stepped(after_up, 0, 1, width, height)
        } else {
            after_up
        }
    }

    pub open spec fn any(self) -> bool {
        self.left || self.right || self.up || self.down
    }
}

/// Applies a tick's presses to the player. With no key down nothing changes.
pub fn player_input(
    intents: Intents,
    map: &GridMap,
    pos: &mut Position,
    viewshed: &mut Viewshed,
    player_position: &mut PlayerPosition,
)
    requires
        0 <= map.width,
        0 <= map.height,
    ensures
        *final(pos) == intents.target(*old(pos), map.width as int, map.height as int),
        final(viewshed).range == old(viewshed).range,
        final(viewshed).visible_tiles == old(viewshed).visible_tiles,
        intents.any() ==> {
            &&& final(viewshed).dirty
            &&& final(player_position).x == final(pos).x
            &&& final(player_position).y == final(pos).y
        },
        !intents.any() ==> {
            &&& final(viewshed).dirty == old(viewshed).dirty
            &&& *final(player_position) == *old(player_position)
        },
{
    if intents.left {
        try_move_player(-1, 0, map, pos, viewshed, player_position);
    }
    if intents.right {
        try_move_player(1, 0, map, pos, viewshed, player_position);
    }
    if intents.up {
        try_move_player(0, -1, map, pos, viewshed, player_position);
    }
    if intents.down {
        try_move_player(0, 1, map, pos, viewshed, player_position);
    }
}

/// How a cell, or an entity on it, is to be drawn.
#[derive(Clone, Copy, Debug, PartialEq, Eq, Structural)]
pub enum Shade {
    /// In view on this tick: drawn in its own colour.
    Lit,
    /// Seen before but not in view: drawn dimmed.
    Remembered,
    /// Never seen: drawn black.
    Dark,
}

/// The shade of a cell from its two flags.
pub fn shade(visible: bool, revealed: bool) -> (shade: Shade)
    ensures
        shade == if visible {
            Shade::Lit
        } else if revealed {
            Shade::Remembered
        } else {
            Shade::Dark
        },
{
    if visible {
        Shade::Lit
    } else if revealed && !visible {
        Shade::Remembered
    } else {
        Shade::Dark
    }
}

/// What an entity is made of when a level is set up.
#[derive(Debug)]
pub struct Actor {
    pub position: Position,
    pub renderable: Renderable,
    pub viewshed: Option<Viewshed>,
    pub player: bool,
    pub monster: bool,
    pub random_mover: bool,
}

/// The entities a level starts with, and the player's position: the
/// player at (40, 25), who sees 8 cells far and whose view is still to be
/// computed, and a wandering monster at (30, 10).
pub fn generate_entities() -> (setup: (Vec<Actor>, PlayerPosition))
    ensures
        setup.1 == (PlayerPosition { x: 40, y: 25 }),
        setup.0@.len() == 2,
        setup.0@[0].position == (Position { x: 40, y: 25 }),
        setup.0@[0].renderable == (Renderable { glyph: '@', color: Color::Black }),
        setup.0@[0].player && !setup.0@[0].monster && !setup.0@[0].random_mover,
        setup.0@[0].viewshed is Some,
        setup.0@[0].viewshed->Some_0.visible_tiles@.len() == 0,
        setup.0@[0].viewshed->Some_0.range == 8,
        setup.0@[0].viewshed->Some_0.dirty,
        setup.0@[1].position == (Position { x: 30, y: 10 }),
        setup.0@[1].renderable == (Renderable { glyph: 'g', color: Color::Green }),
        !setup.0@[1].player && setup.0@[1].monster && setup.0@[1].random_mover,
        setup.0@[1].viewshed is None,
{
    let mut actors: Vec<Actor> = Vec::new();
    actors.push(
        Actor {
            position: Position { x: 40, y: 25 },
            renderable: Renderable { glyph: '@', color: Color::Black },
            viewshed: Some(Viewshed { visible_tiles: Vec::new(), range: 8, dirty: true }),
            player: true,
            monster: false,
            random_mover: false,
        },
    );
    actors.push(
        Actor {
            position: Position { x: 30, y: 10 },
            renderable: Renderable { glyph: 'g', color: Color::Green },
            viewshed: None,
            player: false,
            monster: true,
            random_mover: true,
        },
    );
    (actors, PlayerPosition { x: 40, y: 25 })
}

} // verus!

