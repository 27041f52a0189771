use vstd::prelude::*;

use crate::components::{PlayerPosition, Position, RandomMover, Renderable, Viewshed};
use crate::fov::{compute_visible, point_of, sees};
use crate::map::{lemma_position_in_range, GridMap, Point, WALL};
use crate::pathfinding::{find_path, is_path, reachable, PathResult};
use crate::random::roll;

verus! {

/// `v`, held to the cells `0..limit` of an axis.
pub open spec fn clamped(v: int, limit: int) -> int {
    let low = if v > 0 {
        v
    } else {
        0
    };
    if low < limit - 1 {
        low
    } else {
        limit - 1
    }
}

/// `v + delta`, held to the cells `0..limit` of an axis.
pub fn clamp_move(v: i32, delta: i32, limit: i32) -> (moved: i32)
    requires
        0 <= limit,
    ensures
        moved == clamped(v + delta, limit as int),
{
    let target: i64 = v as i64 + delta as i64;
    let low: i64 = if target > 0 {
        target
    } else {
        0
    };
    if low < limit as i64 - 1 {
        low as i32
    } else {
        limit - 1
    }
}

/// Where a step by `(dx, dy)` from `pos` ends on a grid of
/// `width * height` cells: one that would leave the grid stops at its rim.
pub open spec fn stepped(pos: Position, dx: int, dy: int, width: int, height: int) -> Position {
    Position { x: clamped(pos.x + dx, width) as i32, y: clamped(pos.y + dy, height) as i32 }
}

impl RandomMover {
    /// Where a wanderer stands after a tick, from the three numbers drawn
    /// for it: it moves by `(dx, dy)` where `gate` is 60, and stays
    /// otherwise.
    pub open spec fn wandered(pos: Position, gate: int, dx: int, dy: int, map: &GridMap) -> Position {
        if gate == 60 {
            stepped(pos, dx, dy, map.width as int, map.height as int)
        } else {
            pos
        }
    }

    /// The wanderer's position after a tick, from the numbers drawn for it.
    pub fn wander(pos: Position, gate: i32, dx: i32, dy: i32, map: &GridMap) -> (after: Position)
        requires
            0 <= map.width,
            0 <= map.height,
        ensures
            after == Self::wandered(pos, gate as int, dx as int, dy as int, map),
    {
        if gate == 60 {
            Position {
                x: clamp_move(pos.x, dx, map.width),
                y: clamp_move(pos.y, dy, map.height),
            }
        } else {
            pos
        }
    }

    /// Lets one wanderer take its tick: once in sixty ticks, by chance, it
    /// moves by at most one cell along each axis, and never off the grid.
    /// Returns whether the position changed.
    pub fn run(&mut self, map: &GridMap, pos: &mut Position) -> (moved: bool)
        requires
            0 <= map.width,
            0 <= map.height,
        ensures
            moved == (*final(pos) != *old(pos)),
            *final(pos) == *old(pos) || exists|dx: int, dy: int|
                -1 <= dx <= 1 && -1 <= dy <= 1 && *final(pos) == #[trigger] stepped(
                    *old(pos),
                    dx,
                    dy,
                    map.width as int,
                    map.height as int,
                ),
    {
        let before: Position = *pos;
        let gate: i32 = roll(1, 61);
        if gate == 60 {
            let dx: i32 = roll(-1, 2);
            let dy: i32 = roll(-1, 2);
            *pos = Self::wander(before, gate, dx, dy, map);
            assert(*pos == stepped(before, dx as int, dy as int, map.width as int, map.height as int));
        }
        pos.x != before.x || pos.y != before.y
    }
}

pub struct MonsterAI {}

impl MonsterAI {
    /// Whether the player's cell is among the cells in view. The view has
    /// to be up to date: one that is marked as out of date is not read.
    pub fn sees_player(viewshed: &Viewshed, player_pos: &PlayerPosition) -> (seen: bool)
        requires
            !viewshed.dirty,
        ensures
            seen == viewshed.visible_tiles@.contains(Point { x: player_pos.x, y: player_pos.y }),
    {
        let mut i: usize = 0;
        while i < viewshed.visible_tiles.len()
            invariant
                i <= viewshed.visible_tiles@.len(),
                forall|j: int|
                    0 <= j < i ==> viewshed.visible_tiles@[j] != (Point {
                        x: player_pos.x,
                        y: player_pos.y,
                    }),
            decreases viewshed.visible_tiles@.len() - i,
        {
            let tile: Point = viewshed.visible_tiles[i];
            if tile.x == player_pos.x && tile.y == player_pos.y {
                return true;
            }
            i += 1;
        }
        false
    }

    /// Takes the first step of a way that was found: the monster moves to
    /// the second cell of the way and its view is marked as out of date.
    /// Where no way was found, or the way is the one cell the monster
    /// stands on, nothing changes.
    pub fn follow(path: &PathResult, map: &GridMap, pos: &mut Position, viewshed: &mut Viewshed)
        requires
            map.shaped(),
            path.success && path.steps@.len() > 1 ==> path.steps@[1] < map.cells(),
        ensures
            final(viewshed).visible_tiles == old(viewshed).visible_tiles,
            final(viewshed).range == old(viewshed).range,
            path.success && path.steps@.len() > 1 ==> {
                &&& final(pos).x == map.column_of(path.steps@[1] as int)
                &&& final(pos).y == map.row_of(path.steps@[1] as int)
                &&& final(viewshed).dirty
            },
            !(path.success && path.steps@.len() > 1) ==> {
                &&& *final(pos) == *old(pos)
                &&& final(viewshed).dirty == old(viewshed).dirty
            },
    {
        if path.success && path.steps.len() > 1 {
            let next = map.index_to_point2d(path.steps[1]);
            pos.x = next.x;
            pos.y = next.y;
            viewshed.dirty = true;
        }
    }

    /// Lets one monster take its tick: it looks for a way to the player
    /// and takes the first step of it, which brings it one step nearer
    /// than any way from where it stood. Where the monster stands on the
    /// player's cell, or no way leads there, it stays in place.
    pub fn run(
        &mut self,
        map: &GridMap,
        player_pos: &PlayerPosition,
        viewshed: &mut Viewshed,
        pos: &mut Position,
    )
        requires
            map.shaped(),
            map.in_bounds(old(pos).x as int, old(pos).y as int),
            map.in_bounds(player_pos.x as int, player_pos.y as int),
        ensures
            final(viewshed).visible_tiles == old(viewshed).visible_tiles,
            final(viewshed).range == old(viewshed).range,
            map.in_bounds(final(pos).x as int, final(pos).y as int),
            ({
                let from = map.index_of(old(pos).x as int, old(pos).y as int);
                let to = map.index_of(player_pos.x as int, player_pos.y as int);
                let now = map.index_of(final(pos).x as int, final(pos).y as int);
                if from != to && reachable(map, from, to) {
                    &&& map.linked(from, now)
                    &&& final(viewshed).dirty
                    &&& forall|way: Seq<usize>| #[trigger]
                        is_path(map, way, from, to) ==> exists|rest: Seq<usize>|
                            is_path(map, rest, now, to) && rest.len() < way.len()
                } else {
                    &&& *final(pos) == *old(pos)
                    &&& final(viewshed).dirty == old(viewshed).dirty
                }
            }),
    {
        let from: usize = map.point2d_to_index(Point { x: pos.x, y: pos.y });
        let to: usize = map.point2d_to_index(Point { x: player_pos.x, y: player_pos.y });
        let path = find_path(from, to, map);
        proof {
            if path.success && path.steps@.len() > 1 {
                assert(map.linked(path.steps@[0] as int, path.steps@[1] as int));
                let rest = path.steps@.subrange(1, path.steps@.len() as int);
                assert forall|i: int| 0 <= i < rest.len() - 1 implies map.linked(
                    #[trigger] rest[i] as int,
                    rest[i + 1] as int,
                ) by {
                    assert(map.linked(path.steps@[i + 1] as int, path.steps@[i + 2] as int));
                }
                assert(is_path(map, rest, path.steps@[1] as int, to as int));
                assert forall|way: Seq<usize>| #[trigger]
                    is_path(map, way, from as int, to as int) implies exists|other: Seq<usize>|
                    is_path(map, other, path.steps@[1] as int, to as int) && other.len()
                        < way.len() by {
                    assert(is_path(map, rest, path.steps@[1] as int, to as int) && rest.len()
                        < way.len());
                }
                lemma_position_in_range(
                    map.width as int,
                    map.height as int,
                    path.steps@[1] as int,
                );
            }
        }
        Self::follow(&path, map, pos, viewshed);
    }
}

pub struct VisibilitySystem {}

impl VisibilitySystem {
    /// Brings one entity's view up to date. A view that is not marked as
    /// out of date is left as it is. Otherwise the cells in view are
    /// computed anew from the entity's position and the mark is cleared;
    /// for the player, the map's visible flags are then cleared and set
    /// for exactly these cells, which stay revealed from now on.
    pub fn run(&mut self, map: &mut GridMap, viewshed: &mut Viewshed, pos: &Position, is_player: bool)
        requires
            old(map).shaped(),
        ensures
            final(map).shaped(),
            old(map).wf() ==> final(map).wf(),
            final(map).width == old(map).width,
            final(map).height == old(map).height,
            final(map).glyph_map == old(map).glyph_map,
            final(map).blocked == old(map).blocked,
            final(viewshed).range == old(viewshed).range,
            !final(viewshed).dirty,
            forall|i: int|
                0 <= i < old(map).cells() && old(map).revealed_map@[i] ==> final(map).revealed_map@[i],
            !old(viewshed).dirty ==> {
                &&& final(viewshed).visible_tiles == old(viewshed).visible_tiles
                &&& final(map).revealed_map == old(map).revealed_map
                &&& final(map).visible_map == old(map).visible_map
            },
            old(viewshed).dirty ==> forall|p: Point| #[trigger]
                final(viewshed).visible_tiles@.contains(p) <==> sees(
                    old(map),
                    Point { x: pos.x, y: pos.y },
                    old(viewshed).range as int,
                    p,
                ),
            old(viewshed).dirty && !is_player ==> {
                &&& final(map).revealed_map == old(map).revealed_map
                &&& final(map).visible_map == old(map).visible_map
            },
            old(viewshed).dirty && is_player ==> forall|i: int|
                0 <= i < old(map).cells() ==> {
                    let seen = sees(
                        old(map),
                        Point { x: pos.x, y: pos.y },
                        old(viewshed).range as int,
                        #[trigger] point_of(old(map), i),
                    );
                    &&& final(map).visible_map@[i] == seen
                    &&& final(map).revealed_map@[i] == (old(map).revealed_map@[i] || seen)
                },
    {
        if viewshed.dirty {
            let origin = Point { x: pos.x, y: pos.y };
            viewshed.dirty = false;
            viewshed.visible_tiles = compute_visible(origin, viewshed.range, map);
            if is_player {
                let ghost before = *map;
                let ghost w = map.width as int;
                let ghost h = map.height as int;
                let ghost range = viewshed.range as int;
                map.reset_visibility();
                let mut k: usize = 0;
                while k < viewshed.visible_tiles.len()
                    invariant
                        k <= viewshed.visible_tiles@.len(),
                        before.shaped(),
                        before == *old(map),
                        map.shaped(),
                        before.wf() ==> map.wf(),
                        map.width == before.width,
                        map.height == before.height,
                        w == map.width,
                        h == map.height,
                        map.glyph_map == before.glyph_map,
                        map.blocked == before.blocked,
                        forall|p: Point| #[trigger]
                            viewshed.visible_tiles@.contains(p) <==> sees(&before, origin, range, p),
                        forall|i: int|
                            0 <= i < map.cells() && before.revealed_map@[i] ==> map.revealed_map@[i],
                        forall|i: int|
                            0 <= i < map.cells() ==> {
                                let marked = exists|j: int|
                                    0 <= j < k && #[trigger] viewshed.visible_tiles@[j] == point_of(
                                        &before,
                                        i,
                                    );
                                &&& #[trigger] map.visible_map@[i] == marked
                                &&& map.revealed_map@[i] == (before.revealed_map@[i] || marked)
                            },
                    decreases viewshed.visible_tiles@.len() - k,
                {
                    let vis: Point = viewshed.visible_tiles[k];
                    assert(viewshed.visible_tiles@.contains(vis));
                    assert(sees(&before, origin, range, vis));
                    let idx: usize = map.point2d_to_index(vis);
                    let ghost prior = *map;
                    map.mark_visible(idx);
                    proof {
                        assert(point_of(&before, idx as int) == vis);
                        assert forall|i: int| 0 <= i < map.cells() implies {
                            let marked = exists|j: int|
                                0 <= j < k + 1 && #[trigger] viewshed.visible_tiles@[j] == point_of(
                                    &before,
                                    i,
                                );
                            &&& #[trigger] map.visible_map@[i] == marked
                            &&& map.revealed_map@[i] == (before.revealed_map@[i] || marked)
                        } by {
                            let was = exists|j: int|
                                0 <= j < k && #[trigger] viewshed.visible_tiles@[j] == point_of(
                                    &before,
                                    i,
                                );
                            assert(prior.visible_map@[i] == was);
                            if i == idx {
                                assert(viewshed.visible_tiles@[k as int] == point_of(&before, i));
                            } else {
                                lemma_position_in_range(w, h, i);
                                lemma_position_in_range(w, h, idx as int);
                                assert(point_of(&before, i) != vis);
                                if was {
                                    let j = choose|j: int|
                                        0 <= j < k && #[trigger] viewshed.visible_tiles@[j]
                                            == point_of(&before, i);
                                    assert(viewshed.visible_tiles@[j] == point_of(&before, i));
                                }
                            }
                        }
                    }
                    k += 1;
                }
                proof {
                    assert forall|i: int| 0 <= i < before.cells() implies {
                        let seen = sees(&before, origin, range, #[trigger] point_of(&before, i));
                        &&& map.visible_map@[i] == seen
                        &&& map.revealed_map@[i] == (before.revealed_map@[i] || seen)
                    } by {
                        let p = point_of(&before, i);
                        let marked = exists|j: int|
                            0 <= j < viewshed.visible_tiles@.len()
                                && #[trigger] viewshed.visible_tiles@[j] == p;
                        assert(map.visible_map@[i] == marked);
                        if marked {
                            let j = choose|j: int|
                                0 <= j < viewshed.visible_tiles@.len()
                                    && #[trigger] viewshed.visible_tiles@[j] == p;
                            assert(viewshed.visible_tiles@.contains(p));
                        }
                        if sees(&before, origin, range, p) {
                            assert(viewshed.visible_tiles@.contains(p));
                        }
                    }
                }
            }
        }
    }
}

pub struct GlyphMapper {}

impl GlyphMapper {
    /// Writes one entity's glyph into the map at the entity's cell.
    pub fn run(&mut self, map: &mut GridMap, renderable: &Renderable, pos: &Position)
        requires
            old(map).shaped(),
            old(map).in_bounds(pos.x as int, pos.y as int),
        ensures
            final(map).shaped(),
            old(map).wf() ==> final(map).wf(),
            final(map).width == old(map).width,
            final(map).height == old(map).height,
            final(map).revealed_map == old(map).revealed_map,
            final(map).visible_map == old(map).visible_map,
            final(map).glyph_map@ == old(map).glyph_map@.update(
                old(map).index_of(pos.x as int, pos.y as int),
                renderable.glyph,
            ),
            final(map).blocked@ == old(map).blocked@.update(
                old(map).index_of(pos.x as int, pos.y as int),
                renderable.glyph == WALL,
            ),
    {
        let coords = Point { x: pos.x, y: pos.y };
        let index: usize = map.point2d_to_index(coords);
        let glyph: char = renderable.glyph;
        map.set_terrain(index, glyph);
    }
}

} // verus!
