use vstd::prelude::*;

use crate::components::{Color, Position, Renderable, Tile};
use crate::random::roll;

verus! {

/// The glyph of a cell that blocks movement and sight.
pub const WALL: char = '#';

/// The glyph of a cell that can be walked and seen through.
pub const FLOOR: char = '.';

/// The glyph of a cell whose terrain has not been set yet.
pub const UNSET: char = '?';

/// A cell of the grid, by column and row.
#[derive(Clone, Copy, Debug, PartialEq, Eq, Structural)]
pub struct Point {
    pub x: i32,
    pub y: i32,
}

/// The grid of a level. Cell `(x, y)` has the index `y * width + x`; each
/// per-cell vector is laid out by that index.
pub struct GridMap {
    pub glyph_map: Vec<char>,
    pub revealed_map: Vec<bool>,
    pub visible_map: Vec<bool>,
    pub blocked: Vec<bool>,
    pub width: i32,
    pub height: i32,
}

/// `y * width + x` stays below `width * height` for a cell of the grid.
pub proof fn lemma_index_in_range(width: int, height: int, x: int, y: int)
    requires
        0 <= x < width,
        0 <= y < height,
    ensures
        0 <= y * width + x < width * height,
        (y * width + x) % width == x,
        (y * width + x) / width == y,
{
    assert(y * width >= 0) by (nonlinear_arith)
        requires
            y >= 0,
            width > 0,
    ;
    assert(y * width + width <= height * width) by (nonlinear_arith)
        requires
            y + 1 <= height,
            width > 0,
    ;
    assert(height * width == width * height) by (nonlinear_arith);
    vstd::arithmetic::div_mod::lemma_fundamental_div_mod_converse(y * width + x, width, y, x);
}

/// An index below `width * height` splits into a column and a row of the grid.
pub proof fn lemma_position_in_range(width: int, height: int, idx: int)
    requires
        0 <= idx < width * height,
        0 <= width,
        0 <= height,
    ensures
        width > 0,
        0 <= idx % width < width,
        0 <= idx / width < height,
        (idx / width) * width + idx % width == idx,
{
    assert(width > 0) by (nonlinear_arith)
        requires
            0 <= idx < width * height,
            0 <= width,
    ;
    vstd::arithmetic::div_mod::lemma_fundamental_div_mod(idx, width);
    vstd::arithmetic::div_mod::lemma_mod_bound(idx, width);
    let q = idx / width;
    assert(width * q == q * width) by (nonlinear_arith);
    assert(q >= 0) by (nonlinear_arith)
        requires
            q * width + idx % width == idx,
            0 <= idx % width < width,
            idx >= 0,
            width > 0,
    ;
    assert(q < height) by (nonlinear_arith)
        requires
            q * width + idx % width == idx,
            0 <= idx % width,
            idx < width * height,
            width > 0,
    ;
}

impl Default for GridMap {
    /// A map without cells.
    fn default() -> (map: GridMap)
        ensures
            map.wf(),
            map.width == 0,
            map.height == 0,
    {
        GridMap {
            glyph_map: Vec::new(),
            revealed_map: Vec::new(),
            visible_map: Vec::new(),
            blocked: Vec::new(),
            width: 0,
            height: 0,
        }
    }
}

impl GridMap {
    /// The number of cells.
    pub open spec fn cells(&self) -> int {
        self.width * self.height
    }

    /// The dimensions are not negative and every per-cell vector has one
    /// entry for each cell.
    pub open spec fn shaped(&self) -> bool {
        &&& 0 <= self.width
        &&& 0 <= self.height
        &&& self.cells() <= i32::MAX
        &&& self.glyph_map@.len() == self.cells()
        &&& self.revealed_map@.len() == self.cells()
        &&& self.visible_map@.len() == self.cells()
        &&& self.blocked@.len() == self.cells()
    }

    /// The map is shaped and a cell is blocked exactly where its glyph is a wall.
    pub open spec fn wf(&self) -> bool {
        &&& self.shaped()
        &&& forall|i: int| 0 <= i < self.cells() ==> self.blocked@[i] == (self.glyph_map@[i] == WALL)
    }

    pub open spec fn in_bounds(&self, x: int, y: int) -> bool {
        0 <= x < self.width && 0 <= y < self.height
    }

    /// The index of cell `(x, y)`.
    pub open spec fn index_of(&self, x: int, y: int) -> int {
        y * self.width + x
    }

    /// The column of the cell with index `idx`.
    pub open spec fn column_of(&self, idx: int) -> int {
        idx % (self.width as int)
    }

    /// The row of the cell with index `idx`.
    pub open spec fn row_of(&self, idx: int) -> int {
        idx / (self.width as int)
    }

    /// The column and the row of the cell with index `idx`.
    pub open spec fn coords_of(&self, idx: int) -> (i32, i32) {
        (self.column_of(idx) as i32, self.row_of(idx) as i32)
    }

    /// The cell `(x, y)` lies in the grid and is not blocked.
    pub open spec fn walkable(&self, x: int, y: int) -> bool {
        self.in_bounds(x, y) && !self.blocked@[self.index_of(x, y)]
    }

    /// The index of a cell leads back to the cell.
    pub proof fn lemma_position_round_trip(&self, x: int, y: int)
        requires
            self.in_bounds(x, y),
        ensures
            0 <= self.index_of(x, y) < self.cells(),
            self.column_of(self.index_of(x, y)) == x,
            self.row_of(self.index_of(x, y)) == y,
    {
        lemma_index_in_range(self.width as int, self.height as int, x, y);
    }

    /// The cell of an index leads back to the index.
    pub proof fn lemma_index_round_trip(&self, idx: int)
        requires
            0 <= self.width,
            0 <= self.height,
            0 <= idx < self.cells(),
        ensures
            self.in_bounds(self.column_of(idx), self.row_of(idx)),
            self.index_of(self.column_of(idx), self.row_of(idx)) == idx,
    {
        lemma_position_in_range(self.width as int, self.height as int, idx);
    }

    /// A map of `width * height` cells with unset terrain, nothing blocked,
    /// nothing revealed and nothing visible.
    pub fn new(width: i32, height: i32) -> (map: GridMap)
        requires
            0 <= width,
            0 <= height,
            width * height <= i32::MAX,
        ensures
            map.wf(),
            map.width == width,
            map.height == height,
            forall|i: int| 0 <= i < map.cells() ==> map.glyph_map@[i] == UNSET,
            forall|i: int| 0 <= i < map.cells() ==> !map.blocked@[i],
            forall|i: int| 0 <= i < map.cells() ==> !map.revealed_map@[i],
            forall|i: int| 0 <= i < map.cells() ==> !map.visible_map@[i],
    {
        assert(0 <= width * height) by (nonlinear_arith)
            requires
                0 <= width,
                0 <= height,
        ;
        let cells: usize = (width as i64 * height as i64) as usize;
        GridMap {
            glyph_map: vec![UNSET; cells],
            revealed_map: vec![false; cells],
            visible_map: vec![false; cells],
            blocked: vec![false; cells],
            width: width,
            height: height,
        }
    }

    /// Cell `b` can be entered from cell `a`: the two are neighbours in a
    /// row or in a column, and `b` is not blocked.
    pub open spec fn linked(&self, a: int, b: int) -> bool {
        &&& 0 <= a < self.cells()
        &&& 0 <= b < self.cells()
        &&& !self.blocked@[b]
        &&& {
            let dx = self.column_of(b) - self.column_of(a);
            let dy = self.row_of(b) - self.row_of(a);
            (dy == 0 && (dx == 1 || dx == -1)) || (dx == 0 && (dy == 1 || dy == -1))
        }
    }

    /// The exit to `(x, y)` with its cost, if the cell can be walked.
    pub open spec fn exit_to(&self, x: int, y: int) -> Seq<(usize, u32)> {
        if self.walkable(x, y) {
            seq![(self.index_of(x, y) as usize, 1u32)]
        } else {
            Seq::empty()
        }
    }

    /// The exits of the cell with index `idx`: its walkable neighbours to the
    /// left, to the right, above and below, in that order, each at cost 1.
    pub open spec fn exits(&self, idx: int) -> Seq<(usize, u32)> {
        let x = self.column_of(idx);
        let y = self.row_of(idx);
        self.exit_to(x - 1, y) + self.exit_to(x + 1, y) + self.exit_to(x, y - 1) + self.exit_to(
            x,
            y + 1,
        )
    }

    /// The square of the Euclidean distance between the centres of two cells.
    pub open spec fn distance_squared(&self, a: int, b: int) -> int {
        let dx = self.column_of(a) - self.column_of(b);
        let dy = self.row_of(a) - self.row_of(b);
        dx * dx + dy * dy
    }

    /// Whether the dimensions and the per-cell vectors fit together.
    pub fn is_shaped(&self) -> (shaped: bool)
        ensures
            shaped == self.shaped(),
    {
        if self.width < 0 || self.height < 0 {
            return false;
        }
        assert(0 <= self.width * self.height <= 0x3fff_ffff_0000_0001) by (nonlinear_arith)
            requires
                0 <= self.width <= 0x7fff_ffff,
                0 <= self.height <= 0x7fff_ffff,
        ;
        let cells: u64 = self.width as u64 * self.height as u64;
        cells <= 0x7fff_ffff && self.glyph_map.len() as u64 == cells && self.revealed_map.len() as u64
            == cells && self.visible_map.len() as u64 == cells && self.blocked.len() as u64 == cells
    }

    /// Whether `point` is a cell of the grid.
    pub fn contains(&self, point: Point) -> (inside: bool)
        ensures
            inside == self.in_bounds(point.x as int, point.y as int),
    {
        0 <= point.x && point.x < self.width && 0 <= point.y && point.y < self.height
    }

    /// Whether `(x, y)` is a cell of the grid that is not blocked.
    pub fn is_exit_valid(&self, x: i32, y: i32) -> (valid: bool)
        requires
            self.shaped(),
        ensures
            valid == self.walkable(x as int, y as int),
    {
        if x < 0 || x >= self.width || y < 0 || y >= self.height {
            return false;
        }
        proof {
            lemma_index_in_range(self.width as int, self.height as int, x as int, y as int);
        }
        let idx: usize = y as usize * self.width as usize + x as usize;
        !self.blocked[idx]
    }

    /// Whether the cell with index `idx` blocks sight.
    pub fn is_opaque(&self, idx: usize) -> (opaque: bool)
        requires
            idx < self.glyph_map@.len(),
        ensures
            opaque == (self.glyph_map@[idx as int] == WALL),
    {
        self.glyph_map[idx] == WALL
    }

    /// The cells that can be entered from the cell with index `idx`, each
    /// with the cost of the step.
    pub fn get_available_exits(&self, idx: usize) -> (exits: Vec<(usize, u32)>)
        requires
            self.shaped(),
            idx < self.cells(),
        ensures
            exits@ == self.exits(idx as int),
            forall|k: int|
                0 <= k < exits@.len() ==> self.linked(idx as int, #[trigger] exits@[k].0 as int),
            forall|b: int|
                self.linked(idx as int, b) ==> exists|k: int|
                    0 <= k < exits@.len() && #[trigger] exits@[k].0 == b,
    {
        proof {
            lemma_position_in_range(self.width as int, self.height as int, idx as int);
        }
        let mut exits: Vec<(usize, u32)> = Vec::new();
        let w: usize = self.width as usize;
        let x: i32 = (idx % w) as i32;
        let y: i32 = (idx / w) as i32;
        let ghost left = self.exit_to(x - 1, y as int);
        let ghost right = self.exit_to(x + 1, y as int);
        let ghost up = self.exit_to(x as int, y - 1);
        let ghost down = self.exit_to(x as int, y + 1);

        if self.is_exit_valid(x - 1, y) {
            proof {
                lemma_index_in_range(self.width as int, self.height as int, x - 1, y as int);
            }
            exits.push((idx - 1, 1));
        }
        assert(exits@ == left);
        if self.is_exit_valid(x + 1, y) {
            proof {
                lemma_index_in_range(self.width as int, self.height as int, x + 1, y as int);
            }
            exits.push((idx + 1, 1));
        }
        assert(exits@ == left + right);
        if self.is_exit_valid(x, y - 1) {
            proof {
                lemma_index_in_range(self.width as int, self.height as int, x as int, y - 1);
                assert((y - 1) * self.width == y * self.width - self.width) by (nonlinear_arith);
            }
            exits.push((idx - w, 1));
        }
        assert(exits@ == left + right + up);
        if self.is_exit_valid(x, y + 1) {
            proof {
                lemma_index_in_range(self.width as int, self.height as int, x as int, y + 1);
                assert((y + 1) * self.width == y * self.width + self.width) by (nonlinear_arith);
            }
            exits.push((idx + w, 1));
        }
        assert(exits@ == left + right + up + down);
        proof {
            self.lemma_exits_are_links(idx as int);
        }
        exits
    }

    /// The exits of a cell are the cells linked to it, each once.
    pub proof fn lemma_exits_are_links(&self, idx: int)
        requires
            self.shaped(),
            0 <= idx < self.cells(),
        ensures
            forall|k: int|
                0 <= k < self.exits(idx).len() ==> self.linked(
                    idx,
                    #[trigger] self.exits(idx)[k].0 as int,
                ),
            forall|k: int|
                0 <= k < self.exits(idx).len() ==> (#[trigger] self.exits(idx)[k]).1 == 1,
            forall|b: int|
                self.linked(idx, b) ==> exists|k: int|
                    0 <= k < self.exits(idx).len() && #[trigger] self.exits(idx)[k].0 == b,
            self.exits(idx).len() <= 4,
    {
        let w = self.width as int;
        let h = self.height as int;
        lemma_position_in_range(w, h, idx);
        let x = self.column_of(idx);
        let y = self.row_of(idx);
        let left = self.exit_to(x - 1, y);
        let right = self.exit_to(x + 1, y);
        let up = self.exit_to(x, y - 1);
        let down = self.exit_to(x, y + 1);
        let all = self.exits(idx);
        assert(all == left + right + up + down);
        if self.in_bounds(x - 1, y) {
            lemma_index_in_range(w, h, x - 1, y);
        }
        if self.in_bounds(x + 1, y) {
            lemma_index_in_range(w, h, x + 1, y);
        }
        if self.in_bounds(x, y - 1) {
            lemma_index_in_range(w, h, x, y - 1);
        }
        if self.in_bounds(x, y + 1) {
            lemma_index_in_range(w, h, x, y + 1);
        }
        assert forall|k: int| 0 <= k < all.len() implies self.linked(
            idx,
            #[trigger] all[k].0 as int,
        ) && all[k].1 == 1 by {
            let e = all[k];
            if k < left.len() {
                assert(e == left[k]);
            } else if k < left.len() + right.len() {
                assert(e == right[k - left.len()]);
            } else if k < left.len() + right.len() + up.len() {
                assert(e == up[k - left.len() - right.len()]);
            } else {
                assert(e == down[k - left.len() - right.len() - up.len()]);
            }
        }
        assert forall|b: int| self.linked(idx, b) implies exists|k: int|
            0 <= k < all.len() && #[trigger] all[k].0 == b by {
            lemma_position_in_range(w, h, b);
            let bx = self.column_of(b);
            let by = self.row_of(b);
            lemma_index_in_range(w, h, bx, by);
            assert(self.walkable(bx, by));
            if by == y && bx == x - 1 {
                assert(all[0] == left[0]);
                assert(all[0].0 == b);
            } else if by == y && bx == x + 1 {
                let k = left.len() as int;
                assert(all[k] == right[0]);
                assert(all[k].0 == b);
            } else if bx == x && by == y - 1 {
                let k = (left.len() + right.len()) as int;
                assert(all[k] == up[0]);
                assert(all[k].0 == b);
            } else {
                assert(bx == x && by == y + 1);
                let k = (left.len() + right.len() + up.len()) as int;
                assert(all[k] == down[0]);
                assert(all[k].0 == b);
            }
        }
    }

    /// The square of the Euclidean distance between two cells, the estimate
    /// of the way left that the pathfinder orders its open cells by.
    pub fn get_pathing_distance(&self, idx1: usize, idx2: usize) -> (distance: u64)
        requires
            self.shaped(),
            idx1 < self.cells(),
            idx2 < self.cells(),
        ensures
            distance == self.distance_squared(idx1 as int, idx2 as int),
    {
        proof {
            lemma_position_in_range(self.width as int, self.height as int, idx1 as int);
            lemma_position_in_range(self.width as int, self.height as int, idx2 as int);
        }
        let w: usize = self.width as usize;
        let x1: u64 = (idx1 % w) as u64;
        let y1: u64 = (idx1 / w) as u64;
        let x2: u64 = (idx2 % w) as u64;
        let y2: u64 = (idx2 / w) as u64;
        let dx: u64 = if x1 < x2 { x2 - x1 } else { x1 - x2 };
        let dy: u64 = if y1 < y2 { y2 - y1 } else { y1 - y2 };
        assert(dx * dx <= 0x3fff_ffff_0000_0001) by (nonlinear_arith)
            requires
                dx <= 0x7fff_ffff,
        ;
        assert(dy * dy <= 0x3fff_ffff_0000_0001) by (nonlinear_arith)
            requires
                dy <= 0x7fff_ffff,
        ;
        assert(dx * dx == (x1 - x2) * (x1 - x2)) by (nonlinear_arith)
            requires
                dx == x1 - x2 || dx == x2 - x1,
        ;
        assert(dy * dy == (y1 - y2) * (y1 - y2)) by (nonlinear_arith)
            requires
                dy == y1 - y2 || dy == y2 - y1,
        ;
        dx * dx + dy * dy
    }

    /// The width and the height, as a point.
    pub fn dimensions(&self) -> (size: Point)
        ensures
            size.x == self.width,
            size.y == self.height,
    {
        Point { x: self.width, y: self.height }
    }

    /// The cell with index `index`.
    pub fn index_to_point2d(&self, index: usize) -> (point: Point)
        requires
            self.shaped(),
            index < self.cells(),
        ensures
            point.x == self.column_of(index as int),
            point.y == self.row_of(index as int),
            self.in_bounds(point.x as int, point.y as int),
            self.index_of(point.x as int, point.y as int) == index,
    {
        proof {
            lemma_position_in_range(self.width as int, self.height as int, index as int);
        }
        let w: usize = self.width as usize;
        Point { x: (index % w) as i32, y: (index / w) as i32 }
    }

    /// The index of the cell `point`.
    pub fn point2d_to_index(&self, point: Point) -> (index: usize)
        requires
            self.shaped(),
            self.in_bounds(point.x as int, point.y as int),
        ensures
            index == self.index_of(point.x as int, point.y as int),
            index < self.cells(),
            self.column_of(index as int) == point.x,
            self.row_of(index as int) == point.y,
    {
        proof {
            lemma_index_in_range(self.width as int, self.height as int, point.x as int, point.y as int);
        }
        point.y as usize * self.width as usize + point.x as usize
    }

    /// Sets the glyph of a cell, and its blocked flag with it.
    pub fn set_terrain(&mut self, idx: usize, glyph: char)
        requires
            old(self).shaped(),
            idx < old(self).cells(),
        ensures
            final(self).shaped(),
            old(self).wf() ==> final(self).wf(),
            final(self).glyph_map@ == old(self).glyph_map@.update(idx as int, glyph),
            final(self).blocked@ == old(self).blocked@.update(idx as int, glyph == WALL),
            final(self).revealed_map == old(self).revealed_map,
            final(self).visible_map == old(self).visible_map,
            final(self).width == old(self).width,
            final(self).height == old(self).height,
    {
        self.glyph_map.set(idx, glyph);
        self.blocked.set(idx, glyph == WALL);
    }

    /// Marks a cell as seen on this tick, and as revealed from now on.
    pub fn mark_visible(&mut self, idx: usize)
        requires
            old(self).shaped(),
            idx < old(self).cells(),
        ensures
            final(self).shaped(),
            old(self).wf() ==> final(self).wf(),
            final(self).visible_map@ == old(self).visible_map@.update(idx as int, true),
            final(self).revealed_map@ == old(self).revealed_map@.update(idx as int, true),
            final(self).glyph_map == old(self).glyph_map,
            final(self).blocked == old(self).blocked,
            final(self).width == old(self).width,
            final(self).height == old(self).height,
    {
        self.revealed_map.set(idx, true);
        self.visible_map.set(idx, true);
    }

    /// Clears the visible flag of every cell; what was revealed stays revealed.
    pub fn reset_visibility(&mut self)
        requires
            old(self).shaped(),
        ensures
            final(self).shaped(),
            old(self).wf() ==> final(self).wf(),
            forall|i: int| 0 <= i < final(self).cells() ==> !final(self).visible_map@[i],
            final(self).revealed_map == old(self).revealed_map,
            final(self).glyph_map == old(self).glyph_map,
            final(self).blocked == old(self).blocked,
            final(self).width == old(self).width,
            final(self).height == old(self).height,
    {
        let n: usize = self.visible_map.len();
        let mut i: usize = 0;
        while i < n
            invariant
                i <= n,
                n == self.visible_map@.len(),
                self.visible_map@.len() == old(self).visible_map@.len(),
                self.revealed_map == old(self).revealed_map,
                self.glyph_map == old(self).glyph_map,
                self.blocked == old(self).blocked,
                self.width == old(self).width,
                self.height == old(self).height,
                forall|j: int| 0 <= j < i ==> !self.visible_map@[j],
            decreases n - i,
        {
            self.visible_map.set(i, false);
            i += 1;
        }
    }

    /// Derives the blocked flag of every cell from its glyph.
    pub fn populate_blocked(&mut self)
        requires
            old(self).shaped(),
        ensures
            final(self).wf(),
            final(self).glyph_map == old(self).glyph_map,
            final(self).revealed_map == old(self).revealed_map,
            final(self).visible_map == old(self).visible_map,
            final(self).width == old(self).width,
            final(self).height == old(self).height,
    {
        let n: usize = self.blocked.len();
        let mut i: usize = 0;
        while i < n
            invariant
                n == self.cells(),
                i <= n,
                self.shaped(),
                self.glyph_map == old(self).glyph_map,
                self.revealed_map == old(self).revealed_map,
                self.visible_map == old(self).visible_map,
                self.width == old(self).width,
                self.height == old(self).height,
                forall|j: int| 0 <= j < i ==> self.blocked@[j] == (self.glyph_map@[j] == WALL),
            decreases n - i,
        {
            let wall: bool = self.glyph_map[i] == WALL;
            self.blocked.set(i, wall);
            i += 1;
        }
    }
}

/// Whether `(x, y)` lies on the rim of a grid of `width * height` cells.
pub open spec fn on_border(width: int, height: int, x: int, y: int) -> bool {
    x == 0 || y == 0 || x == width - 1 || y == height - 1
}

/// 1 if `(x, y)` is a cell of the grid that holds a wall, else 0. A place
/// outside the grid counts as nothing.
pub open spec fn wall_at(glyphs: Seq<char>, width: int, height: int, x: int, y: int) -> int {
    if 0 <= x < width && 0 <= y < height && glyphs[y * width + x] == WALL {
        1
    } else {
        0
    }
}

/// The number of walls among the eight cells around `(x, y)`.
pub open spec fn walls_around(glyphs: Seq<char>, width: int, height: int, x: int, y: int) -> int {
    wall_at(glyphs, width, height, x - 1, y - 1) + wall_at(glyphs, width, height, x, y - 1)
        + wall_at(glyphs, width, height, x + 1, y - 1) + wall_at(glyphs, width, height, x - 1, y)
        + wall_at(glyphs, width, height, x + 1, y) + wall_at(glyphs, width, height, x - 1, y + 1)
        + wall_at(glyphs, width, height, x, y + 1) + wall_at(glyphs, width, height, x + 1, y + 1)
}

/// The glyph that one pass of smoothing gives the cell with index `idx`: a
/// cell on the rim is a wall; a wall stays one with four walls or more
/// around it; a floor turns into one with five or more; any other cell
/// becomes floor.
pub open spec fn next_glyph(glyphs: Seq<char>, width: int, height: int, idx: int) -> char {
    let x = idx % width;
    let y = idx / width;
    let around = walls_around(glyphs, width, height, x, y);
    if on_border(width, height, x, y) || (glyphs[idx] == WALL && around >= 4) || (glyphs[idx]
        == FLOOR && around >= 5) {
        WALL
    } else {
        FLOOR
    }
}

/// The grid after one pass of smoothing, every cell decided from `glyphs`.
pub open spec fn smoothed(glyphs: Seq<char>, width: int, height: int) -> Seq<char> {
    Seq::new(glyphs.len(), |idx: int| next_glyph(glyphs, width, height, idx))
}

/// The grid after `passes` passes of smoothing.
pub open spec fn smoothed_times(glyphs: Seq<char>, width: int, height: int, passes: nat) -> Seq<char>
    decreases passes,
{
    if passes == 0 {
        glyphs
    } else {
        smoothed(smoothed_times(glyphs, width, height, (passes - 1) as nat), width, height)
    }
}

/// No cell of the grid would change in a pass of smoothing.
pub open spec fn stable(glyphs: Seq<char>, width: int, height: int) -> bool {
    forall|idx: int| 0 <= idx < glyphs.len() ==> next_glyph(glyphs, width, height, idx) == glyphs[idx]
}

/// The glyph that a cell is seeded with: a wall on the rim and for a draw
/// of 45 or less, floor otherwise.
pub open spec fn seeded_glyph(draw: int, width: int, height: int, x: int, y: int) -> char {
    if on_border(width, height, x, y) || draw <= 45 {
        WALL
    } else {
        FLOOR
    }
}

/// The grid that is seeded from one draw for each cell.
pub open spec fn seeded(draws: Seq<i32>, width: int, height: int) -> Seq<char> {
    Seq::new(
        draws.len(),
        |idx: int| seeded_glyph(draws[idx] as int, width, height, idx % width, idx / width),
    )
}

/// Each draw is one that the seeding of a map makes: a number from 1 to 99.
pub open spec fn drawn(draws: Seq<i32>) -> bool {
    forall|i: int| 0 <= i < draws.len() ==> 1 <= #[trigger] draws[i] < 100
}

/// Every cell on the rim of the grid holds a wall.
pub open spec fn sealed(glyphs: Seq<char>, width: int, height: int) -> bool {
    forall|x: int, y: int|
        0 <= x < width && 0 <= y < height && on_border(width, height, x, y) ==> #[trigger] glyphs[y
            * width + x] == WALL
}

/// A pass of smoothing on a grid in which no cell would change gives the
/// same grid.
pub proof fn lemma_smoothing_keeps_stable(glyphs: Seq<char>, width: int, height: int)
    requires
        stable(glyphs, width, height),
    ensures
        smoothed(glyphs, width, height) == glyphs,
{
    assert(smoothed(glyphs, width, height) =~= glyphs);
}

/// After a pass of smoothing every cell on the rim holds a wall, whatever
/// the grid held before.
pub proof fn lemma_smoothing_seals(glyphs: Seq<char>, width: int, height: int)
    requires
        0 <= width,
        0 <= height,
        glyphs.len() == width * height,
    ensures
        sealed(smoothed(glyphs, width, height), width, height),
{
    let next = smoothed(glyphs, width, height);
    assert forall|x: int, y: int|
        0 <= x < width && 0 <= y < height && on_border(width, height, x, y) implies #[trigger] next[y
        * width + x] == WALL by {
        lemma_index_in_range(width, height, x, y);
    }
}

/// The components of the entity that stands for the cell `(pos_x, pos_y)`:
/// its position, its glyph in black, and the tile tag.
pub fn generate_tile(glyph: char, pos_x: i32, pos_y: i32) -> (tile: (Position, Renderable, Tile))
    ensures
        tile.0 == (Position { x: pos_x, y: pos_y }),
        tile.1 == (Renderable { glyph: glyph, color: Color::Black }),
{
    (Position { x: pos_x, y: pos_y }, Renderable { glyph: glyph, color: Color::Black }, Tile {  })
}

/// The glyph a cell is seeded with, from the number drawn for it.
pub fn seed_glyph(draw: i32, width: i32, height: i32, x: i32, y: i32) -> (glyph: char)
    ensures
        glyph == seeded_glyph(draw as int, width as int, height as int, x as int, y as int),
{
    if x == 0 || y == 0 || x as i64 == width as i64 - 1 || y as i64 == height as i64 - 1 || draw <= 45 {
        WALL
    } else {
        FLOOR
    }
}

/// A fresh map seeded from one draw for each cell, `draws[i]` for the cell
/// with index `i`.
pub fn seed_map(width: i32, height: i32, draws: &Vec<i32>) -> (map: GridMap)
    requires
        0 <= width,
        0 <= height,
        width * height <= i32::MAX,
        draws@.len() == width * height,
    ensures
        map.wf(),
        map.width == width,
        map.height == height,
        map.glyph_map@ == seeded(draws@, width as int, height as int),
        sealed(map.glyph_map@, width as int, height as int),
        forall|i: int| 0 <= i < map.cells() ==> !map.revealed_map@[i],
        forall|i: int| 0 <= i < map.cells() ==> !map.visible_map@[i],
{
    let mut map = GridMap::new(width, height);
    let n: usize = draws.len();
    let mut index: usize = 0;
    while index < n
        invariant
            index <= n,
            n == map.cells(),
            n == draws@.len(),
            map.wf(),
            map.width == width,
            map.height == height,
            forall|i: int|
                0 <= i < index ==> #[trigger] map.glyph_map@[i] == seeded_glyph(
                    draws@[i] as int,
                    width as int,
                    height as int,
                    map.column_of(i),
                    map.row_of(i),
                ),
            forall|i: int| 0 <= i < map.cells() ==> !map.revealed_map@[i],
            forall|i: int| 0 <= i < map.cells() ==> !map.visible_map@[i],
        decreases n - index,
    {
        let cell = map.index_to_point2d(index);
        let glyph = seed_glyph(draws[index], width, height, cell.x, cell.y);
        map.set_terrain(index, glyph);
        index += 1;
    }
    proof {
        assert forall|x: int, y: int|
            0 <= x < width && 0 <= y < height && on_border(
                width as int,
                height as int,
                x,
                y,
            ) implies #[trigger] map.glyph_map@[y * width + x] == WALL by {
            lemma_index_in_range(width as int, height as int, x, y);
        }
        assert(map.glyph_map@ =~= seeded(draws@, width as int, height as int));
    }
    map
}

/// A fresh map with random terrain: each cell of the rim is a wall, each
/// other cell a wall or floor by a draw of its own.
pub fn generate_map_new(width: i32, height: i32) -> (map: GridMap)
    requires
        0 <= width,
        0 <= height,
        width * height <= i32::MAX,
    ensures
        map.wf(),
        map.width == width,
        map.height == height,
        exists|draws: Seq<i32>|
            draws.len() == map.cells() && drawn(draws) && map.glyph_map@ == #[trigger] seeded(
                draws,
                width as int,
                height as int,
            ),
        sealed(map.glyph_map@, width as int, height as int),
        forall|i: int|
            0 <= i < map.cells() ==> map.glyph_map@[i] == WALL || map.glyph_map@[i] == FLOOR,
        forall|i: int| 0 <= i < map.cells() ==> !map.revealed_map@[i],
        forall|i: int| 0 <= i < map.cells() ==> !map.visible_map@[i],
{
    assert(0 <= width * height) by (nonlinear_arith)
        requires
            0 <= width,
            0 <= height,
    ;
    let n: usize = (width as i64 * height as i64) as usize;
    let mut draws: Vec<i32> = Vec::new();
    let mut index: usize = 0;
    while index < n
        invariant
            index <= n,
            draws@.len() == index,
            drawn(draws@),
        decreases n - index,
    {
        let random_number: i32 = roll(1, 100);
        draws.push(random_number);
        index += 1;
    }
    let map = seed_map(width, height, &draws);
    assert(map.glyph_map@ == seeded(draws@, width as int, height as int));
    map
}

/// 1 if `(x, y)` is a cell of the map that holds a wall, else 0.
fn wall_count_at(map: &GridMap, x: i64, y: i64) -> (count: i32)
    requires
        map.shaped(),
    ensures
        count == wall_at(map.glyph_map@, map.width as int, map.height as int, x as int, y as int),
{
    if x < 0 || x >= map.width as i64 || y < 0 || y >= map.height as i64 {
        return 0;
    }
    proof {
        lemma_index_in_range(map.width as int, map.height as int, x as int, y as int);
    }
    let idx: usize = y as usize * map.width as usize + x as usize;
    if map.glyph_map[idx] == WALL {
        1
    } else {
        0
    }
}

/// The number of walls among the eight cells around `coords`. Places
/// outside the grid are left out of the count.
pub fn count_surrounding(coords: (i32, i32), map: &GridMap) -> (n_surrounding: i32)
    requires
        map.shaped(),
    ensures
        n_surrounding == walls_around(
            map.glyph_map@,
            map.width as int,
            map.height as int,
            coords.0 as int,
            coords.1 as int,
        ),
        0 <= n_surrounding <= 8,
{
    let x: i64 = coords.0 as i64;
    let y: i64 = coords.1 as i64;
    let mut n_surrounding: i32 = wall_count_at(map, x - 1, y - 1);
    n_surrounding += wall_count_at(map, x, y - 1);
    n_surrounding += wall_count_at(map, x + 1, y - 1);
    n_surrounding += wall_count_at(map, x - 1, y);
    n_surrounding += wall_count_at(map, x + 1, y);
    n_surrounding += wall_count_at(map, x - 1, y + 1);
    n_surrounding += wall_count_at(map, x, y + 1);
    n_surrounding += wall_count_at(map, x + 1, y + 1);
    n_surrounding
}

/// The cells that a pass of smoothing fills with a wall, and those that it
/// empties, each list in the order of the cells' indices. Every cell is
/// decided from the map as it stands.
pub fn get_fill_data(map: &GridMap) -> (fill_info: (Vec<(i32, i32)>, Vec<(i32, i32)>))
    requires
        map.shaped(),
    ensures
        fill_info.0@.len() + fill_info.1@.len() == map.cells(),
        forall|k: int|
            0 <= k < fill_info.0@.len() ==> {
                let c = #[trigger] fill_info.0@[k];
                &&& map.in_bounds(c.0 as int, c.1 as int)
                &&& next_glyph(
                    map.glyph_map@,
                    map.width as int,
                    map.height as int,
                    map.index_of(c.0 as int, c.1 as int),
                ) == WALL
            },
        forall|k: int|
            0 <= k < fill_info.1@.len() ==> {
                let c = #[trigger] fill_info.1@[k];
                &&& map.in_bounds(c.0 as int, c.1 as int)
                &&& next_glyph(
                    map.glyph_map@,
                    map.width as int,
                    map.height as int,
                    map.index_of(c.0 as int, c.1 as int),
                ) == FLOOR
            },
        forall|j: int, k: int|
            0 <= j < k < fill_info.0@.len() ==> map.index_of(
                fill_info.0@[j].0 as int,
                fill_info.0@[j].1 as int,
            ) < map.index_of(fill_info.0@[k].0 as int, fill_info.0@[k].1 as int),
        forall|j: int, k: int|
            0 <= j < k < fill_info.1@.len() ==> map.index_of(
                fill_info.1@[j].0 as int,
                fill_info.1@[j].1 as int,
            ) < map.index_of(fill_info.1@[k].0 as int, fill_info.1@[k].1 as int),
        forall|idx: int|
            0 <= idx < map.cells() ==> {
                let c = #[trigger] map.coords_of(idx);
                if next_glyph(map.glyph_map@, map.width as int, map.height as int, idx) == WALL {
                    fill_info.0@.contains(c)
                } else {
                    fill_info.1@.contains(c)
                }
            },
{
    let mut coordinates_to_fill: Vec<(i32, i32)> = Vec::new();
    let mut coordinates_to_empty: Vec<(i32, i32)> = Vec::new();
    let n: usize = map.glyph_map.len();
    let ghost glyphs = map.glyph_map@;
    let ghost w = map.width as int;
    let ghost h = map.height as int;
    let mut index: usize = 0;
    while index < n
        invariant
            index <= n,
            n == map.cells(),
            map.shaped(),
            glyphs == map.glyph_map@,
            w == map.width,
            h == map.height,
            coordinates_to_fill@.len() + coordinates_to_empty@.len() == index,
            forall|k: int|
                0 <= k < coordinates_to_fill@.len() ==> {
                    let c = #[trigger] coordinates_to_fill@[k];
                    &&& map.in_bounds(c.0 as int, c.1 as int)
                    &&& map.index_of(c.0 as int, c.1 as int) < index
                    &&& next_glyph(glyphs, w, h, map.index_of(c.0 as int, c.1 as int)) == WALL
                },
            forall|k: int|
                0 <= k < coordinates_to_empty@.len() ==> {
                    let c = #[trigger] coordinates_to_empty@[k];
                    &&& map.in_bounds(c.0 as int, c.1 as int)
                    &&& map.index_of(c.0 as int, c.1 as int) < index
                    &&& next_glyph(glyphs, w, h, map.index_of(c.0 as int, c.1 as int)) == FLOOR
                },
            forall|j: int, k: int|
                0 <= j < k < coordinates_to_fill@.len() ==> map.index_of(
                    coordinates_to_fill@[j].0 as int,
                    coordinates_to_fill@[j].1 as int,
                ) < map.index_of(
                    coordinates_to_fill@[k].0 as int,
                    coordinates_to_fill@[k].1 as int,
                ),
            forall|j: int, k: int|
                0 <= j < k < coordinates_to_empty@.len() ==> map.index_of(
                    coordinates_to_empty@[j].0 as int,
                    coordinates_to_empty@[j].1 as int,
                ) < map.index_of(
                    coordinates_to_empty@[k].0 as int,
                    coordinates_to_empty@[k].1 as int,
                ),
            forall|idx: int|
                0 <= idx < index ==> {
                    let c = #[trigger] map.coords_of(idx);
                    if next_glyph(glyphs, w, h, idx) == WALL {
                        coordinates_to_fill@.contains(c)
                    } else {
                        coordinates_to_empty@.contains(c)
                    }
                },
        decreases n - index,
    {
        let cell = map.index_to_point2d(index);
        let coords: (i32, i32) = (cell.x, cell.y);
        let glyph: char = map.glyph_map[index];
        let n_solid: i32 = count_surrounding(coords, map);
        let rim: bool = cell.x == 0 || cell.y == 0 || cell.x == map.width - 1 || cell.y
            == map.height - 1;
        let ghost old_fill = coordinates_to_fill@;
        let ghost old_empty = coordinates_to_empty@;
        if rim || (glyph == WALL && n_solid >= 4) || (glyph == FLOOR && n_solid >= 5) {
            coordinates_to_fill.push(coords);
            proof {
                let last = old_fill.len() as int;
                assert(coordinates_to_fill@[last] == coords);
                assert forall|idx: int| 0 <= idx < index + 1 implies {
                    let c = #[trigger] map.coords_of(idx);
                    if next_glyph(glyphs, w, h, idx) == WALL {
                        coordinates_to_fill@.contains(c)
                    } else {
                        coordinates_to_empty@.contains(c)
                    }
                } by {
                    let c = map.coords_of(idx);
                    if idx == index {
                        assert(coordinates_to_fill@[last] == c);
                    } else if next_glyph(glyphs, w, h, idx) == WALL {
                        let k = choose|k: int| 0 <= k < old_fill.len() && old_fill[k] == c;
                        assert(coordinates_to_fill@[k] == c);
                    }
                }
            }
        } else {
            coordinates_to_empty.push(coords);
            proof {
                let last = old_empty.len() as int;
                assert(coordinates_to_empty@[last] == coords);
                assert forall|idx: int| 0 <= idx < index + 1 implies {
                    let c = #[trigger] map.coords_of(idx);
                    if next_glyph(glyphs, w, h, idx) == WALL {
                        coordinates_to_fill@.contains(c)
                    } else {
                        coordinates_to_empty@.contains(c)
                    }
                } by {
                    let c = map.coords_of(idx);
                    if idx == index {
                        assert(coordinates_to_empty@[last] == c);
                    } else if next_glyph(glyphs, w, h, idx) != WALL {
                        let k = choose|k: int| 0 <= k < old_empty.len() && old_empty[k] == c;
                        assert(coordinates_to_empty@[k] == c);
                    }
                }
            }
        }
        index += 1;
    }
    (coordinates_to_fill, coordinates_to_empty)
}

/// Writes `glyph` into each cell of `cells`, a list in the order of the
/// cells' indices that holds exactly the cells that `snapshot` gives `glyph`.
fn write_cells(map: &mut GridMap, cells: &Vec<(i32, i32)>, glyph: char, Ghost(snapshot): Ghost<Seq<char>>)
    requires
        old(map).wf(),
        glyph == WALL || glyph == FLOOR,
        snapshot.len() == old(map).cells(),
        forall|k: int|
            0 <= k < cells@.len() ==> {
                let c = #[trigger] cells@[k];
                &&& old(map).in_bounds(c.0 as int, c.1 as int)
                &&& next_glyph(
                    snapshot,
                    old(map).width as int,
                    old(map).height as int,
                    old(map).index_of(c.0 as int, c.1 as int),
                ) == glyph
            },
        forall|idx: int|
            0 <= idx < old(map).cells() && next_glyph(
                snapshot,
                old(map).width as int,
                old(map).height as int,
                idx,
            ) == glyph ==> cells@.contains(#[trigger] old(map).coords_of(idx)),
    ensures
        final(map).wf(),
        final(map).width == old(map).width,
        final(map).height == old(map).height,
        final(map).revealed_map == old(map).revealed_map,
        final(map).visible_map == old(map).visible_map,
        forall|idx: int|
            0 <= idx < final(map).cells() ==> #[trigger] final(map).glyph_map@[idx] == (if next_glyph(
                snapshot,
                old(map).width as int,
                old(map).height as int,
                idx,
            ) == glyph {
                glyph
            } else {
                old(map).glyph_map@[idx]
            }),
{
    let ghost w = map.width as int;
    let ghost h = map.height as int;
    let mut k: usize = 0;
    while k < cells.len()
        invariant
            k <= cells@.len(),
            map.wf(),
            map.width == old(map).width,
            map.height == old(map).height,
            w == map.width,
            h == map.height,
            map.revealed_map == old(map).revealed_map,
            map.visible_map == old(map).visible_map,
            snapshot.len() == map.cells(),
            forall|j: int|
                0 <= j < cells@.len() ==> {
                    let c = #[trigger] cells@[j];
                    &&& map.in_bounds(c.0 as int, c.1 as int)
                    &&& next_glyph(snapshot, w, h, map.index_of(c.0 as int, c.1 as int)) == glyph
                },
            forall|idx: int|
                0 <= idx < map.cells() ==> #[trigger] map.glyph_map@[idx] == old(map).glyph_map@[idx]
                    || (map.glyph_map@[idx] == glyph && next_glyph(snapshot, w, h, idx) == glyph),
            forall|j: int|
                0 <= j < k ==> map.glyph_map@[map.index_of(
                    (#[trigger] cells@[j]).0 as int,
                    cells@[j].1 as int,
                )] == glyph,
        decreases cells@.len() - k,
    {
        let c: (i32, i32) = cells[k];
        let idx: usize = map.point2d_to_index(Point { x: c.0, y: c.1 });
        map.set_terrain(idx, glyph);
        proof {
            assert forall|j: int| 0 <= j < k + 1 implies map.glyph_map@[map.index_of(
                (#[trigger] cells@[j]).0 as int,
                cells@[j].1 as int,
            )] == glyph by {
                let cj = cells@[j];
                lemma_index_in_range(w, h, cj.0 as int, cj.1 as int);
            }
        }
        k += 1;
    }
    proof {
        assert forall|idx: int|
            0 <= idx < map.cells() implies #[trigger] map.glyph_map@[idx] == (if next_glyph(
            snapshot,
            w,
            h,
            idx,
        ) == glyph {
            glyph
        } else {
            old(map).glyph_map@[idx]
        }) by {
            if next_glyph(snapshot, w, h, idx) == glyph {
                let c = map.coords_of(idx);
                assert(old(map).coords_of(idx) == c);
                assert(cells@.contains(c));
                let j = choose|j: int| 0 <= j < cells@.len() && cells@[j] == c;
                lemma_position_in_range(w, h, idx);
                assert(map.index_of(cells@[j].0 as int, cells@[j].1 as int) == idx);
            }
        }
    }
}

/// One pass of smoothing: every cell gets the glyph that the rule gives it
/// from the map as it stood before the pass.
pub fn apply_ca(map: &mut GridMap)
    requires
        old(map).wf(),
    ensures
        final(map).wf(),
        final(map).width == old(map).width,
        final(map).height == old(map).height,
        final(map).revealed_map == old(map).revealed_map,
        final(map).visible_map == old(map).visible_map,
        final(map).glyph_map@ == smoothed(
            old(map).glyph_map@,
            old(map).width as int,
            old(map).height as int,
        ),
        sealed(final(map).glyph_map@, final(map).width as int, final(map).height as int),
{
    let fill_info = get_fill_data(map);
    let coordinates_to_fill: Vec<(i32, i32)> = fill_info.0;
    let coordinates_to_empty: Vec<(i32, i32)> = fill_info.1;
    let ghost snapshot = map.glyph_map@;
    let ghost w = map.width as int;
    let ghost h = map.height as int;

    let ghost before = *map;

    write_cells(map, &coordinates_to_fill, WALL, Ghost(snapshot));
    proof {
        assert forall|idx: int|
            0 <= idx < map.cells() && next_glyph(snapshot, w, h, idx)
                == FLOOR implies coordinates_to_empty@.contains(#[trigger] map.coords_of(idx)) by {
            assert(map.coords_of(idx) == before.coords_of(idx));
        }
    }
    write_cells(map, &coordinates_to_empty, FLOOR, Ghost(snapshot));
    proof {
        assert(map.glyph_map@ =~= smoothed(snapshot, w, h));
        lemma_smoothing_seals(snapshot, w, h);
    }
}

/// `iterations` passes of smoothing, one after the other.
pub fn smooth(map: &mut GridMap, iterations: u32)
    requires
        old(map).wf(),
    ensures
        final(map).wf(),
        final(map).width == old(map).width,
        final(map).height == old(map).height,
        final(map).revealed_map == old(map).revealed_map,
        final(map).visible_map == old(map).visible_map,
        final(map).glyph_map@ == smoothed_times(
            old(map).glyph_map@,
            old(map).width as int,
            old(map).height as int,
            iterations as nat,
        ),
        iterations > 0 ==> sealed(
            final(map).glyph_map@,
            final(map).width as int,
            final(map).height as int,
        ),
{
    let mut pass: u32 = 0;
    while pass < iterations
        invariant
            pass <= iterations,
            map.wf(),
            map.width == old(map).width,
            map.height == old(map).height,
            map.revealed_map == old(map).revealed_map,
            map.visible_map == old(map).visible_map,
            map.glyph_map@ == smoothed_times(
                old(map).glyph_map@,
                old(map).width as int,
                old(map).height as int,
                pass as nat,
            ),
            pass > 0 ==> sealed(map.glyph_map@, map.width as int, map.height as int),
        decreases iterations - pass,
    {
        apply_ca(map);
        pass += 1;
    }
}

/// Every glyph of a smoothed grid is a wall or floor.
pub proof fn lemma_smoothing_gives_terrain(glyphs: Seq<char>, width: int, height: int, passes: nat)
    requires
        forall|i: int| 0 <= i < glyphs.len() ==> glyphs[i] == WALL || glyphs[i] == FLOOR,
    ensures
        smoothed_times(glyphs, width, height, passes).len() == glyphs.len(),
        forall|i: int|
            0 <= i < glyphs.len() ==> {
                let g = #[trigger] smoothed_times(glyphs, width, height, passes)[i];
                g == WALL || g == FLOOR
            },
    decreases passes,
{
    if passes > 0 {
        lemma_smoothing_gives_terrain(glyphs, width, height, (passes - 1) as nat);
    }
}

/// A cave of `width * height` cells: random terrain inside a rim of walls,
/// smoothed `iterations` times.
pub fn generate_cave(width: i32, height: i32, iterations: u32) -> (map: GridMap)
    requires
        0 <= width,
        0 <= height,
        width * height <= i32::MAX,
    ensures
        map.wf(),
        map.width == width,
        map.height == height,
        exists|draws: Seq<i32>|
            draws.len() == map.cells() && drawn(draws) && map.glyph_map@ == smoothed_times(
                #[trigger] seeded(draws, width as int, height as int),
                width as int,
                height as int,
                iterations as nat,
            ),
        sealed(map.glyph_map@, width as int, height as int),
        forall|i: int|
            0 <= i < map.cells() ==> map.glyph_map@[i] == WALL || map.glyph_map@[i] == FLOOR,
        forall|i: int| 0 <= i < map.cells() ==> !map.revealed_map@[i],
        forall|i: int| 0 <= i < map.cells() ==> !map.visible_map@[i],
{
    let mut map = generate_map_new(width, height);
    let ghost start = map.glyph_map@;
    let ghost draws = choose|draws: Seq<i32>|
        draws.len() == map.cells() && drawn(draws) && map.glyph_map@ == #[trigger] seeded(
            draws,
            width as int,
            height as int,
        );
    smooth(&mut map, iterations);
    proof {
        lemma_smoothing_gives_terrain(start, width as int, height as int, iterations as nat);
        assert(map.glyph_map@ == smoothed_times(
            seeded(draws, width as int, height as int),
            width as int,
            height as int,
            iterations as nat,
        ));
    }
    map
}

} // verus!
