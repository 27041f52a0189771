use vstd::prelude::*;

use crate::estimate::{
    estimate_is_less, floor_root, lemma_estimate_order_rounds, lemma_floor_root,
    MAX_DISTANCE_SQUARED,
};
use crate::fov::magnitude;
use crate::map::{lemma_position_in_range, GridMap};

verus! {

/// What a search for a way between two cells gives back.
#[derive(Debug)]
pub struct PathResult {
    /// The cells of the way, from the start to the goal, both included.
    /// Empty where there is no way.
    pub steps: Vec<usize>,
    pub success: bool,
    /// The number of steps taken from the start to the goal.
    pub cost: usize,
}

/// `steps` leads from `start` to `goal`: each cell is entered from the one
/// before it.
pub open spec fn is_path(map: &GridMap, steps: Seq<usize>, start: int, goal: int) -> bool {
    &&& steps.len() >= 1
    &&& steps[0] == start
    &&& steps[steps.len() - 1] == goal
    &&& forall|i: int|
        0 <= i < steps.len() - 1 ==> map.linked(#[trigger] steps[i] as int, steps[i + 1] as int)
}

/// Some way leads from `start` to `goal`.
pub open spec fn reachable(map: &GridMap, start: int, goal: int) -> bool {
    exists|steps: Seq<usize>| is_path(map, steps, start, goal)
}

/// How many of the flags are set.
pub open spec fn count_set(flags: Seq<bool>) -> nat
    decreases flags.len(),
{
    if flags.len() == 0 {
        0
    } else {
        count_set(flags.drop_last()) + if flags.last() {
            1nat
        } else {
            0nat
        }
    }
}

proof fn lemma_count_set_bound(flags: Seq<bool>)
    ensures
        count_set(flags) <= flags.len(),
    decreases flags.len(),
{
    if flags.len() > 0 {
        lemma_count_set_bound(flags.drop_last());
    }
}

proof fn lemma_count_set_grows(flags: Seq<bool>, i: int)
    requires
        0 <= i < flags.len(),
        !flags[i],
    ensures
        count_set(flags.update(i, true)) == count_set(flags) + 1,
    decreases flags.len(),
{
    let after = flags.update(i, true);
    if i == flags.len() - 1 {
        assert(after.drop_last() =~= flags.drop_last());
    } else {
        assert(after.drop_last() =~= flags.drop_last().update(i, true));
        lemma_count_set_grows(flags.drop_last(), i);
    }
}

proof fn lemma_count_set_none(flags: Seq<bool>)
    requires
        forall|i: int| 0 <= i < flags.len() ==> !flags[i],
    ensures
        count_set(flags) == 0,
    decreases flags.len(),
{
    if flags.len() > 0 {
        lemma_count_set_none(flags.drop_last());
    }
}

/// The straight-line distance from `cell` to `goal`, rounded down.
pub open spec fn distance_floor(map: &GridMap, cell: int, goal: int) -> nat {
    floor_root(map.distance_squared(cell, goal) as nat)
}

/// The number of steps between two cells along the rows and columns.
pub open spec fn steps_apart(map: &GridMap, a: int, b: int) -> int {
    magnitude(map.column_of(a) - map.column_of(b)) + magnitude(map.row_of(a) - map.row_of(b))
}

/// Two cells of a way lie no more steps apart than the way takes between them.
pub proof fn lemma_way_covers_steps_apart(map: &GridMap, steps: Seq<usize>, j: int, k: int)
    requires
        forall|i: int|
            0 <= i < steps.len() - 1 ==> map.linked(#[trigger] steps[i] as int, steps[i + 1] as int),
        0 <= j <= k < steps.len(),
    ensures
        steps_apart(map, steps[j] as int, steps[k] as int) <= k - j,
    decreases k - j,
{
    if j < k {
        lemma_way_covers_steps_apart(map, steps, j, k - 1);
        assert(map.linked(steps[k - 1] as int, steps[k] as int));
    }
}

/// The square of the inner product of two vectors is at most the product
/// of their squared lengths.
proof fn lemma_product_bound(ux: int, uy: int, vx: int, vy: int)
    ensures
        (ux * vx + uy * vy) * (ux * vx + uy * vy) <= (ux * ux + uy * uy) * (vx * vx + vy * vy),
{
    let p = ux * vx;
    let q = uy * vy;
    let c = ux * vy;
    let k = uy * vx;
    assert((p + q) * (p + q) == p * p + 2 * (p * q) + q * q) by (nonlinear_arith);
    assert((c - k) * (c - k) == c * c - 2 * (c * k) + k * k) by (nonlinear_arith);
    assert((c - k) * (c - k) >= 0) by (nonlinear_arith);
    assert(p * q == c * k) by (nonlinear_arith)
        requires
            p == ux * vx,
            q == uy * vy,
            c == ux * vy,
            k == uy * vx,
    ;
    assert((ux * ux) * (vx * vx) == p * p) by (nonlinear_arith)
        requires
            p == ux * vx,
    ;
    assert((uy * uy) * (vy * vy) == q * q) by (nonlinear_arith)
        requires
            q == uy * vy,
    ;
    assert((ux * ux) * (vy * vy) == c * c) by (nonlinear_arith)
        requires
            c == ux * vy,
    ;
    assert((uy * uy) * (vx * vx) == k * k) by (nonlinear_arith)
        requires
            k == uy * vx,
    ;
    let a = ux * ux;
    let b = uy * uy;
    let x = vx * vx;
    let y = vy * vy;
    assert((a + b) * (x + y) == a * x + a * y + b * x + b * y) by (nonlinear_arith);
}

/// The distance to the goal, rounded down, falls by no more than one with
/// each step: from a cell that lies `m` steps from another it is at most
/// `m` more than from the other.
pub proof fn lemma_distance_floor_is_consistent(map: &GridMap, a: int, c: int, goal: int, m: int)
    requires
        steps_apart(map, a, c) <= m,
    ensures
        distance_floor(map, a, goal) <= m + distance_floor(map, c, goal),
{
    let ux = map.column_of(a) - map.column_of(c);
    let uy = map.row_of(a) - map.row_of(c);
    let vx = map.column_of(c) - map.column_of(goal);
    let vy = map.row_of(c) - map.row_of(goal);
    let sa = map.distance_squared(a, goal);
    let sc = map.distance_squared(c, goal);
    assert(sc == vx * vx + vy * vy);
    assert(sa == (ux + vx) * (ux + vx) + (uy + vy) * (uy + vy));
    assert(sc >= 0) by (nonlinear_arith)
        requires
            sc == vx * vx + vy * vy,
    ;
    assert(sa >= 0) by (nonlinear_arith)
        requires
            sa == (ux + vx) * (ux + vx) + (uy + vy) * (uy + vy),
    ;
    lemma_floor_root(sc as nat);
    lemma_floor_root(sa as nat);
    let r = floor_root(sc as nat) as int;
    let f = floor_root(sa as nat) as int;
    let e = ux * ux + uy * uy;
    let d = ux * vx + uy * vy;
    assert(sa == e + 2 * d + sc) by (nonlinear_arith)
        requires
            sa == (ux + vx) * (ux + vx) + (uy + vy) * (uy + vy),
            sc == vx * vx + vy * vy,
            e == ux * ux + uy * uy,
            d == ux * vx + uy * vy,
    ;
    assert(0 <= e <= m * m) by (nonlinear_arith)
        requires
            e == ux * ux + uy * uy,
            magnitude(ux) + magnitude(uy) <= m,
    ;
    lemma_product_bound(ux, uy, vx, vy);
    let b = m * (r + 1);
    assert(e * sc <= m * m * sc) by (nonlinear_arith)
        requires
            e <= m * m,
            sc >= 0,
    ;
    assert(m * m * sc <= b * b) by (nonlinear_arith)
        requires
            sc <= (r + 1) * (r + 1),
            b == m * (r + 1),
    ;
    assert(b >= 0) by (nonlinear_arith)
        requires
            b == m * (r + 1),
            m >= 0,
            r >= 0,
    ;
    if d > b {
        assert(d * d > b * b) by (nonlinear_arith)
            requires
                d > b,
                b >= 0,
        ;
    }
    assert(d <= b);
    let top = m + r + 1;
    assert(top * top == m * m + 2 * b + (r + 1) * (r + 1)) by (nonlinear_arith)
        requires
            top == m + r + 1,
            b == m * (r + 1),
    ;
    assert(sa < top * top);
    if f >= top {
        assert(f * f >= top * top) by (nonlinear_arith)
            requires
                f >= top,
                top >= 0,
        ;
    }
}

/// What a search from one cell has found so far.
struct Search {
    /// For a cell that was found, the steps of the best way to it so far.
    cost: Vec<u32>,
    found: Vec<bool>,
    /// The cells whose exits have been followed.
    closed: Vec<bool>,
    /// For a cell that was found, other than the start, the cell it was
    /// entered from.
    parent: Vec<usize>,
}

impl Search {
    /// The cell was found and its exits have not been followed yet.
    spec fn open(&self, v: int) -> bool {
        self.found@[v] && !self.closed@[v]
    }

    /// What holds of a search from `start` between two rounds. While the
    /// exits of `pending` are being followed, the clause on the exits of
    /// closed cells leaves that cell out.
    spec fn inv(&self, map: &GridMap, start: int, pending: int) -> bool {
        let n = map.cells();
        &&& map.shaped()
        &&& 0 <= start < n
        &&& self.cost@.len() == n
        &&& self.found@.len() == n
        &&& self.closed@.len() == n
        &&& self.parent@.len() == n
        &&& self.found@[start]
        &&& self.cost@[start] == 0
        &&& forall|v: int| 0 <= v < n && #[trigger] self.closed@[v] ==> self.found@[v]
        &&& forall|v: int|
            0 <= v < n && #[trigger] self.found@[v] && v != start ==> {
                let p = self.parent@[v] as int;
                &&& 0 <= p < n
                &&& self.closed@[p]
                &&& map.linked(p, v)
                &&& self.cost@[v] == self.cost@[p] + 1
            }
        &&& forall|v: int|
            0 <= v < n && #[trigger] self.found@[v] ==> self.cost@[v] <= count_set(self.closed@)
        &&& forall|a: int, b: int|
            0 <= a < n && self.closed@[a] && a != pending && #[trigger] map.linked(a, b)
                ==> self.found@[b] && self.cost@[b] <= self.cost@[a] + 1
        &&& forall|v: int, way: Seq<usize>|
            0 <= v < n && self.closed@[v] && #[trigger] is_path(map, way, start, v)
                ==> self.cost@[v] + 1 <= way.len()
    }

    /// The steps to a cell so far and the distance from it to the goal,
    /// rounded down, together.
    spec fn rank(&self, map: &GridMap, v: int, goal: int) -> int {
        self.cost@[v] + distance_floor(map, v, goal)
    }

    /// No open cell ranks below `best`.
    spec fn least(&self, map: &GridMap, best: int, goal: int) -> bool {
        forall|u: int|
            0 <= u < map.cells() && #[trigger] self.open(u) ==> self.rank(map, best, goal)
                <= self.rank(map, u, goal)
    }

    /// A search that has found the start and nothing else.
    fn new(map: &GridMap, start: usize) -> (search: Search)
        requires
            map.shaped(),
            start < map.cells(),
        ensures
            search.inv(map, start as int, -1),
            forall|v: int| 0 <= v < map.cells() ==> !search.closed@[v],
            forall|v: int| 0 <= v < map.cells() && search.found@[v] ==> v == start,
    {
        let n: usize = map.glyph_map.len();
        let mut found: Vec<bool> = vec![false; n];
        found.set(start, true);
        let search = Search {
            cost: vec![0u32; n],
            found: found,
            closed: vec![false; n],
            parent: vec![start; n],
        };
        proof {
            lemma_count_set_none(search.closed@);
        }
        search
    }

    /// The open cell to follow next: one whose steps so far and distance
    /// to the goal together are least, the first such by index. `None`
    /// where no cell is open.
    fn pick(&self, map: &GridMap, goal: usize, Ghost(start): Ghost<int>) -> (best: Option<usize>)
        requires
            self.inv(map, start, -1),
            goal < map.cells(),
        ensures
            match best {
                Some(v) => v < map.cells() && self.open(v as int) && self.least(
                    map,
                    v as int,
                    goal as int,
                ),
                None => forall|v: int| 0 <= v < map.cells() ==> !self.open(v),
            },
    {
        let n: usize = self.found.len();
        let mut best: Option<usize> = None;
        let mut best_cost: u32 = 0;
        let mut best_distance: u64 = 0;
        proof {
            lemma_count_set_bound(self.closed@);
        }
        let mut i: usize = 0;
        while i < n
            invariant
                i <= n,
                n == map.cells(),
                self.inv(map, start, -1),
                goal < n,
                count_set(self.closed@) <= n,
                best_cost <= i32::MAX,
                best_distance <= MAX_DISTANCE_SQUARED,
                match best {
                    Some(v) => {
                        &&& v < i
                        &&& self.open(v as int)
                        &&& best_cost == self.cost@[v as int]
                        &&& best_distance == map.distance_squared(v as int, goal as int)
                        &&& forall|u: int|
                            0 <= u < i && #[trigger] self.open(u) ==> self.rank(
                                map,
                                v as int,
                                goal as int,
                            ) <= self.rank(map, u, goal as int)
                    },
                    None => forall|v: int| 0 <= v < i ==> !self.open(v),
                },
            decreases n - i,
        {
            if self.found[i] && !self.closed[i] {
                let distance: u64 = map.get_pathing_distance(i, goal);
                proof {
                    lemma_distance_bound(map, i as int, goal as int);
                }
                let steps: u32 = self.cost[i];
                let better: bool = match best {
                    None => true,
                    Some(_) => estimate_is_less(steps, distance, best_cost, best_distance),
                };
                proof {
                    lemma_estimate_order_rounds(
                        steps as int,
                        distance as nat,
                        best_cost as int,
                        best_distance as nat,
                    );
                }
                if better {
                    best = Some(i);
                    best_cost = steps;
                    best_distance = distance;
                }
            }
            i += 1;
        }
        best
    }

    /// Closes `best` and follows its exits: a cell entered for the first
    /// time, or in fewer steps than before, gets `best` as its parent.
    fn expand(&mut self, map: &GridMap, best: usize, Ghost(start): Ghost<int>)
        requires
            old(self).inv(map, start, -1),
            best < map.cells(),
            old(self).open(best as int),
            forall|way: Seq<usize>| #[trigger]
                is_path(map, way, start, best as int) ==> old(self).cost@[best as int] + 1
                    <= way.len(),
        ensures
            final(self).inv(map, start, -1),
            final(self).closed@ == old(self).closed@.update(best as int, true),
    {
        let ghost n = map.cells();
        proof {
            lemma_count_set_grows(self.closed@, best as int);
            lemma_count_set_bound(self.closed@.update(best as int, true));
        }
        self.closed.set(best, true);
        let exits = map.get_available_exits(best);
        let so_far: u32 = self.cost[best];
        let mut k: usize = 0;
        while k < exits.len()
            invariant
                k <= exits@.len(),
                n == map.cells(),
                best < n,
                self.inv(map, start, best as int),
                old(self).closed@.len() == n,
                self.closed@ == old(self).closed@.update(best as int, true),
                count_set(self.closed@) <= n,
                n <= i32::MAX,
                so_far == self.cost@[best as int],
                so_far + 1 <= count_set(self.closed@),
                forall|j: int|
                    0 <= j < exits@.len() ==> map.linked(best as int, #[trigger] exits@[j].0 as int),
                forall|j: int|
                    0 <= j < k ==> self.found@[(#[trigger] exits@[j]).0 as int]
                        && self.cost@[exits@[j].0 as int] <= so_far + 1,
            decreases exits@.len() - k,
        {
            let next: usize = exits[k].0;
            assert(map.linked(best as int, next as int));
            proof {
                if self.closed@[next as int] {
                    assert(self.closed@[best as int]);
                    let way = self.lemma_found_has_way(map, start, best as int, best as int);
                    let longer = way.push(next);
                    assert forall|i: int| 0 <= i < longer.len() - 1 implies map.linked(
                        #[trigger] longer[i] as int,
                        longer[i + 1] as int,
                    ) by {
                        if i < way.len() - 1 {
                            assert(map.linked(way[i] as int, way[i + 1] as int));
                        }
                    }
                    assert(is_path(map, longer, start, next as int));
                }
            }
            if !self.closed[next] {
                let steps: u32 = so_far + 1;
                if !self.found[next] || steps < self.cost[next] {
                    let ghost before = *self;
                    self.cost.set(next, steps);
                    self.parent.set(next, best);
                    self.found.set(next, true);
                    proof {
                        assert(next != start);
                        assert forall|v: int|
                            0 <= v < n && #[trigger] self.found@[v] && v != start implies {
                            let p = self.parent@[v] as int;
                            &&& 0 <= p < n
                            &&& self.closed@[p]
                            &&& map.linked(p, v)
                            &&& self.cost@[v] == self.cost@[p] + 1
                        } by {
                            if v != next {
                                assert(before.found@[v]);
                                let p = before.parent@[v] as int;
                                assert(before.closed@[p]);
                                assert(p != next);
                                assert(self.parent@[v] == before.parent@[v]);
                                assert(self.cost@[v] == before.cost@[v]);
                                assert(self.cost@[p] == before.cost@[p]);
                            } else {
                                assert(self.parent@[v] == best);
                                assert(self.closed@[best as int]);
                                assert(self.cost@[best as int] == so_far);
                                assert(self.cost@[v] == so_far + 1);
                            }
                        }
                        assert forall|a: int, b: int|
                            0 <= a < n && self.closed@[a] && a != best && #[trigger] map.linked(
                                a,
                                b,
                            ) implies self.found@[b] && self.cost@[b] <= self.cost@[a] + 1 by {
                            assert(before.found@[b]);
                            assert(before.cost@[b] <= before.cost@[a] + 1);
                        }
                        assert forall|v: int, way: Seq<usize>|
                            0 <= v < n && self.closed@[v] && #[trigger] is_path(
                                map,
                                way,
                                start,
                                v,
                            ) implies self.cost@[v] + 1 <= way.len() by {
                            assert(before.cost@[v] + 1 <= way.len());
                        }
                    }
                }
            }
            k += 1;
        }
        proof {
            assert forall|a: int, b: int|
                0 <= a < n && self.closed@[a] && #[trigger] map.linked(
                    a,
                    b,
                ) implies self.found@[b] && self.cost@[b] <= self.cost@[a] + 1 by {
                if a == best {
                    let j = choose|j: int| 0 <= j < exits@.len() && #[trigger] exits@[j].0 == b;
                    assert(self.found@[exits@[j].0 as int]);
                }
            }
        }
    }

    /// The way from the start to `goal`, read off the parents.
    fn trace(&self, map: &GridMap, goal: usize, Ghost(start): Ghost<int>) -> (steps: Vec<usize>)
        requires
            self.inv(map, start, -1),
            goal < map.cells(),
            self.found@[goal as int],
        ensures
            is_path(map, steps@, start, goal as int),
            steps@.len() == self.cost@[goal as int] + 1,
    {
        let ghost n = map.cells();
        proof {
            lemma_count_set_bound(self.closed@);
        }
        let len: usize = self.cost[goal] as usize + 1;
        let mut steps: Vec<usize> = vec![goal; len];
        let mut i: usize = len - 1;
        let mut cell: usize = goal;
        while i > 0
            invariant
                self.inv(map, start, -1),
                n == map.cells(),
                i < len,
                steps@.len() == len,
                cell < n,
                self.found@[cell as int],
                self.cost@[cell as int] == i,
                steps@[i as int] == cell,
                steps@[len - 1] == goal,
                forall|j: int|
                    i <= j < len - 1 ==> map.linked(#[trigger] steps@[j] as int, steps@[j + 1] as int),
            decreases i,
        {
            assert(cell != start);
            let from: usize = self.parent[cell];
            i -= 1;
            steps.set(i, from);
            cell = from;
        }
        assert(cell == start);
        steps
    }

    /// A cell that was found has a way to it of as many steps as its cost.
    proof fn lemma_found_has_way(&self, map: &GridMap, start: int, pending: int, v: int) -> (way:
        Seq<usize>)
        requires
            self.inv(map, start, pending),
            0 <= v < map.cells(),
            self.found@[v],
        ensures
            is_path(map, way, start, v),
            way.len() == self.cost@[v] + 1,
        decreases self.cost@[v],
    {
        if v == start {
            seq![v as usize]
        } else {
            let p = self.parent@[v] as int;
            let way = self.lemma_found_has_way(map, start, pending, p);
            let longer = way.push(v as usize);
            assert forall|i: int| 0 <= i < longer.len() - 1 implies map.linked(
                #[trigger] longer[i] as int,
                longer[i + 1] as int,
            ) by {
                if i < way.len() - 1 {
                    assert(map.linked(way[i] as int, way[i + 1] as int));
                }
            }
            longer
        }
    }

    /// The first cell of a way that is not closed, given that its last is not.
    proof fn lemma_first_unclosed(&self, way: Seq<usize>, from: int) -> (j: int)
        requires
            0 <= from < way.len(),
            forall|i: int| 0 <= i < way.len() ==> 0 <= #[trigger] way[i] < self.closed@.len(),
            forall|i: int| 0 <= i < from ==> self.closed@[#[trigger] way[i] as int],
            !self.closed@[way[way.len() - 1] as int],
        ensures
            from <= j < way.len(),
            !self.closed@[way[j] as int],
            forall|i: int| 0 <= i < j ==> self.closed@[#[trigger] way[i] as int],
        decreases way.len() - from,
    {
        if !self.closed@[way[from] as int] {
            from
        } else {
            self.lemma_first_unclosed(way, from + 1)
        }
    }

    /// An open cell that no open cell ranks below has its least cost: no
    /// way from the start to it takes fewer steps.
    proof fn lemma_least_is_settled(
        &self,
        map: &GridMap,
        start: int,
        goal: int,
        best: int,
        way: Seq<usize>,
    )
        requires
            self.inv(map, start, -1),
            0 <= goal < map.cells(),
            0 <= best < map.cells(),
            self.open(best),
            self.least(map, best, goal),
            is_path(map, way, start, best),
        ensures
            self.cost@[best] + 1 <= way.len(),
    {
        let n = map.cells();
        let last = way.len() - 1;
        assert forall|i: int| 0 <= i < way.len() implies 0 <= #[trigger] way[i] < n by {
            if i < last {
                assert(map.linked(way[i] as int, way[i + 1] as int));
            }
        }
        let j = self.lemma_first_unclosed(way, 0);
        let w = way[j] as int;
        if j > 0 {
            let a = way[j - 1] as int;
            let prefix = way.subrange(0, j);
            assert forall|i: int| 0 <= i < prefix.len() - 1 implies map.linked(
                #[trigger] prefix[i] as int,
                prefix[i + 1] as int,
            ) by {
                assert(map.linked(way[i] as int, way[i + 1] as int));
            }
            assert(is_path(map, prefix, start, a));
            assert(self.closed@[way[j - 1] as int]);
            assert(map.linked(way[j - 1] as int, way[j] as int));
        }
        assert(self.found@[w] && self.cost@[w] <= j);
        assert(self.open(w));
        assert(self.rank(map, best, goal) <= self.rank(map, w, goal));
        lemma_way_covers_steps_apart(map, way, j, last);
        lemma_distance_floor_is_consistent(map, w, best, goal, last - j);
    }

    /// Once no cell is open, every cell on a way from the start is closed.
    proof fn lemma_way_is_closed(&self, map: &GridMap, start: int, steps: Seq<usize>, i: int)
        requires
            self.inv(map, start, -1),
            forall|v: int| 0 <= v < map.cells() ==> !self.open(v),
            steps.len() >= 1,
            steps[0] == start,
            forall|j: int|
                0 <= j < steps.len() - 1 ==> map.linked(#[trigger] steps[j] as int, steps[j + 1] as int),
            0 <= i < steps.len(),
        ensures
            0 <= steps[i] < map.cells(),
            self.closed@[steps[i] as int],
        decreases i,
    {
        if i == 0 {
            assert(!self.open(start));
        } else {
            self.lemma_way_is_closed(map, start, steps, i - 1);
            assert(map.linked(steps[i - 1] as int, steps[i] as int));
            assert(!self.open(steps[i] as int));
        }
    }
}

/// On a map no two cells lie further apart, squared, than `MAX_DISTANCE_SQUARED`.
proof fn lemma_distance_bound(map: &GridMap, a: int, b: int)
    requires
        map.shaped(),
        0 <= a < map.cells(),
        0 <= b < map.cells(),
    ensures
        0 <= map.distance_squared(a, b) <= MAX_DISTANCE_SQUARED,
{
    lemma_position_in_range(map.width as int, map.height as int, a);
    lemma_position_in_range(map.width as int, map.height as int, b);
    let dx = map.column_of(a) - map.column_of(b);
    let dy = map.row_of(a) - map.row_of(b);
    assert(0 <= dx * dx <= 0x3fff_ffff_0000_0001) by (nonlinear_arith)
        requires
            -0x7fff_ffff <= dx <= 0x7fff_ffff,
    ;
    assert(0 <= dy * dy <= 0x3fff_ffff_0000_0001) by (nonlinear_arith)
        requires
            -0x7fff_ffff <= dy <= 0x7fff_ffff,
    ;
}

/// A way from `start` to `goal` over the map's exits, found by A*: of the
/// open cells the search follows the one for which the steps taken and the
/// straight-line distance to the goal together are least. The search
/// succeeds exactly where some way exists.
pub fn find_path(start: usize, goal: usize, map: &GridMap) -> (path: PathResult)
    requires
        map.shaped(),
        start < map.cells(),
        goal < map.cells(),
    ensures
        path.success <==> reachable(map, start as int, goal as int),
        path.success ==> is_path(map, path.steps@, start as int, goal as int),
        path.success ==> path.cost == path.steps@.len() - 1,
        !path.success ==> path.steps@.len() == 0 && path.cost == 0,
        path.success ==> forall|way: Seq<usize>| #[trigger]
            is_path(map, way, start as int, goal as int) ==> path.steps@.len() <= way.len(),
        start == goal ==> path.success && path.steps@ == seq![start] && path.cost == 0,
        start != goal && map.blocked@[goal as int] ==> !path.success,
{
    let ghost n = map.cells();
    proof {
        if start != goal && map.blocked@[goal as int] {
            lemma_blocked_goal_is_unreachable(map, start as int, goal as int);
        }
    }
    let mut search = Search::new(map, start);
    proof {
        lemma_count_set_bound(search.closed@);
    }
    loop
        invariant
            n == map.cells(),
            start < n,
            goal < n,
            search.inv(map, start as int, -1),
            !search.closed@[goal as int],
            count_set(search.closed@) <= n,
            start == goal ==> forall|v: int| 0 <= v < n && search.found@[v] ==> v == start,
        decreases n - count_set(search.closed@),
    {
        match search.pick(map, goal, Ghost(start as int)) {
            None => {
                proof {
                    assert(!search.open(start as int));
                    assert forall|steps: Seq<usize>| !is_path(
                        map,
                        steps,
                        start as int,
                        goal as int,
                    ) by {
                        if is_path(map, steps, start as int, goal as int) {
                            search.lemma_way_is_closed(
                                map,
                                start as int,
                                steps,
                                steps.len() - 1,
                            );
                        }
                    }
                }
                return PathResult { steps: Vec::new(), success: false, cost: 0 };
            },
            Some(best) => {
                proof {
                    assert forall|way: Seq<usize>| #[trigger]
                        is_path(
                            map,
                            way,
                            start as int,
                            best as int,
                        ) implies search.cost@[best as int] + 1 <= way.len() by {
                        search.lemma_least_is_settled(
                            map,
                            start as int,
                            goal as int,
                            best as int,
                            way,
                        );
                    }
                }
                if best == goal {
                    let steps = search.trace(map, goal, Ghost(start as int));
                    let cost: usize = steps.len() - 1;
                    proof {
                        if start == goal {
                            assert(steps@ =~= seq![start]);
                        }
                    }
                    return PathResult { steps: steps, success: true, cost: cost };
                }
                proof {
                    lemma_count_set_grows(search.closed@, best as int);
                    lemma_count_set_bound(search.closed@.update(best as int, true));
                }
                search.expand(map, best, Ghost(start as int));
            },
        }
    }
}

/// A cell that cannot be entered has no way to it from any other cell.
pub proof fn lemma_blocked_goal_is_unreachable(map: &GridMap, start: int, goal: int)
    requires
        map.shaped(),
        0 <= goal < map.cells(),
        map.blocked@[goal],
        start != goal,
    ensures
        !reachable(map, start, goal),
{
    assert forall|steps: Seq<usize>| !is_path(map, steps, start, goal) by {
        if is_path(map, steps, start, goal) {
            let last = steps.len() - 1;
            assert(map.linked(steps[last - 1] as int, steps[last] as int));
        }
    }
}

} // verus!


