use qwarves::components::{PlayerPosition, Position, Viewshed};
use qwarves::map::{GridMap, FLOOR, WALL};
use qwarves::estimate::estimate_is_less;
use qwarves::pathfinding::{find_path, PathResult};
use qwarves::systems::MonsterAI;

fn open_ground(width: i32, height: i32) -> GridMap {
    let mut map = GridMap::new(width, height);
    for idx in 0..(width * height) as usize {
        map.set_terrain(idx, FLOOR);
    }
    map
}

/// A 10x10 grid of floor with a wall down column 5, open at (5, 3).
fn gated() -> GridMap {
    let mut map = open_ground(10, 10);
    for y in 0..10 {
        if y != 3 {
            map.set_terrain(y * 10 + 5, WALL);
        }
    }
    map
}

fn assert_is_way(map: &GridMap, path: &PathResult, start: usize, goal: usize) {
    assert!(path.success);
    assert_eq!(path.steps[0], start);
    assert_eq!(*path.steps.last().unwrap(), goal);
    assert_eq!(path.cost, path.steps.len() - 1);
    let w = map.width as usize;
    for pair in path.steps.windows(2) {
        let (ax, ay) = (pair[0] % w, pair[0] / w);
        let (bx, by) = (pair[1] % w, pair[1] / w);
        assert_eq!(ax.abs_diff(bx) + ay.abs_diff(by), 1);
        assert!(!map.blocked[pair[1]]);
    }
}

#[test]
fn start_equal_to_goal_is_a_way_of_one_cell() {
    let map = open_ground(10, 10);
    let path = find_path(37, 37, &map);
    assert!(path.success);
    assert_eq!(path.steps, vec![37]);
    assert_eq!(path.cost, 0);
}

#[test]
fn start_equal_to_goal_on_a_wall_is_still_a_way() {
    let mut map = open_ground(4, 4);
    map.set_terrain(5, WALL);
    let path = find_path(5, 5, &map);
    assert!(path.success);
    assert_eq!(path.steps, vec![5]);
    assert_eq!(path.cost, 0);
}

#[test]
fn no_way_leads_onto_a_wall() {
    let mut map = open_ground(10, 10);
    map.set_terrain(99, WALL);
    let path = find_path(0, 99, &map);
    assert!(!path.success);
    assert!(path.steps.is_empty());
    assert_eq!(path.cost, 0);
}

#[test]
fn no_way_leads_out_of_a_closed_room() {
    let mut map = open_ground(7, 7);
    for i in 2..=4 {
        for (x, y) in [(i, 2), (i, 4), (2, i), (4, i)] {
            map.set_terrain((y * 7 + x) as usize, WALL);
        }
    }
    map.set_terrain(3 * 7 + 3, FLOOR);
    assert!(!find_path(24, 0, &map).success);
    assert!(!find_path(0, 24, &map).success);
}

#[test]
fn way_through_the_gap() {
    let map = gated();
    let path = find_path(0, 99, &map);
    assert_is_way(&map, &path, 0, 99);
    assert!(path.steps.contains(&35));
}

#[test]
fn way_through_the_gap_is_a_shortest_one() {
    let map = gated();
    let path = find_path(0, 99, &map);
    assert_eq!(path.cost, 18);
    assert_eq!(path.steps.len(), 19);
    let back = find_path(99, 0, &map);
    assert_is_way(&map, &back, 99, 0);
    assert_eq!(back.cost, 18);
    let detour = find_path(4 * 10 + 4, 4 * 10 + 6, &map);
    assert_is_way(&map, &detour, 44, 46);
    assert_eq!(detour.cost, 4);
}

#[test]
fn way_over_open_ground_is_a_shortest_one() {
    let map = open_ground(12, 9);
    for (start, goal, cost) in [(0usize, 107usize, 19usize), (13, 14, 1), (5, 101, 8), (60, 49, 2), (0, 11, 11)]
    {
        let path = find_path(start, goal, &map);
        assert_is_way(&map, &path, start, goal);
        assert_eq!(path.cost, cost);
    }
}

#[test]
fn way_out_of_a_wall_starts_on_the_wall() {
    let mut map = open_ground(5, 5);
    map.set_terrain(12, WALL);
    let path = find_path(12, 14, &map);
    assert_is_way(&map, &path, 12, 14);
    assert_eq!(path.steps, vec![12, 13, 14]);
}

#[test]
fn search_is_the_same_on_every_call() {
    let map = gated();
    let first = find_path(90, 9, &map);
    let second = find_path(90, 9, &map);
    assert_eq!(first.steps, second.steps);
    assert_eq!(first.cost, second.cost);
}

#[test]
fn estimates_compare_as_steps_plus_root() {
    // 3 + sqrt(16) = 7 against 2 + sqrt(25) = 7
    assert!(!estimate_is_less(3, 16, 2, 25));
    assert!(!estimate_is_less(2, 25, 3, 16));
    // 3 + sqrt(16) = 7 against 2 + sqrt(26) > 7
    assert!(estimate_is_less(3, 16, 2, 26));
    assert!(!estimate_is_less(2, 26, 3, 16));
    // 1 + sqrt(2) = 2.414 against 0 + sqrt(5) = 2.236
    assert!(estimate_is_less(0, 5, 1, 2));
    assert!(!estimate_is_less(1, 2, 0, 5));
    // 1 + sqrt(2) = 2.414 against 0 + sqrt(6) = 2.449
    assert!(estimate_is_less(1, 2, 0, 6));
    assert!(!estimate_is_less(0, 6, 1, 2));
    assert!(estimate_is_less(0, 0, 0, 1));
    assert!(!estimate_is_less(0, 0, 0, 0));
    assert!(estimate_is_less(0, 0, 1, 0));
    assert!(!estimate_is_less(1, 0, 0, 0));
}

#[test]
fn estimates_compare_at_the_limits() {
    let far = 0x7fff_fffe_0000_0002u64;
    let many = i32::MAX as u32;
    assert!(estimate_is_less(0, 0, many, far));
    assert!(!estimate_is_less(many, far, 0, 0));
    assert!(!estimate_is_less(many, far, many, far));
    assert!(estimate_is_less(0, far, many, far));
    assert!(estimate_is_less(many, far - 1, many, far));
    assert!(estimate_is_less(many, 0, 0, far));
}

#[test]
fn monster_takes_the_first_step_of_the_way() {
    let map = gated();
    let mut ai = MonsterAI {};
    let mut pos = Position { x: 4, y: 3 };
    let mut viewshed = Viewshed { visible_tiles: Vec::new(), range: 8, dirty: false };
    ai.run(&map, &PlayerPosition { x: 9, y: 3 }, &mut viewshed, &mut pos);
    assert_eq!(pos, Position { x: 5, y: 3 });
    assert!(viewshed.dirty);
}

#[test]
fn monster_reaches_the_player_one_step_a_tick() {
    let map = gated();
    let mut ai = MonsterAI {};
    let player = PlayerPosition { x: 9, y: 9 };
    let mut pos = Position { x: 0, y: 0 };
    let mut viewshed = Viewshed { visible_tiles: Vec::new(), range: 8, dirty: false };
    let mut passed_gap = false;
    for _ in 0..18 {
        assert!(pos.x != player.x || pos.y != player.y);
        let before = pos;
        ai.run(&map, &player, &mut viewshed, &mut pos);
        assert_eq!((pos.x - before.x).abs() + (pos.y - before.y).abs(), 1);
        passed_gap = passed_gap || pos == Position { x: 5, y: 3 };
    }
    assert_eq!(pos, Position { x: 9, y: 9 });
    assert!(passed_gap);
}

#[test]
fn monster_on_the_players_cell_stays() {
    let map = open_ground(6, 6);
    let mut ai = MonsterAI {};
    let mut pos = Position { x: 2, y: 2 };
    let mut viewshed = Viewshed { visible_tiles: Vec::new(), range: 8, dirty: false };
    ai.run(&map, &PlayerPosition { x: 2, y: 2 }, &mut viewshed, &mut pos);
    assert_eq!(pos, Position { x: 2, y: 2 });
    assert!(!viewshed.dirty);
}

#[test]
fn monster_without_a_way_stays() {
    let mut map = open_ground(6, 6);
    map.set_terrain(35, WALL);
    let mut ai = MonsterAI {};
    let mut pos = Position { x: 2, y: 2 };
    let mut viewshed = Viewshed { visible_tiles: Vec::new(), range: 8, dirty: false };
    ai.run(&map, &PlayerPosition { x: 5, y: 5 }, &mut viewshed, &mut pos);
    assert_eq!(pos, Position { x: 2, y: 2 });
    assert!(!viewshed.dirty);
}

#[test]
fn follow_takes_the_second_cell() {
    let map = open_ground(6, 6);
    let mut pos = Position { x: 0, y: 0 };
    let mut viewshed = Viewshed { visible_tiles: Vec::new(), range: 8, dirty: false };
    let path = PathResult { steps: vec![0, 6, 12], success: true, cost: 2 };
    MonsterAI::follow(&path, &map, &mut pos, &mut viewshed);
    assert_eq!(pos, Position { x: 0, y: 1 });
    assert!(viewshed.dirty);

    let mut pos = Position { x: 3, y: 3 };
    let mut viewshed = Viewshed { visible_tiles: Vec::new(), range: 8, dirty: false };
    let failed = PathResult { steps: vec![0, 6, 12], success: false, cost: 0 };
    MonsterAI::follow(&failed, &map, &mut pos, &mut viewshed);
    assert_eq!(pos, Position { x: 3, y: 3 });
    assert!(!viewshed.dirty);
    let single = PathResult { steps: vec![21], success: true, cost: 0 };
    MonsterAI::follow(&single, &map, &mut pos, &mut viewshed);
    assert_eq!(pos, Position { x: 3, y: 3 });
    assert!(!viewshed.dirty);
}
