use qwarves::components::{Position, Viewshed};
use qwarves::fov::compute_visible;
use qwarves::map::{GridMap, Point, FLOOR, WALL};
use qwarves::systems::VisibilitySystem;

fn open_ground(width: i32, height: i32) -> GridMap {
    let mut map = GridMap::new(width, height);
    for idx in 0..(width * height) as usize {
        map.set_terrain(idx, FLOOR);
    }
    map
}

fn disc(map: &GridMap, cx: i32, cy: i32, range: i32) -> Vec<Point> {
    let mut cells = Vec::new();
    for y in 0..map.height {
        for x in 0..map.width {
            let (dx, dy) = (x - cx, y - cy);
            if dx * dx + dy * dy <= range * range {
                cells.push(Point { x, y });
            }
        }
    }
    cells
}

#[test]
fn range_zero_sees_the_origin_only() {
    let map = open_ground(10, 10);
    let seen = compute_visible(Point { x: 4, y: 7 }, 0, &map);
    assert_eq!(seen, vec![Point { x: 4, y: 7 }]);
    let seen = compute_visible(Point { x: 0, y: 0 }, 0, &map);
    assert_eq!(seen, vec![Point { x: 0, y: 0 }]);
}

#[test]
fn range_zero_from_a_wall_sees_the_wall() {
    let mut map = open_ground(5, 5);
    map.set_terrain(12, WALL);
    assert_eq!(compute_visible(Point { x: 2, y: 2 }, 0, &map), vec![Point { x: 2, y: 2 }]);
}

#[test]
fn origin_off_the_grid_is_not_seen() {
    let map = open_ground(5, 5);
    assert!(compute_visible(Point { x: -1, y: 2 }, 0, &map).is_empty());
    assert!(compute_visible(Point { x: 2, y: 5 }, 0, &map).is_empty());
    assert!(compute_visible(Point { x: i32::MIN, y: i32::MAX }, i32::MAX, &map).is_empty());
}

#[test]
fn negative_range_sees_nothing() {
    let map = open_ground(5, 5);
    assert!(compute_visible(Point { x: 2, y: 2 }, -1, &map).is_empty());
    assert!(compute_visible(Point { x: 2, y: 2 }, i32::MIN, &map).is_empty());
}

#[test]
fn open_ground_is_seen_up_to_the_range() {
    let map = open_ground(20, 20);
    let seen = compute_visible(Point { x: 5, y: 5 }, 3, &map);
    assert_eq!(seen, disc(&map, 5, 5, 3));
    assert_eq!(seen.len(), 29);
    assert!(seen.contains(&Point { x: 8, y: 5 }));
    assert!(seen.contains(&Point { x: 7, y: 7 }));
    assert!(!seen.contains(&Point { x: 8, y: 6 }));
    assert!(!seen.contains(&Point { x: 9, y: 5 }));
}

#[test]
fn what_is_off_the_grid_is_left_out() {
    let map = open_ground(7, 7);
    let seen = compute_visible(Point { x: 5, y: 5 }, 3, &map);
    assert_eq!(seen, disc(&map, 5, 5, 3));
    assert!(seen.iter().all(|p| 0 <= p.x && p.x < 7 && 0 <= p.y && p.y < 7));
    assert!(seen.len() < 29);
}

#[test]
fn huge_range_sees_all_open_ground() {
    let map = open_ground(6, 4);
    let seen = compute_visible(Point { x: 1, y: 2 }, i32::MAX, &map);
    assert_eq!(seen.len(), 24);
}

#[test]
fn a_wall_is_seen_and_hides_what_is_behind_it() {
    let mut map = open_ground(9, 3);
    map.set_terrain(9 + 4, WALL);
    let seen = compute_visible(Point { x: 1, y: 1 }, 8, &map);
    assert!(seen.contains(&Point { x: 3, y: 1 }));
    assert!(seen.contains(&Point { x: 4, y: 1 }));
    for x in 5..9 {
        assert!(!seen.contains(&Point { x, y: 1 }));
    }
}

#[test]
fn nothing_is_seen_through_a_closed_room() {
    let mut map = open_ground(11, 11);
    for i in 3..=7 {
        for (x, y) in [(i, 3), (i, 7), (3, i), (7, i)] {
            map.set_terrain((y * 11 + x) as usize, WALL);
        }
    }
    let seen = compute_visible(Point { x: 5, y: 5 }, 10, &map);
    for p in &seen {
        assert!(3 <= p.x && p.x <= 7 && 3 <= p.y && p.y <= 7);
    }
    assert!(seen.contains(&Point { x: 5, y: 3 }));
    assert!(seen.contains(&Point { x: 4, y: 4 }));
    assert!(seen.contains(&Point { x: 6, y: 6 }));
}

#[test]
fn seen_cells_come_once_and_in_index_order() {
    let mut map = open_ground(12, 12);
    map.set_terrain(5 * 12 + 7, WALL);
    map.set_terrain(3 * 12 + 4, WALL);
    let seen = compute_visible(Point { x: 5, y: 5 }, 5, &map);
    for pair in seen.windows(2) {
        assert!(pair[0].y * 12 + pair[0].x < pair[1].y * 12 + pair[1].x);
    }
}

#[test]
fn sight_is_the_same_on_every_call() {
    let mut map = open_ground(15, 15);
    for idx in [33usize, 48, 77, 100, 101, 130] {
        map.set_terrain(idx, WALL);
    }
    let first = compute_visible(Point { x: 7, y: 7 }, 6, &map);
    let second = compute_visible(Point { x: 7, y: 7 }, 6, &map);
    assert_eq!(first, second);
}

#[test]
fn clean_view_is_not_computed_again() {
    let mut map = open_ground(8, 8);
    let mut viewshed =
        Viewshed { visible_tiles: vec![Point { x: 1, y: 1 }], range: 3, dirty: false };
    let mut system = VisibilitySystem {};
    system.run(&mut map, &mut viewshed, &Position { x: 4, y: 4 }, true);
    assert_eq!(viewshed.visible_tiles, vec![Point { x: 1, y: 1 }]);
    assert!(!viewshed.dirty);
    assert_eq!(map.visible_map, vec![false; 64]);
    assert_eq!(map.revealed_map, vec![false; 64]);
}

#[test]
fn dirty_view_is_computed_and_cleared() {
    let mut map = open_ground(8, 8);
    let mut viewshed = Viewshed { visible_tiles: Vec::new(), range: 2, dirty: true };
    let mut system = VisibilitySystem {};
    system.run(&mut map, &mut viewshed, &Position { x: 4, y: 4 }, false);
    assert_eq!(viewshed.visible_tiles, disc(&map, 4, 4, 2));
    assert!(!viewshed.dirty);
    assert_eq!(viewshed.range, 2);
}

#[test]
fn a_monsters_view_leaves_the_map_flags_alone() {
    let mut map = open_ground(8, 8);
    map.mark_visible(0);
    let mut viewshed = Viewshed { visible_tiles: Vec::new(), range: 2, dirty: true };
    let mut system = VisibilitySystem {};
    system.run(&mut map, &mut viewshed, &Position { x: 4, y: 4 }, false);
    let mut expected = vec![false; 64];
    expected[0] = true;
    assert_eq!(map.visible_map, expected);
    assert_eq!(map.revealed_map, expected);
}

#[test]
fn the_players_view_sets_the_map_flags() {
    let mut map = open_ground(8, 8);
    let mut viewshed = Viewshed { visible_tiles: Vec::new(), range: 1, dirty: true };
    let mut system = VisibilitySystem {};
    system.run(&mut map, &mut viewshed, &Position { x: 2, y: 2 }, true);
    let mut expected = vec![false; 64];
    for idx in [10usize, 17, 18, 19, 26] {
        expected[idx] = true;
    }
    assert_eq!(map.visible_map, expected);
    assert_eq!(map.revealed_map, expected);
}

#[test]
fn revealed_cells_stay_revealed() {
    let mut map = open_ground(8, 8);
    let mut system = VisibilitySystem {};
    let mut player = Viewshed { visible_tiles: Vec::new(), range: 1, dirty: true };
    system.run(&mut map, &mut player, &Position { x: 2, y: 2 }, true);
    player.dirty = true;
    system.run(&mut map, &mut player, &Position { x: 5, y: 5 }, true);
    let mut monster = Viewshed { visible_tiles: Vec::new(), range: 4, dirty: true };
    system.run(&mut map, &mut monster, &Position { x: 6, y: 1 }, false);

    let mut visible = vec![false; 64];
    for idx in [37usize, 44, 45, 46, 53] {
        visible[idx] = true;
    }
    let mut revealed = visible.clone();
    for idx in [10usize, 17, 18, 19, 26] {
        revealed[idx] = true;
    }
    assert_eq!(map.visible_map, visible);
    assert_eq!(map.revealed_map, revealed);
}
