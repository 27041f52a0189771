use qwarves::map::{GridMap, Point, FLOOR, UNSET, WALL};

fn open_map(width: i32, height: i32) -> GridMap {
    let mut map = GridMap::new(width, height);
    for idx in 0..(width * height) as usize {
        map.set_terrain(idx, FLOOR);
    }
    map
}

#[test]
fn new_map_is_unset_and_unseen() {
    let map = GridMap::new(4, 3);
    assert_eq!(map.width, 4);
    assert_eq!(map.height, 3);
    assert_eq!(map.glyph_map, vec![UNSET; 12]);
    assert_eq!(map.blocked, vec![false; 12]);
    assert_eq!(map.revealed_map, vec![false; 12]);
    assert_eq!(map.visible_map, vec![false; 12]);
}

#[test]
fn empty_map_has_no_cells() {
    let map = GridMap::new(0, 5);
    assert!(map.glyph_map.is_empty());
    assert!(!map.is_exit_valid(0, 0));
}

#[test]
fn index_is_row_times_width_plus_column() {
    let map = GridMap::new(7, 4);
    assert_eq!(map.point2d_to_index(Point { x: 0, y: 0 }), 0);
    assert_eq!(map.point2d_to_index(Point { x: 6, y: 0 }), 6);
    assert_eq!(map.point2d_to_index(Point { x: 0, y: 1 }), 7);
    assert_eq!(map.point2d_to_index(Point { x: 3, y: 2 }), 17);
    assert_eq!(map.point2d_to_index(Point { x: 6, y: 3 }), 27);
}

#[test]
fn index_and_position_round_trip() {
    let map = GridMap::new(7, 4);
    for idx in 0..28usize {
        let p = map.index_to_point2d(idx);
        assert!(0 <= p.x && p.x < 7 && 0 <= p.y && p.y < 4);
        assert_eq!(map.point2d_to_index(p), idx);
    }
    for y in 0..4 {
        for x in 0..7 {
            let idx = map.point2d_to_index(Point { x, y });
            assert_eq!(map.index_to_point2d(idx), Point { x, y });
        }
    }
}

#[test]
fn dimensions_are_width_and_height() {
    let map = GridMap::new(7, 4);
    assert_eq!(map.dimensions(), Point { x: 7, y: 4 });
}

#[test]
fn set_terrain_moves_glyph_and_blocked_together() {
    let mut map = open_map(3, 3);
    map.set_terrain(4, WALL);
    assert_eq!(map.glyph_map[4], WALL);
    assert!(map.blocked[4]);
    assert!(map.is_opaque(4));
    map.set_terrain(4, FLOOR);
    assert_eq!(map.glyph_map[4], FLOOR);
    assert!(!map.blocked[4]);
    assert!(!map.is_opaque(4));
    for idx in [0usize, 1, 2, 3, 5, 6, 7, 8] {
        assert_eq!(map.glyph_map[idx], FLOOR);
        assert!(!map.blocked[idx]);
    }
}

#[test]
fn populate_blocked_follows_the_glyphs() {
    let mut map = GridMap::new(3, 2);
    map.glyph_map = vec!['#', '.', '#', '?', '@', '#'];
    map.blocked = vec![false, true, false, true, true, false];
    map.populate_blocked();
    assert_eq!(map.blocked, vec![true, false, true, false, false, true]);
    assert_eq!(map.glyph_map, vec!['#', '.', '#', '?', '@', '#']);
}

#[test]
fn walkable_means_in_bounds_and_not_blocked() {
    let mut map = open_map(3, 3);
    map.set_terrain(4, WALL);
    assert!(map.is_exit_valid(0, 0));
    assert!(map.is_exit_valid(2, 2));
    assert!(map.is_exit_valid(2, 0));
    assert!(!map.is_exit_valid(1, 1));
    assert!(!map.is_exit_valid(-1, 0));
    assert!(!map.is_exit_valid(0, -1));
    assert!(!map.is_exit_valid(3, 0));
    assert!(!map.is_exit_valid(0, 3));
    assert!(!map.is_exit_valid(i32::MAX, i32::MIN));
}

#[test]
fn exits_are_left_right_up_down_at_cost_one() {
    let map = open_map(3, 3);
    assert_eq!(map.get_available_exits(4), vec![(3, 1), (5, 1), (1, 1), (7, 1)]);
    assert_eq!(map.get_available_exits(0), vec![(1, 1), (3, 1)]);
    assert_eq!(map.get_available_exits(8), vec![(7, 1), (5, 1)]);
    assert_eq!(map.get_available_exits(2), vec![(1, 1), (5, 1)]);
}

#[test]
fn exits_leave_out_blocked_cells() {
    let mut map = open_map(3, 3);
    map.set_terrain(3, WALL);
    map.set_terrain(7, WALL);
    assert_eq!(map.get_available_exits(4), vec![(5, 1), (1, 1)]);
    // a blocked cell still has exits of its own
    assert_eq!(map.get_available_exits(3), vec![(4, 1), (0, 1), (6, 1)]);
}

#[test]
fn single_cell_has_no_exits() {
    let map = open_map(1, 1);
    assert!(map.get_available_exits(0).is_empty());
}

#[test]
fn pathing_distance_is_the_square_of_the_straight_line() {
    let map = open_map(10, 10);
    assert_eq!(map.get_pathing_distance(0, 0), 0);
    assert_eq!(map.get_pathing_distance(0, 9), 81);
    assert_eq!(map.get_pathing_distance(0, 99), 162);
    assert_eq!(map.get_pathing_distance(99, 0), 162);
    // (3, 4) to (0, 0)
    assert_eq!(map.get_pathing_distance(43, 0), 25);
}

#[test]
fn mark_visible_reveals_for_good() {
    let mut map = open_map(3, 3);
    map.mark_visible(4);
    assert!(map.visible_map[4]);
    assert!(map.revealed_map[4]);
    map.reset_visibility();
    assert_eq!(map.visible_map, vec![false; 9]);
    assert!(map.revealed_map[4]);
    assert_eq!(map.revealed_map.iter().filter(|r| **r).count(), 1);
}
