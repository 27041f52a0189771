use qwarves::components::{Color, Position, Renderable};
use qwarves::map::{
    apply_ca, count_surrounding, generate_cave, generate_map_new, generate_tile, get_fill_data,
    seed_glyph, seed_map, smooth, GridMap, FLOOR, WALL,
};

fn from_rows(rows: &[&str]) -> GridMap {
    let height = rows.len() as i32;
    let width = rows[0].len() as i32;
    let mut map = GridMap::new(width, height);
    for (y, row) in rows.iter().enumerate() {
        for (x, glyph) in row.chars().enumerate() {
            map.set_terrain(y * width as usize + x, glyph);
        }
    }
    map
}

fn rows_of(map: &GridMap) -> Vec<String> {
    let mut rows = Vec::new();
    for y in 0..map.height as usize {
        let w = map.width as usize;
        rows.push(map.glyph_map[y * w..(y + 1) * w].iter().collect());
    }
    rows
}

fn rim_is_wall(map: &GridMap) -> bool {
    for y in 0..map.height {
        for x in 0..map.width {
            let rim = x == 0 || y == 0 || x == map.width - 1 || y == map.height - 1;
            if rim && map.glyph_map[(y * map.width + x) as usize] != WALL {
                return false;
            }
        }
    }
    true
}

#[test]
fn tile_is_black_and_stands_where_told() {
    let (pos, render, _tile) = generate_tile('#', 3, 9);
    assert_eq!(pos, Position { x: 3, y: 9 });
    assert_eq!(render, Renderable { glyph: '#', color: Color::Black });
}

#[test]
fn seed_glyph_is_wall_up_to_45() {
    assert_eq!(seed_glyph(1, 10, 10, 5, 5), WALL);
    assert_eq!(seed_glyph(45, 10, 10, 5, 5), WALL);
    assert_eq!(seed_glyph(46, 10, 10, 5, 5), FLOOR);
    assert_eq!(seed_glyph(99, 10, 10, 5, 5), FLOOR);
}

#[test]
fn seed_glyph_is_wall_on_the_rim() {
    assert_eq!(seed_glyph(99, 10, 8, 0, 5), WALL);
    assert_eq!(seed_glyph(99, 10, 8, 9, 5), WALL);
    assert_eq!(seed_glyph(99, 10, 8, 5, 0), WALL);
    assert_eq!(seed_glyph(99, 10, 8, 5, 7), WALL);
    assert_eq!(seed_glyph(99, 10, 8, 8, 6), FLOOR);
}

#[test]
fn seed_map_follows_the_draws() {
    let mut draws = vec![99; 25];
    draws[12] = 45;
    draws[7] = 1;
    draws[0] = 99;
    let map = seed_map(5, 5, &draws);
    assert_eq!(rows_of(&map), vec!["#####", "#.#.#", "#.#.#", "#...#", "#####"]);
    assert_eq!(map.blocked[12], true);
    assert_eq!(map.blocked[11], false);
    assert_eq!(map.revealed_map, vec![false; 25]);
    assert_eq!(map.visible_map, vec![false; 25]);
}

#[test]
fn generated_map_has_a_sealed_rim() {
    for _ in 0..20 {
        let map = generate_map_new(12, 9);
        assert!(rim_is_wall(&map));
        assert!(map.glyph_map.iter().all(|g| *g == WALL || *g == FLOOR));
    }
}

#[test]
fn generated_map_is_drawn_by_chance() {
    let map = generate_map_new(40, 40);
    let mut walls = 0;
    let mut floors = 0;
    for y in 1..39 {
        for x in 1..39 {
            if map.glyph_map[y * 40 + x] == WALL {
                walls += 1;
            } else {
                floors += 1;
            }
        }
    }
    assert!(walls > 0);
    assert!(floors > 0);
}

#[test]
fn generated_cave_has_a_sealed_rim() {
    for iterations in 0..8 {
        let map = generate_cave(20, 15, iterations);
        assert_eq!(map.width, 20);
        assert_eq!(map.height, 15);
        assert!(rim_is_wall(&map));
        assert!(map.glyph_map.iter().all(|g| *g == WALL || *g == FLOOR));
        for idx in 0..300 {
            assert_eq!(map.blocked[idx], map.glyph_map[idx] == WALL);
        }
    }
}

#[test]
fn narrow_caves_are_all_wall() {
    for (w, h) in [(1, 1), (2, 2), (2, 7), (7, 2), (1, 9), (2, 1)] {
        let map = generate_cave(w, h, 3);
        assert!(map.glyph_map.iter().all(|g| *g == WALL));
    }
    let map = generate_cave(0, 0, 3);
    assert!(map.glyph_map.is_empty());
    let map = generate_cave(0, 4, 1);
    assert!(map.glyph_map.is_empty());
}

#[test]
fn count_surrounding_leaves_out_the_cell_itself() {
    let map = from_rows(&["###", "###", "###"]);
    assert_eq!(count_surrounding((1, 1), &map), 8);
    let map = from_rows(&["...", ".#.", "..."]);
    assert_eq!(count_surrounding((1, 1), &map), 0);
    assert_eq!(count_surrounding((0, 0), &map), 1);
}

#[test]
fn count_surrounding_leaves_out_what_is_off_the_grid() {
    let map = from_rows(&["###", "###", "###"]);
    assert_eq!(count_surrounding((0, 0), &map), 3);
    assert_eq!(count_surrounding((1, 0), &map), 5);
    assert_eq!(count_surrounding((2, 2), &map), 3);
    assert_eq!(count_surrounding((-1, -1), &map), 1);
    assert_eq!(count_surrounding((3, 1), &map), 3);
    assert_eq!(count_surrounding((5, 5), &map), 0);
    assert_eq!(count_surrounding((i32::MAX, i32::MIN), &map), 0);
}

#[test]
fn fill_data_splits_the_cells_by_the_rule() {
    let map = from_rows(&["#####", "#...#", "#.#.#", "#...#", "#####"]);
    let (fill, empty) = get_fill_data(&map);
    // the lone wall in the middle has no wall around it and is emptied
    assert_eq!(
        fill,
        vec![
            (0, 0), (1, 0), (2, 0), (3, 0), (4, 0),
            (0, 1), (1, 1), (3, 1), (4, 1),
            (0, 2), (4, 2),
            (0, 3), (1, 3), (3, 3), (4, 3),
            (0, 4), (1, 4), (2, 4), (3, 4), (4, 4),
        ]
    );
    assert_eq!(empty, vec![(2, 1), (1, 2), (2, 2), (3, 2), (2, 3)]);
}

#[test]
fn smoothing_thresholds_are_four_and_five() {
    // the centre is a wall with four walls around it: it stays
    let mut map = from_rows(&[".....", ".#.#.", "..#..", ".#.#.", "....."]);
    apply_ca(&mut map);
    assert_eq!(map.glyph_map[12], WALL);
    // with three it goes
    let mut map = from_rows(&[".....", ".#.#.", "..#..", ".#...", "....."]);
    apply_ca(&mut map);
    assert_eq!(map.glyph_map[12], FLOOR);
    // the centre is floor with five walls around it: it fills
    let mut map = from_rows(&[".....", ".###.", ".#.#.", ".....", "....."]);
    apply_ca(&mut map);
    assert_eq!(map.glyph_map[12], WALL);
    // with four it stays floor
    let mut map = from_rows(&[".....", ".###.", ".#...", ".....", "....."]);
    apply_ca(&mut map);
    assert_eq!(map.glyph_map[12], FLOOR);
}

#[test]
fn smoothing_decides_every_cell_from_the_grid_before() {
    let mut map = from_rows(&[
        "#######",
        "#.#.#.#",
        "##.#.##",
        "#.#.#.#",
        "##.#.##",
        "#######",
    ]);
    apply_ca(&mut map);
    assert_eq!(
        rows_of(&map),
        vec!["#######", "#######", "##.#.##", "###.###", "#######", "#######"]
    );
}

#[test]
fn smoothing_turns_unset_cells_into_floor() {
    let mut map = GridMap::new(5, 5);
    apply_ca(&mut map);
    assert_eq!(rows_of(&map), vec!["#####", "#...#", "#...#", "#...#", "#####"]);
    assert!(map.blocked[0]);
    assert!(!map.blocked[12]);
}

#[test]
fn smoothing_leaves_a_stable_grid_as_it_is() {
    let rows = [
        "########",
        "##....##",
        "#......#",
        "#......#",
        "#......#",
        "##....##",
        "########",
    ];
    let mut map = from_rows(&rows);
    apply_ca(&mut map);
    assert_eq!(rows_of(&map), rows.to_vec());
    apply_ca(&mut map);
    assert_eq!(rows_of(&map), rows.to_vec());

    let rows = ["#####", "#####", "#####"];
    let mut map = from_rows(&rows);
    apply_ca(&mut map);
    assert_eq!(rows_of(&map), rows.to_vec());
}

#[test]
fn smoothing_keeps_the_seen_flags() {
    let mut map = from_rows(&["#####", "#...#", "#.#.#", "#...#", "#####"]);
    map.mark_visible(6);
    map.mark_visible(7);
    map.reset_visibility();
    map.mark_visible(8);
    let revealed = map.revealed_map.clone();
    let visible = map.visible_map.clone();
    apply_ca(&mut map);
    assert_eq!(map.revealed_map, revealed);
    assert_eq!(map.visible_map, visible);
}

#[test]
fn smooth_is_that_many_passes() {
    let rows = ["#######", "#.#.#.#", "##.#.##", "#.#.#.#", "##.#.##", "#######"];
    let mut by_hand = from_rows(&rows);
    apply_ca(&mut by_hand);
    apply_ca(&mut by_hand);
    apply_ca(&mut by_hand);
    let mut at_once = from_rows(&rows);
    smooth(&mut at_once, 3);
    assert_eq!(at_once.glyph_map, by_hand.glyph_map);
    let mut untouched = from_rows(&rows);
    smooth(&mut untouched, 0);
    assert_eq!(rows_of(&untouched), rows.to_vec());
}
