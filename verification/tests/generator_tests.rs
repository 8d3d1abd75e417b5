use std::collections::HashSet;

use dungeon_core::connect::build_graph;
use dungeon_core::dungeon::Dungeon;
use dungeon_core::dungeon::Room;
use dungeon_core::dungeon::TileType;
use dungeon_core::generator::generate;
use dungeon_core::generator::generate_default;
use dungeon_core::generator::place_rooms;
use dungeon_core::generator::DungeonParams;
use dungeon_core::rng::SeededRng;

fn small_params() -> DungeonParams {
    DungeonParams {
        room_count: 5,
        room_size_min: 3,
        room_size_max: 6,
        hall_width_min: 1,
        hall_width_max: 1,
        hall_length_min: 2,
        hall_length_max: 6,
        room_monsters_max: 3,
        hall_monsters_max: 1,
        hall_chance_permille: 250,
        map_width: 60,
        map_height: 60,
    }
}

fn tile_summary(d: &Dungeon) -> Vec<(isize, isize, TileType, bool)> {
    d.get_tile_vector().iter().map(|t| (t.x, t.y, t.t, t.e.is_some())).collect()
}

#[test]
fn same_seed_gives_identical_dungeons() {
    let seed = [7u8; 32];
    let params = small_params();
    let a = generate(seed, &params).expect("generation succeeds");
    let b = generate(seed, &params).expect("generation succeeds");
    assert_eq!(a.width(), b.width());
    assert_eq!(a.height(), b.height());
    assert_eq!(a.start_coords(), b.start_coords());
    assert_eq!(a.end_coords(), b.end_coords());
    assert_eq!(a.path_length(), b.path_length());
    assert_eq!(tile_summary(&a), tile_summary(&b));
}

#[test]
fn different_seeds_give_different_dungeons() {
    let params = small_params();
    let a = generate([1u8; 32], &params).expect("generation succeeds");
    let b = generate([2u8; 32], &params).expect("generation succeeds");
    // not a guarantee in principle, but a sanity check that the seed is used
    assert_ne!(tile_summary(&a), tile_summary(&b));
}

#[test]
fn every_passable_tile_is_reachable_from_the_entrance() {
    let d = generate([3u8; 32], &small_params()).expect("generation succeeds");
    let g = build_graph(&d);
    // flood over the graph from the entrance
    let start = d.start_coords();
    let mut seen: HashSet<(isize, isize)> = HashSet::new();
    let mut stack = vec![start];
    seen.insert(start);
    while let Some((x, y)) = stack.pop() {
        let node = g.find_node_at(x, y).expect("flooded coordinates are nodes");
        for nb in g.get_neighbors(&node).expect("node exists") {
            let c = (nb.get_x(), nb.get_y());
            if seen.insert(c) {
                stack.push(c);
            }
        }
    }
    for y in 0..d.height() {
        for x in 0..d.width() {
            let t = d.get_tile_type(x, y).unwrap();
            if t != TileType::Wall {
                assert!(seen.contains(&(x, y)), "passable tile ({x},{y}) unreachable");
            } else {
                assert!(g.find_node_at(x, y).is_none(), "wall tile ({x},{y}) became a node");
            }
        }
    }
}

#[test]
fn placement_meets_the_requested_room_count() {
    let params = small_params();
    let mut rng = SeededRng::from_seed([9u8; 32]);
    let mut d = Dungeon::empty(params.map_width, params.map_height);
    let layout = place_rooms(&mut rng, &params, &mut d).expect("placement succeeds");
    let non_hall = layout.rooms.iter().filter(|r| !r.hall).count();
    assert_eq!(non_hall as isize, params.room_count);
    assert!(layout.rooms.len() >= non_hall);
}

#[test]
fn placed_rooms_never_overlap_even_buffered() {
    let params = small_params();
    let mut rng = SeededRng::from_seed([11u8; 32]);
    let mut d = Dungeon::empty(params.map_width, params.map_height);
    let layout = place_rooms(&mut rng, &params, &mut d).expect("placement succeeds");
    let rooms: &Vec<Room> = &layout.rooms;
    for i in 0..rooms.len() {
        for j in 0..rooms.len() {
            if i == j {
                continue;
            }
            let a = rooms[i];
            let b = rooms[j];
            let separated = a.x + a.w + 1 <= b.x || b.x + b.w + 1 <= a.x || a.y + a.h + 1 <= b.y
                || b.y + b.h + 1 <= a.y;
            assert!(separated, "rooms {i} and {j} touch or overlap");
        }
    }
}

#[test]
fn stairs_are_distinct_and_stamped() {
    let d = generate([5u8; 32], &small_params()).expect("generation succeeds");
    let (sx, sy) = d.start_coords();
    let (ex, ey) = d.end_coords();
    assert_ne!((sx, sy), (ex, ey));
    assert_eq!(d.get_tile_type(sx, sy), Some(TileType::StairsUp));
    assert_eq!(d.get_tile_type(ex, ey), Some(TileType::StairsDown));
    assert!(d.path_length() >= 1);
}

#[test]
fn exactly_one_stairs_pair_is_stamped() {
    let d = generate([19u8; 32], &small_params()).expect("generation succeeds");
    let ups = d.get_tile_vector().iter().filter(|t| t.t == TileType::StairsUp).count();
    let downs = d.get_tile_vector().iter().filter(|t| t.t == TileType::StairsDown).count();
    assert_eq!(ups, 1);
    assert_eq!(downs, 1);
}

#[test]
fn default_parameters_generate() {
    let d = generate_default([0u8; 32]).expect("generation succeeds");
    assert_eq!(d.width(), 250);
    assert_eq!(d.height(), 250);
    assert_ne!(d.start_coords(), d.end_coords());
}

#[test]
fn border_tiles_stay_wall() {
    let d = generate([29u8; 32], &small_params()).expect("generation succeeds");
    let (w, h) = (d.width(), d.height());
    for x in 0..w {
        assert_eq!(d.get_tile_type(x, 0), Some(TileType::Wall));
        assert_eq!(d.get_tile_type(x, h - 1), Some(TileType::Wall));
    }
    for y in 0..h {
        assert_eq!(d.get_tile_type(0, y), Some(TileType::Wall));
        assert_eq!(d.get_tile_type(w - 1, y), Some(TileType::Wall));
    }
}

#[test]
fn monsters_sit_on_passable_tiles() {
    let d = generate([13u8; 32], &small_params()).expect("generation succeeds");
    for t in d.get_tile_vector() {
        if t.e.is_some() {
            assert_ne!(t.t, TileType::Wall, "a monster stands in a wall at ({}, {})", t.x, t.y);
        }
    }
}

#[test]
fn shrink_trims_wall_borders() {
    // a 7x7 all-wall grid with a 2x1 floor strip at (3,3) shrinks down to
    // exactly that strip: every all-wall border line is stripped
    let mut d = Dungeon::empty(7, 7);
    let room = Room { x: 3, y: 3, w: 2, h: 1, hall: false };
    assert!(d.fill_room(&room, TileType::Floor));
    d.shrink();
    assert_eq!(d.width(), 2);
    assert_eq!(d.height(), 1);
    assert_eq!(d.get_tile_type(0, 0), Some(TileType::Floor));
    assert_eq!(d.get_tile_type(1, 0), Some(TileType::Floor));
    for (i, t) in d.get_tile_vector().iter().enumerate() {
        let x = (i % 2) as isize;
        assert_eq!((t.x, t.y), (x, 0), "coordinates re-stamped");
    }
}

#[test]
fn shrink_of_an_all_wall_grid_is_empty() {
    let mut d = Dungeon::empty(5, 4);
    d.shrink();
    assert_eq!(d.width(), 0);
    assert_eq!(d.height(), 0);
}

#[test]
fn shrink_is_idempotent() {
    let mut d = generate([23u8; 32], &small_params()).expect("generation succeeds");
    d.shrink();
    let once = tile_summary(&d);
    let (w1, h1) = (d.width(), d.height());
    d.shrink();
    assert_eq!((d.width(), d.height()), (w1, h1));
    assert_eq!(tile_summary(&d), once);
}

#[test]
fn shrink_rederives_the_stairs() {
    let mut d = generate([17u8; 32], &small_params()).expect("generation succeeds");
    let before_w = d.width();
    let before_h = d.height();
    d.shrink();
    assert!(d.width() <= before_w);
    assert!(d.height() <= before_h);
    let (sx, sy) = d.start_coords();
    let (ex, ey) = d.end_coords();
    assert_eq!(d.get_tile_type(sx, sy), Some(TileType::StairsUp));
    assert_eq!(d.get_tile_type(ex, ey), Some(TileType::StairsDown));
}

#[test]
fn invalid_footprints_are_rejected() {
    let mut d = Dungeon::empty(10, 10);
    // touching the border: rejected
    assert!(!d.fill_room(&Room { x: 0, y: 3, w: 2, h: 2, hall: false }, TileType::Floor));
    // inside: accepted
    assert!(d.fill_room(&Room { x: 2, y: 2, w: 2, h: 2, hall: false }, TileType::Floor));
    // overlapping the carved room's buffer: rejected
    assert!(!d.fill_room(&Room { x: 4, y: 2, w: 2, h: 2, hall: false }, TileType::Floor));
    // one wall tile apart: accepted
    assert!(d.fill_room(&Room { x: 6, y: 2, w: 2, h: 2, hall: false }, TileType::Floor));
}
