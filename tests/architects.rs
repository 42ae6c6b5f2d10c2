use bracket_lib::prelude::RandomNumberGenerator;
use dungeon_crawler::automata::{tile_from_roll, CellularAutomataArchitect};
use dungeon_crawler::builder::{count_floor, BuildError};
use dungeon_crawler::distance::distance_field;
use dungeon_crawler::drunkard::{stagger_step, DrunkardsWalkArchitect, PRUNE_CUTOFF};
use dungeon_crawler::grid::{Grid, Point, TileType};
use dungeon_crawler::rooms::{carve_room, Rect, RoomArchitect, NUM_ROOMS};

fn grid_from(rows: &[&str]) -> Grid {
    let height = rows.len();
    let width = rows[0].len();
    let mut g = Grid::new(width, height);
    for (y, row) in rows.iter().enumerate() {
        for (x, c) in row.chars().enumerate() {
            let i = g.cell_index(x, y);
            g.tiles[i] = if c == '#' { TileType::Wall } else { TileType::Floor };
        }
    }
    g
}

#[test]
fn noise_roll_threshold() {
    assert_eq!(tile_from_roll(55), TileType::Wall);
    assert_eq!(tile_from_roll(56), TileType::Floor);
    assert_eq!(tile_from_roll(0), TileType::Wall);
    assert_eq!(tile_from_roll(99), TileType::Floor);
}

#[test]
fn neighbour_count_of_interior_cell() {
    let g = grid_from(&[
        "#.#",
        "...",
        "###",
    ]);
    let a = CellularAutomataArchitect {};
    assert_eq!(a.count_neighbours(1, 1, &g), 5);
}

#[test]
fn smoothing_pass_follows_the_rule() {
    let mut g = grid_from(&[
        "#####",
        "#...#",
        "#.#.#",
        "#...#",
        "#####",
    ]);
    let mut a = CellularAutomataArchitect {};
    a.iteration(&mut g);
    // centre sees no walls and becomes a wall; the corners of the ring see five walls
    assert_eq!(g.tiles[g.cell_index(2, 2)], TileType::Wall);
    assert_eq!(g.tiles[g.cell_index(1, 1)], TileType::Wall);
    assert_eq!(g.tiles[g.cell_index(2, 1)], TileType::Floor);
    assert_eq!(g.tiles[g.cell_index(0, 0)], TileType::Wall);
}

#[test]
fn start_is_floor_nearest_centre() {
    let g = grid_from(&[
        ".....",
        "#####",
        "##.##",
        "#####",
        "....#",
    ]);
    let a = CellularAutomataArchitect {};
    assert_eq!(a.find_start(&g), Some(Point::new(2, 2)));
    let mut walls = Grid::new(3, 3);
    walls.fill(TileType::Wall);
    assert_eq!(a.find_start(&walls), None);
}

#[test]
fn start_ties_go_to_scan_order() {
    let g = grid_from(&[
        "#####",
        "#.#.#",
        "#####",
    ]);
    let a = CellularAutomataArchitect {};
    assert_eq!(a.find_start(&g), Some(Point::new(1, 1)));
}

#[test]
fn automata_stability_after_one_more_pass() {
    let mut stable = 0usize;
    let mut total = 0usize;
    for seed in 1..6u64 {
        let mut rng = RandomNumberGenerator::seeded(seed);
        let mut a = CellularAutomataArchitect {};
        let layout = match a.new(&mut rng, 80, 50) {
            Ok(l) => l,
            Err(e) => panic!("generation failed: {:?}", e),
        };
        let mut again = Grid { width: 80, height: 50, tiles: layout.map.tiles.clone() };
        a.iteration(&mut again);
        for y in 1..49 {
            for x in 1..79 {
                let i = again.cell_index(x, y);
                total += 1;
                if again.tiles[i] == layout.map.tiles[i] {
                    stable += 1;
                }
            }
        }
    }
    let rate = stable as f64 / total as f64;
    println!("interior tiles unchanged by one more pass: {:.4}", rate);
    assert!(rate > 0.5);
}

#[test]
fn stagger_steps_in_four_directions() {
    let p = Point::new(5, 5);
    assert_eq!(stagger_step(p, 0), Point::new(4, 5));
    assert_eq!(stagger_step(p, 1), Point::new(6, 5));
    assert_eq!(stagger_step(p, 2), Point::new(5, 4));
    assert_eq!(stagger_step(p, 3), Point::new(5, 6));
}

#[test]
fn drunkard_only_carves() {
    let mut g = Grid::new(20, 20);
    g.fill(TileType::Wall);
    let mut rng = RandomNumberGenerator::seeded(3);
    let mut a = DrunkardsWalkArchitect {};
    let walk = a.drunkard(&Point::new(10, 10), &mut rng, &mut g);
    assert_eq!(g.tiles[g.cell_index(10, 10)], TileType::Floor);
    assert!(count_floor(&g) >= 1);
    assert!(count_floor(&g) <= 401);
    assert_eq!(walk[0], Point::new(10, 10));
    assert!(walk.len() <= 401);
    for w in walk.windows(2) {
        assert_eq!((w[0].x - w[1].x).abs() + (w[0].y - w[1].y).abs(), 1);
    }
    for (i, t) in g.tiles.iter().enumerate() {
        let on = walk.iter().any(|p| g.point2d_to_index(*p) == i);
        assert_eq!(*t == TileType::Floor, on);
    }
}

#[test]
fn single_tile_walk_succeeds() {
    let mut rng = RandomNumberGenerator::seeded(8);
    let mut a = DrunkardsWalkArchitect {};
    let layout = a.new(&mut rng, 1, 1).unwrap();
    assert_eq!(layout.player_start, Point::new(0, 0));
    assert_eq!(layout.map.tiles[0], TileType::Floor);
}

#[test]
fn rooms_leave_border_walls() {
    let mut rng = RandomNumberGenerator::seeded(31);
    let mut a = RoomArchitect {};
    let layout = a.new(&mut rng, 40, 30).unwrap();
    for x in 0..40usize {
        assert_eq!(layout.map.tiles[layout.map.cell_index(x, 0)], TileType::Wall);
        assert_eq!(layout.map.tiles[layout.map.cell_index(x, 29)], TileType::Wall);
    }
    for y in 0..30usize {
        assert_eq!(layout.map.tiles[layout.map.cell_index(0, y)], TileType::Wall);
        assert_eq!(layout.map.tiles[layout.map.cell_index(39, y)], TileType::Wall);
    }
    for r in layout.rooms.iter() {
        assert!(r.width >= 1 && r.width <= 10 && r.height >= 1 && r.height <= 10);
    }
}

#[test]
fn drunkard_density_and_connectivity() {
    for seed in [7u64, 11, 42] {
        let mut rng = RandomNumberGenerator::seeded(seed);
        let mut a = DrunkardsWalkArchitect {};
        let layout = a.new(&mut rng, 80, 50).unwrap();
        assert!(count_floor(&layout.map) >= 80 * 50 / 3);
        assert_eq!(layout.player_start, Point::new(40, 25));
        let c = layout.map.point2d_to_index(layout.player_start);
        let field = distance_field(&layout.map, &vec![c], PRUNE_CUTOFF);
        for (i, t) in layout.map.tiles.iter().enumerate() {
            if *t == TileType::Floor {
                assert!(field[i].is_some());
            }
        }
    }
}

#[test]
fn carve_room_sets_floor() {
    let mut g = Grid::new(10, 10);
    g.fill(TileType::Wall);
    carve_room(&mut g, &Rect::with_size(2, 3, 3, 2));
    assert_eq!(count_floor(&g), 6);
    assert_eq!(g.tiles[g.cell_index(4, 4)], TileType::Floor);
    assert_eq!(g.tiles[g.cell_index(5, 4)], TileType::Wall);
    assert_eq!(Rect::with_size(2, 3, 3, 2).center(), Point::new(3, 4));
}

#[test]
fn rooms_centres_are_floor_and_connected() {
    for seed in [1u64, 2, 99] {
        let mut rng = RandomNumberGenerator::seeded(seed);
        let mut a = RoomArchitect {};
        let layout = a.new(&mut rng, 80, 50).unwrap();
        assert_eq!(layout.rooms.len(), NUM_ROOMS);
        assert_eq!(layout.player_start, layout.rooms[0].center());
        assert_eq!(layout.spawn_candidates.len(), NUM_ROOMS - 1);
        let first = layout.map.point2d_to_index(layout.player_start);
        let field = distance_field(&layout.map, &vec![first], 4000);
        for r in layout.rooms.iter() {
            let c = r.center();
            assert_eq!(layout.map.tile_at(c), Ok(TileType::Floor));
            assert!(field[layout.map.point2d_to_index(c)].is_some());
        }
    }
}

#[test]
fn rooms_need_three_by_three() {
    let mut rng = RandomNumberGenerator::seeded(1);
    let mut a = RoomArchitect {};
    assert!(matches!(a.new(&mut rng, 2, 40), Err(BuildError::TooSmall)));
    assert!(a.new(&mut rng, 3, 3).is_ok());
}
