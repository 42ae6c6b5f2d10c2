use bracket_lib::prelude::RandomNumberGenerator;
use dungeon_crawler::builder::{
    architect_from_roll, choose_spawns, filter_spawns, most_distant, theme_from_roll, ArchitectKind,
    BuildError, MapBuilder, Theme, MIN_SPAWN_DISTANCE, NUM_MONSTERS,
};
use dungeon_crawler::builder::count_floor;
use dungeon_crawler::distance::distance_field;
use dungeon_crawler::grid::{Grid, Point, TileType};

const KINDS: [ArchitectKind; 3] = [
    ArchitectKind::CellularAutomata,
    ArchitectKind::DrunkardsWalk,
    ArchitectKind::Rooms,
];

fn check_level(mb: &MapBuilder, place_exit: bool) {
    let s = mb.map.point2d_to_index(mb.player_start);
    let g = mb.map.point2d_to_index(mb.amulet_start);
    assert_eq!(mb.map.tiles[s], TileType::Floor);
    if place_exit {
        assert_eq!(mb.map.tiles[g], TileType::Exit);
    } else {
        assert_eq!(mb.map.tiles[g], TileType::Floor);
    }
    let field = distance_field(&mb.map, &vec![s], mb.map.tiles.len());
    assert!(field[g].is_some());
    let back = distance_field(&mb.map, &vec![g], mb.map.tiles.len());
    assert!(back[s].is_some());
    assert!(mb.monster_spawns.len() <= NUM_MONSTERS);
    let near = distance_field(&mb.map, &vec![s], 20);
    for p in mb.monster_spawns.iter() {
        let i = mb.map.point2d_to_index(*p);
        assert!(mb.map.tiles[i] != TileType::Wall);
        assert!(near[i].map_or(true, |d| d >= MIN_SPAWN_DISTANCE));
    }
    let best = field.iter().filter_map(|d| *d).max().unwrap();
    assert_eq!(field[g], Some(best));
}

#[test]
fn start_and_goal_are_floor_and_connected() {
    for kind in KINDS {
        for seed in [5u64, 6, 7] {
            for place_exit in [false, true] {
                let mut rng = RandomNumberGenerator::seeded(seed);
                let mb = MapBuilder::build(&mut rng, kind, 80, 50, place_exit).unwrap();
                check_level(&mb, place_exit);
            }
        }
    }
}

#[test]
fn goal_is_the_farthest_tile() {
    let mut rng = RandomNumberGenerator::seeded(21);
    let mb = MapBuilder::build(&mut rng, ArchitectKind::Rooms, 80, 50, false).unwrap();
    let s = mb.map.point2d_to_index(mb.player_start);
    let field = distance_field(&mb.map, &vec![s], mb.map.tiles.len());
    let best = field.iter().filter_map(|d| *d).max().unwrap();
    let g = mb.map.point2d_to_index(mb.amulet_start);
    assert_eq!(field[g], Some(best));
}

#[test]
fn same_seed_same_level() {
    for kind in KINDS {
        let mut r1 = RandomNumberGenerator::seeded(1234);
        let mut r2 = RandomNumberGenerator::seeded(1234);
        let a = MapBuilder::build(&mut r1, kind, 80, 50, true).unwrap();
        let b = MapBuilder::build(&mut r2, kind, 80, 50, true).unwrap();
        assert_eq!(a.map.tiles, b.map.tiles);
        assert_eq!(a.player_start, b.player_start);
        assert_eq!(a.amulet_start, b.amulet_start);
        assert_eq!(a.monster_spawns, b.monster_spawns);
        assert_eq!(a.rooms, b.rooms);
        assert_eq!(a.theme, b.theme);
    }
}

#[test]
fn tiny_and_empty_grids() {
    for kind in KINDS {
        let mut rng = RandomNumberGenerator::seeded(1);
        assert!(matches!(MapBuilder::build(&mut rng, kind, 0, 10, false), Err(BuildError::TooSmall)));
        assert!(matches!(MapBuilder::build(&mut rng, kind, 10, 0, false), Err(BuildError::TooSmall)));
        assert!(matches!(MapBuilder::build(&mut rng, kind, 1001, 10, false), Err(BuildError::TooSmall)));
    }
    let mut rng = RandomNumberGenerator::seeded(1);
    assert!(matches!(MapBuilder::build(&mut rng, ArchitectKind::Rooms, 1, 1, false), Err(BuildError::TooSmall)));
    let mb = MapBuilder::build(&mut rng, ArchitectKind::DrunkardsWalk, 1, 1, false).unwrap();
    assert_eq!(mb.player_start, Point::new(0, 0));
    assert_eq!(mb.amulet_start, Point::new(0, 0));
    assert!(mb.monster_spawns.is_empty());
    for seed in 0..20u64 {
        let mut rng = RandomNumberGenerator::seeded(seed);
        match MapBuilder::build(&mut rng, ArchitectKind::CellularAutomata, 1, 1, false) {
            Ok(mb) => assert_eq!(mb.player_start, Point::new(0, 0)),
            Err(e) => assert_eq!(e, BuildError::NoValidStart),
        }
    }
}

#[test]
fn walk_on_standard_grid() {
    let mut rng = RandomNumberGenerator::seeded(2024);
    let mb = MapBuilder::build(&mut rng, ArchitectKind::DrunkardsWalk, 80, 50, false).unwrap();
    assert!(count_floor(&mb.map) >= 1333);
    assert_eq!(mb.player_start, Point::new(40, 25));
    let s = mb.map.point2d_to_index(mb.player_start);
    let field = distance_field(&mb.map, &vec![s], mb.map.tiles.len());
    let g = mb.map.point2d_to_index(mb.amulet_start);
    assert!(field[g].unwrap() > MIN_SPAWN_DISTANCE);
}

#[test]
fn random_architect_builds_a_valid_level() {
    for seed in 0..6u64 {
        let mut rng = RandomNumberGenerator::seeded(seed);
        let mb = MapBuilder::new(&mut rng, 80, 50, false).unwrap();
        check_level(&mb, false);
    }
}

#[test]
fn rolls_pick_architect_and_theme() {
    assert_eq!(architect_from_roll(0), ArchitectKind::CellularAutomata);
    assert_eq!(architect_from_roll(1), ArchitectKind::DrunkardsWalk);
    assert_eq!(architect_from_roll(2), ArchitectKind::Rooms);
    assert_eq!(theme_from_roll(0), Theme::Dungeon);
    assert_eq!(theme_from_roll(1), Theme::Forest);
}

#[test]
fn most_distant_takes_first_maximum() {
    assert_eq!(most_distant(&vec![Some(0), Some(3), None, Some(3), Some(1)]), Some(1));
    assert_eq!(most_distant(&vec![None, None]), None);
    assert_eq!(most_distant(&vec![]), None);
}

#[test]
fn spawn_filter_drops_close_points() {
    let g = Grid::new(30, 1);
    let start = Point::new(0, 0);
    let candidates = vec![
        Point::new(3, 0),
        Point::new(10, 0),
        Point::new(9, 0),
        Point::new(25, 0),
        Point::new(40, 0),
    ];
    let kept = filter_spawns(&g, start, &candidates);
    assert_eq!(kept, vec![Point::new(10, 0), Point::new(25, 0)]);
}

#[test]
fn spawn_choice_keeps_short_lists_and_caps_long_ones() {
    let mut rng = RandomNumberGenerator::seeded(9);
    let few = vec![Point::new(1, 1), Point::new(2, 2)];
    assert_eq!(choose_spawns(&mut rng, few.clone()), few);
    let many: Vec<Point> = (0..120).map(|i| Point::new(i, 0)).collect();
    let chosen = choose_spawns(&mut rng, many.clone());
    assert_eq!(chosen.len(), NUM_MONSTERS);
    let mut xs: Vec<i32> = chosen.iter().map(|p| p.x).collect();
    xs.sort();
    xs.dedup();
    assert_eq!(xs.len(), NUM_MONSTERS);
    assert!(chosen.iter().all(|p| many.contains(p)));
}
