use dungeon_crawler::distance::{distance_field, neighbours};
use dungeon_crawler::grid::{Grid, MapError, Point, TileType};

fn grid_from(rows: &[&str]) -> Grid {
    let height = rows.len();
    let width = rows[0].len();
    let mut g = Grid::new(width, height);
    for (y, row) in rows.iter().enumerate() {
        for (x, c) in row.chars().enumerate() {
            let i = g.cell_index(x, y);
            g.tiles[i] = if c == '#' { TileType::Wall } else { TileType::Floor };
        }
    }
    g
}

#[test]
fn index_and_point_are_inverse() {
    let g = Grid::new(80, 50);
    for i in [0usize, 1, 79, 80, 3999, 2025] {
        let p = g.index_to_point2d(i);
        assert_eq!(g.point2d_to_index(p), i);
    }
    assert_eq!(g.point2d_to_index(Point::new(40, 25)), 25 * 80 + 40);
    assert_eq!(g.index_to_point2d(81), Point::new(1, 1));
}

#[test]
fn tile_lookup_out_of_bounds() {
    let g = Grid::new(4, 3);
    assert_eq!(g.tile_at(Point::new(3, 2)), Ok(TileType::Floor));
    assert_eq!(g.tile_at(Point::new(4, 0)), Err(MapError::OutOfBounds));
    assert_eq!(g.tile_at(Point::new(0, -1)), Err(MapError::OutOfBounds));
    assert!(!g.in_bounds(Point::new(-1, 0)));
    assert_eq!(g.try_idx(Point::new(0, 3)), None);
}

#[test]
fn fill_sets_every_tile() {
    let mut g = Grid::new(5, 5);
    g.fill(TileType::Wall);
    assert!(g.tiles.iter().all(|t| *t == TileType::Wall));
    assert!(!g.can_enter_tile(Point::new(2, 2)));
}

#[test]
fn neighbours_at_corner_and_middle() {
    let g = Grid::new(3, 3);
    assert_eq!(neighbours(&g, 0), vec![None, Some(1), None, Some(3)]);
    assert_eq!(neighbours(&g, 4), vec![Some(3), Some(5), Some(1), Some(7)]);
    assert_eq!(neighbours(&g, 8), vec![Some(7), None, Some(5), None]);
}

#[test]
fn distances_go_around_walls() {
    let g = grid_from(&[
        ".#...",
        ".#.#.",
        "...#.",
    ]);
    let field = distance_field(&g, &vec![0], 100);
    assert_eq!(field[0], Some(0));
    assert_eq!(field[g.cell_index(0, 2)], Some(2));
    assert_eq!(field[g.cell_index(2, 0)], Some(6));
    assert_eq!(field[g.cell_index(4, 2)], Some(10));
    assert_eq!(field[g.cell_index(1, 0)], None);
}

#[test]
fn distances_stop_at_cutoff() {
    let g = Grid::new(10, 1);
    let field = distance_field(&g, &vec![0], 3);
    assert_eq!(field[3], Some(3));
    assert_eq!(field[4], None);
}

#[test]
fn distances_from_several_sources() {
    let g = Grid::new(7, 1);
    let field = distance_field(&g, &vec![0, 6], 10);
    assert_eq!(field, vec![Some(0), Some(1), Some(2), Some(3), Some(2), Some(1), Some(0)]);
}

#[test]
fn unreachable_pocket_stays_none() {
    let g = grid_from(&[
        "..#..",
        "..#..",
    ]);
    let field = distance_field(&g, &vec![0], 1000);
    assert_eq!(field[g.cell_index(3, 0)], None);
    assert_eq!(field[g.cell_index(1, 1)], Some(2));
}
