use vstd::prelude::*;
use bracket_lib::prelude::RandomNumberGenerator;
use crate::builder::{on_floor, floor_points, BuildError, Layout};
use crate::grid::{dims_ok, Grid, Point, TileType};
use crate::rng::roll;

verus! {

/// Number of smoothing passes run over the noise.
pub const SMOOTHING_PASSES: usize = 10;

/// A noise roll in `0..100` above this value seeds a floor tile.
pub const FLOOR_ROLL_ABOVE: i32 = 55;

/// Builds caverns by smoothing random noise.
pub struct CellularAutomataArchitect {}

pub open spec fn noise_tile(roll: int) -> TileType {
    if roll > FLOOR_ROLL_ABOVE { TileType::Floor } else { TileType::Wall }
}

/// 1 when the cell in column `x`, row `y` of a grid `w` cells wide is a wall, else 0.
pub open spec fn wall_at(w: int, t: Seq<TileType>, x: int, y: int) -> int {
    if t[y * w + x] == TileType::Wall { 1 } else { 0 }
}

/// Walls among the eight cells around column `x`, row `y`.
pub open spec fn wall_count(w: int, t: Seq<TileType>, x: int, y: int) -> int {
    wall_at(w, t, x - 1, y - 1) + wall_at(w, t, x, y - 1) + wall_at(w, t, x + 1, y - 1)
        + wall_at(w, t, x - 1, y) + wall_at(w, t, x + 1, y)
        + wall_at(w, t, x - 1, y + 1) + wall_at(w, t, x, y + 1) + wall_at(w, t, x + 1, y + 1)
}

/// A cell surrounded by no walls or by more than four becomes a wall, any other a floor.
pub open spec fn smooth_rule(count: int) -> TileType {
    if count > 4 || count == 0 { TileType::Wall } else { TileType::Floor }
}

pub open spec fn is_interior(w: int, h: int, x: int, y: int) -> bool {
    1 <= x < w - 1 && 1 <= y < h - 1
}

/// The tile at index `i` after one smoothing pass over the `w` by `h` tiles `t`; border
/// cells keep their state.
pub open spec fn smoothed_at(w: int, h: int, t: Seq<TileType>, i: int) -> TileType {
    let x = i % w;
    let y = i / w;
    if is_interior(w, h, x, y) { smooth_rule(wall_count(w, t, x, y)) } else { t[i] }
}

/// The tiles after one smoothing pass.
pub open spec fn smoothed(w: int, h: int, t: Seq<TileType>) -> Seq<TileType> {
    Seq::new(t.len(), |i: int| smoothed_at(w, h, t, i))
}

/// The tiles after `n` smoothing passes.
pub open spec fn smoothed_times(w: int, h: int, t: Seq<TileType>, n: nat) -> Seq<TileType>
    decreases n,
{
    if n == 0 { t } else { smoothed(w, h, smoothed_times(w, h, t, (n - 1) as nat)) }
}

/// Every tile is floor or wall.
pub open spec fn is_noise(t: Seq<TileType>) -> bool {
    forall|i: int| 0 <= i < t.len() ==> #[trigger] t[i] == TileType::Floor || t[i] == TileType::Wall
}

/// Squared straight-line distance from index `i` to the centre of the grid.
pub open spec fn centre_dist2(g: &Grid, i: int) -> int {
    let dx = i % (g.width as int) - g.width as int / 2;
    let dy = i / (g.width as int) - g.height as int / 2;
    dx * dx + dy * dy
}

pub open spec fn is_floor_at(g: &Grid, i: int) -> bool {
    g.tiles@[i] == TileType::Floor
}

/// `i` is the floor cell nearest the centre, the first in scan order among equals.
pub open spec fn is_start_index(g: &Grid, i: int) -> bool {
    &&& 0 <= i < g.tiles@.len()
    &&& is_floor_at(g, i)
    &&& forall|j: int| 0 <= j < g.tiles@.len() && #[trigger] is_floor_at(g, j) ==> centre_dist2(g, i) <= centre_dist2(g, j)
    &&& forall|j: int| 0 <= j < i && #[trigger] is_floor_at(g, j) ==> centre_dist2(g, i) < centre_dist2(g, j)
}

/// The tile that a noise roll seeds.
pub fn tile_from_roll(roll: i32) -> (r: TileType)
    ensures
        r == noise_tile(roll as int),
{
    if roll > FLOOR_ROLL_ABOVE {
        TileType::Floor
    } else {
        TileType::Wall
    }
}

fn wall_flag(map: &Grid, x: usize, y: usize) -> (r: usize)
    requires
        map.wf(),
        x < map.width,
        y < map.height,
    ensures
        r == wall_at(map.width as int, map.tiles@, x as int, y as int),
{
    let i = map.cell_index(x, y);
    if map.tiles[i] == TileType::Wall {
        1
    } else {
        0
    }
}

fn centre_distance2(map: &Grid, i: usize) -> (r: i64)
    requires
        map.wf(),
        i < map.tiles@.len(),
    ensures
        r == centre_dist2(map, i as int),
{
    proof {
        map.lemma_point_idx(i as int);
    }
    let p = map.index_to_point2d(i);
    let dx: i64 = p.x as i64 - (map.width / 2) as i64;
    let dy: i64 = p.y as i64 - (map.height / 2) as i64;
    assert(-1000 <= dx <= 1000);
    assert(-1000 <= dy <= 1000);
    assert(dx * dx <= 1000000) by (nonlinear_arith)
        requires -1000 <= dx <= 1000;
    assert(dy * dy <= 1000000) by (nonlinear_arith)
        requires -1000 <= dy <= 1000;
    assert(dx * dx >= 0) by (nonlinear_arith);
    assert(dy * dy >= 0) by (nonlinear_arith);
    dx * dx + dy * dy
}

impl CellularAutomataArchitect {
    /// Seeds every tile independently from one roll each.
    pub fn random_noise(&mut self, rng: &mut RandomNumberGenerator, map: &mut Grid)
        requires
            old(map).wf(),
        ensures
            final(map).wf(),
            final(map).width == old(map).width,
            final(map).height == old(map).height,
            forall|i: int|
                0 <= i < final(map).tiles@.len() ==> #[trigger] final(map).tiles@[i] == TileType::Floor
                    || final(map).tiles@[i] == TileType::Wall,
    {
        let n = map.tiles.len();
        let mut i: usize = 0;
        while i < n
            invariant
                map.wf(),
                map.width == old(map).width,
                map.height == old(map).height,
                map.tiles@.len() == n,
                i <= n,
                forall|j: int|
                    0 <= j < i ==> #[trigger] map.tiles@[j] == TileType::Floor || map.tiles@[j] == TileType::Wall,
            decreases n - i,
        {
            let r = roll(rng, 0, 100);
            map.tiles.set(i, tile_from_roll(r));
            i = i + 1;
        }
    }

    /// Walls among the eight cells around an interior cell.
    pub fn count_neighbours(&self, x: usize, y: usize, map: &Grid) -> (r: usize)
        requires
            map.wf(),
            1 <= x < map.width - 1,
            1 <= y < map.height - 1,
        ensures
            r == wall_count(map.width as int, map.tiles@, x as int, y as int),
    {
        wall_flag(map, x - 1, y - 1) + wall_flag(map, x, y - 1) + wall_flag(map, x + 1, y - 1)
            + wall_flag(map, x - 1, y) + wall_flag(map, x + 1, y)
            + wall_flag(map, x - 1, y + 1) + wall_flag(map, x, y + 1) + wall_flag(map, x + 1, y + 1)
    }

    /// One smoothing pass, computed from a snapshot of the tiles before it.
    pub fn iteration(&mut self, map: &mut Grid)
        requires
            old(map).wf(),
        ensures
            final(map).wf(),
            final(map).width == old(map).width,
            final(map).height == old(map).height,
            final(map).tiles@ == smoothed(old(map).width as int, old(map).height as int, old(map).tiles@),
    {
        let n = map.tiles.len();
        let w = map.width;
        let h = map.height;
        let mut new_tiles = map.tiles.clone();
        let mut i: usize = 0;
        while i < n
            invariant
                map.wf(),
                *map == *old(map),
                n == map.tiles@.len(),
                w == map.width,
                h == map.height,
                new_tiles@.len() == n,
                i <= n,
                forall|j: int| 0 <= j < i ==> #[trigger] new_tiles@[j] == smoothed_at(map.width as int, map.height as int, map.tiles@, j),
            decreases n - i,
        {
            proof {
                map.lemma_point_idx(i as int);
            }
            let x = i % w;
            let y = i / w;
            if 1 <= x && x + 1 < w && 1 <= y && y + 1 < h {
                let c = self.count_neighbours(x, y, map);
                let t = if c > 4 || c == 0 {
                    TileType::Wall
                } else {
                    TileType::Floor
                };
                new_tiles.set(i, t);
            } else {
                let t = map.tiles[i];
                new_tiles.set(i, t);
            }
            i = i + 1;
        }
        map.tiles = new_tiles;
        proof {
            assert(map.tiles@ =~= smoothed(old(map).width as int, old(map).height as int, old(map).tiles@));
        }
    }

    /// The floor tile nearest the centre, first in scan order among equals; `None` when
    /// the grid holds no floor.
    pub fn find_start(&self, map: &Grid) -> (r: Option<Point>)
        requires
            map.wf(),
        ensures
            r is None <==> forall|j: int| 0 <= j < map.tiles@.len() ==> !#[trigger] is_floor_at(map, j),
            r is Some ==> map.spec_in_bounds(r->Some_0) && is_start_index(map, map.spec_idx(r->Some_0)),
    {
        let n = map.tiles.len();
        let mut best: Option<usize> = None;
        let mut best_d: i64 = 0;
        let mut i: usize = 0;
        while i < n
            invariant
                map.wf(),
                n == map.tiles@.len(),
                i <= n,
                best is None <==> forall|j: int| 0 <= j < i ==> !#[trigger] is_floor_at(map, j),
                best is Some ==> {
                    let b = best->Some_0 as int;
                    &&& b < i
                    &&& is_floor_at(map, b)
                    &&& best_d == centre_dist2(map, b)
                    &&& forall|j: int| 0 <= j < i && #[trigger] is_floor_at(map, j) ==> centre_dist2(map, b) <= centre_dist2(map, j)
                    &&& forall|j: int| 0 <= j < b && #[trigger] is_floor_at(map, j) ==> centre_dist2(map, b) < centre_dist2(map, j)
                },
            decreases n - i,
        {
            if map.tiles[i] == TileType::Floor {
                assert(is_floor_at(map, i as int));
                let d = centre_distance2(map, i);
                match best {
                    None => {
                        best = Some(i);
                        best_d = d;
                    }
                    Some(_) => {
                        if d < best_d {
                            best = Some(i);
                            best_d = d;
                        }
                    }
                }
            } else {
                assert(!is_floor_at(map, i as int));
            }
            i = i + 1;
        }
        match best {
            None => None,
            Some(b) => {
                let p = map.index_to_point2d(b);
                Some(p)
            }
        }
    }

    /// Seeds noise, smooths it `SMOOTHING_PASSES` times and starts the player on the
    /// floor tile nearest the centre; `NoValidStart` when no floor is left.
    pub fn new(&mut self, rng: &mut RandomNumberGenerator, width: usize, height: usize) -> (r: Result<Layout, BuildError>)
        requires
            dims_ok(width as int, height as int),
        ensures
            r is Ok ==> {
                let l = r->Ok_0;
                &&& l.map.wf()
                &&& l.map.width == width
                &&& l.map.height == height
                &&& l.map.spec_in_bounds(l.player_start)
                &&& is_start_index(&l.map, l.map.spec_idx(l.player_start))
                &&& l.rooms@.len() == 0
                &&& on_floor(&l.map, l.spawn_candidates@)
            },
            r is Err ==> r == Err::<Layout, BuildError>(BuildError::NoValidStart),
            exists|noise: Seq<TileType>| {
                let t = #[trigger] smoothed_times(width as int, height as int, noise, SMOOTHING_PASSES as nat);
                &&& noise.len() == width * height
                &&& is_noise(noise)
                &&& (r is Ok ==> r->Ok_0.map.tiles@ == t)
                &&& (r is Err <==> forall|j: int| 0 <= j < t.len() ==> t[j] != TileType::Floor)
            },
    {
        let mut map = Grid::new(width, height);
        self.random_noise(rng, &mut map);
        let ghost noise = map.tiles@;
        let mut pass: usize = 0;
        while pass < SMOOTHING_PASSES
            invariant
                map.wf(),
                map.width == width,
                map.height == height,
                pass <= SMOOTHING_PASSES,
                map.tiles@ == smoothed_times(width as int, height as int, noise, pass as nat),
            decreases SMOOTHING_PASSES - pass,
        {
            self.iteration(&mut map);
            pass = pass + 1;
        }
        proof {
            assert(is_noise(noise));
            assert forall|j: int| 0 <= j < map.tiles@.len() && map.tiles@[j] == TileType::Floor implies is_floor_at(&map, j) by {}
        }
        let start = self.find_start(&map);
        proof {
            let t = smoothed_times(width as int, height as int, noise, SMOOTHING_PASSES as nat);
            assert(map.tiles@ == t);
            assert((start is None) <==> forall|j: int| 0 <= j < t.len() ==> t[j] != TileType::Floor) by {
                if start is None {
                    assert forall|j: int| 0 <= j < t.len() implies t[j] != TileType::Floor by {
                        assert(!is_floor_at(&map, j));
                    }
                } else {
                    let j = map.spec_idx(start->Some_0);
                    assert(is_floor_at(&map, j));
                }
            }
        }
        match start {
            None => Err(BuildError::NoValidStart),
            Some(start) => {
                let spawn_candidates = floor_points(&map);
                Ok(Layout { map, rooms: Vec::new(), player_start: start, spawn_candidates })
            }
        }
    }
}

} // verus!
