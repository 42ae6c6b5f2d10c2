use vstd::prelude::*;
use bracket_lib::prelude::RandomNumberGenerator;
use crate::builder::{on_floor, count_floor, floor_count, floor_points, lemma_floor_count_pos, BuildError, Layout};
use crate::distance::{
    distance_field,
    is_distance_field,
    is_route,
    lemma_reachable_has_distance,
    lemma_route_transfer,
    lemma_single_contains,
    reachable_within,
    traces,
};
use crate::grid::{walkable, Grid, Point, TileType, dims_ok};
use crate::rng::roll;

verus! {

/// Most steps one walker takes after its first.
pub const STAGGER_DISTANCE: usize = 400;

/// Cutoff of the flood from the centre after each drop.
pub const PRUNE_CUTOFF: usize = 1024;

/// Most walkers dropped at random points before giving up.
pub const MAX_DROPS: usize = 100000;

/// Carves caves with random walkers.
pub struct DrunkardsWalkArchitect {}

/// One step from `p` in the direction a roll in `0..4` picks.
pub open spec fn stagger(p: Point, roll: int) -> Point {
    if roll == 0 {
        Point { x: (p.x - 1) as i32, y: p.y }
    } else if roll == 1 {
        Point { x: (p.x + 1) as i32, y: p.y }
    } else if roll == 2 {
        Point { x: p.x, y: (p.y - 1) as i32 }
    } else {
        Point { x: p.x, y: (p.y + 1) as i32 }
    }
}

/// `b` is one step from `a` in one of the four directions a roll picks.
pub open spec fn is_step(a: Point, b: Point) -> bool {
    b == stagger(a, 0) || b == stagger(a, 1) || b == stagger(a, 2) || b == stagger(a, 3)
}

/// `w` is a walk from `start` over cells of `map`, each step in one of four directions. It
/// has `STAGGER_DISTANCE + 1` cells, or is shorter only where a step from its last cell
/// leaves the grid.
pub open spec fn is_walk(map: &Grid, start: Point, w: Seq<Point>) -> bool {
    &&& 1 <= w.len() <= STAGGER_DISTANCE + 1
    &&& w[0] == start
    &&& forall|k: int| 0 <= k < w.len() ==> map.spec_in_bounds(#[trigger] w[k])
    &&& forall|k: int| 0 <= k < w.len() - 1 ==> is_step(#[trigger] w[k], w[k + 1])
    &&& w.len() < STAGGER_DISTANCE + 1 ==> {
        ||| !map.spec_in_bounds(stagger(w.last(), 0))
        ||| !map.spec_in_bounds(stagger(w.last(), 1))
        ||| !map.spec_in_bounds(stagger(w.last(), 2))
        ||| !map.spec_in_bounds(stagger(w.last(), 3))
    }
}

/// Cell `j` is one of the cells of walk `w`.
pub open spec fn on_walk(map: &Grid, w: Seq<Point>, j: int) -> bool {
    exists|k: int| 0 <= k < w.len() && map.spec_idx(#[trigger] w[k]) == j
}

/// The floor target: a third of all tiles.
pub open spec fn desired_floor(map: &Grid) -> int {
    (map.width * map.height) as int / 3
}

/// Tiles that the flood did not reach become walls; the rest keep their state.
pub open spec fn pruned(g: &Grid, field: Seq<Option<usize>>) -> Seq<TileType> {
    Seq::new(g.tiles@.len(), |i: int| if field[i] is None { TileType::Wall } else { g.tiles@[i] })
}

/// Every floor tile of `g` lies within `PRUNE_CUTOFF` steps of cell `c`.
pub open spec fn floors_reach_centre(g: &Grid, c: int) -> bool {
    forall|i: int|
        0 <= i < g.tiles@.len() && #[trigger] g.tiles@[i] == TileType::Floor
            ==> reachable_within(g, c, i, PRUNE_CUTOFF as int)
}

/// The step a walker at `p` takes for a roll.
pub fn stagger_step(p: Point, roll: i32) -> (r: Point)
    requires
        -1000000 <= p.x <= 1000000,
        -1000000 <= p.y <= 1000000,
    ensures
        r == stagger(p, roll as int),
{
    if roll == 0 {
        Point { x: p.x - 1, y: p.y }
    } else if roll == 1 {
        Point { x: p.x + 1, y: p.y }
    } else if roll == 2 {
        Point { x: p.x, y: p.y - 1 }
    } else {
        Point { x: p.x, y: p.y + 1 }
    }
}

proof fn lemma_pruned_reach_one(g: &Grid, h: &Grid, c: usize, field: Seq<Option<usize>>, i: int, p: Seq<int>)
    requires
        g.wf(),
        c < g.tiles@.len(),
        field.len() == g.tiles@.len(),
        forall|j: int| 0 <= j < field.len() && #[trigger] field[j] is Some ==> field[j]->Some_0 <= PRUNE_CUTOFF,
        traces(g, seq![c], field, i, p),
        h.width == g.width,
        h.height == g.height,
        h.tiles@ == pruned(g, field),
    ensures
        reachable_within(h, c as int, i, PRUNE_CUTOFF as int),
{
    assert(0 <= p[0] < g.tiles@.len());
    lemma_single_contains(c, p[0] as usize);
    assert(p[0] == c as int);
    assert forall|k: int| 1 <= k < p.len() implies walkable(h.tiles@[#[trigger] p[k]]) by {
        assert(field[p[k]] == Some(k as usize));
        assert(walkable(g.tiles@[p[k]]));
    }
    lemma_route_transfer(g, h, p);
    assert(0 <= p[0] < g.tiles@.len());
    assert(field[i] is Some);
    assert(p.len() <= PRUNE_CUTOFF + 1);
    assert(p.last() == i);
    assert(is_route(h, p));
}

/// After walling off what a flood from `c` missed, every floor tile lies within the
/// cutoff of `c`.
proof fn lemma_pruned_reach(g: &Grid, h: &Grid, c: usize, field: Seq<Option<usize>>)
    requires
        g.wf(),
        c < g.tiles@.len(),
        is_distance_field(g, seq![c], PRUNE_CUTOFF as int, field),
        h.width == g.width,
        h.height == g.height,
        h.tiles@ == pruned(g, field),
    ensures
        floors_reach_centre(h, c as int),
{
    assert forall|i: int|
        0 <= i < h.tiles@.len() && #[trigger] h.tiles@[i] == TileType::Floor implies reachable_within(
        h,
        c as int,
        i,
        PRUNE_CUTOFF as int,
    ) by {
        assert(field[i] is Some);
        let p = choose|p: Seq<int>| traces(g, seq![c], field, i, p);
        lemma_pruned_reach_one(g, h, c, field, i, p);
    }
}

/// On a randomized-walk grid, a flood from the centre with the pruning cutoff gives every
/// floor tile a finite distance.
pub proof fn lemma_walk_floors_have_distance(map: &Grid, c: usize, field: Seq<Option<usize>>, i: int)
    requires
        map.wf(),
        floors_reach_centre(map, c as int),
        is_distance_field(map, seq![c], PRUNE_CUTOFF as int, field),
        0 <= i < map.tiles@.len(),
        map.tiles@[i] == TileType::Floor,
    ensures
        field[i] is Some,
{
    lemma_reachable_has_distance(map, c, PRUNE_CUTOFF as int, field, i);
}

impl DrunkardsWalkArchitect {
    /// Walks from `start`, carving floor, until the next step would leave the grid or the
    /// walker has taken `STAGGER_DISTANCE` steps; returns the cells it stood on, in order.
    pub fn drunkard(&mut self, start: &Point, rng: &mut RandomNumberGenerator, map: &mut Grid) -> (walk: Vec<Point>)
        requires
            old(map).wf(),
            old(map).spec_in_bounds(*start),
        ensures
            final(map).wf(),
            final(map).width == old(map).width,
            final(map).height == old(map).height,
            is_walk(old(map), *start, walk@),
            forall|j: int| 0 <= j < final(map).tiles@.len() ==> #[trigger] final(map).tiles@[j] == (if on_walk(old(map), walk@, j) {
                TileType::Floor
            } else {
                old(map).tiles@[j]
            }),
    {
        let first = map.point2d_to_index(*start);
        map.tiles.set(first, TileType::Floor);
        let mut walk: Vec<Point> = Vec::new();
        walk.push(*start);
        let ghost m0 = *old(map);
        proof {
            assert forall|j: int| 0 <= j < map.tiles@.len() implies #[trigger] map.tiles@[j] == (if on_walk(&m0, walk@, j) {
                TileType::Floor
            } else {
                m0.tiles@[j]
            }) by {
                if j == first {
                    assert(m0.spec_idx(walk@[0]) == j);
                } else if on_walk(&m0, walk@, j) {
                    let k = choose|k: int| 0 <= k < walk@.len() && m0.spec_idx(#[trigger] walk@[k]) == j;
                }
            }
        }
        let mut pos = *start;
        let mut steps: usize = 0;
        loop
            invariant
                map.wf(),
                m0.wf(),
                m0 == *old(map),
                map.width == m0.width,
                map.height == m0.height,
                map.spec_in_bounds(pos),
                steps <= STAGGER_DISTANCE,
                walk@.len() == steps + 1,
                walk@.last() == pos,
                walk@[0] == *start,
                forall|k: int| 0 <= k < walk@.len() ==> m0.spec_in_bounds(#[trigger] walk@[k]),
                forall|k: int| 0 <= k < walk@.len() - 1 ==> is_step(#[trigger] walk@[k], walk@[k + 1]),
                forall|j: int| 0 <= j < map.tiles@.len() ==> #[trigger] map.tiles@[j] == (if on_walk(&m0, walk@, j) {
                    TileType::Floor
                } else {
                    m0.tiles@[j]
                }),
            ensures
                is_walk(&m0, *start, walk@),
            decreases STAGGER_DISTANCE - steps,
        {
            let r = roll(rng, 0, 4);
            let next = stagger_step(pos, r);
            if !map.in_bounds(next) || steps >= STAGGER_DISTANCE {
                proof {
                    assert(next == stagger(pos, 0) || next == stagger(pos, 1) || next == stagger(pos, 2) || next == stagger(pos, 3));
                    assert(walk@.last() == pos);
                    if !map.spec_in_bounds(next) {
                        assert(!m0.spec_in_bounds(next));
                    } else {
                        assert(walk@.len() == STAGGER_DISTANCE + 1);
                    }
                    assert(is_walk(&m0, *start, walk@));
                }
                break;
            }
            let idx = map.point2d_to_index(next);
            let ghost w0 = walk@;
            map.tiles.set(idx, TileType::Floor);
            walk.push(next);
            proof {
                assert(is_step(pos, next));
                assert(walk@[w0.len() as int] == next);
                assert forall|k: int| 0 <= k < walk@.len() - 1 implies is_step(#[trigger] walk@[k], walk@[k + 1]) by {
                    if k < w0.len() - 1 {
                        assert(walk@[k] == w0[k] && walk@[k + 1] == w0[k + 1]);
                    } else {
                        assert(walk@[k] == pos);
                    }
                }
                assert forall|k: int| 0 <= k < walk@.len() implies m0.spec_in_bounds(#[trigger] walk@[k]) by {
                    if k < w0.len() {
                        assert(walk@[k] == w0[k]);
                    }
                }
                assert forall|j: int| 0 <= j < map.tiles@.len() implies #[trigger] map.tiles@[j] == (if on_walk(&m0, walk@, j) {
                    TileType::Floor
                } else {
                    m0.tiles@[j]
                }) by {
                    if j == idx {
                        assert(m0.spec_idx(walk@[w0.len() as int]) == j);
                    } else {
                        if on_walk(&m0, w0, j) {
                            let k = choose|k: int| 0 <= k < w0.len() && m0.spec_idx(#[trigger] w0[k]) == j;
                            assert(walk@[k] == w0[k]);
                        }
                        if on_walk(&m0, walk@, j) {
                            let k = choose|k: int| 0 <= k < walk@.len() && m0.spec_idx(#[trigger] walk@[k]) == j;
                            assert(k < w0.len());
                            assert(walk@[k] == w0[k]);
                        }
                    }
                }
            }
            pos = next;
            steps = steps + 1;
        }
        walk
    }

    /// Walls off every tile that a flood from cell `c` does not reach.
    fn prune(&self, map: &mut Grid, c: usize)
        requires
            old(map).wf(),
            c < old(map).tiles@.len(),
        ensures
            final(map).wf(),
            final(map).width == old(map).width,
            final(map).height == old(map).height,
            final(map).tiles@[c as int] == old(map).tiles@[c as int],
            floors_reach_centre(final(map), c as int),
            exists|field: Seq<Option<usize>>|
                is_distance_field(old(map), seq![c], PRUNE_CUTOFF as int, field)
                    && final(map).tiles@ == #[trigger] pruned(old(map), field),
    {
        let sources: Vec<usize> = vec![c];
        let field = distance_field(map, &sources, PRUNE_CUTOFF);
        let ghost g = *map;
        let n = map.tiles.len();
        let mut i: usize = 0;
        while i < n
            invariant
                g.wf(),
                n == g.tiles@.len(),
                field@.len() == n,
                map.width == g.width,
                map.height == g.height,
                map.tiles@.len() == n,
                i <= n,
                forall|j: int| 0 <= j < i ==> #[trigger] map.tiles@[j] == pruned(&g, field@)[j],
                forall|j: int| i <= j < n ==> #[trigger] map.tiles@[j] == g.tiles@[j],
            decreases n - i,
        {
            if field[i].is_none() {
                map.tiles.set(i, TileType::Wall);
            }
            i = i + 1;
        }
        proof {
            assert(sources@ == seq![c]);
            assert(map.tiles@ =~= pruned(&g, field@));
            assert(field@[c as int] == Some(0usize));
            lemma_pruned_reach(&g, map, c, field@);
            assert(is_distance_field(&g, seq![c], PRUNE_CUTOFF as int, field@) && map.tiles@ == pruned(&g, field@));
        }
    }

    /// Drops walkers, first at the centre and then at random points, walling off after
    /// each drop what the centre cannot reach, until a third of the tiles are floor.
    /// Gives up with `DensityUnreachable` after `MAX_DROPS` random drops.
    pub fn new(&mut self, rng: &mut RandomNumberGenerator, width: usize, height: usize) -> (r: Result<Layout, BuildError>)
        requires
            dims_ok(width as int, height as int),
        ensures
            r is Ok ==> {
                let l = r->Ok_0;
                &&& l.map.wf()
                &&& l.map.width == width
                &&& l.map.height == height
                &&& l.player_start == Point { x: (width / 2) as i32, y: (height / 2) as i32 }
                &&& l.map.spec_in_bounds(l.player_start)
                &&& l.map.at(l.player_start) == TileType::Floor
                &&& floor_count(l.map.tiles@) >= desired_floor(&l.map)
                &&& floors_reach_centre(&l.map, l.map.spec_idx(l.player_start))
                &&& l.rooms@.len() == 0
                &&& on_floor(&l.map, l.spawn_candidates@)
            },
            r is Err ==> r == Err::<Layout, BuildError>(BuildError::DensityUnreachable),
            width * height / 3 <= 1 ==> r is Ok,
    {
        let mut map = Grid::new(width, height);
        map.fill(TileType::Wall);
        let centre = Point::new((width / 2) as i32, (height / 2) as i32);
        let c = map.point2d_to_index(centre);
        self.drunkard(&centre, rng, &mut map);
        self.prune(&mut map, c);
        let desired = width * height / 3;
        let mut floor = count_floor(&map);
        proof {
            lemma_floor_count_pos(map.tiles@, c as int);
        }
        let mut drops: usize = 0;
        while floor < desired
            invariant
                map.wf(),
                map.width == width,
                map.height == height,
                map.spec_in_bounds(centre),
                c as int == map.spec_idx(centre),
                c < map.tiles@.len(),
                map.tiles@[c as int] == TileType::Floor,
                floors_reach_centre(&map, c as int),
                floor == floor_count(map.tiles@),
                desired == desired_floor(&map),
                desired == width * height / 3,
                floor >= 1,
                drops <= MAX_DROPS,
            decreases MAX_DROPS - drops,
        {
            if drops >= MAX_DROPS {
                return Err(BuildError::DensityUnreachable);
            }
            let next_start = Point::new(roll(rng, 0, width as i32), roll(rng, 0, height as i32));
            self.drunkard(&next_start, rng, &mut map);
            self.prune(&mut map, c);
            floor = count_floor(&map);
            proof {
                lemma_floor_count_pos(map.tiles@, c as int);
            }
            drops = drops + 1;
        }
        let spawn_candidates = floor_points(&map);
        Ok(Layout { map, rooms: Vec::new(), player_start: centre, spawn_candidates })
    }
}

} // verus!
