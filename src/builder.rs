use vstd::prelude::*;
use bracket_lib::prelude::RandomNumberGenerator;
use crate::automata::CellularAutomataArchitect;
use crate::distance::{
    distance_field,
    is_distance_field,
    lemma_route_transfer,
    connected,
    lemma_connected_kept_walkable,
    lemma_field_same_walkable,
    lemma_reachable_kept,
    lemma_reachable_symmetric,
    lemma_traced_reachable,
    same_walkable,
    reachable_within,
    is_route,
};
use crate::automata::is_start_index;
use crate::drunkard::{desired_floor, floors_reach_centre, DrunkardsWalkArchitect};
use crate::grid::{dims_ok, walkable, Grid, Point, TileType, MAX_DIM};
use crate::rng::roll;
use crate::rooms::{rooms_linked, Rect, RoomArchitect, NUM_ROOMS};

verus! {

/// Why a level could not be generated.
#[derive(Clone, Copy, Debug, PartialEq, Eq, Structural)]
pub enum BuildError {
    /// The grid size lies outside what the chosen architect accepts: a side of 0 or above
    /// `MAX_DIM`, or below 3 for rooms.
    TooSmall,
    /// The architect left no floor tile to start on.
    NoValidStart,
    /// The random walk did not carve enough floor within its drop limit.
    DensityUnreachable,
}

/// What an architect hands back: the carved grid, its rooms (if any), the player's start
/// and the points it proposes for monsters.
pub struct Layout {
    pub map: Grid,
    pub rooms: Vec<Rect>,
    pub player_start: Point,
    pub spawn_candidates: Vec<Point>,
}

/// Number of floor tiles among the first `i` tiles.
pub open spec fn floor_count_upto(s: Seq<TileType>, i: int) -> int
    decreases i,
{
    if i <= 0 {
        0
    } else {
        floor_count_upto(s, i - 1) + if s[i - 1] == TileType::Floor { 1int } else { 0int }
    }
}

pub open spec fn floor_count(s: Seq<TileType>) -> int {
    floor_count_upto(s, s.len() as int)
}

proof fn lemma_floor_count_bounds(s: Seq<TileType>, i: int)
    requires
        0 <= i <= s.len(),
    ensures
        0 <= floor_count_upto(s, i) <= i,
    decreases i,
{
    if i > 0 {
        lemma_floor_count_bounds(s, i - 1);
    }
}

/// A grid with a floor tile has a positive floor count.
pub proof fn lemma_floor_count_pos(s: Seq<TileType>, i: int)
    requires
        0 <= i < s.len(),
        s[i] == TileType::Floor,
    ensures
        floor_count(s) >= 1,
{
    lemma_floor_count_upto_pos(s, i, s.len() as int);
}

proof fn lemma_floor_count_upto_pos(s: Seq<TileType>, i: int, j: int)
    requires
        0 <= i < j <= s.len(),
        s[i] == TileType::Floor,
    ensures
        floor_count_upto(s, j) >= 1,
    decreases j,
{
    if j - 1 > i {
        lemma_floor_count_upto_pos(s, i, j - 1);
    } else {
        lemma_floor_count_bounds(s, j - 1);
    }
}

/// Number of floor tiles in the grid.
pub fn count_floor(map: &Grid) -> (r: usize)
    ensures
        r == floor_count(map.tiles@),
{
    let n = map.tiles.len();
    let mut c: usize = 0;
    let mut i: usize = 0;
    while i < n
        invariant
            n == map.tiles@.len(),
            i <= n,
            c == floor_count_upto(map.tiles@, i as int),
        decreases n - i,
    {
        proof {
            lemma_floor_count_bounds(map.tiles@, i as int);
        }
        if map.tiles[i] == TileType::Floor {
            c = c + 1;
        }
        i = i + 1;
    }
    c
}

/// Every floor tile of `map`, as points in scan order.
pub fn floor_points(map: &Grid) -> (r: Vec<Point>)
    requires
        map.wf(),
    ensures
        forall|k: int| 0 <= k < r@.len() ==> map.spec_in_bounds(#[trigger] r@[k]) && map.at(r@[k]) == TileType::Floor,
        forall|i: int| 0 <= i < map.tiles@.len() && #[trigger] map.tiles@[i] == TileType::Floor
            ==> exists|k: int| 0 <= k < r@.len() && map.spec_idx(#[trigger] r@[k]) == i,
{
    let n = map.tiles.len();
    let mut r: Vec<Point> = Vec::new();
    let mut i: usize = 0;
    while i < n
        invariant
            map.wf(),
            n == map.tiles@.len(),
            i <= n,
            forall|k: int| 0 <= k < r@.len() ==> map.spec_in_bounds(#[trigger] r@[k]) && map.at(r@[k]) == TileType::Floor,
            forall|j: int| 0 <= j < i && #[trigger] map.tiles@[j] == TileType::Floor
                ==> exists|k: int| 0 <= k < r@.len() && map.spec_idx(#[trigger] r@[k]) == j,
        decreases n - i,
    {
        if map.tiles[i] == TileType::Floor {
            let p = map.index_to_point2d(i);
            let ghost old_r = r@;
            r.push(p);
            proof {
                assert(map.spec_idx(r@[r@.len() - 1]) == i);
                assert forall|j: int| 0 <= j < i + 1 && #[trigger] map.tiles@[j] == TileType::Floor
                    implies exists|k: int| 0 <= k < r@.len() && map.spec_idx(#[trigger] r@[k]) == j by {
                    if j < i {
                        let k = choose|k: int| 0 <= k < old_r.len() && map.spec_idx(#[trigger] old_r[k]) == j;
                        assert(r@[k] == old_r[k]);
                    } else {
                        assert(map.spec_idx(r@[r@.len() - 1]) == j);
                    }
                }
            }
        }
        i = i + 1;
    }
    r
}

/// Cutoff of the flood that decides which spawn points are too close to the player.
pub const SPAWN_CUTOFF: usize = 20;

/// Spawn points fewer steps than this from the player are dropped.
pub const MIN_SPAWN_DISTANCE: usize = 10;

/// Most monsters placed on a level.
pub const NUM_MONSTERS: usize = 50;

/// Cosmetic look of a level.
#[derive(Clone, Copy, Debug, PartialEq, Eq, Structural)]
pub enum Theme {
    Dungeon,
    Forest,
}

/// The generation strategy of a level.
#[derive(Clone, Copy, Debug, PartialEq, Eq, Structural)]
pub enum ArchitectKind {
    CellularAutomata,
    DrunkardsWalk,
    Rooms,
}

pub open spec fn architect_of(roll: int) -> ArchitectKind {
    if roll == 0 {
        ArchitectKind::CellularAutomata
    } else if roll == 1 {
        ArchitectKind::DrunkardsWalk
    } else {
        ArchitectKind::Rooms
    }
}

pub open spec fn theme_of(roll: int) -> Theme {
    if roll == 0 { Theme::Dungeon } else { Theme::Forest }
}

/// The architect a roll in `0..3` picks.
pub fn architect_from_roll(roll: i32) -> (r: ArchitectKind)
    ensures
        r == architect_of(roll as int),
{
    if roll == 0 {
        ArchitectKind::CellularAutomata
    } else if roll == 1 {
        ArchitectKind::DrunkardsWalk
    } else {
        ArchitectKind::Rooms
    }
}

/// The theme a roll in `0..2` picks.
pub fn theme_from_roll(roll: i32) -> (r: Theme)
    ensures
        r == theme_of(roll as int),
{
    if roll == 0 {
        Theme::Dungeon
    } else {
        Theme::Forest
    }
}

/// `i` holds the greatest finite distance of `field`, the first in scan order among equals.
pub open spec fn is_most_distant(field: Seq<Option<usize>>, i: int) -> bool {
    &&& 0 <= i < field.len()
    &&& field[i] is Some
    &&& forall|j: int| 0 <= j < field.len() && #[trigger] field[j] is Some ==> field[j]->Some_0 <= field[i]->Some_0
    &&& forall|j: int| 0 <= j < i && #[trigger] field[j] is Some ==> field[j]->Some_0 < field[i]->Some_0
}

/// Index of the greatest finite distance, first among equals; `None` when nothing was
/// reached.
pub fn most_distant(field: &Vec<Option<usize>>) -> (r: Option<usize>)
    ensures
        r is None <==> forall|j: int| 0 <= j < field@.len() ==> #[trigger] field@[j] is None,
        r is Some ==> is_most_distant(field@, r->Some_0 as int),
{
    let n = field.len();
    let mut best: Option<usize> = None;
    let mut best_d: usize = 0;
    let mut i: usize = 0;
    while i < n
        invariant
            n == field@.len(),
            i <= n,
            best is None <==> forall|j: int| 0 <= j < i ==> #[trigger] field@[j] is None,
            best is Some ==> {
                let b = best->Some_0 as int;
                &&& b < i
                &&& field@[b] == Some(best_d)
                &&& forall|j: int| 0 <= j < i && #[trigger] field@[j] is Some ==> field@[j]->Some_0 <= best_d
                &&& forall|j: int| 0 <= j < b && #[trigger] field@[j] is Some ==> field@[j]->Some_0 < best_d
            },
        decreases n - i,
    {
        match field[i] {
            Some(d) => {
                match best {
                    None => {
                        best = Some(i);
                        best_d = d;
                    }
                    Some(_) => {
                        if d > best_d {
                            best = Some(i);
                            best_d = d;
                        }
                    }
                }
            }
            None => {}
        }
        i = i + 1;
    }
    best
}

/// A candidate is kept unless the flood reached it in fewer than `MIN_SPAWN_DISTANCE` steps.
pub open spec fn spawn_kept(map: &Grid, field: Seq<Option<usize>>, p: Point) -> bool {
    map.spec_in_bounds(p) && (field[map.spec_idx(p)] is None || field[map.spec_idx(p)]->Some_0 >= MIN_SPAWN_DISTANCE)
}

/// The candidates that `spawn_kept` keeps, in their order.
pub open spec fn spawn_filter(map: &Grid, field: Seq<Option<usize>>, c: Seq<Point>) -> Seq<Point>
    decreases c.len(),
{
    if c.len() == 0 {
        Seq::empty()
    } else {
        let rest = spawn_filter(map, field, c.drop_last());
        if spawn_kept(map, field, c.last()) { rest.push(c.last()) } else { rest }
    }
}

/// Drops the candidates that lie close to `start`, by a flood of cutoff `SPAWN_CUTOFF`.
pub fn filter_spawns(map: &Grid, start: Point, candidates: &Vec<Point>) -> (r: Vec<Point>)
    requires
        map.wf(),
        map.spec_in_bounds(start),
    ensures
        exists|field: Seq<Option<usize>>|
            is_distance_field(map, seq![map.spec_idx(start) as usize], SPAWN_CUTOFF as int, field)
                && r@ == spawn_filter(map, field, candidates@),
{
    let s = map.point2d_to_index(start);
    let sources: Vec<usize> = vec![s];
    let field = distance_field(map, &sources, SPAWN_CUTOFF);
    let mut r: Vec<Point> = Vec::new();
    let mut i: usize = 0;
    while i < candidates.len()
        invariant
            map.wf(),
            field@.len() == map.tiles@.len(),
            i <= candidates@.len(),
            r@ == spawn_filter(map, field@, candidates@.take(i as int)),
        decreases candidates@.len() - i,
    {
        let p = candidates[i];
        proof {
            assert(candidates@.take(i as int + 1).drop_last() =~= candidates@.take(i as int));
        }
        if map.in_bounds(p) {
            let k = map.point2d_to_index(p);
            let keep = match field[k] {
                None => true,
                Some(d) => d >= MIN_SPAWN_DISTANCE,
            };
            if keep {
                r.push(p);
            }
        }
        i = i + 1;
    }
    proof {
        assert(candidates@.take(candidates@.len() as int) =~= candidates@);
        assert(sources@ == seq![s]);
    }
    r
}

/// Picks up to `NUM_MONSTERS` spawn points: all of them, in order, when there are no more
/// than that; else `NUM_MONSTERS` entries drawn at random, each taken out of the pool once
/// drawn.
pub fn choose_spawns(rng: &mut RandomNumberGenerator, candidates: Vec<Point>) -> (r: Vec<Point>)
    ensures
        candidates@.len() <= NUM_MONSTERS ==> r@ == candidates@,
        candidates@.len() > NUM_MONSTERS ==> r@.len() == NUM_MONSTERS,
        forall|k: int| 0 <= k < r@.len() ==> candidates@.contains(#[trigger] r@[k]),
{
    if candidates.len() <= NUM_MONSTERS {
        return candidates;
    }
    let ghost all = candidates@;
    let mut pool = candidates;
    let mut r: Vec<Point> = Vec::new();
    while r.len() < NUM_MONSTERS
        invariant
            all.len() > NUM_MONSTERS,
            r@.len() <= NUM_MONSTERS,
            pool@.len() + r@.len() == all.len(),
            forall|k: int| 0 <= k < pool@.len() ==> all.contains(#[trigger] pool@[k]),
            forall|k: int| 0 <= k < r@.len() ==> all.contains(#[trigger] r@[k]),
        decreases NUM_MONSTERS - r@.len(),
    {
        let hi: usize = if pool.len() > 1_000_000_000 { 1_000_000_000 } else { pool.len() };
        let t = roll(rng, 0, hi as i32) as usize;
        let ghost before = pool@;
        let p = pool.remove(t);
        proof {
            assert(all.contains(before[t as int]));
            assert forall|k: int| 0 <= k < pool@.len() implies all.contains(#[trigger] pool@[k]) by {
                if k < t {
                    assert(pool@[k] == before[k]);
                } else {
                    assert(pool@[k] == before[k + 1]);
                }
            }
        }
        r.push(p);
    }
    r
}

/// A generated level.
pub struct MapBuilder {
    pub map: Grid,
    pub rooms: Vec<Rect>,
    pub player_start: Point,
    pub amulet_start: Point,
    pub monster_spawns: Vec<Point>,
    pub theme: Theme,
}

/// Every point lies on the grid and is floor.
pub open spec fn on_floor(map: &Grid, pts: Seq<Point>) -> bool {
    forall|k: int| 0 <= k < pts.len() ==> map.spec_in_bounds(#[trigger] pts[k]) && map.at(pts[k]) == TileType::Floor
}

/// The generated level's core guarantees: both ends can be entered, the goal is the tile
/// farthest from the start and can be reached from it, and every monster stands on an
/// enterable tile that the spawn filter kept.
pub open spec fn level_valid(mb: &MapBuilder, place_exit: bool) -> bool {
    level_parts_valid(&mb.map, mb.player_start, mb.amulet_start, mb.monster_spawns@, place_exit)
}

pub open spec fn level_parts_valid(map: &Grid, start: Point, goal_pt: Point, spawns: Seq<Point>, place_exit: bool) -> bool {
    let s = map.spec_idx(start);
    let goal = map.spec_idx(goal_pt);
    let n = map.tiles@.len() as int;
    &&& map.wf()
    &&& map.spec_in_bounds(start)
    &&& map.spec_in_bounds(goal_pt)
    &&& walkable(map.at(start))
    &&& (start != goal_pt || !place_exit) ==> map.at(start) == TileType::Floor
    &&& (place_exit ==> map.at(goal_pt) == TileType::Exit)
    &&& walkable(map.at(goal_pt))
    &&& exists|field: Seq<Option<usize>>|
        is_distance_field(map, seq![s as usize], n, field) && #[trigger] is_most_distant(field, goal)
    &&& reachable_within(map, s, goal, n)
    &&& spawns.len() <= NUM_MONSTERS
    &&& exists|field: Seq<Option<usize>>|
        #[trigger] is_distance_field(map, seq![s as usize], SPAWN_CUTOFF as int, field)
            && forall|k: int| 0 <= k < spawns.len() ==> spawn_kept(map, field, #[trigger] spawns[k])
                && walkable(map.at(spawns[k]))
}

/// The centres of all rooms but the first, in order.
pub open spec fn later_centres(rooms: Seq<Rect>) -> Seq<Point> {
    Seq::new((rooms.len() - 1) as nat, |k: int| rooms[k + 1].spec_center())
}

/// What each architect guarantees, carried into the finished level.
pub open spec fn keeps_architect(mb: &MapBuilder, kind: ArchitectKind, width: usize, height: usize, place_exit: bool) -> bool {
    let s = mb.map.spec_idx(mb.player_start);
    &&& kind == ArchitectKind::DrunkardsWalk ==> {
        &&& mb.player_start == Point { x: (width / 2) as i32, y: (height / 2) as i32 }
        &&& floors_reach_centre(&mb.map, s)
        &&& floor_count(mb.map.tiles@) + 1 >= desired_floor(&mb.map)
    }
    &&& kind == ArchitectKind::CellularAutomata ==> (!place_exit || mb.amulet_start != mb.player_start ==> is_start_index(&mb.map, s))
    &&& kind == ArchitectKind::Rooms ==> {
        &&& mb.rooms@.len() == NUM_ROOMS
        &&& forall|k: int| 0 <= k < mb.rooms@.len() ==> (#[trigger] mb.rooms@[k]).fits_inside(&mb.map)
        &&& rooms_linked(&mb.map, mb.rooms@)
        &&& mb.player_start == mb.rooms@[0].spec_center()
        &&& exists|field: Seq<Option<usize>>|
            is_distance_field(&mb.map, seq![s as usize], SPAWN_CUTOFF as int, field)
                && mb.monster_spawns@ == #[trigger] spawn_filter(&mb.map, field, later_centres(mb.rooms@))
    }
    &&& kind != ArchitectKind::Rooms ==> mb.rooms@.len() == 0
}

/// What the spawn filter keeps comes from its candidates and passes the filter.
pub proof fn lemma_spawn_filter_kept(map: &Grid, field: Seq<Option<usize>>, c: Seq<Point>)
    ensures
        spawn_filter(map, field, c).len() <= c.len(),
        forall|k: int| 0 <= k < spawn_filter(map, field, c).len() ==> spawn_kept(map, field, #[trigger] spawn_filter(map, field, c)[k])
            && c.contains(spawn_filter(map, field, c)[k]),
    decreases c.len(),
{
    if c.len() > 0 {
        let rest = spawn_filter(map, field, c.drop_last());
        lemma_spawn_filter_kept(map, field, c.drop_last());
        let r = spawn_filter(map, field, c);
        assert forall|k: int| 0 <= k < r.len() implies spawn_kept(map, field, #[trigger] r[k]) && c.contains(r[k]) by {
            if k < rest.len() {
                assert(r[k] == rest[k]);
                let j = choose|j: int| 0 <= j < c.drop_last().len() && c.drop_last()[j] == rest[k];
                assert(c[j] == rest[k]);
            } else {
                assert(r[k] == c.last());
                assert(c[c.len() - 1] == c.last());
            }
        }
    }
}

/// Setting one tile loses at most one floor tile.
proof fn lemma_floor_count_update(s: Seq<TileType>, i: int, t: TileType, j: int)
    requires
        0 <= i < s.len(),
        0 <= j <= s.len(),
    ensures
        floor_count_upto(s.update(i, t), j) + 1 >= floor_count_upto(s, j),
        j <= i ==> floor_count_upto(s.update(i, t), j) == floor_count_upto(s, j),
    decreases j,
{
    if j > 0 {
        lemma_floor_count_update(s, i, t, j - 1);
    }
}

/// The cell farthest from `start` over the whole grid, first in scan order among equals.
fn find_most_distant(map: &Grid, start: Point) -> (r: Point)
    requires
        map.wf(),
        map.spec_in_bounds(start),
    ensures
        map.spec_in_bounds(r),
        exists|field: Seq<Option<usize>>|
            is_distance_field(map, seq![map.spec_idx(start) as usize], map.tiles@.len() as int, field)
                && is_most_distant(field, map.spec_idx(r)),
        reachable_within(map, map.spec_idx(start), map.spec_idx(r), map.tiles@.len() as int),
        map.spec_idx(r) != map.spec_idx(start) ==> walkable(map.at(r)),
{
    let s = map.point2d_to_index(start);
    let sources: Vec<usize> = vec![s];
    let n = map.tiles.len();
    let field = distance_field(map, &sources, n);
    proof {
        assert(sources@ == seq![s]);
        assert(sources@[0] == s);
        assert(field@[s as int] == Some(0usize));
    }
    match most_distant(&field) {
        None => start,
        Some(g) => {
            proof {
                lemma_traced_reachable(map, s, n as int, field@, g as int);
                let p = choose|p: Seq<int>| is_route(map, p) && p[0] == s as int && p.last() == g as int
                    && p.len() <= field@[g as int]->Some_0 + 1;
                assert(p.len() <= n + 1);
                if g != s {
                    assert(p.len() >= 2);
                    assert(walkable(map.tiles@[p[p.len() - 1]]));
                }
            }
            map.index_to_point2d(g)
        }
    }
}

/// In every generated level the player's start and the goal can be reached from each
/// other over enterable tiles.
pub proof fn lemma_start_goal_connected(mb: &MapBuilder, place_exit: bool)
    requires
        level_valid(mb, place_exit),
    ensures
        reachable_within(&mb.map, mb.map.spec_idx(mb.player_start), mb.map.spec_idx(mb.amulet_start), mb.map.tiles@.len() as int),
        reachable_within(&mb.map, mb.map.spec_idx(mb.amulet_start), mb.map.spec_idx(mb.player_start), mb.map.tiles@.len() as int),
{
    lemma_reachable_symmetric(
        &mb.map,
        mb.map.spec_idx(mb.player_start),
        mb.map.spec_idx(mb.amulet_start),
        mb.map.tiles@.len() as int,
    );
}

/// Places the goal on the tile farthest from `start` (marking it as the exit when asked)
/// and picks the monster spawns among the candidates the spawn filter keeps.
fn place_goal_and_spawns(
    rng: &mut RandomNumberGenerator,
    map: &mut Grid,
    start: Point,
    candidates: &Vec<Point>,
    place_exit: bool,
) -> (r: (Point, Vec<Point>))
    requires
        old(map).wf(),
        old(map).spec_in_bounds(start),
        old(map).at(start) == TileType::Floor,
        on_floor(old(map), candidates@),
    ensures
        final(map).wf(),
        same_walkable(old(map), final(map)),
        forall|i: int| 0 <= i < final(map).tiles@.len() && #[trigger] final(map).tiles@[i] == TileType::Floor
            ==> old(map).tiles@[i] == TileType::Floor,
        !place_exit ==> final(map).tiles@ == old(map).tiles@,
        place_exit ==> final(map).tiles@ == old(map).tiles@.update(old(map).spec_idx(r.0), TileType::Exit),
        level_parts_valid(final(map), start, r.0, r.1@, place_exit),
        exists|field: Seq<Option<usize>>|
            is_distance_field(final(map), seq![final(map).spec_idx(start) as usize], SPAWN_CUTOFF as int, field)
                && (#[trigger] spawn_filter(final(map), field, candidates@).len() <= NUM_MONSTERS
                    ==> r.1@ == spawn_filter(final(map), field, candidates@)),
{
    let ghost m0 = *map;
    let amulet_start = find_most_distant(map, start);
    proof {
        map.lemma_idx_point(start);
        map.lemma_idx_point(amulet_start);
    }
    let gi = map.point2d_to_index(amulet_start);
    let s = map.point2d_to_index(start);
    if place_exit {
        map.tiles.set(gi, TileType::Exit);
        proof {
            if start != amulet_start {
                assert(m0.spec_idx(start) != gi);
            }
        }
    }
    proof {
        if gi != s {
            assert(walkable(m0.at(amulet_start)));
        }
        assert(same_walkable(&m0, map));
        let n = m0.tiles@.len() as int;
        let f = choose|f: Seq<Option<usize>>|
            is_distance_field(&m0, seq![s], n, f) && #[trigger] is_most_distant(f, gi as int);
        lemma_field_same_walkable(&m0, map, seq![s], n, f);
        lemma_reachable_kept(&m0, map, s as int, gi as int, n);
        assert(is_distance_field(map, seq![s], n, f) && is_most_distant(f, gi as int));
    }
    let kept = filter_spawns(map, start, candidates);
    let spawns = choose_spawns(rng, kept);
    proof {
        let f = choose|f: Seq<Option<usize>>|
            is_distance_field(map, seq![s], SPAWN_CUTOFF as int, f) && kept@ == spawn_filter(map, f, candidates@);
        lemma_spawn_filter_kept(map, f, candidates@);
        assert forall|k: int| 0 <= k < spawns@.len() implies spawn_kept(map, f, #[trigger] spawns@[k]) && walkable(map.at(spawns@[k])) by {
            let j = choose|j: int| 0 <= j < kept@.len() && kept@[j] == spawns@[k];
            assert(spawn_kept(map, f, kept@[j]));
            assert(candidates@.contains(kept@[j]));
            let c = choose|c: int| 0 <= c < candidates@.len() && candidates@[c] == kept@[j];
            assert(m0.spec_in_bounds(candidates@[c]) && m0.at(candidates@[c]) == TileType::Floor);
            m0.lemma_idx_point(candidates@[c]);
        }
        assert(is_distance_field(map, seq![s], SPAWN_CUTOFF as int, f));
    }
    (amulet_start, spawns)
}

proof fn lemma_walk_kept(m0: &Grid, mb: &MapBuilder, width: usize, height: usize, place_exit: bool)
    requires
        m0.wf(),
        m0.width == width,
        m0.height == height,
        mb.player_start == (Point { x: (width / 2) as i32, y: (height / 2) as i32 }),
        m0.spec_in_bounds(mb.player_start),
        floor_count(m0.tiles@) >= desired_floor(m0),
        floors_reach_centre(m0, m0.spec_idx(mb.player_start)),
        mb.rooms@.len() == 0,
        same_walkable(m0, &mb.map),
        forall|i: int| 0 <= i < mb.map.tiles@.len() && #[trigger] mb.map.tiles@[i] == TileType::Floor
            ==> m0.tiles@[i] == TileType::Floor,
        !place_exit ==> mb.map.tiles@ == m0.tiles@,
        place_exit ==> mb.map.tiles@ == m0.tiles@.update(m0.spec_idx(mb.amulet_start), TileType::Exit),
        mb.map.spec_in_bounds(mb.amulet_start),
    ensures
        keeps_architect(mb, ArchitectKind::DrunkardsWalk, width, height, place_exit),
{
    let c = m0.spec_idx(mb.player_start);
    assert forall|i: int| 0 <= i < mb.map.tiles@.len() && #[trigger] mb.map.tiles@[i] == TileType::Floor
        implies reachable_within(&mb.map, c, i, crate::drunkard::PRUNE_CUTOFF as int) by {
        assert(m0.tiles@[i] == TileType::Floor);
        lemma_reachable_kept(m0, &mb.map, c, i, crate::drunkard::PRUNE_CUTOFF as int);
    }
    if place_exit {
        m0.lemma_idx_point(mb.amulet_start);
        lemma_floor_count_update(m0.tiles@, m0.spec_idx(mb.amulet_start), TileType::Exit, m0.tiles@.len() as int);
    }
}

proof fn lemma_automata_kept(m0: &Grid, mb: &MapBuilder, place_exit: bool)
    requires
        m0.wf(),
        is_start_index(m0, m0.spec_idx(mb.player_start)),
        m0.spec_in_bounds(mb.player_start),
        mb.rooms@.len() == 0,
        same_walkable(m0, &mb.map),
        forall|i: int| 0 <= i < mb.map.tiles@.len() && #[trigger] mb.map.tiles@[i] == TileType::Floor
            ==> m0.tiles@[i] == TileType::Floor,
        !place_exit ==> mb.map.tiles@ == m0.tiles@,
        place_exit ==> mb.map.tiles@ == m0.tiles@.update(m0.spec_idx(mb.amulet_start), TileType::Exit),
        mb.map.spec_in_bounds(mb.amulet_start),
    ensures
        keeps_architect(mb, ArchitectKind::CellularAutomata, m0.width, m0.height, place_exit),
{
    let s = m0.spec_idx(mb.player_start);
    if !place_exit || mb.amulet_start != mb.player_start {
        m0.lemma_idx_point(mb.amulet_start);
        m0.lemma_idx_point(mb.player_start);
        if place_exit {
            assert(m0.spec_idx(mb.amulet_start) != s);
        }
        assert(crate::automata::is_floor_at(m0, s));
        assert(crate::automata::is_floor_at(&mb.map, s));
        assert forall|j: int| 0 <= j < mb.map.tiles@.len() && #[trigger] crate::automata::is_floor_at(&mb.map, j)
            implies crate::automata::centre_dist2(&mb.map, s) <= crate::automata::centre_dist2(&mb.map, j) by {
            assert(crate::automata::is_floor_at(m0, j));
        }
        assert forall|j: int| 0 <= j < s && #[trigger] crate::automata::is_floor_at(&mb.map, j)
            implies crate::automata::centre_dist2(&mb.map, s) < crate::automata::centre_dist2(&mb.map, j) by {
            assert(crate::automata::is_floor_at(m0, j));
        }
    }
}

proof fn lemma_rooms_kept(m0: &Grid, mb: &MapBuilder, candidates: Seq<Point>)
    requires
        m0.wf(),
        mb.rooms@.len() == NUM_ROOMS,
        forall|k: int| 0 <= k < mb.rooms@.len() ==> (#[trigger] mb.rooms@[k]).fits_inside(m0),
        rooms_linked(m0, mb.rooms@),
        mb.player_start == mb.rooms@[0].spec_center(),
        candidates.len() == NUM_ROOMS - 1,
        forall|k: int| 0 <= k < candidates.len() ==> #[trigger] candidates[k] == mb.rooms@[k + 1].spec_center(),
        same_walkable(m0, &mb.map),
        exists|field: Seq<Option<usize>>|
            is_distance_field(&mb.map, seq![mb.map.spec_idx(mb.player_start) as usize], SPAWN_CUTOFF as int, field)
                && (#[trigger] spawn_filter(&mb.map, field, candidates).len() <= NUM_MONSTERS
                    ==> mb.monster_spawns@ == spawn_filter(&mb.map, field, candidates)),
    ensures
        keeps_architect(mb, ArchitectKind::Rooms, m0.width, m0.height, false),
        keeps_architect(mb, ArchitectKind::Rooms, m0.width, m0.height, true),
{
    assert(candidates =~= later_centres(mb.rooms@));
    let f = choose|f: Seq<Option<usize>>|
        is_distance_field(&mb.map, seq![mb.map.spec_idx(mb.player_start) as usize], SPAWN_CUTOFF as int, f)
            && (#[trigger] spawn_filter(&mb.map, f, candidates).len() <= NUM_MONSTERS
                ==> mb.monster_spawns@ == spawn_filter(&mb.map, f, candidates));
    lemma_spawn_filter_kept(&mb.map, f, candidates);
    assert forall|k: int| 0 <= k < mb.rooms@.len() implies connected(
        &mb.map,
        mb.map.spec_idx(mb.rooms@[0].spec_center()),
        mb.map.spec_idx(#[trigger] mb.rooms@[k].spec_center()),
    ) by {
        assert(connected(m0, m0.spec_idx(mb.rooms@[0].spec_center()), m0.spec_idx(mb.rooms@[k].spec_center())));
        lemma_connected_kept_walkable(m0, &mb.map, m0.spec_idx(mb.rooms@[0].spec_center()), m0.spec_idx(mb.rooms@[k].spec_center()));
    }
    assert forall|k: int| 0 <= k < mb.rooms@.len() implies (#[trigger] mb.rooms@[k]).fits_inside(&mb.map) by {
        assert(mb.rooms@[k].fits_inside(m0));
    }
}

impl MapBuilder {
    /// Generates a level of the given size with the given architect. The goal is the tile
    /// farthest from the player's start; with `place_exit` it is marked as the exit. Sizes
    /// outside `1..=MAX_DIM`, and below 3 by 3 for rooms, are `TooSmall`.
    pub fn build(
        rng: &mut RandomNumberGenerator,
        kind: ArchitectKind,
        width: usize,
        height: usize,
        place_exit: bool,
    ) -> (r: Result<MapBuilder, BuildError>)
        ensures
            !dims_ok(width as int, height as int) ==> r == Err::<MapBuilder, BuildError>(BuildError::TooSmall),
            kind == ArchitectKind::Rooms ==> ((width < 3 || height < 3) ==> r == Err::<MapBuilder, BuildError>(BuildError::TooSmall)),
            kind == ArchitectKind::Rooms && dims_ok(width as int, height as int) && width >= 3 && height >= 3 ==> r is Ok,
            kind == ArchitectKind::CellularAutomata && r is Err ==> r == Err::<MapBuilder, BuildError>(BuildError::TooSmall) || r == Err::<MapBuilder, BuildError>(BuildError::NoValidStart),
            kind == ArchitectKind::DrunkardsWalk && r is Err ==> r == Err::<MapBuilder, BuildError>(BuildError::TooSmall) || r == Err::<MapBuilder, BuildError>(BuildError::DensityUnreachable),
            r is Ok ==> {
                let mb = r->Ok_0;
                &&& mb.map.width == width
                &&& mb.map.height == height
                &&& level_valid(&mb, place_exit)
                &&& keeps_architect(&mb, kind, width, height, place_exit)
            },
    {
        if width < 1 || width > MAX_DIM || height < 1 || height > MAX_DIM {
            return Err(BuildError::TooSmall);
        }
        let layout = match kind {
            ArchitectKind::CellularAutomata => {
                let mut a = CellularAutomataArchitect {};
                a.new(rng, width, height)
            }
            ArchitectKind::DrunkardsWalk => {
                let mut a = DrunkardsWalkArchitect {};
                a.new(rng, width, height)
            }
            ArchitectKind::Rooms => {
                let mut a = RoomArchitect {};
                a.new(rng, width, height)
            }
        };
        let layout = match layout {
            Ok(l) => l,
            Err(e) => {
                return Err(e);
            }
        };
        proof {
            if kind == ArchitectKind::CellularAutomata {
                assert(crate::automata::is_floor_at(&layout.map, layout.map.spec_idx(layout.player_start)));
            }
            if kind == ArchitectKind::Rooms {
                assert(layout.map.spec_in_bounds(layout.rooms@[0].spec_center()));
            }
        }
        let Layout { mut map, rooms, player_start, spawn_candidates } = layout;
        let ghost m0 = map;
        let (amulet_start, monster_spawns) = place_goal_and_spawns(rng, &mut map, player_start, &spawn_candidates, place_exit);
        let theme = theme_from_roll(roll(rng, 0, 2));
        let mb = MapBuilder { map, rooms, player_start, amulet_start, monster_spawns, theme };
        proof {
            if kind == ArchitectKind::DrunkardsWalk {
                lemma_walk_kept(&m0, &mb, width, height, place_exit);
            } else if kind == ArchitectKind::CellularAutomata {
                lemma_automata_kept(&m0, &mb, place_exit);
            } else {
                lemma_rooms_kept(&m0, &mb, spawn_candidates@);
            }
        }
        Ok(mb)
    }

    /// Generates a level with an architect picked at random.
    pub fn new(rng: &mut RandomNumberGenerator, width: usize, height: usize, place_exit: bool) -> (r: Result<MapBuilder, BuildError>)
        ensures
            !dims_ok(width as int, height as int) ==> r == Err::<MapBuilder, BuildError>(BuildError::TooSmall),
            r is Ok ==> {
                let mb = r->Ok_0;
                &&& mb.map.width == width
                &&& mb.map.height == height
                &&& level_valid(&mb, place_exit)
                &&& exists|kind: ArchitectKind| #[trigger] keeps_architect(&mb, kind, width, height, place_exit)
            },
    {
        let kind = architect_from_roll(roll(rng, 0, 3));
        let r = MapBuilder::build(rng, kind, width, height, place_exit);
        proof {
            if r is Ok {
                assert(keeps_architect(&r->Ok_0, kind, width, height, place_exit));
            }
        }
        r
    }
}

} // verus!
