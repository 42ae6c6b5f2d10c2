use vstd::prelude::*;
use bracket_lib::prelude::RandomNumberGenerator;
use crate::builder::{on_floor, BuildError, Layout};
use crate::distance::{
    adjacent,
    connected,
    is_route,
    lemma_connected_refl,
    lemma_connected_symmetric,
    lemma_connected_trans,
    lemma_route_transfer,
};
use crate::grid::{dims_ok, walkable, Grid, Point, TileType};
use vstd::arithmetic::div_mod::lemma_fundamental_div_mod_converse;
use crate::rng::roll;

verus! {

/// Number of rooms carved.
pub const NUM_ROOMS: usize = 20;

/// Rooms are at most this many cells wide or high.
pub const MAX_ROOM_SIZE: i32 = 10;

/// An axis-aligned rectangle of cells: columns `x..x + width`, rows `y..y + height`.
#[derive(Clone, Copy, Debug, PartialEq, Eq, Structural)]
pub struct Rect {
    pub x: i32,
    pub y: i32,
    pub width: i32,
    pub height: i32,
}

impl Rect {
    pub open spec fn spec_center(&self) -> Point {
        Point { x: (self.x + self.width / 2) as i32, y: (self.y + self.height / 2) as i32 }
    }

    /// Non-empty and clear of the grid's border.
    pub open spec fn fits_inside(&self, g: &Grid) -> bool {
        &&& 1 <= self.x
        &&& 1 <= self.y
        &&& 1 <= self.width
        &&& 1 <= self.height
        &&& self.x + self.width <= g.width - 1
        &&& self.y + self.height <= g.height - 1
    }

    pub open spec fn covers(&self, p: Point) -> bool {
        self.x <= p.x < self.x + self.width && self.y <= p.y < self.y + self.height
    }

    pub fn with_size(x: i32, y: i32, width: i32, height: i32) -> (r: Rect)
        ensures
            r == (Rect { x, y, width, height }),
    {
        Rect { x, y, width, height }
    }

    /// The middle cell, rounding towards the top left.
    pub fn center(&self) -> (r: Point)
        requires
            0 <= self.x <= 1000,
            0 <= self.y <= 1000,
            0 <= self.width <= 1000,
            0 <= self.height <= 1000,
        ensures
            r == self.spec_center(),
    {
        Point { x: self.x + self.width / 2, y: self.y + self.height / 2 }
    }
}

/// Carves rooms joined by corridors.
pub struct RoomArchitect {}

/// Every tile is unchanged or has become floor.
pub open spec fn keeps_floor(before: Seq<TileType>, after: Seq<TileType>) -> bool {
    &&& after.len() == before.len()
    &&& forall|i: int| 0 <= i < before.len() ==> #[trigger] after[i] == before[i] || after[i] == TileType::Floor
}

/// Connections survive carving.
pub proof fn lemma_connected_kept(m0: &Grid, m1: &Grid, a: int, b: int)
    requires
        connected(m0, a, b),
        m1.width == m0.width,
        keeps_floor(m0.tiles@, m1.tiles@),
    ensures
        connected(m1, a, b),
{
    let p = choose|p: Seq<int>| #![trigger is_route(m0, p)] is_route(m0, p) && p[0] == a && p.last() == b;
    assert forall|k: int| 1 <= k < p.len() implies walkable(m1.tiles@[#[trigger] p[k]]) by {
        assert(walkable(m0.tiles@[p[k]]));
        assert(0 <= p[k] < m0.tiles@.len());
    }
    lemma_route_transfer(m0, m1, p);
    assert(is_route(m1, p) && p[0] == a && p.last() == b);
}

/// A floor stretch of row `y` connects its ends.
pub proof fn lemma_row_connected(g: &Grid, x1: int, x2: int, y: int)
    requires
        g.wf(),
        0 <= x1 <= x2 < g.width,
        0 <= y < g.height,
        forall|x: int| x1 <= x <= x2 ==> #[trigger] g.tiles@[y * g.width + x] == TileType::Floor,
    ensures
        connected(g, y * g.width + x1, y * g.width + x2),
{
    let w = g.width as int;
    let p = Seq::new((x2 - x1 + 1) as nat, |k: int| y * w + x1 + k);
    assert(g.tiles@.len() == w * g.height);
    let h = g.height as int;
    assert(y * w + x2 < w * h) by (nonlinear_arith)
        requires 0 <= y < h, 0 <= x2 < w;
    assert(0 <= y * w) by (nonlinear_arith) requires y >= 0, w >= 1;
    assert forall|k: int| 0 <= k < p.len() - 1 implies adjacent(g, #[trigger] p[k], p[k + 1]) by {
        lemma_fundamental_div_mod_converse(p[k], w, y, x1 + k);
    }
    assert forall|k: int| 1 <= k < p.len() implies walkable(g.tiles@[#[trigger] p[k]]) by {
        assert(g.tiles@[y * w + (x1 + k)] == TileType::Floor);
    }
    assert(is_route(g, p) && p[0] == y * w + x1 && p.last() == y * w + x2);
}

/// A floor stretch of column `x` connects its ends.
pub proof fn lemma_column_connected(g: &Grid, y1: int, y2: int, x: int)
    requires
        g.wf(),
        0 <= y1 <= y2 < g.height,
        0 <= x < g.width,
        forall|y: int| y1 <= y <= y2 ==> #[trigger] g.tiles@[y * g.width + x] == TileType::Floor,
    ensures
        connected(g, y1 * g.width + x, y2 * g.width + x),
{
    let w = g.width as int;
    let h = g.height as int;
    let p = Seq::new((y2 - y1 + 1) as nat, |k: int| (y1 + k) * w + x);
    assert forall|k: int| 0 <= k < p.len() implies 0 <= #[trigger] p[k] < g.tiles@.len() by {
        assert(0 <= (y1 + k) * w + x < w * h) by (nonlinear_arith)
            requires 0 <= y1 + k < h, 0 <= x < w;
    }
    assert forall|k: int| 0 <= k < p.len() - 1 implies adjacent(g, #[trigger] p[k], p[k + 1]) by {
        assert((y1 + k + 1) * w + x == (y1 + k) * w + x + w) by (nonlinear_arith);
        assert(0 <= p[k + 1] < g.tiles@.len());
    }
    assert forall|k: int| 1 <= k < p.len() implies walkable(g.tiles@[#[trigger] p[k]]) by {
        assert(g.tiles@[(y1 + k) * w + x] == TileType::Floor);
    }
    assert(is_route(g, p) && p[0] == y1 * w + x && p.last() == y2 * w + x);
}

/// Carves the cells of `room` to floor.
pub fn carve_room(map: &mut Grid, room: &Rect)
    requires
        old(map).wf(),
        room.fits_inside(old(map)),
    ensures
        final(map).wf(),
        final(map).width == old(map).width,
        final(map).height == old(map).height,
        keeps_floor(old(map).tiles@, final(map).tiles@),
        forall|p: Point| room.covers(p) ==> #[trigger] final(map).at(p) == TileType::Floor,
        forall|p: Point|
            final(map).spec_in_bounds(p) && !room.covers(p) ==> #[trigger] final(map).at(p) == old(map).at(p),
{
    let mut yy: i32 = room.y;
    while yy < room.y + room.height
        invariant
            map.wf(),
            map.width == old(map).width,
            map.height == old(map).height,
            room.fits_inside(map),
            room.y <= yy <= room.y + room.height,
            keeps_floor(old(map).tiles@, map.tiles@),
            forall|p: Point| room.covers(p) && p.y < yy ==> #[trigger] map.at(p) == TileType::Floor,
            forall|p: Point| map.spec_in_bounds(p) && !room.covers(p) ==> #[trigger] map.at(p) == old(map).at(p),
        decreases room.y + room.height - yy,
    {
        let mut xx: i32 = room.x;
        while xx < room.x + room.width
            invariant
                map.wf(),
                map.width == old(map).width,
                map.height == old(map).height,
                room.fits_inside(map),
                room.y <= yy < room.y + room.height,
                room.x <= xx <= room.x + room.width,
                keeps_floor(old(map).tiles@, map.tiles@),
                forall|p: Point| room.covers(p) && (p.y < yy || (p.y == yy && p.x < xx)) ==> #[trigger] map.at(p) == TileType::Floor,
                forall|p: Point| map.spec_in_bounds(p) && !room.covers(p) ==> #[trigger] map.at(p) == old(map).at(p),
            decreases room.x + room.width - xx,
        {
            let p = Point::new(xx, yy);
            let i = map.point2d_to_index(p);
            let ghost m0 = *map;
            map.tiles.set(i, TileType::Floor);
            proof {
                assert forall|q: Point| room.covers(q) && (q.y < yy || (q.y == yy && q.x < xx + 1)) implies #[trigger] map.at(q) == TileType::Floor by {
                    if q != p {
                        map.lemma_idx_point(q);
                        map.lemma_idx_point(p);
                        assert(m0.at(q) == TileType::Floor);
                        assert(map.spec_idx(q) != i);
                    }
                }
                assert forall|q: Point| map.spec_in_bounds(q) && !room.covers(q) implies #[trigger] map.at(q) == old(map).at(q) by {
                    map.lemma_idx_point(q);
                    map.lemma_idx_point(p);
                    assert(map.spec_idx(q) != i);
                    assert(m0.at(q) == old(map).at(q));
                }
            }
            xx = xx + 1;
        }
        yy = yy + 1;
    }
}

/// Floor along row `y` from column `x1` to `x2`, both included, in either order.
pub fn apply_horizontal_tunnel(map: &mut Grid, x1: i32, x2: i32, y: i32)
    requires
        old(map).wf(),
        old(map).spec_in_bounds(Point { x: x1, y }),
        old(map).spec_in_bounds(Point { x: x2, y }),
    ensures
        final(map).wf(),
        final(map).width == old(map).width,
        final(map).height == old(map).height,
        keeps_floor(old(map).tiles@, final(map).tiles@),
        forall|x: i32| (x1 <= x <= x2 || x2 <= x <= x1) ==> #[trigger] final(map).at(Point { x, y }) == TileType::Floor,
        forall|p: Point|
            final(map).spec_in_bounds(p) && !(p.y == y && (x1 <= p.x <= x2 || x2 <= p.x <= x1))
                ==> #[trigger] final(map).at(p) == old(map).at(p),
{
    let lo = if x1 < x2 { x1 } else { x2 };
    let hi = if x1 < x2 { x2 } else { x1 };
    let mut x: i32 = lo;
    while x <= hi
        invariant
            map.wf(),
            map.width == old(map).width,
            map.height == old(map).height,
            0 <= lo <= x <= hi + 1,
            hi < map.width,
            0 <= y < map.height,
            lo == (if x1 < x2 { x1 } else { x2 }),
            hi == (if x1 < x2 { x2 } else { x1 }),
            keeps_floor(old(map).tiles@, map.tiles@),
            forall|xx: i32| lo <= xx < x ==> #[trigger] map.at(Point { x: xx, y }) == TileType::Floor,
            forall|p: Point|
                map.spec_in_bounds(p) && !(p.y == y && lo <= p.x <= hi) ==> #[trigger] map.at(p) == old(map).at(p),
        decreases hi + 1 - x,
    {
        let p = Point::new(x, y);
        let i = map.point2d_to_index(p);
        let ghost m0 = *map;
        map.tiles.set(i, TileType::Floor);
        proof {
            assert forall|xx: i32| lo <= xx < x + 1 implies #[trigger] map.at(Point { x: xx, y }) == TileType::Floor by {
                let q = Point { x: xx, y };
                if xx != x {
                    map.lemma_idx_point(q);
                    map.lemma_idx_point(p);
                    assert(m0.at(q) == TileType::Floor);
                    assert(map.spec_idx(q) != i);
                }
            }
            assert forall|q: Point| map.spec_in_bounds(q) && !(q.y == y && lo <= q.x <= hi) implies #[trigger] map.at(q) == old(map).at(q) by {
                map.lemma_idx_point(q);
                map.lemma_idx_point(p);
                assert(map.spec_idx(q) != i);
                assert(m0.at(q) == old(map).at(q));
            }
        }
        x = x + 1;
    }
}

/// Floor along column `x` from row `y1` to `y2`, both included, in either order.
pub fn apply_vertical_tunnel(map: &mut Grid, y1: i32, y2: i32, x: i32)
    requires
        old(map).wf(),
        old(map).spec_in_bounds(Point { x, y: y1 }),
        old(map).spec_in_bounds(Point { x, y: y2 }),
    ensures
        final(map).wf(),
        final(map).width == old(map).width,
        final(map).height == old(map).height,
        keeps_floor(old(map).tiles@, final(map).tiles@),
        forall|y: i32| (y1 <= y <= y2 || y2 <= y <= y1) ==> #[trigger] final(map).at(Point { x, y }) == TileType::Floor,
        forall|p: Point|
            final(map).spec_in_bounds(p) && !(p.x == x && (y1 <= p.y <= y2 || y2 <= p.y <= y1))
                ==> #[trigger] final(map).at(p) == old(map).at(p),
{
    let lo = if y1 < y2 { y1 } else { y2 };
    let hi = if y1 < y2 { y2 } else { y1 };
    let mut y: i32 = lo;
    while y <= hi
        invariant
            map.wf(),
            map.width == old(map).width,
            map.height == old(map).height,
            0 <= lo <= y <= hi + 1,
            hi < map.height,
            0 <= x < map.width,
            lo == (if y1 < y2 { y1 } else { y2 }),
            hi == (if y1 < y2 { y2 } else { y1 }),
            keeps_floor(old(map).tiles@, map.tiles@),
            forall|yy: i32| lo <= yy < y ==> #[trigger] map.at(Point { x, y: yy }) == TileType::Floor,
            forall|p: Point|
                map.spec_in_bounds(p) && !(p.x == x && lo <= p.y <= hi) ==> #[trigger] map.at(p) == old(map).at(p),
        decreases hi + 1 - y,
    {
        let p = Point::new(x, y);
        let i = map.point2d_to_index(p);
        let ghost m0 = *map;
        map.tiles.set(i, TileType::Floor);
        proof {
            assert forall|yy: i32| lo <= yy < y + 1 implies #[trigger] map.at(Point { x, y: yy }) == TileType::Floor by {
                let q = Point { x, y: yy };
                if yy != y {
                    map.lemma_idx_point(q);
                    map.lemma_idx_point(p);
                    assert(m0.at(q) == TileType::Floor);
                    assert(map.spec_idx(q) != i);
                }
            }
            assert forall|q: Point| map.spec_in_bounds(q) && !(q.x == x && lo <= q.y <= hi) implies #[trigger] map.at(q) == old(map).at(q) by {
                map.lemma_idx_point(q);
                map.lemma_idx_point(p);
                assert(map.spec_idx(q) != i);
                assert(m0.at(q) == old(map).at(q));
            }
        }
        y = y + 1;
    }
}

/// A floor stretch of row `y` between `xa` and `xb` connects its ends.
pub proof fn lemma_h_connected(g: &Grid, xa: i32, xb: i32, y: i32)
    requires
        g.wf(),
        g.spec_in_bounds(Point { x: xa, y }),
        g.spec_in_bounds(Point { x: xb, y }),
        forall|x: i32| (xa <= x <= xb || xb <= x <= xa) ==> #[trigger] g.at(Point { x, y }) == TileType::Floor,
    ensures
        connected(g, g.spec_idx(Point { x: xa, y }), g.spec_idx(Point { x: xb, y })),
{
    let lo = if xa <= xb { xa } else { xb };
    let hi = if xa <= xb { xb } else { xa };
    assert forall|x: int| lo <= x <= hi implies #[trigger] g.tiles@[y * g.width + x] == TileType::Floor by {
        assert(g.at(Point { x: x as i32, y }) == TileType::Floor);
    }
    lemma_row_connected(g, lo as int, hi as int, y as int);
    if xa > xb {
        g.lemma_idx_point(Point { x: xb, y });
        lemma_connected_symmetric(g, g.spec_idx(Point { x: xb, y }), g.spec_idx(Point { x: xa, y }));
    }
}

/// A floor stretch of column `x` between `ya` and `yb` connects its ends.
pub proof fn lemma_v_connected(g: &Grid, ya: i32, yb: i32, x: i32)
    requires
        g.wf(),
        g.spec_in_bounds(Point { x, y: ya }),
        g.spec_in_bounds(Point { x, y: yb }),
        forall|y: i32| (ya <= y <= yb || yb <= y <= ya) ==> #[trigger] g.at(Point { x, y }) == TileType::Floor,
    ensures
        connected(g, g.spec_idx(Point { x, y: ya }), g.spec_idx(Point { x, y: yb })),
{
    let lo = if ya <= yb { ya } else { yb };
    let hi = if ya <= yb { yb } else { ya };
    assert forall|y: int| lo <= y <= hi implies #[trigger] g.tiles@[y * g.width + x] == TileType::Floor by {
        assert(g.at(Point { x, y: y as i32 }) == TileType::Floor);
    }
    lemma_column_connected(g, lo as int, hi as int, x as int);
    if ya > yb {
        g.lemma_idx_point(Point { x, y: yb });
        lemma_connected_symmetric(g, g.spec_idx(Point { x, y: yb }), g.spec_idx(Point { x, y: ya }));
    }
}

/// Every room's centre is connected to the first room's centre.
pub open spec fn rooms_linked(map: &Grid, rooms: Seq<Rect>) -> bool {
    forall|k: int|
        0 <= k < rooms.len() ==> connected(map, map.spec_idx(rooms[0].spec_center()), map.spec_idx(#[trigger] rooms[k].spec_center()))
}

/// Row `y` is floor from column `x1` to `x2`, both included, in either order.
pub open spec fn row_floor(map: &Grid, y: i32, x1: i32, x2: i32) -> bool {
    forall|x: i32| (x1 <= x <= x2 || x2 <= x <= x1) ==> #[trigger] map.at(Point { x, y }) == TileType::Floor
}

/// Column `x` is floor from row `y1` to `y2`, both included, in either order.
pub open spec fn column_floor(map: &Grid, x: i32, y1: i32, y2: i32) -> bool {
    forall|y: i32| (y1 <= y <= y2 || y2 <= y <= y1) ==> #[trigger] map.at(Point { x, y }) == TileType::Floor
}

/// An L-shaped floor corridor joins `a` and `b`: across then down, or down then across.
pub open spec fn l_corridor(map: &Grid, a: Point, b: Point) -> bool {
    ||| row_floor(map, a.y, a.x, b.x) && column_floor(map, b.x, a.y, b.y)
    ||| column_floor(map, a.x, a.y, b.y) && row_floor(map, b.y, a.x, b.x)
}

proof fn lemma_l_corridor_kept(m0: &Grid, m1: &Grid, a: Point, b: Point)
    requires
        m0.wf(),
        l_corridor(m0, a, b),
        m0.spec_in_bounds(a),
        m0.spec_in_bounds(b),
        m1.width == m0.width,
        m1.height == m0.height,
        keeps_floor(m0.tiles@, m1.tiles@),
    ensures
        l_corridor(m1, a, b),
{
    assert forall|x: i32, y: i32| m0.spec_in_bounds(Point { x, y }) && #[trigger] m0.at(Point { x, y }) == TileType::Floor
        implies m1.at(Point { x, y }) == TileType::Floor by {
        m0.lemma_idx_point(Point { x, y });
    }
    if row_floor(m0, a.y, a.x, b.x) && column_floor(m0, b.x, a.y, b.y) {
        assert forall|x: i32| (a.x <= x <= b.x || b.x <= x <= a.x) implies #[trigger] m1.at(Point { x, y: a.y }) == TileType::Floor by {
            assert(m0.at(Point { x, y: a.y }) == TileType::Floor);
        }
        assert forall|y: i32| (a.y <= y <= b.y || b.y <= y <= a.y) implies #[trigger] m1.at(Point { x: b.x, y }) == TileType::Floor by {
            assert(m0.at(Point { x: b.x, y }) == TileType::Floor);
        }
    } else {
        assert forall|y: i32| (a.y <= y <= b.y || b.y <= y <= a.y) implies #[trigger] m1.at(Point { x: a.x, y }) == TileType::Floor by {
            assert(m0.at(Point { x: a.x, y }) == TileType::Floor);
        }
        assert forall|x: i32| (a.x <= x <= b.x || b.x <= x <= a.x) implies #[trigger] m1.at(Point { x, y: b.y }) == TileType::Floor by {
            assert(m0.at(Point { x, y: b.y }) == TileType::Floor);
        }
    }
}

/// Each room is joined to the one before it by an L-shaped corridor between centres.
pub open spec fn corridors_l_shaped(map: &Grid, rooms: Seq<Rect>) -> bool {
    forall|i: int| 1 <= i < rooms.len() ==> l_corridor(map, rooms[i - 1].spec_center(), #[trigger] rooms[i].spec_center())
}

/// Every tile on the edge of the grid is a wall.
pub open spec fn border_walls(map: &Grid) -> bool {
    forall|p: Point|
        map.spec_in_bounds(p) && (p.x == 0 || p.y == 0 || p.x == map.width - 1 || p.y == map.height - 1)
            ==> #[trigger] map.at(p) == TileType::Wall
}

/// Every room lies inside `map` and its cells are floor.
pub open spec fn rooms_carved(map: &Grid, rooms: Seq<Rect>) -> bool {
    &&& forall|k: int| 0 <= k < rooms.len() ==> #[trigger] rooms[k].fits_inside(map)
    &&& forall|k: int, p: Point| 0 <= k < rooms.len() && #[trigger] rooms[k].covers(p) ==> #[trigger] map.at(p) == TileType::Floor
}

proof fn lemma_rooms_carved_kept(m0: &Grid, m1: &Grid, rooms: Seq<Rect>)
    requires
        m0.wf(),
        rooms_carved(m0, rooms),
        m1.width == m0.width,
        m1.height == m0.height,
        keeps_floor(m0.tiles@, m1.tiles@),
    ensures
        rooms_carved(m1, rooms),
{
    assert forall|k: int| 0 <= k < rooms.len() implies #[trigger] rooms[k].fits_inside(m1) by {
        assert(rooms[k].fits_inside(m0));
    }
    assert forall|k: int, p: Point| 0 <= k < rooms.len() && #[trigger] rooms[k].covers(p) implies #[trigger] m1.at(p) == TileType::Floor by {
        assert(rooms[k].fits_inside(m0));
        assert(m0.at(p) == TileType::Floor);
        m0.lemma_idx_point(p);
    }
}

impl RoomArchitect {
    /// Carves `NUM_ROOMS` rooms at random places and sizes; rooms may overlap.
    pub fn build_rooms(&mut self, rng: &mut RandomNumberGenerator, map: &mut Grid) -> (rooms: Vec<Rect>)
        requires
            old(map).wf(),
            old(map).width >= 3,
            old(map).height >= 3,
            border_walls(old(map)),
        ensures
            final(map).wf(),
            final(map).width == old(map).width,
            final(map).height == old(map).height,
            rooms@.len() == NUM_ROOMS,
            rooms_carved(final(map), rooms@),
            border_walls(final(map)),
            forall|k: int| 0 <= k < rooms@.len() ==> (#[trigger] rooms@[k]).width <= MAX_ROOM_SIZE && rooms@[k].height <= MAX_ROOM_SIZE,
    {
        let w = map.width as i32;
        let h = map.height as i32;
        let mut rooms: Vec<Rect> = Vec::new();
        while rooms.len() < NUM_ROOMS
            invariant
                map.wf(),
                map.width == old(map).width,
                map.height == old(map).height,
                w == map.width,
                h == map.height,
                w >= 3,
                h >= 3,
                rooms@.len() <= NUM_ROOMS,
                rooms_carved(map, rooms@),
                border_walls(map),
                forall|k: int| 0 <= k < rooms@.len() ==> (#[trigger] rooms@[k]).width <= MAX_ROOM_SIZE && rooms@[k].height <= MAX_ROOM_SIZE,
            decreases NUM_ROOMS - rooms@.len(),
        {
            let x = roll(rng, 1, w - 1);
            let y = roll(rng, 1, h - 1);
            let max_w = if MAX_ROOM_SIZE < w - 1 - x { MAX_ROOM_SIZE } else { w - 1 - x };
            let max_h = if MAX_ROOM_SIZE < h - 1 - y { MAX_ROOM_SIZE } else { h - 1 - y };
            let rw = roll(rng, 1, max_w + 1);
            let rh = roll(rng, 1, max_h + 1);
            let room = Rect::with_size(x, y, rw, rh);
            let ghost m0 = *map;
            carve_room(map, &room);
            proof {
                lemma_rooms_carved_kept(&m0, map, rooms@);
                assert forall|p: Point|
                    map.spec_in_bounds(p) && (p.x == 0 || p.y == 0 || p.x == map.width - 1 || p.y == map.height - 1)
                        implies #[trigger] map.at(p) == TileType::Wall by {
                    assert(!room.covers(p));
                    assert(m0.at(p) == TileType::Wall);
                }
            }
            rooms.push(room);
            proof {
                assert forall|k: int| 0 <= k < rooms@.len() implies #[trigger] rooms@[k].fits_inside(map) by {
                    if k < rooms@.len() - 1 {
                        assert(rooms@[k] == rooms@.drop_last()[k]);
                    }
                }
                assert forall|k: int| 0 <= k < rooms@.len() implies (#[trigger] rooms@[k]).width <= MAX_ROOM_SIZE && rooms@[k].height <= MAX_ROOM_SIZE by {
                    if k < rooms@.len() - 1 {
                        assert(rooms@[k] == rooms@.drop_last()[k]);
                    }
                }
                assert forall|k: int, p: Point| 0 <= k < rooms@.len() && #[trigger] rooms@[k].covers(p) implies #[trigger] map.at(p) == TileType::Floor by {
                    if k < rooms@.len() - 1 {
                        assert(rooms@[k] == rooms@.drop_last()[k]);
                    }
                }
            }
        }
        rooms
    }

    /// Joins each room to the one before it with an L-shaped corridor between their
    /// centres; a roll picks whether the corridor runs across or down first.
    pub fn build_corridors(&mut self, rng: &mut RandomNumberGenerator, map: &mut Grid, rooms: &Vec<Rect>)
        requires
            old(map).wf(),
            rooms_carved(old(map), rooms@),
            border_walls(old(map)),
        ensures
            border_walls(final(map)),
            corridors_l_shaped(final(map), rooms@),
            final(map).wf(),
            final(map).width == old(map).width,
            final(map).height == old(map).height,
            keeps_floor(old(map).tiles@, final(map).tiles@),
            rooms_carved(final(map), rooms@),
            rooms_linked(final(map), rooms@),
    {
        if rooms.len() == 0 {
            return;
        }
        proof {
            assert(rooms@[0].fits_inside(map));
            assert(rooms@[0].covers(rooms@[0].spec_center()));
            map.lemma_idx_point(rooms@[0].spec_center());
            lemma_connected_refl(map, map.spec_idx(rooms@[0].spec_center()));
        }
        let mut i: usize = 1;
        while i < rooms.len()
            invariant
                map.wf(),
                map.width == old(map).width,
                map.height == old(map).height,
                keeps_floor(old(map).tiles@, map.tiles@),
                rooms_carved(map, rooms@),
                border_walls(map),
                1 <= i <= rooms@.len(),
                forall|k: int| 1 <= k < i ==> l_corridor(map, rooms@[k - 1].spec_center(), #[trigger] rooms@[k].spec_center()),
                forall|k: int| 0 <= k < i ==> connected(
                    map,
                    map.spec_idx(rooms@[0].spec_center()),
                    map.spec_idx(#[trigger] rooms@[k].spec_center()),
                ),
            decreases rooms@.len() - i,
        {
            assert(rooms@[i - 1].fits_inside(map));
            assert(rooms@[i as int].fits_inside(map));
            let prev = rooms[i - 1].center();
            let new = rooms[i].center();
            let ghost m0 = *map;
            let ghost corner: Point;
            if roll(rng, 0, 2) == 1 {
                apply_horizontal_tunnel(map, prev.x, new.x, prev.y);
                let ghost m1 = *map;
                apply_vertical_tunnel(map, prev.y, new.y, new.x);
                proof {
                    assert forall|p: Point|
                        map.spec_in_bounds(p) && (p.x == 0 || p.y == 0 || p.x == map.width - 1 || p.y == map.height - 1)
                            implies map.at(p) == m0.at(p) by {
                        assert(m1.at(p) == m0.at(p));
                    }
                    corner = Point { x: new.x, y: prev.y };
                    assert forall|x: i32| (prev.x <= x <= new.x || new.x <= x <= prev.x) implies #[trigger] map.at(Point { x, y: prev.y }) == TileType::Floor by {
                        assert(m1.at(Point { x, y: prev.y }) == TileType::Floor);
                        m1.lemma_idx_point(Point { x, y: prev.y });
                    }
                    lemma_h_connected(map, prev.x, new.x, prev.y);
                    lemma_v_connected(map, prev.y, new.y, new.x);
                }
            } else {
                apply_vertical_tunnel(map, prev.y, new.y, prev.x);
                let ghost m1 = *map;
                apply_horizontal_tunnel(map, prev.x, new.x, new.y);
                proof {
                    assert forall|p: Point|
                        map.spec_in_bounds(p) && (p.x == 0 || p.y == 0 || p.x == map.width - 1 || p.y == map.height - 1)
                            implies map.at(p) == m0.at(p) by {
                        assert(m1.at(p) == m0.at(p));
                    }
                    corner = Point { x: prev.x, y: new.y };
                    assert forall|y: i32| (prev.y <= y <= new.y || new.y <= y <= prev.y) implies #[trigger] map.at(Point { x: prev.x, y }) == TileType::Floor by {
                        assert(m1.at(Point { x: prev.x, y }) == TileType::Floor);
                        m1.lemma_idx_point(Point { x: prev.x, y });
                    }
                    lemma_v_connected(map, prev.y, new.y, prev.x);
                    lemma_h_connected(map, prev.x, new.x, new.y);
                }
            }
            proof {
                let c0 = map.spec_idx(rooms@[0].spec_center());
                lemma_connected_trans(map, map.spec_idx(prev), map.spec_idx(corner), map.spec_idx(new));
                assert forall|k: int| 0 <= k < i + 1 implies connected(
                    map,
                    c0,
                    map.spec_idx(#[trigger] rooms@[k].spec_center()),
                ) by {
                    if k < i {
                        lemma_connected_kept(&m0, map, c0, m0.spec_idx(rooms@[k].spec_center()));
                    } else {
                        lemma_connected_kept(&m0, map, c0, m0.spec_idx(prev));
                        lemma_connected_trans(map, c0, map.spec_idx(prev), map.spec_idx(new));
                    }
                }
                lemma_rooms_carved_kept(&m0, map, rooms@);
                assert forall|p: Point|
                    map.spec_in_bounds(p) && (p.x == 0 || p.y == 0 || p.x == map.width - 1 || p.y == map.height - 1)
                        implies #[trigger] map.at(p) == TileType::Wall by {
                    assert(m0.at(p) == TileType::Wall);
                }
                assert(l_corridor(map, prev, new));
                assert forall|k: int| 1 <= k < i + 1 implies l_corridor(map, rooms@[k - 1].spec_center(), #[trigger] rooms@[k].spec_center()) by {
                    if k < i {
                        assert(rooms@[k - 1].fits_inside(&m0) && rooms@[k].fits_inside(&m0));
                        assert(rooms@[k - 1].covers(rooms@[k - 1].spec_center()));
                        assert(rooms@[k].covers(rooms@[k].spec_center()));
                        lemma_l_corridor_kept(&m0, map, rooms@[k - 1].spec_center(), rooms@[k].spec_center());
                    }
                }
            }
            i = i + 1;
        }
    }

    /// Rooms joined by corridors; the player starts at the first room's centre and the
    /// other centres are offered for monsters. `TooSmall` below a 3 by 3 grid.
    pub fn new(&mut self, rng: &mut RandomNumberGenerator, width: usize, height: usize) -> (r: Result<Layout, BuildError>)
        requires
            dims_ok(width as int, height as int),
        ensures
            (width < 3 || height < 3) <==> r is Err,
            r is Err ==> r == Err::<Layout, BuildError>(BuildError::TooSmall),
            r is Ok ==> {
                let l = r->Ok_0;
                &&& l.map.wf()
                &&& l.map.width == width
                &&& l.map.height == height
                &&& l.rooms@.len() == NUM_ROOMS
                &&& rooms_carved(&l.map, l.rooms@)
                &&& rooms_linked(&l.map, l.rooms@)
                &&& border_walls(&l.map)
                &&& corridors_l_shaped(&l.map, l.rooms@)
                &&& forall|k: int| 0 <= k < l.rooms@.len() ==> (#[trigger] l.rooms@[k]).width <= MAX_ROOM_SIZE && l.rooms@[k].height <= MAX_ROOM_SIZE
                &&& forall|k: int| 0 <= k < l.rooms@.len() ==> l.map.spec_in_bounds(#[trigger] l.rooms@[k].spec_center())
                    && l.map.at(l.rooms@[k].spec_center()) == TileType::Floor
                &&& l.player_start == l.rooms@[0].spec_center()
                &&& l.spawn_candidates@.len() == NUM_ROOMS - 1
                &&& forall|k: int| 0 <= k < l.spawn_candidates@.len() ==> #[trigger] l.spawn_candidates@[k] == l.rooms@[k + 1].spec_center()
                &&& on_floor(&l.map, l.spawn_candidates@)
            },
    {
        if width < 3 || height < 3 {
            return Err(BuildError::TooSmall);
        }
        let mut map = Grid::new(width, height);
        map.fill(TileType::Wall);
        proof {
            assert forall|p: Point|
                map.spec_in_bounds(p) && (p.x == 0 || p.y == 0 || p.x == map.width - 1 || p.y == map.height - 1)
                    implies #[trigger] map.at(p) == TileType::Wall by {
                map.lemma_idx_point(p);
            }
        }
        let rooms = self.build_rooms(rng, &mut map);
        self.build_corridors(rng, &mut map, &rooms);
        assert(rooms@[0].fits_inside(&map));
        let player_start = rooms[0].center();
        let ghost final_map = map;
        let mut spawn_candidates: Vec<Point> = Vec::new();
        let mut k: usize = 1;
        while k < rooms.len()
            invariant
                map == final_map,
                border_walls(&map),
                corridors_l_shaped(&map, rooms@),
                map.wf(),
                rooms_carved(&map, rooms@),
                rooms_linked(&map, rooms@),
                1 <= k <= rooms@.len(),
                spawn_candidates@.len() == k - 1,
                forall|j: int| 0 <= j < spawn_candidates@.len() ==> #[trigger] spawn_candidates@[j] == rooms@[j + 1].spec_center(),
            decreases rooms@.len() - k,
        {
            assert(rooms@[k as int].fits_inside(&map));
            spawn_candidates.push(rooms[k].center());
            k = k + 1;
        }
        proof {
            assert forall|k: int| 0 <= k < rooms@.len() implies map.spec_in_bounds(#[trigger] rooms@[k].spec_center())
                && map.at(rooms@[k].spec_center()) == TileType::Floor by {
                assert(rooms@[k].fits_inside(&map));
                assert(rooms@[k].covers(rooms@[k].spec_center()));
            }
        }
        Ok(Layout { map, rooms, player_start, spawn_candidates })
    }
}

/// In a rooms-and-corridors level every room's centre can be reached from every other's.
pub proof fn lemma_rooms_mutually_connected(map: &Grid, rooms: Seq<Rect>, j: int, k: int)
    requires
        map.wf(),
        rooms_carved(map, rooms),
        rooms_linked(map, rooms),
        0 <= j < rooms.len(),
        0 <= k < rooms.len(),
    ensures
        connected(map, map.spec_idx(rooms[j].spec_center()), map.spec_idx(rooms[k].spec_center())),
{
    let c0 = map.spec_idx(rooms[0].spec_center());
    let cj = map.spec_idx(rooms[j].spec_center());
    let ck = map.spec_idx(rooms[k].spec_center());
    assert(connected(map, c0, cj));
    assert(connected(map, c0, ck));
    assert(rooms[j].fits_inside(map));
    assert(rooms[j].covers(rooms[j].spec_center()));
    assert(rooms[0].fits_inside(map));
    assert(rooms[0].covers(rooms[0].spec_center()));
    assert(map.at(rooms[0].spec_center()) == TileType::Floor);
    lemma_connected_symmetric(map, c0, cj);
    lemma_connected_trans(map, cj, c0, ck);
}

} // verus!
