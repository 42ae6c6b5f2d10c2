use vstd::prelude::*;
use vstd::arithmetic::div_mod::{
    lemma_fundamental_div_mod,
    lemma_fundamental_div_mod_converse,
    lemma_mod_bound,
};
use vstd::arithmetic::mul::lemma_mul_strict_inequality;

verus! {

/// Largest width or height a map may have.
pub const MAX_DIM: usize = 1000;

/// State of one cell of the map.
#[derive(Clone, Copy, Debug, PartialEq, Eq, Structural)]
pub enum TileType {
    Wall,
    Floor,
    Exit,
}

/// Walls block movement; floor and exit tiles can be entered.
pub open spec fn walkable(t: TileType) -> bool {
    t != TileType::Wall
}

/// An integer grid coordinate.
#[derive(Clone, Copy, Debug, PartialEq, Eq, Structural)]
pub struct Point {
    pub x: i32,
    pub y: i32,
}

impl Point {
    pub fn new(x: i32, y: i32) -> (r: Point)
        ensures
            r.x == x,
            r.y == y,
    {
        Point { x, y }
    }
}

/// Failure of a coordinate lookup.
#[derive(Clone, Copy, Debug, PartialEq, Eq, Structural)]
pub enum MapError {
    OutOfBounds,
}

/// A rectangular grid of tiles, stored row by row.
pub struct Grid {
    pub width: usize,
    pub height: usize,
    pub tiles: Vec<TileType>,
}

pub open spec fn dims_ok(width: int, height: int) -> bool {
    1 <= width <= MAX_DIM && 1 <= height <= MAX_DIM
}

impl Grid {
    pub open spec fn wf(&self) -> bool {
        &&& dims_ok(self.width as int, self.height as int)
        &&& self.tiles@.len() == self.width * self.height
        &&& self.tiles@.len() <= MAX_DIM * MAX_DIM
    }

    pub open spec fn spec_in_bounds(&self, p: Point) -> bool {
        0 <= p.x < self.width && 0 <= p.y < self.height
    }

    pub open spec fn spec_idx(&self, p: Point) -> int {
        p.y * self.width + p.x
    }

    pub open spec fn spec_point(&self, i: int) -> Point {
        Point { x: (i % (self.width as int)) as i32, y: (i / (self.width as int)) as i32 }
    }

    /// The tile at `p`, for an in-bounds point.
    pub open spec fn at(&self, p: Point) -> TileType {
        self.tiles@[self.spec_idx(p)]
    }

    /// Index and point are inverse on in-bounds points.
    pub proof fn lemma_idx_point(&self, p: Point)
        requires
            self.wf(),
            self.spec_in_bounds(p),
        ensures
            0 <= self.spec_idx(p) < self.tiles@.len(),
            self.spec_point(self.spec_idx(p)) == p,
    {
        let w = self.width as int;
        let h = self.height as int;
        lemma_fundamental_div_mod_converse(self.spec_idx(p), w, p.y as int, p.x as int);
        assert(p.y * w <= (h - 1) * w) by (nonlinear_arith)
            requires p.y <= h - 1, w >= 1;
        assert((h - 1) * w + w == h * w) by (nonlinear_arith);
        assert(0 <= p.y * w) by (nonlinear_arith) requires p.y >= 0, w >= 1;
    }

    /// Point and index are inverse on valid indices.
    pub proof fn lemma_point_idx(&self, i: int)
        requires
            self.wf(),
            0 <= i < self.tiles@.len(),
        ensures
            self.spec_in_bounds(self.spec_point(i)),
            self.spec_idx(self.spec_point(i)) == i,
            0 <= i % (self.width as int) < self.width,
            0 <= i / (self.width as int) < self.height,
    {
        let w = self.width as int;
        let h = self.height as int;
        lemma_fundamental_div_mod(i, w);
        lemma_mod_bound(i, w);
        assert(0 <= i / w) by (nonlinear_arith) requires i >= 0, w >= 1;
        if i / w >= h {
            assert(w * (i / w) >= w * h) by (nonlinear_arith) requires i / w >= h, w >= 1;
        }
        assert(w * (i / w) == (i / w) * w) by (nonlinear_arith);
    }

    /// Row-major index of the cell in column `x`, row `y`.
    pub fn cell_index(&self, x: usize, y: usize) -> (r: usize)
        requires
            self.wf(),
            x < self.width,
            y < self.height,
        ensures
            r == y * self.width + x,
            r < self.tiles@.len(),
    {
        let w = self.width;
        let h = self.height;
        assert(y * w + x < h * w) by (nonlinear_arith)
            requires y < h, x < w;
        assert(h * w == w * h) by (nonlinear_arith);
        assert(h * w <= MAX_DIM * MAX_DIM) by (nonlinear_arith)
            requires h <= MAX_DIM, w <= MAX_DIM;
        y * w + x
    }

    /// A grid of the given size with every tile floor.
    pub fn new(width: usize, height: usize) -> (r: Grid)
        requires
            dims_ok(width as int, height as int),
        ensures
            r.wf(),
            r.width == width,
            r.height == height,
            forall|i: int| 0 <= i < r.tiles@.len() ==> r.tiles@[i] == TileType::Floor,
    {
        assert(width * height <= MAX_DIM * MAX_DIM) by (nonlinear_arith)
            requires width <= MAX_DIM, height <= MAX_DIM;
        let n: usize = width * height;
        let tiles = vec![TileType::Floor; n];
        Grid { width, height, tiles }
    }

    /// Sets every tile to `t`.
    pub fn fill(&mut self, t: TileType)
        requires
            old(self).wf(),
        ensures
            final(self).wf(),
            final(self).width == old(self).width,
            final(self).height == old(self).height,
            forall|i: int| 0 <= i < final(self).tiles@.len() ==> final(self).tiles@[i] == t,
    {
        let n = self.tiles.len();
        let mut i: usize = 0;
        while i < n
            invariant
                self.wf(),
                self.width == old(self).width,
                self.height == old(self).height,
                self.tiles@.len() == n,
                i <= n,
                forall|j: int| 0 <= j < i ==> self.tiles@[j] == t,
            decreases n - i,
        {
            self.tiles.set(i, t);
            i = i + 1;
        }
    }

    pub fn in_bounds(&self, p: Point) -> (r: bool)
        requires
            self.wf(),
        ensures
            r == self.spec_in_bounds(p),
    {
        p.x >= 0 && (p.x as i64) < (self.width as i64) && p.y >= 0 && (p.y as i64) < (self.height as i64)
    }

    /// Row-major index of an in-bounds point.
    pub fn point2d_to_index(&self, p: Point) -> (r: usize)
        requires
            self.wf(),
            self.spec_in_bounds(p),
        ensures
            r == self.spec_idx(p),
            r < self.tiles@.len(),
            self.spec_point(r as int) == p,
    {
        proof {
            self.lemma_idx_point(p);
        }
        let y = p.y as usize;
        let x = p.x as usize;
        assert(y * self.width <= MAX_DIM * MAX_DIM) by (nonlinear_arith)
            requires y < MAX_DIM, self.width <= MAX_DIM;
        y * self.width + x
    }

    /// The point of a valid index.
    pub fn index_to_point2d(&self, i: usize) -> (r: Point)
        requires
            self.wf(),
            i < self.tiles@.len(),
        ensures
            r == self.spec_point(i as int),
            self.spec_in_bounds(r),
            self.spec_idx(r) == i,
    {
        proof {
            self.lemma_point_idx(i as int);
        }
        Point { x: (i % self.width) as i32, y: (i / self.width) as i32 }
    }

    /// Index of `p`, or `None` when it lies outside the map.
    pub fn try_idx(&self, p: Point) -> (r: Option<usize>)
        requires
            self.wf(),
        ensures
            r.is_some() == self.spec_in_bounds(p),
            r.is_some() ==> r.unwrap() as int == self.spec_idx(p),
            r.is_some() ==> r.unwrap() < self.tiles@.len(),
    {
        if self.in_bounds(p) {
            Some(self.point2d_to_index(p))
        } else {
            None
        }
    }

    /// The tile at `p`, or `OutOfBounds`.
    pub fn tile_at(&self, p: Point) -> (r: Result<TileType, MapError>)
        requires
            self.wf(),
        ensures
            self.spec_in_bounds(p) ==> r == Ok::<TileType, MapError>(self.at(p)),
            !self.spec_in_bounds(p) ==> r == Err::<TileType, MapError>(MapError::OutOfBounds),
    {
        proof {
            if self.spec_in_bounds(p) {
                self.lemma_idx_point(p);
            }
        }
        match self.try_idx(p) {
            Some(i) => Ok(self.tiles[i]),
            None => Err(MapError::OutOfBounds),
        }
    }

    /// Whether a mover may step onto `p`.
    pub fn can_enter_tile(&self, p: Point) -> (r: bool)
        requires
            self.wf(),
        ensures
            r == (self.spec_in_bounds(p) && walkable(self.at(p))),
    {
        proof {
            if self.spec_in_bounds(p) {
                self.lemma_idx_point(p);
            }
        }
        match self.try_idx(p) {
            Some(i) => self.tiles[i] != TileType::Wall,
            None => false,
        }
    }
}

} // verus!
