use vstd::prelude::*;
use bracket_lib::prelude::RandomNumberGenerator;
use crate::grid::Point;
use crate::rng::slice_index;

verus! {

#[derive(Clone, Copy, Debug, PartialEq, Eq, Structural)]
pub enum EntityType {
    Item,
    Enemy,
}

/// A kind of entity that may be spawned, and on which dungeon levels.
#[derive(Clone, Debug)]
pub struct Template {
    pub entity_type: EntityType,
    pub levels: Vec<usize>,
    pub frequency: i32,
    pub name: String,
    pub glyph: char,
    pub provides: Option<Vec<(String, i32)>>,
    pub hp: Option<i32>,
    pub base_damage: Option<i32>,
}

/// All templates of a game.
#[derive(Clone, Debug)]
pub struct Templates {
    pub entities: Vec<Template>,
}

/// `n` copies of `x`.
pub open spec fn copies(x: usize, n: int) -> Seq<usize>
    decreases n,
{
    if n <= 0 { Seq::empty() } else { copies(x, n - 1).push(x) }
}

/// The weighted pool for a level: the index of each template that lists the level,
/// repeated by its frequency, in template order.
pub open spec fn pool_of(ts: Seq<Template>, level: usize) -> Seq<usize>
    decreases ts.len(),
{
    if ts.len() == 0 {
        Seq::empty()
    } else {
        let rest = pool_of(ts.drop_last(), level);
        let t = ts.last();
        if t.levels@.contains(level) { rest + copies((ts.len() - 1) as usize, t.frequency as int) } else { rest }
    }
}

/// Whether `level` is listed in `levels`.
pub fn lists_level(levels: &Vec<usize>, level: usize) -> (r: bool)
    ensures
        r == levels@.contains(level),
{
    let mut i: usize = 0;
    while i < levels.len()
        invariant
            i <= levels@.len(),
            forall|j: int| 0 <= j < i ==> levels@[j] != level,
        decreases levels@.len() - i,
    {
        if levels[i] == level {
            assert(levels@[i as int] == level);
            return true;
        }
        i = i + 1;
    }
    false
}

impl Templates {
    /// The weighted pool of template indices for a dungeon level.
    pub fn available_entities(&self, level: usize) -> (r: Vec<usize>)
        ensures
            r@ == pool_of(self.entities@, level),
    {
        let mut r: Vec<usize> = Vec::new();
        let mut i: usize = 0;
        while i < self.entities.len()
            invariant
                i <= self.entities@.len(),
                r@ == pool_of(self.entities@.take(i as int), level),
            decreases self.entities@.len() - i,
        {
            let t = &self.entities[i];
            let ghost ts = self.entities@.take(i as int + 1);
            proof {
                assert(ts.drop_last() =~= self.entities@.take(i as int));
            }
            if lists_level(&t.levels, level) {
                let ghost base = r@;
                let mut c: i32 = 0;
                while c < t.frequency
                    invariant
                        0 <= c,
                        c <= t.frequency || t.frequency < 0,
                        t.frequency < 0 ==> c == 0,
                        r@ == base + copies(i, c as int),
                    decreases t.frequency - c,
                {
                    r.push(i);
                    proof {
                        assert(base + copies(i, c as int + 1) =~= (base + copies(i, c as int)).push(i));
                    }
                    c = c + 1;
                }
                proof {
                    if t.frequency < 0 {
                        assert(copies(i, t.frequency as int) == Seq::<usize>::empty());
                    }
                }
            }
            i = i + 1;
        }
        proof {
            assert(self.entities@.take(self.entities@.len() as int) =~= self.entities@);
        }
        r
    }

    /// For each spawn point, the index of a template drawn from the level's weighted pool;
    /// nothing when the pool is empty.
    pub fn plan_spawns(&self, rng: &mut RandomNumberGenerator, level: usize, spawn_points: &Vec<Point>) -> (r: Vec<(Point, usize)>)
        requires
            pool_of(self.entities@, level).len() < 0x7fff_ffff,
        ensures
            pool_of(self.entities@, level).len() == 0 ==> r@.len() == 0,
            pool_of(self.entities@, level).len() > 0 ==> r@.len() == spawn_points@.len(),
            forall|k: int| 0 <= k < r@.len() ==> (#[trigger] r@[k]).0 == spawn_points@[k]
                && pool_of(self.entities@, level).contains(r@[k].1),
    {
        let pool = self.available_entities(level);
        let mut r: Vec<(Point, usize)> = Vec::new();
        let mut i: usize = 0;
        while i < spawn_points.len()
            invariant
                pool@ == pool_of(self.entities@, level),
                pool@.len() < 0x7fff_ffff,
                i <= spawn_points@.len(),
                pool@.len() == 0 ==> r@.len() == 0,
                pool@.len() > 0 ==> r@.len() == i,
                forall|k: int| 0 <= k < r@.len() ==> (#[trigger] r@[k]).0 == spawn_points@[k]
                    && pool@.contains(r@[k].1),
            decreases spawn_points@.len() - i,
        {
            match slice_index(rng, &pool) {
                Some(t) => {
                    let choice = pool[t];
                    assert(pool@[t as int] == choice);
                    r.push((spawn_points[i], choice));
                }
                None => {}
            }
            i = i + 1;
        }
        r
    }
}

} // verus!
