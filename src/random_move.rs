use vstd::prelude::*;
use legion::Entity;
use crate::components::{WantsToAttack, WantsToMove};
use crate::grid::Point;

verus! {

/// An entity with health standing somewhere, as a random mover sees it.
#[derive(Clone, Copy, Debug)]
pub struct Occupant {
    pub entity: Entity,
    pub pos: Point,
    pub is_player: bool,
}

/// What a random mover asks for.
#[derive(Clone, Copy, Debug)]
pub enum MoveIntent {
    Attack(WantsToAttack),
    Move(WantsToMove),
}

/// The offset a roll in `0..4` picks: left, right, up, otherwise down.
pub open spec fn step_of(roll: int) -> Point {
    if roll == 0 {
        Point { x: -1i32, y: 0 }
    } else if roll == 1 {
        Point { x: 1, y: 0 }
    } else if roll == 2 {
        Point { x: 0, y: -1i32 }
    } else {
        Point { x: 0, y: 1 }
    }
}

/// An attack on each player among `occ` standing at `dest`, in order.
pub open spec fn attacks_on(mover: Entity, dest: Point, occ: Seq<Occupant>) -> Seq<MoveIntent>
    decreases occ.len(),
{
    if occ.len() == 0 {
        Seq::empty()
    } else {
        let rest = attacks_on(mover, dest, occ.drop_last());
        let o = occ.last();
        if o.pos == dest && o.is_player {
            rest.push(MoveIntent::Attack(WantsToAttack { attacker: mover, target: o.entity }))
        } else {
            rest
        }
    }
}

pub open spec fn occupied(dest: Point, occ: Seq<Occupant>) -> bool {
    exists|k: int| 0 <= k < occ.len() && (#[trigger] occ[k]).pos == dest
}

/// Attacks on the players at `dest`; a move there only when nobody stands there.
pub open spec fn intents(mover: Entity, dest: Point, occ: Seq<Occupant>) -> Seq<MoveIntent> {
    let a = attacks_on(mover, dest, occ);
    if occupied(dest, occ) {
        a
    } else {
        a.push(MoveIntent::Move(WantsToMove { entity: mover, destination: dest }))
    }
}

/// One random step for the entity `mover` at `pos`: the roll picks a direction; whoever
/// stands on the destination blocks the move, and a player there is attacked.
pub fn random_move(mover: Entity, pos: Point, roll: i32, occupants: &Vec<Occupant>) -> (r: Vec<MoveIntent>)
    requires
        -1000000 <= pos.x <= 1000000,
        -1000000 <= pos.y <= 1000000,
    ensures
        r@ == intents(
            mover,
            Point { x: (pos.x + step_of(roll as int).x) as i32, y: (pos.y + step_of(roll as int).y) as i32 },
            occupants@,
        ),
{
    let step = if roll == 0 {
        Point::new(-1, 0)
    } else if roll == 1 {
        Point::new(1, 0)
    } else if roll == 2 {
        Point::new(0, -1)
    } else {
        Point::new(0, 1)
    };
    let destination = Point::new(pos.x + step.x, pos.y + step.y);
    let mut r: Vec<MoveIntent> = Vec::new();
    let mut blocked = false;
    let mut i: usize = 0;
    while i < occupants.len()
        invariant
            i <= occupants@.len(),
            r@ == attacks_on(mover, destination, occupants@.take(i as int)),
            blocked == occupied(destination, occupants@.take(i as int)),
        decreases occupants@.len() - i,
    {
        let o = occupants[i];
        let ghost t = occupants@.take(i as int);
        let ghost t1 = occupants@.take(i as int + 1);
        proof {
            assert(t1.drop_last() =~= t);
            assert(t1.last() == o);
        }
        if o.pos == destination {
            if o.is_player {
                r.push(MoveIntent::Attack(WantsToAttack { attacker: mover, target: o.entity }));
            }
            blocked = true;
            proof {
                assert(t1[i as int] == o);
            }
        } else {
            proof {
                if occupied(destination, t1) {
                    let k = choose|k: int| 0 <= k < t1.len() && (#[trigger] t1[k]).pos == destination;
                    assert(t[k] == t1[k]);
                }
                if occupied(destination, t) {
                    let k = choose|k: int| 0 <= k < t.len() && (#[trigger] t[k]).pos == destination;
                    assert(t[k] == t1[k]);
                }
            }
        }
        proof {
            if blocked && o.pos != destination {
                let k = choose|k: int| 0 <= k < t.len() && (#[trigger] t[k]).pos == destination;
                assert(t1[k] == t[k]);
            }
        }
        i = i + 1;
    }
    proof {
        assert(occupants@.take(occupants@.len() as int) =~= occupants@);
    }
    if !blocked {
        r.push(MoveIntent::Move(WantsToMove { entity: mover, destination }));
    }
    r
}

} // verus!
