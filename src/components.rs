use vstd::prelude::*;
use legion::Entity;
use crate::grid::Point;

verus! {

#[verifier::external_type_specification]
#[verifier::external_body]
pub struct ExEntity(Entity);

/// An opaque colour value, red in the high byte, blue in the low byte.
#[derive(Clone, Copy, Debug, PartialEq, Eq, Structural)]
pub struct ColourPair {
    pub fg: u32,
    pub bg: u32,
}

/// How an entity is drawn.
#[derive(Clone, Copy, Debug, PartialEq, Eq, Structural)]
pub struct Render {
    pub colour: ColourPair,
    pub glyph: u16,
}

#[derive(Clone, Copy, Debug, PartialEq, Eq, Structural)]
pub struct Player;

#[derive(Clone, Copy, Debug, PartialEq, Eq, Structural)]
pub struct Enemy;

#[derive(Clone, Copy, Debug, PartialEq, Eq, Structural)]
pub struct Item;

#[derive(Clone, Copy, Debug, PartialEq, Eq, Structural)]
pub struct AmuletOfYala;

#[derive(Clone, Copy, Debug, PartialEq, Eq, Structural)]
pub struct MovingRandomly;

#[derive(Clone, Copy, Debug, PartialEq, Eq, Structural)]
pub struct ChasingPlayer;

#[derive(Clone, Copy, Debug, PartialEq, Eq, Structural)]
pub struct Health {
    pub current: i32,
    pub max: i32,
}

#[derive(Clone, Debug, PartialEq, Eq)]
pub struct Name(pub String);

/// A request to move `entity` to `destination`.
#[derive(Clone, Copy, Debug)]
pub struct WantsToMove {
    pub entity: Entity,
    pub destination: Point,
}

/// A request for `attacker` to hit `target`.
#[derive(Clone, Copy, Debug)]
pub struct WantsToAttack {
    pub attacker: Entity,
    pub target: Entity,
}

} // verus!
