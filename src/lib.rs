pub mod automata;
pub mod builder;
pub mod components;
pub mod distance;
pub mod drunkard;
pub mod grid;
pub mod random_move;
pub mod rng;
pub mod rooms;
pub mod template;
