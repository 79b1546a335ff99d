//! The game objects the server reports, as the bot reads them.
use vstd::prelude::*;

verus! {

/// A wall: the centre of a 3x3 block of the board that cannot be entered.
#[derive(Clone, Copy, Debug, PartialEq, Eq)]
pub struct Wall {
    pub x: i32,
    pub y: i32,
}

/// A hero on the board.
#[derive(Clone, Copy, Debug, PartialEq, Eq)]
pub struct Hero {
    pub id: i32,
    pub owner_id: i32,
    pub x: i32,
    pub y: i32,
    pub cooldown: i32,
}

/// A projectile in flight, with the point it was fired from.
#[derive(Clone, Copy, Debug, PartialEq, Eq)]
pub struct Projectile {
    pub owner_id: i32,
    pub x: i32,
    pub y: i32,
    pub origin_x: i32,
    pub origin_y: i32,
}

} // verus!
