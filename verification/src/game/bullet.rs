//! Bullets.
use vstd::prelude::*;

verus! {

/// A bullet in flight.
#[derive(Clone, Copy, Debug, PartialEq, Eq, Structural)]
pub struct Bullet {
    pub id: u32,
    /// The player who shot it, and whom it cannot hit.
    pub owner_id: u32,
    pub x: i32,
    pub y: i32,
    /// The direction of flight: each of `dx` and `dy` is -1, 0 or 1.
    pub dx: i32,
    pub dy: i32,
    /// Units per second.
    pub speed: u32,
    /// The bullet ends once it has travelled this far.
    pub range: u32,
    /// How far it has travelled.
    pub traveled: u32,
    pub damage: u32,
    pub hit_radius: u32,
}

} // verus!
