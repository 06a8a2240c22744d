//! The constants of the game and of its protocol.
//!
//! Lengths, positions and speeds are fixed-point integers: [`UNIT`] units
//! make one tile. Speeds are units per second, the fire rate is shots per
//! thousand seconds, and times are milliseconds.
use vstd::prelude::*;

verus! {

/// Fixed-point units to a tile.
pub const UNIT: u32 = 1000;

/// Radius of a player.
pub const PLAYER_RADIUS: u32 = 1000;

/// Side of the map that a server generates.
pub const MAP_WIDTH: usize = 1000;

pub const MAP_HEIGHT: usize = 1000;

/// The largest side that a map may have: every position on such a map
/// fits the coordinate type.
pub const MAX_MAP_SIDE: usize = 2_000_000;

pub const PLAYER_HEALTH: u32 = 3;

pub const WALK_SPEED: u32 = 50_000;

pub const BULLET_SPEED: u32 = 7_000;

pub const BULLET_RANGE: u32 = 10_000;

pub const BULLET_DAMAGE: u32 = 3;

/// Length of one step of a player.
pub const STEP: u32 = 1000;

pub const HIT_RADIUS: u32 = 500;

/// Shots per thousand seconds of a new player.
pub const FIRE_RATE: u32 = 800;

/// A modifier closer than this to a player is picked up.
pub const PICKUP_RADIUS: u32 = 1000;

/// Half the width of the box that a client sees round its player.
pub const VIEW_HALF_WIDTH: u32 = 30_000;

/// Half the height of the box that a client sees round its player.
pub const VIEW_HALF_HEIGHT: u32 = 20_000;

/// Milliseconds between two regenerations of the modifiers.
pub const MODIFIER_RESPAWN_TIME: u64 = 13_000;

/// One modifier is placed for this many tiles of the map.
pub const TILES_PER_MODIFIER: u64 = 500;

/// Random tiles that are tried as a place to spawn before the tiles are
/// searched in order.
pub const SPAWN_TRIES: u32 = 1000;

/// Bytes of an encoded map in one map chunk.
pub const MAP_CHUNK_SIZE: usize = 1024;

/// Bytes of a message in one datagram, the chunk header not counted.
pub const MAX_PAYLOAD: usize = 1200;

/// Milliseconds after which an incomplete message is given up.
pub const FRAGMENT_TIMEOUT: u64 = 5_000;

pub const UDP_PORT: usize = 8888;

pub const TCP_PORT: usize = 8887;

} // verus!
