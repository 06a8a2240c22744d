//! Players.
use crate::config;
use crate::game::bullet::Bullet;
use crate::game::state::Direction;
use vstd::prelude::*;

verus! {

/// A place on the map.
#[derive(Clone, Copy, Debug, PartialEq, Eq, Structural)]
pub struct Point {
    pub x: i32,
    pub y: i32,
}

#[derive(Clone, Copy, Debug, PartialEq, Eq, Structural)]
pub struct Player {
    pub id: u32,
    pub x: i32,
    pub y: i32,
    pub kills: u32,
    pub deths: u32,
    pub radius: u32,
    pub direction: Direction,
    /// Shots per thousand seconds.
    pub fire_rate: u32,
    pub bullet_speed: u32,
    pub bullet_range: u32,
    pub bullet_damage: u32,
    pub health: u32,
    pub max_health: u32,
    pub hit_radius: u32,
    pub is_moving: bool,
    /// Where the player is walking to.
    pub move_target: Option<Point>,
    /// Units per second.
    pub walk_speed: u32,
    /// Whether a client draws this player.
    pub to_render: bool,
    /// When the player shot last; `None` for a player who may shoot at
    /// once.
    pub last_shot: Option<u64>,
}

/// A new player at `(x, y)`: unhurt, facing up, standing, ready to shoot,
/// with the stats of the configuration.
pub open spec fn new_player(id: u32, x: i32, y: i32) -> Player {
    Player {
        id,
        x,
        y,
        kills: 0,
        deths: 0,
        radius: config::PLAYER_RADIUS,
        direction: Direction::Up,
        fire_rate: config::FIRE_RATE,
        bullet_speed: config::BULLET_SPEED,
        bullet_range: config::BULLET_RANGE,
        bullet_damage: config::BULLET_DAMAGE,
        health: config::PLAYER_HEALTH,
        max_health: config::PLAYER_HEALTH,
        hit_radius: config::HIT_RADIUS,
        is_moving: false,
        move_target: None,
        walk_speed: config::WALK_SPEED,
        to_render: true,
        last_shot: None,
    }
}

/// Whether a bullet at `(bx, by)` touches a player: the two circles
/// overlap.
pub open spec fn overlaps(p: Player, bx: int, by: int, hit_radius: int) -> bool {
    (bx - p.x) * (bx - p.x) + (by - p.y) * (by - p.y) < (p.radius + hit_radius) * (p.radius
        + hit_radius)
}

/// `a - b`, and 0 where that would be negative.
pub open spec fn minus_or_zero(a: u32, b: u32) -> u32 {
    if a >= b {
        (a - b) as u32
    } else {
        0
    }
}

/// `a + b`, and the greatest number where that would be greater.
pub open spec fn plus_or_max(a: u32, b: u32) -> u32 {
    if a + b <= u32::MAX {
        (a + b) as u32
    } else {
        u32::MAX
    }
}

/// A player after a hit that does `damage`.
pub open spec fn damaged(p: Player, damage: u32) -> Player {
    Player { health: minus_or_zero(p.health, damage), ..p }
}

/// Whether the circle of a player and a circle of radius `hit_radius`
/// round `(bx, by)` overlap.
pub fn touches(p: &Player, bx: i32, by: i32, hit_radius: u32) -> (b: bool)
    ensures
        b == overlaps(*p, bx as int, by as int, hit_radius as int),
{
    let dx: i128 = bx as i128 - p.x as i128;
    let dy: i128 = by as i128 - p.y as i128;
    let reach: i128 = p.radius as i128 + hit_radius as i128;
    assert(dx * dx <= 0x1_0000_0000_0000_0000 && dy * dy <= 0x1_0000_0000_0000_0000 && 0 <= reach
        * reach <= 0x4_0000_0000_0000_0000 && dx * dx >= 0 && dy * dy >= 0) by (nonlinear_arith)
        requires
            -0x1_0000_0000 <= dx <= 0x1_0000_0000,
            -0x1_0000_0000 <= dy <= 0x1_0000_0000,
            0 <= reach <= 0x2_0000_0000,
    ;
    dx * dx + dy * dy < reach * reach
}

impl Player {
    /// A new player at `(x, y)`.
    pub fn new(id: u32, x: i32, y: i32) -> (p: Self)
        ensures
            p == new_player(id, x, y),
    {
        Player {
            id,
            x,
            y,
            kills: 0,
            deths: 0,
            radius: config::PLAYER_RADIUS,
            direction: Direction::Up,
            fire_rate: config::FIRE_RATE,
            bullet_speed: config::BULLET_SPEED,
            bullet_range: config::BULLET_RANGE,
            bullet_damage: config::BULLET_DAMAGE,
            health: config::PLAYER_HEALTH,
            max_health: config::PLAYER_HEALTH,
            hit_radius: config::HIT_RADIUS,
            is_moving: false,
            move_target: None,
            walk_speed: config::WALK_SPEED,
            to_render: true,
            last_shot: None,
        }
    }

    /// Tests a bullet against the player. A bullet whose circle overlaps
    /// the player's takes its damage from the player's health, which does
    /// not go below zero. Says whether the bullet hit.
    pub fn hit_by(&mut self, bullet: &Bullet) -> (hit: bool)
        ensures
            hit == overlaps(*old(self), bullet.x as int, bullet.y as int, bullet.hit_radius as int),
            hit ==> *final(self) == damaged(*old(self), bullet.damage),
            !hit ==> *final(self) == *old(self),
    {
        if touches(self, bullet.x, bullet.y, bullet.hit_radius) {
            self.health = self.health.saturating_sub(bullet.damage);
            true
        } else {
            false
        }
    }
}

} // verus!
