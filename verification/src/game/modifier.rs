//! Modifiers: what lies on the map for a player to pick up.
use crate::rng::gen_range;
use rand::rngs::ThreadRng;
use vstd::prelude::*;

verus! {

/// What a modifier adds to the player who picks it up.
#[derive(Clone, Copy, Debug, PartialEq, Eq, Structural)]
pub enum ModifierKind {
    /// Added to the health and to the greatest health.
    Heal(u32),
    /// Added to the walking speed.
    Speed(u32),
    /// Added to the damage of the player's bullets.
    Damage(u32),
    /// Added to the fire rate.
    FireRate(u32),
}

#[derive(Clone, Copy, Debug, PartialEq, Eq, Structural)]
pub struct Modifier {
    pub id: u32,
    pub x: i32,
    pub y: i32,
    pub kind: ModifierKind,
}

/// The kind of modifier that stands for each of the four choices.
pub open spec fn kind_of_choice(choice: int) -> ModifierKind {
    if choice == 0 {
        ModifierKind::Heal(1)
    } else if choice == 1 {
        ModifierKind::Speed(1000)
    } else if choice == 2 {
        ModifierKind::Damage(1)
    } else {
        ModifierKind::FireRate(500)
    }
}

impl ModifierKind {
    /// The kind of modifier that stands for a choice: one health, one tile
    /// per second, one damage, or half a shot per second.
    pub fn from_choice(choice: usize) -> (kind: Self)
        ensures
            kind == kind_of_choice(choice as int),
    {
        if choice == 0 {
            ModifierKind::Heal(1)
        } else if choice == 1 {
            ModifierKind::Speed(1000)
        } else if choice == 2 {
            ModifierKind::Damage(1)
        } else {
            ModifierKind::FireRate(500)
        }
    }

    /// One of the four kinds, each with the same chance.
    pub fn random(rng: &mut ThreadRng) -> (kind: Self)
        ensures
            exists|choice: int| 0 <= choice < 4 && kind == kind_of_choice(choice),
    {
        let choice = gen_range(rng, 0, 4);
        ModifierKind::from_choice(choice)
    }
}

} // verus!
