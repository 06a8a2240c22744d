//! The world of the game: players, bullets and modifiers, and what a tick
//! does to them.
pub mod bullet;
pub mod interest;
pub mod modifier;
pub mod player;
pub mod state;
pub mod tick;
