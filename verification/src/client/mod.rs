//! The client's side: its copy of the world, kept up to date from the
//! messages of the server.
pub mod state;
