//! What goes over the wire between a client and the server.
pub mod state;
