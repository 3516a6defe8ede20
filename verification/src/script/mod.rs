//! What a scripting front end needs around the engine: its requests checked and read,
//! and trajectories and simulations turned into tables.

pub mod request;
pub mod table;
