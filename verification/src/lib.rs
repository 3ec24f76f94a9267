//! Exhaustive solver for a grid transport puzzle: cars pick up cubes, carry
//! them to houses of the same colour and press buttons that toggle bridges.

pub mod elem;
pub mod enumerate;
pub mod laws;
pub mod layout;
pub mod map;
pub mod parking;
pub mod reach;
pub mod render;
pub mod rules;
pub mod search;
pub mod solver;
pub mod trail;
pub mod vec2d;
