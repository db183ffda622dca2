//! A first-person view of a 2D tile grid, rendered by grid ray traversal.
//!
//! All geometry is carried in signed 64-bit fixed-point numbers with 16
//! fractional bits, so every quantity the engine computes is an exact
//! integer and every routine carries a full functional contract.
//!
//! The crate is organised leaves first: `fijo` holds the fixed-point
//! arithmetic and the integer sine, `mapas` the grid map and walkability
//! model, `motor` the pixel surface, texture atlas and collision mover,
//! `escena` the wall ray-caster, `minimapa` the top-down overlay and
//! `sprites` the billboard renderer with its depth-tested occlusion.

pub mod escena;
pub mod fijo;
pub mod mapas;
pub mod minimapa;
pub mod motor;
pub mod sprites;
