//! A firework particle engine for text terminals.
//!
//! All quantities are fixed-point integers: positions are measured in
//! micro-cells (a millionth of a terminal cell), velocities in micro-cells per
//! second, times in milliseconds, and scale factors and gradient values in
//! thousandths.
pub mod config;
pub mod fireworks;
pub mod particle;
mod random;
pub mod term;
pub mod utils;
