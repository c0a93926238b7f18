//! Particles that fall, collide and settle into the colours of a picture.
//!
//! The library owns the particle store and its order, the spawn gate, the
//! clock, the sequence of a step, the calibration run with its colour table,
//! the seed, the schedule of frames and a software rasteriser. Coordinates are
//! kept as ordinals (see [`helper::Vector2`]): the library stores, compares and
//! clamps them, and asks its caller, through [`run::Dynamics`], for the
//! arithmetic of motion.

pub mod calibrate;
pub mod draw;
pub mod helper;
pub mod picture;
pub mod run;
pub mod sim;
