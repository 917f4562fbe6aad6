//! Game rules of a small rolling-ball arcade: a ball is steered over a
//! platform, collects cheese, and every collected cheese bursts into
//! short-lived debris while a third-person camera follows the ball.
//!
//! All quantities are fixed-point integers: one world unit, one second and
//! one unit of force are each `UNIT` steps.
pub mod camera;
pub mod collision;
pub mod effect;
pub mod fixed;
pub mod input;
pub mod score;
