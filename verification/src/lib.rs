//! A grid-world Markov decision process and its two classic solvers, value
//! iteration and policy iteration, over exact fixed-point arithmetic.
//!
//! Every scalar of the model (reward, value, discount, noise, epsilon) is an
//! `i64` that counts millionths: [`ONE`] stands for 1.0. The weights of a
//! transition distribution count half-millionths: [`WHOLE`] stands for
//! certainty. Products are rounded toward zero, so a result is the same on
//! every machine.
//!
//! - [`fixed`]: the scalars and their products.
//! - [`world`]: the grid, its walls and exits, moves and transitions.
//! - [`bellman`]: one sweep of the Bellman update, greedy policies.
//! - [`solver`]: value iteration and policy iteration.
//! - [`laws`]: what holds of walls and exits under every sweep and solver.
//! - [`format`]: reading a grid from text.
//! - [`decimal`]: reading a reward.
//! - [`render`]: writing a grid as text.
//! - [`round_trip`]: what is written reads back as the same grid.
pub mod bellman;
pub mod decimal;
pub mod fixed;
pub mod format;
pub mod laws;
pub mod render;
pub mod round_trip;
pub mod solver;
pub mod world;

pub use crate::fixed::{LIMIT, ONE, WHOLE};
pub use crate::format::LoadError;
pub use crate::solver::Analysis;
pub use crate::world::{Action, Direction, State, World};
