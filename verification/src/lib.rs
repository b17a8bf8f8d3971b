//! Weight-proportional selection with fairness correction, in exact
//! fixed-point arithmetic.
//!
//! A [`Statfeed`] holds a list of options and, for each decision of a
//! sequence, a row of weights, a row of random perturbations, a heterogeneity
//! and an accent. Running it picks one option per decision: the one with the
//! least scheduling value, after which the running statistics are settled so
//! that later decisions make up for earlier picks.
//!
//! Every quantity is a whole number of units of which [`SCALE`] make up
//! one, and every quotient is rounded down.

pub mod cost;
pub mod error;
pub mod fixed;
pub mod grid;
pub mod laws;
pub mod model;
pub mod order;
pub mod selector;
pub mod source;

pub use crate::cost::Cost;
pub use crate::error::StatfeedError;
pub use crate::fixed::SCALE;
pub use crate::selector::Statfeed;
