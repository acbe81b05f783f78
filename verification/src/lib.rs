//! An interpreter for a small tape language in which code and data share one
//! address space.
//!
//! A program is a list of labelled expressions mounted on a tape. Evaluating an
//! address reduces the expression stored there to a value with an explicit
//! stack of pending frames, and may rewrite the tape while it runs.
//!
//! [`machine`] is the engine and [`model`] what it computes, as mathematics;
//! [`wellformed`], [`laws`] and [`reduction`] prove what holds of every state.
//! Numbers are binary64 values held as bit patterns: [`number`] reads them,
//! [`arith`] adds and inverts them, rounding as [`rounding`] says.

pub mod arith;
pub mod expression;
pub mod laws;
pub mod machine;
pub mod model;
pub mod number;
pub mod powers;
pub mod reduction;
pub mod rounding;
pub mod wellformed;
