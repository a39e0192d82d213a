//! An instrumented-execution engine for array-mutating algorithms.
//!
//! A [`sorter::Sorter`] owns a buffer of unsigned integers and runs a chosen
//! algorithm against it through the sole access channel, the
//! [`sorter::Interface`].  Every read and swap the algorithm performs is
//! recorded as a [`model::Step`], so an observer can replay, pace, pause and
//! abort the run without the algorithm being aware of any control state.

pub mod control;
pub mod laws;
pub mod methods;
pub mod model;
pub mod sorter;

pub use model::Step;
