//! Combinators that fold a sequence of fallible outcomes into one aggregate
//! outcome, under a selectable policy: stop at the first failure, or traverse
//! everything and keep only the last failure.

pub mod unit;
