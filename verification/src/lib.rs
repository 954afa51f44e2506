//! State model of a progress control of a document tree: a maximum, an
//! optional current value, the position derived from the two, and the cached
//! collection of the elements that label the control.
//!
//! Numbers are finite IEEE 754 double-precision values. They are held by
//! their bit patterns and reasoned about as exact integers (see [`finite`]);
//! the one operation that rounds, the division behind the position, is
//! proved to round correctly (see [`quotient`]).
#![allow(unused_imports)]

pub mod finite;
pub mod labels;
pub mod progress;
pub mod quotient;
mod rounding;
