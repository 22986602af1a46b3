//! Daily puzzle solvers over plain text inputs, with the shared pieces
//! they lean on: byte-level input handling, a rectangular grid adapter,
//! and a generic reachability and least-cost search over finite state
//! graphs.  Every solver states in its contract exactly what it answers.

pub mod parse;
pub mod sorting;
pub mod grid2d;
pub mod search;

pub mod day01;
pub mod day02;
pub mod day03;
pub mod day07;
pub mod day08;
pub mod day09;
pub mod day10;
pub mod day11;
pub mod day12;
pub mod day13;
pub mod day14;
pub mod day16;
pub mod day17;
pub mod day18;
pub mod day19;
pub mod day22;
pub mod day25;

use vstd::prelude::*;

verus! {

/// Marker for the primitive integer types that grids in this crate may hold.
pub trait IsNumeric {}

impl IsNumeric for u8 {}

impl IsNumeric for u32 {}

impl IsNumeric for u64 {}

impl IsNumeric for usize {}

impl IsNumeric for i8 {}

impl IsNumeric for i32 {}

impl IsNumeric for i64 {}

impl IsNumeric for isize {}

} // verus!
