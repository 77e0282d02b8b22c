//! The remedian: an estimate of the median of a stream of values, kept up to
//! date value by value in a fixed, small amount of memory.
//!
//! A [`RemedianBlock`] of base `b` and exponent `e` holds `e` levels of up to
//! `b` values. Values of the stream go into level 0. A level that fills is
//! sorted, hands a copy of its middle value to the level above and starts
//! again empty, so that a value at level `i` stands for `b^i` values of the
//! stream. When the last level fills, after `b^e` values, the block is locked
//! and takes no more in.
//!
//! The median of an open block is the weighted median of the values it holds;
//! that of a locked block is the middle value of its last level.
//!
//! The modules: [`order`] says how values rank, [`sorting`] sorts by such a
//! ranking, [`weighted`] deals with values and their weights, [`model`]
//! describes a block as a mathematical state, [`block`] is the block itself,
//! and [`laws`] holds what is true of every block.


pub mod block;
pub mod laws;
pub mod model;
pub mod order;
pub mod sorting;
pub mod weighted;

pub use block::is_even_base;
pub use block::RemedianBlock;
