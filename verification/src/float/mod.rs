//! IEEE 754 binary32 numbers, held as their bit patterns and computed on with
//! integers alone.

pub mod numbers;
pub mod order;
pub mod repr;
pub mod round;
pub mod arith;
pub mod convert;
pub mod cut;
pub mod error;
pub mod lanes;
pub mod laws;
pub mod sqrt;
