//! Binary floating point on words: exact values, rounding to nearest, and the
//! arithmetic that the tracker's numeric code runs on.

pub mod binary;
pub mod convert;
pub mod decimal;
pub mod double;
pub mod facts;
pub mod fixed;
pub mod maths;
pub mod near;
pub mod order;
pub mod rises;
pub mod round;
pub mod single;
pub mod words;
