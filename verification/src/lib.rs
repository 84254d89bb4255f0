//! Reading and writing the frames of `.con` and `.convel` trajectory files.
//!
//! A frame is a header of nine lines, a coordinate block for each type of atom and, behind
//! a blank line, a velocity block for each type. The text is read on its bytes, and every
//! number is kept as the decimal literal that was written.

pub mod error;
pub mod iterators;
pub mod laws;
pub mod number;
pub mod parser;
pub mod roundtrip;
pub mod text;
pub mod types;
pub mod writer;
