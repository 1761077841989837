//! Four-state bit arrays and bounded bytes.
//!
//! A [`BitArray`] holds up to 64 [`BitState`]s. Each bit is either a driven
//! logic level (`Low`, `High`), floating (`Imped`, "Z") or unknown (`Unk`, "X").
//! Index 0 is the first bit of the array.

pub mod ranged;
pub mod logic;

pub use ranged::RangedByte;
pub use logic::{BitArray, BitState, LengthMismatch};
