//! The fixed-size variant: chunks of the old file start at multiples of one size, and the new
//! file is searched at every position with a rolling checksum.

pub mod delta;
pub mod instruction;
pub mod patch;
pub mod signature;
