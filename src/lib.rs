//! Copy primitives for byte, halfword and word granularity, each in a forward
//! and a backward direction, over a memory given as a mutable byte slice in
//! which addresses are offsets.
//!
//! A forward copy takes the start of each region; a backward copy takes one
//! past the end of each region and works toward lower addresses. A copy of
//! zero bytes touches nothing. Otherwise the two regions must lie in the
//! memory and either be disjoint, or overlap only in the way the direction
//! allows (source at or above the destination going forward, at or below it
//! going backward); the halfword and word copies also need both addresses to
//! be multiples of two or four. Each copy then leaves the memory that
//! [`model::copied`] describes.
pub mod model;
pub mod byte_copy;
pub mod halfword_copy;
pub mod laws;
mod units;
pub mod word_copy;

pub use byte_copy::{copy_u8_backward, copy_u8_forward};
pub use halfword_copy::{copy_u16_backward, copy_u16_forward};
pub use word_copy::{copy_u32_backward, copy_u32_forward};
