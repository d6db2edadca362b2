//! Batched load/store access to bit ranges, as C-style bitfields.
//!
//! A bit range over a region of storage elements reads into, and writes
//! from, the low bits of one unsigned register, moving whole elements
//! wherever the range's alignment permits.
//!
//! - `mem`: the registers, and resizing a value between two widths.
//! - `mask`: the window of live bits in one element, and the arithmetic that
//!   reads or replaces it.
//! - `order`: the two ordering policies, which map logical positions to the
//!   physical bits of an element.
//! - `slice`: bit ranges, their mathematical model, and their decomposition
//!   into a partial head, whole interior elements and a partial tail.
//! - `field`: the `BitField` transfers and the laws they obey.

pub mod field;
pub mod mask;
pub mod mem;
pub mod order;
pub mod slice;
