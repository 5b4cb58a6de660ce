//! Bit-addressable reads and writes over a byte buffer.
//!
//! Bits are numbered globally from 0, MSB-first within each byte: global bit
//! index `i` lives in byte `i / 8` at intra-byte position `i % 8`, where
//! position 0 is the byte's most significant bit.  A bit range is an inclusive
//! pair `[start, end]`.  `BitField` decodes unsigned and signed integers of
//! width 8/16/32/64, big- or little-endian, from any such range;
//! `MutableBitField` performs masked in-place writes and can be consumed into
//! a `BitField` over the same buffer.

mod bitfield;
mod error;
mod model;
mod mutable_bitfield;

pub use crate::bitfield::BitField;
pub use crate::error::Error;
pub use crate::error::ErrorKind;
pub use crate::model::bit_at;
pub use crate::model::field;
pub use crate::model::field_le;
pub use crate::model::lemma_all_ones_reads_minus_one;
pub use crate::model::lemma_bit_at_shift_form;
pub use crate::model::lemma_endianness_duality;
pub use crate::model::lemma_write_read_round_trip;
pub use crate::model::lemma_zero_then_ones_reads_max;
pub use crate::model::mask_of;
pub use crate::model::signed_of;
pub use crate::model::written;
pub use crate::mutable_bitfield::MutableBitField;
