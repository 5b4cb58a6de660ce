//! Read-only bit-addressed access to a byte buffer.

use vstd::prelude::*;

verus! {

use vstd::arithmetic::div_mod::{lemma_basic_div, lemma_div_non_zero,
    lemma_fundamental_div_mod, lemma_multiply_divide_lt};
use vstd::arithmetic::power2::{lemma2_to64, lemma2_to64_rest, lemma_pow2_adds, lemma_pow2_pos,
    lemma_pow2_strictly_increases, lemma_pow2_unfold, pow2};
use vstd::arithmetic::mul::lemma_mul_is_commutative;
use vstd::bits::{lemma_u16_shl_is_mul, lemma_u32_shl_is_mul, lemma_u64_shl_is_mul, lemma_u8_shl_is_mul};
use crate::error::{Error, ErrorKind};
use crate::model::{bit_at, field, field_le, signed_of};
use crate::model::{
    lemma_and_pow2_is_bit,
    lemma_bit_index_parts,
    lemma_chunk_extend,
    lemma_chunk_extend_le,
    lemma_field_le_snoc,
    lemma_byte_extract,
    lemma_byte_field,
    lemma_field_bound,
    lemma_field_le_bound,
    lemma_field_split,
};

/// A read-only view of a byte buffer, addressed by global bit index.
pub struct BitField {
    data: Vec<u8>,
}

impl View for BitField {
    type V = Seq<u8>;

    closed spec fn view(&self) -> Seq<u8> {
        self.data@
    }
}

impl BitField {
    /// A reader over the given buffer.
    pub fn new(data: Vec<u8>) -> (r: BitField)
        ensures
            r@ == data@,
    {
        BitField { data }
    }

    /// The bits `[start_bit, end_bit]` of the byte at `byte_offset`,
    /// right-justified in the result.
    fn get_bits(&self, byte_offset: usize, start_bit: usize, end_bit: usize) -> (r: Result<
        u8,
        Error,
    >)
        ensures
            r is Ok <==> (byte_offset < self@.len() && start_bit <= end_bit && end_bit <= 7),
            r is Ok ==> r->Ok_0 as nat == field(
                self@,
                8 * byte_offset + start_bit,
                (end_bit + 1 - start_bit) as nat,
            ),
            r is Err ==> r->Err_0.kind == (if byte_offset >= self@.len() {
                ErrorKind::OutOfRange
            } else if start_bit > 7 || end_bit > 7 {
                ErrorKind::OutOfRange
            } else {
                ErrorKind::InvParam
            }),
    {
        if byte_offset < self.data.len() {
            let byte = self.data[byte_offset];
            if start_bit < 8 && end_bit < 8 {
                if start_bit <= end_bit {
                    let shifted = byte << (start_bit as u8);
                    let result = shifted >> ((7 - end_bit + start_bit) as u8);
                    proof {
                        lemma_byte_extract(byte, start_bit as u8, end_bit as u8);
                        lemma_byte_field(
                            self@,
                            byte_offset as int,
                            start_bit as int,
                            end_bit as int,
                        );
                    }
                    Ok(result)
                } else {
                    Err(
                        Error::with_context(
                            ErrorKind::InvParam,
                            "get_bits: start_bit is greater than end_bit",
                        ),
                    )
                }
            } else {
                Err(
                    Error::with_context(
                        ErrorKind::OutOfRange,
                        "get_bits: bit index is out of range for a byte",
                    ),
                )
            }
        } else {
            Err(
                Error::with_context(ErrorKind::OutOfRange, "get_bits: byte index is out of range"),
            )
        }
    }

    /// The single bit at global bit index `index`: true if it is 1.
    pub fn get_bit(&self, index: usize) -> (r: Result<bool, Error>)
        ensures
            r is Ok <==> index < self@.len() * 8,
            r is Ok ==> (r->Ok_0 <==> bit_at(self@, index as int) == 1),
            r is Err ==> r->Err_0.kind == ErrorKind::OutOfRange,
    {
        proof {
            lemma_fundamental_div_mod(index as int, 8);
        }
        match self.get_bits(index / 8, index % 8, index % 8) {
            Ok(b) => {
                proof {
                    assert(8 * ((index as int) / 8) + (index as int) % 8 == index as int);
                    assert(field(self@, index as int, 0) == 0);
                    assert(field(self@, index as int, 1) == bit_at(self@, index as int));
                    if index >= self@.len() * 8 {
                        assert((index as int) / 8 >= self@.len());
                        assert(false);
                    }
                }
                Ok(b == 1)
            },
            Err(why) => {
                proof {
                    if (index as int) / 8 < self@.len() {
                        assert(index as int == 8 * ((index as int) / 8) + (index as int) % 8);
                        assert(index < self@.len() * 8);
                        assert(false);
                    }
                }
                Err(
                    Error::with_all(
                        ErrorKind::OutOfRange,
                        "get_bit: bit index is out of range",
                        Box::new(why),
                    ),
                )
            },
        }
    }

    /// The unsigned value of the bits `[start, end]`, a range of at most
    /// 8 bits which may straddle one byte boundary.
    pub fn get_u8(&self, start: usize, end: usize) -> (r: Result<u8, Error>)
        ensures
            r is Ok <==> (start <= end && end - start <= 7 && end < self@.len() * 8),
            r is Ok ==> r->Ok_0 as nat == field(self@, start as int, (end + 1 - start) as nat),
            r is Ok ==> (r->Ok_0 as nat) < pow2((end + 1 - start) as nat),
            r is Err ==> r->Err_0.kind == (if start > end {
                ErrorKind::OutOfRange
            } else if end - start > 7 {
                ErrorKind::InvParam
            } else {
                ErrorKind::OutOfRange
            }),
    {
        if end >= start {
            let end_offset = end - start;
            if end_offset > 7 {
                Err(
                    Error::with_context(
                        ErrorKind::InvParam,
                        "get_u8: the range holds more than 8 bits",
                    ),
                )
            } else {
                let start_byte = start / 8;
                let start_bit = start % 8;
                proof {
                    lemma_fundamental_div_mod(start as int, 8);
                    lemma_field_bound(self@, start as int, (end + 1 - start) as nat);
                }
                if start_bit + end_offset < 8 {
                    match self.get_bits(start_byte, start_bit, start_bit + end_offset) {
                        Ok(byte) => {
                            proof {
                                lemma_bit_index_parts(
                                    start_byte as int,
                                    start_bit + end_offset,
                                );
                                assert(end as int == 8 * (start_byte as int) + start_bit
                                    + end_offset);
                            }
                            Ok(byte)
                        },
                        Err(why) => {
                            proof {
                                lemma_bit_index_parts(
                                    start_byte as int,
                                    start_bit + end_offset,
                                );
                            }
                            let kind = why.kind();
                            Err(
                                Error::with_all(
                                    kind,
                                    "get_u8: error from get_bits",
                                    Box::new(why),
                                ),
                            )
                        },
                    }
                } else {
                    let last_offset = end_offset + start_bit - 8;
                    proof {
                        lemma_bit_index_parts(start_byte as int + 1, last_offset as int);
                        assert(end as int == 8 * (start_byte as int + 1) + last_offset);
                    }
                    let high = match self.get_bits(start_byte, start_bit, 7) {
                        Ok(byte) => byte,
                        Err(why) => {
                            let kind = why.kind();
                            return Err(
                                Error::with_all(
                                    kind,
                                    "get_u8: error from get_bits on the first byte",
                                    Box::new(why),
                                ),
                            );
                        },
                    };
                    let low = match self.get_bits(start_byte + 1, 0, last_offset) {
                        Ok(byte) => byte,
                        Err(why) => {
                            let kind = why.kind();
                            return Err(
                                Error::with_all(
                                    kind,
                                    "get_u8: error from get_bits on the second byte",
                                    Box::new(why),
                                ),
                            );
                        },
                    };
                    proof {
                        let w1: nat = (8 - start_bit) as nat;
                        let w2: nat = (last_offset + 1) as nat;
                        let w: nat = (end + 1 - start) as nat;
                        lemma_field_split(self@, start as int, w1, w2);
                        lemma_field_bound(self@, start as int, w1);
                        lemma_field_bound(self@, start as int + w1, w2);
                        lemma_pow2_pos(w1);
                        lemma_pow2_pos(w2);
                        lemma_pow2_adds(w1, w2);
                        if w < 8 {
                            lemma_pow2_strictly_increases(w, 8);
                        }
                        lemma2_to64();
                        assert(high as nat * pow2(w2) + low as nat <= 255) by (nonlinear_arith)
                            requires
                                (high as nat) < pow2(w1),
                                (low as nat) < pow2(w2),
                                pow2(w1) * pow2(w2) == pow2(w),
                                pow2(w) <= 256,
                                pow2(w2) >= 1,
                        ;
                        lemma_u8_shl_is_mul(high, (last_offset + 1) as u8);
                    }
                    let result = (high << ((last_offset + 1) as u8)) + low;
                    Ok(result)
                }
            }
        } else {
            Err(
                Error::with_context(ErrorKind::OutOfRange, "get_u8: start is greater than end"),
            )
        }
    }

    /// The unsigned big-endian value of the bits `[start, end]`, a range of
    /// at most 16 bits: the chunk at `start` is the most significant.
    pub fn get_u16_be(&self, start: usize, end: usize) -> (r: Result<u16, Error>)
        requires
            start <= end,
            end - start <= 15,
        ensures
            r is Ok <==> end < self@.len() * 8,
            r is Ok ==> r->Ok_0 as nat == field(self@, start as int, (end + 1 - start) as nat),
            r is Err ==> r->Err_0.kind == ErrorKind::OutOfRange,
    {
        let bit_offset = end - start;
        if bit_offset > 7 {
            let median = start + (bit_offset - 8);
            let high = match self.get_u8(start, median) {
                Ok(v) => v,
                Err(why) => {
                    return Err(why);
                },
            };
            let low = match self.get_u8(median + 1, end) {
                Ok(v) => v,
                Err(why) => {
                    return Err(why);
                },
            };
            proof {
                let w1: nat = (median + 1 - start) as nat;
                lemma_field_split(self@, start as int, w1, 8);
                lemma2_to64();
                lemma_u16_shl_is_mul(high as u16, 8);
            }
            Ok(((high as u16) << 8) + (low as u16))
        } else {
            match self.get_u8(start, end) {
                Ok(v) => Ok(v as u16),
                Err(why) => Err(why),
            }
        }
    }

    /// The unsigned little-endian value of the bits `[start, end]`, a range
    /// of at most 16 bits: the chunk at `start` is the least significant.
    pub fn get_u16_le(&self, start: usize, end: usize) -> (r: Result<u16, Error>)
        requires
            start <= end,
            end - start <= 15,
        ensures
            r is Ok <==> end < self@.len() * 8,
            r is Ok ==> r->Ok_0 as nat == field_le(self@, start as int, (end + 1 - start) as nat),
            r is Err ==> r->Err_0.kind == ErrorKind::OutOfRange,
    {
        let bit_offset = end - start;
        if bit_offset > 7 {
            let low = match self.get_u8(start, start + 7) {
                Ok(v) => v,
                Err(why) => {
                    return Err(why);
                },
            };
            let high = match self.get_u8(start + 8, end) {
                Ok(v) => v,
                Err(why) => {
                    return Err(why);
                },
            };
            proof {
                let w: nat = (end + 1 - start) as nat;
                assert(field_le(self@, start as int, w) == field(self@, start as int, 8) + 256
                    * field_le(self@, start as int + 8, (w - 8) as nat));
                assert(field_le(self@, start as int + 8, (w - 8) as nat) == field(
                    self@,
                    start as int + 8,
                    (w - 8) as nat,
                ));
                lemma2_to64();
                lemma_u16_shl_is_mul(high as u16, 8);
            }
            Ok(((high as u16) << 8) + (low as u16))
        } else {
            match self.get_u8(start, end) {
                Ok(v) => Ok(v as u16),
                Err(why) => Err(why),
            }
        }
    }




    /// The unsigned big-endian value of the bits `[start, end]`, a range of
    /// at most 32 bits: an optional short leading chunk is followed by
    /// full 8-bit chunks, most significant chunk first.
    pub fn get_u32_be(&self, start: usize, end: usize) -> (r: Result<u32, Error>)
        requires
            start <= end,
            end - start <= 31,
        ensures
            r is Ok <==> end < self@.len() * 8,
            r is Ok ==> r->Ok_0 as nat == field(self@, start as int, (end + 1 - start) as nat),
            r is Err ==> r->Err_0.kind == ErrorKind::OutOfRange,
    {
        let width = end - start + 1;
        let first = width % 8;
        let n_full = width / 8;
        let mut value: u32 = 0;
        proof {
            lemma_fundamental_div_mod(width as int, 8);
            lemma2_to64();
            assert(field(self@, start as int, 0) == 0);
        }
        if first > 0 {
            match self.get_u8(start, start + (first - 1)) {
                Ok(v) => {
                    value = v as u32;
                },
                Err(why) => {
                    return Err(why);
                },
            }
        }
        let mut i: usize = 0;
        while i < n_full
            invariant
                0 <= i <= n_full,
                width == end - start + 1,
                first == width % 8,
                n_full == width / 8,
                start <= end,
                end - start <= 31,
                value as nat == field(self@, start as int, (first + 8 * i) as nat),
                (value as nat) < pow2((first + 8 * i) as nat),
                first + 8 * i > 0 ==> start + first + 8 * i - 1 < self@.len() * 8,
            decreases n_full - i,
        {
            let chunk_start = start + first + 8 * i;
            proof {
                assert(first + 8 * i + 8 <= width);
                assert(chunk_start + 7 <= end);
            }
            let chunk = match self.get_u8(chunk_start, chunk_start + 7) {
                Ok(v) => v,
                Err(why) => {
                    return Err(why);
                },
            };
            proof {
                lemma_chunk_extend(value as nat, chunk as nat, (first + 8 * i) as nat, 32);
                lemma2_to64();
                lemma_u32_shl_is_mul(value, 8);
                lemma_field_split(self@, start as int, (first + 8 * i) as nat, 8);
                lemma_field_bound(self@, start as int, (first + 8 * i + 8) as nat);
            }
            value = (value << 8) + (chunk as u32);
            i = i + 1;
        }
        proof {
            assert(first + 8 * n_full == width);
        }
        Ok(value)
    }

    /// The unsigned big-endian value of the bits `[start, end]`, a range of
    /// at most 64 bits: an optional short leading chunk is followed by
    /// full 8-bit chunks, most significant chunk first.
    pub fn get_u64_be(&self, start: usize, end: usize) -> (r: Result<u64, Error>)
        requires
            start <= end,
            end - start <= 63,
        ensures
            r is Ok <==> end < self@.len() * 8,
            r is Ok ==> r->Ok_0 as nat == field(self@, start as int, (end + 1 - start) as nat),
            r is Err ==> r->Err_0.kind == ErrorKind::OutOfRange,
    {
        let width = end - start + 1;
        let first = width % 8;
        let n_full = width / 8;
        let mut value: u64 = 0;
        proof {
            lemma_fundamental_div_mod(width as int, 8);
            lemma2_to64();
            assert(field(self@, start as int, 0) == 0);
        }
        if first > 0 {
            match self.get_u8(start, start + (first - 1)) {
                Ok(v) => {
                    value = v as u64;
                },
                Err(why) => {
                    return Err(why);
                },
            }
        }
        let mut i: usize = 0;
        while i < n_full
            invariant
                0 <= i <= n_full,
                width == end - start + 1,
                first == width % 8,
                n_full == width / 8,
                start <= end,
                end - start <= 63,
                value as nat == field(self@, start as int, (first + 8 * i) as nat),
                (value as nat) < pow2((first + 8 * i) as nat),
                first + 8 * i > 0 ==> start + first + 8 * i - 1 < self@.len() * 8,
            decreases n_full - i,
        {
            let chunk_start = start + first + 8 * i;
            proof {
                assert(first + 8 * i + 8 <= width);
                assert(chunk_start + 7 <= end);
            }
            let chunk = match self.get_u8(chunk_start, chunk_start + 7) {
                Ok(v) => v,
                Err(why) => {
                    return Err(why);
                },
            };
            proof {
                lemma_chunk_extend(value as nat, chunk as nat, (first + 8 * i) as nat, 64);
                lemma2_to64();
                lemma2_to64_rest();
                lemma_u64_shl_is_mul(value, 8);
                lemma_field_split(self@, start as int, (first + 8 * i) as nat, 8);
                lemma_field_bound(self@, start as int, (first + 8 * i + 8) as nat);
            }
            value = (value << 8) + (chunk as u64);
            i = i + 1;
        }
        proof {
            assert(first + 8 * n_full == width);
        }
        Ok(value)
    }

    /// The unsigned little-endian value of the bits `[start, end]`, a range
    /// of at most 32 bits: full 8-bit chunks are taken from `start`
    /// upward, each new chunk more significant than the ones before it, and
    /// a trailing chunk of fewer than 8 bits is the most significant part.
    pub fn get_u32_le(&self, start: usize, end: usize) -> (r: Result<u32, Error>)
        requires
            start <= end,
            end - start <= 31,
        ensures
            r is Ok <==> end < self@.len() * 8,
            r is Ok ==> r->Ok_0 as nat == field_le(self@, start as int, (end + 1 - start) as nat),
            r is Err ==> r->Err_0.kind == ErrorKind::OutOfRange,
    {
        let width = end - start + 1;
        let rem = width % 8;
        let n_full = width / 8;
        let mut value: u32 = 0;
        proof {
            lemma_fundamental_div_mod(width as int, 8);
            lemma2_to64();
            assert(field_le(self@, start as int, 0) == 0);
        }
        let mut i: usize = 0;
        while i < n_full
            invariant
                0 <= i <= n_full,
                width == end - start + 1,
                rem == width % 8,
                n_full == width / 8,
                start <= end,
                end - start <= 31,
                value as nat == field_le(self@, start as int, (8 * i) as nat),
                (value as nat) < pow2((8 * i) as nat),
                i > 0 ==> start + 8 * i - 1 < self@.len() * 8,
            decreases n_full - i,
        {
            let chunk_start = start + 8 * i;
            proof {
                assert(8 * i + 8 <= width);
                assert(chunk_start + 7 <= end);
            }
            let chunk = match self.get_u8(chunk_start, chunk_start + 7) {
                Ok(v) => v,
                Err(why) => {
                    return Err(why);
                },
            };
            proof {
                lemma_chunk_extend_le(value as nat, chunk as nat, (8 * i) as nat, 8, 32);
                lemma2_to64();
                lemma_u32_shl_is_mul(chunk as u32, (8 * i) as u32);
                lemma_field_le_snoc(self@, start as int, (8 * i) as nat, 8);
                lemma_mul_is_commutative(chunk as int, pow2((8 * i) as nat) as int);
            }
            value = value + ((chunk as u32) << ((8 * i) as u32));
            i = i + 1;
        }
        if rem > 0 {
            let chunk_start = start + 8 * n_full;
            proof {
                assert(chunk_start + (rem - 1) == end);
            }
            let chunk = match self.get_u8(chunk_start, end) {
                Ok(v) => v,
                Err(why) => {
                    return Err(why);
                },
            };
            proof {
                lemma_chunk_extend_le(
                    value as nat,
                    chunk as nat,
                    (8 * n_full) as nat,
                    rem as nat,
                    32,
                );
                lemma2_to64();
                lemma_u32_shl_is_mul(chunk as u32, (8 * n_full) as u32);
                lemma_field_le_snoc(self@, start as int, (8 * n_full) as nat, rem as nat);
                lemma_mul_is_commutative(chunk as int, pow2((8 * n_full) as nat) as int);
            }
            value = value + ((chunk as u32) << ((8 * n_full) as u32));
        }
        Ok(value)
    }

    /// The unsigned little-endian value of the bits `[start, end]`, a range
    /// of at most 64 bits: full 8-bit chunks are taken from `start`
    /// upward, each new chunk more significant than the ones before it, and
    /// a trailing chunk of fewer than 8 bits is the most significant part.
    pub fn get_u64_le(&self, start: usize, end: usize) -> (r: Result<u64, Error>)
        requires
            start <= end,
            end - start <= 63,
        ensures
            r is Ok <==> end < self@.len() * 8,
            r is Ok ==> r->Ok_0 as nat == field_le(self@, start as int, (end + 1 - start) as nat),
            r is Err ==> r->Err_0.kind == ErrorKind::OutOfRange,
    {
        let width = end - start + 1;
        let rem = width % 8;
        let n_full = width / 8;
        let mut value: u64 = 0;
        proof {
            lemma_fundamental_div_mod(width as int, 8);
            lemma2_to64();
            lemma2_to64_rest();
            assert(field_le(self@, start as int, 0) == 0);
        }
        let mut i: usize = 0;
        while i < n_full
            invariant
                0 <= i <= n_full,
                width == end - start + 1,
                rem == width % 8,
                n_full == width / 8,
                start <= end,
                end - start <= 63,
                value as nat == field_le(self@, start as int, (8 * i) as nat),
                (value as nat) < pow2((8 * i) as nat),
                i > 0 ==> start + 8 * i - 1 < self@.len() * 8,
            decreases n_full - i,
        {
            let chunk_start = start + 8 * i;
            proof {
                assert(8 * i + 8 <= width);
                assert(chunk_start + 7 <= end);
            }
            let chunk = match self.get_u8(chunk_start, chunk_start + 7) {
                Ok(v) => v,
                Err(why) => {
                    return Err(why);
                },
            };
            proof {
                lemma_chunk_extend_le(value as nat, chunk as nat, (8 * i) as nat, 8, 64);
                lemma2_to64();
            lemma2_to64_rest();
                lemma_u64_shl_is_mul(chunk as u64, (8 * i) as u64);
                lemma_field_le_snoc(self@, start as int, (8 * i) as nat, 8);
                lemma_mul_is_commutative(chunk as int, pow2((8 * i) as nat) as int);
            }
            value = value + ((chunk as u64) << ((8 * i) as u64));
            i = i + 1;
        }
        if rem > 0 {
            let chunk_start = start + 8 * n_full;
            proof {
                assert(chunk_start + (rem - 1) == end);
            }
            let chunk = match self.get_u8(chunk_start, end) {
                Ok(v) => v,
                Err(why) => {
                    return Err(why);
                },
            };
            proof {
                lemma_chunk_extend_le(
                    value as nat,
                    chunk as nat,
                    (8 * n_full) as nat,
                    rem as nat,
                    64,
                );
                lemma2_to64();
            lemma2_to64_rest();
                lemma_u64_shl_is_mul(chunk as u64, (8 * n_full) as u64);
                lemma_field_le_snoc(self@, start as int, (8 * n_full) as nat, rem as nat);
                lemma_mul_is_commutative(chunk as int, pow2((8 * n_full) as nat) as int);
            }
            value = value + ((chunk as u64) << ((8 * n_full) as u64));
        }
        Ok(value)
    }

    /// Reinterprets the low `8 - sign_bit` bits of `val` as a
    /// two's-complement signed value; `sign_bit` is the position of the
    /// sign bit counted down from the type's most significant bit, so 0
    /// means the full width was requested.
    fn twos_complement_u8(val: u8, sign_bit: usize) -> (r: Result<i8, Error>)
        requires
            sign_bit <= 7 ==> (val as nat) < pow2((8 - sign_bit) as nat),
        ensures
            r is Ok <==> sign_bit <= 7,
            r is Ok ==> r->Ok_0 as int == signed_of(val as nat, (8 - sign_bit) as nat),
            r is Err ==> r->Err_0.kind == ErrorKind::InvParam,
    {
        if sign_bit > 7 {
            Err(
                Error::with_context(
                    ErrorKind::InvParam,
                    "twos_complement: invalid sign bit position",
                ),
            )
        } else if sign_bit == 0 {
            proof {
                lemma2_to64();
                if val >= 0x80 {
                    assert(val as i8 == val - 0x100) by (bit_vector)
                        requires
                            val >= 0x80,
                    ;
                }
            }
            Ok(val as i8)
        } else {
            let width = 8 - sign_bit;
            let mask: u8 = 1u8 << ((width - 1) as u8);
            proof {
                lemma2_to64();
                lemma_pow2_strictly_increases((width - 1) as nat, 8);
                lemma_u8_shl_is_mul(1u8, (width - 1) as u8);
                assert(mask as nat == pow2((width - 1) as nat));
                assert(((val & mask) as u64) == ((val as u64) & (mask as u64))) by (bit_vector);
                lemma_and_pow2_is_bit(val as u64, (width - 1) as u64, mask as u64);
                lemma_pow2_unfold(width as nat);
                lemma_pow2_pos((width - 1) as nat);
                lemma_fundamental_div_mod(val as int, pow2((width - 1) as nat) as int);
                lemma_multiply_divide_lt(val as int, pow2((width - 1) as nat) as int, 2);
                lemma_pow2_strictly_increases((width - 1) as nat, (8 - 1) as nat);
            }
            if val & mask != 0 {
                proof {
                    assert((val as nat) / pow2((width - 1) as nat) == 1);
                    if (val as nat) < pow2((width - 1) as nat) {
                        lemma_basic_div(val as int, pow2((width - 1) as nat) as int);
                        assert(false);
                    }
                    assert((val as nat) >= pow2((width - 1) as nat));
                    lemma_u8_shl_is_mul(mask, 1);
                }
                Ok(-(((mask << 1) - val) as i8))
            } else {
                proof {
                    assert((val as nat) / pow2((width - 1) as nat) == 0);
                    if (val as nat) >= pow2((width - 1) as nat) {
                        lemma_div_non_zero(val as int, pow2((width - 1) as nat) as int);
                        assert(false);
                    }
                    assert((val as nat) < pow2((width - 1) as nat));
                }
                Ok(val as i8)
            }
        }
    }

    /// Reinterprets the low `16 - sign_bit` bits of `val` as a
    /// two's-complement signed value; `sign_bit` is the position of the
    /// sign bit counted down from the type's most significant bit, so 0
    /// means the full width was requested.
    fn twos_complement_u16(val: u16, sign_bit: usize) -> (r: Result<i16, Error>)
        requires
            sign_bit <= 15 ==> (val as nat) < pow2((16 - sign_bit) as nat),
        ensures
            r is Ok <==> sign_bit <= 15,
            r is Ok ==> r->Ok_0 as int == signed_of(val as nat, (16 - sign_bit) as nat),
            r is Err ==> r->Err_0.kind == ErrorKind::InvParam,
    {
        if sign_bit > 15 {
            Err(
                Error::with_context(
                    ErrorKind::InvParam,
                    "twos_complement: invalid sign bit position",
                ),
            )
        } else if sign_bit == 0 {
            proof {
                lemma2_to64();
                if val >= 0x8000 {
                    assert(val as i16 == val - 0x10000) by (bit_vector)
                        requires
                            val >= 0x8000,
                    ;
                }
            }
            Ok(val as i16)
        } else {
            let width = 16 - sign_bit;
            let mask: u16 = 1u16 << ((width - 1) as u16);
            proof {
                lemma2_to64();
                lemma_pow2_strictly_increases((width - 1) as nat, 16);
                lemma_u16_shl_is_mul(1u16, (width - 1) as u16);
                assert(mask as nat == pow2((width - 1) as nat));
                assert(((val & mask) as u64) == ((val as u64) & (mask as u64))) by (bit_vector);
                lemma_and_pow2_is_bit(val as u64, (width - 1) as u64, mask as u64);
                lemma_pow2_unfold(width as nat);
                lemma_pow2_pos((width - 1) as nat);
                lemma_fundamental_div_mod(val as int, pow2((width - 1) as nat) as int);
                lemma_multiply_divide_lt(val as int, pow2((width - 1) as nat) as int, 2);
                lemma_pow2_strictly_increases((width - 1) as nat, (16 - 1) as nat);
            }
            if val & mask != 0 {
                proof {
                    assert((val as nat) / pow2((width - 1) as nat) == 1);
                    if (val as nat) < pow2((width - 1) as nat) {
                        lemma_basic_div(val as int, pow2((width - 1) as nat) as int);
                        assert(false);
                    }
                    assert((val as nat) >= pow2((width - 1) as nat));
                    lemma_u16_shl_is_mul(mask, 1);
                }
                Ok(-(((mask << 1) - val) as i16))
            } else {
                proof {
                    assert((val as nat) / pow2((width - 1) as nat) == 0);
                    if (val as nat) >= pow2((width - 1) as nat) {
                        lemma_div_non_zero(val as int, pow2((width - 1) as nat) as int);
                        assert(false);
                    }
                    assert((val as nat) < pow2((width - 1) as nat));
                }
                Ok(val as i16)
            }
        }
    }

    /// Reinterprets the low `32 - sign_bit` bits of `val` as a
    /// two's-complement signed value; `sign_bit` is the position of the
    /// sign bit counted down from the type's most significant bit, so 0
    /// means the full width was requested.
    fn twos_complement_u32(val: u32, sign_bit: usize) -> (r: Result<i32, Error>)
        requires
            sign_bit <= 31 ==> (val as nat) < pow2((32 - sign_bit) as nat),
        ensures
            r is Ok <==> sign_bit <= 31,
            r is Ok ==> r->Ok_0 as int == signed_of(val as nat, (32 - sign_bit) as nat),
            r is Err ==> r->Err_0.kind == ErrorKind::InvParam,
    {
        if sign_bit > 31 {
            Err(
                Error::with_context(
                    ErrorKind::InvParam,
                    "twos_complement: invalid sign bit position",
                ),
            )
        } else if sign_bit == 0 {
            proof {
                lemma2_to64();
                if val >= 0x80000000 {
                    assert(val as i32 == val - 0x100000000) by (bit_vector)
                        requires
                            val >= 0x80000000,
                    ;
                }
            }
            Ok(val as i32)
        } else {
            let width = 32 - sign_bit;
            let mask: u32 = 1u32 << ((width - 1) as u32);
            proof {
                lemma2_to64();
                lemma_pow2_strictly_increases((width - 1) as nat, 32);
                lemma_u32_shl_is_mul(1u32, (width - 1) as u32);
                assert(mask as nat == pow2((width - 1) as nat));
                assert(((val & mask) as u64) == ((val as u64) & (mask as u64))) by (bit_vector);
                lemma_and_pow2_is_bit(val as u64, (width - 1) as u64, mask as u64);
                lemma_pow2_unfold(width as nat);
                lemma_pow2_pos((width - 1) as nat);
                lemma_fundamental_div_mod(val as int, pow2((width - 1) as nat) as int);
                lemma_multiply_divide_lt(val as int, pow2((width - 1) as nat) as int, 2);
                lemma_pow2_strictly_increases((width - 1) as nat, (32 - 1) as nat);
            }
            if val & mask != 0 {
                proof {
                    assert((val as nat) / pow2((width - 1) as nat) == 1);
                    if (val as nat) < pow2((width - 1) as nat) {
                        lemma_basic_div(val as int, pow2((width - 1) as nat) as int);
                        assert(false);
                    }
                    assert((val as nat) >= pow2((width - 1) as nat));
                    lemma_u32_shl_is_mul(mask, 1);
                }
                Ok(-(((mask << 1) - val) as i32))
            } else {
                proof {
                    assert((val as nat) / pow2((width - 1) as nat) == 0);
                    if (val as nat) >= pow2((width - 1) as nat) {
                        lemma_div_non_zero(val as int, pow2((width - 1) as nat) as int);
                        assert(false);
                    }
                    assert((val as nat) < pow2((width - 1) as nat));
                }
                Ok(val as i32)
            }
        }
    }

    /// Reinterprets the low `64 - sign_bit` bits of `val` as a
    /// two's-complement signed value; `sign_bit` is the position of the
    /// sign bit counted down from the type's most significant bit, so 0
    /// means the full width was requested.
    fn twos_complement_u64(val: u64, sign_bit: usize) -> (r: Result<i64, Error>)
        requires
            sign_bit <= 63 ==> (val as nat) < pow2((64 - sign_bit) as nat),
        ensures
            r is Ok <==> sign_bit <= 63,
            r is Ok ==> r->Ok_0 as int == signed_of(val as nat, (64 - sign_bit) as nat),
            r is Err ==> r->Err_0.kind == ErrorKind::InvParam,
    {
        if sign_bit > 63 {
            Err(
                Error::with_context(
                    ErrorKind::InvParam,
                    "twos_complement: invalid sign bit position",
                ),
            )
        } else if sign_bit == 0 {
            proof {
                lemma2_to64();
                lemma2_to64_rest();
                if val >= 0x8000000000000000 {
                    assert(val as i64 == val - 0x10000000000000000) by (bit_vector)
                        requires
                            val >= 0x8000000000000000,
                    ;
                }
            }
            Ok(val as i64)
        } else {
            let width = 64 - sign_bit;
            let mask: u64 = 1u64 << ((width - 1) as u64);
            proof {
                lemma2_to64();
                lemma2_to64_rest();
                lemma_pow2_strictly_increases((width - 1) as nat, 64);
                lemma_u64_shl_is_mul(1u64, (width - 1) as u64);
                assert(mask as nat == pow2((width - 1) as nat));
                assert(((val & mask) as u64) == ((val as u64) & (mask as u64))) by (bit_vector);
                lemma_and_pow2_is_bit(val as u64, (width - 1) as u64, mask as u64);
                lemma_pow2_unfold(width as nat);
                lemma_pow2_pos((width - 1) as nat);
                lemma_fundamental_div_mod(val as int, pow2((width - 1) as nat) as int);
                lemma_multiply_divide_lt(val as int, pow2((width - 1) as nat) as int, 2);
                lemma_pow2_strictly_increases((width - 1) as nat, (64 - 1) as nat);
            }
            if val & mask != 0 {
                proof {
                    assert((val as nat) / pow2((width - 1) as nat) == 1);
                    if (val as nat) < pow2((width - 1) as nat) {
                        lemma_basic_div(val as int, pow2((width - 1) as nat) as int);
                        assert(false);
                    }
                    assert((val as nat) >= pow2((width - 1) as nat));
                    lemma_u64_shl_is_mul(mask, 1);
                }
                Ok(-(((mask << 1) - val) as i64))
            } else {
                proof {
                    assert((val as nat) / pow2((width - 1) as nat) == 0);
                    if (val as nat) >= pow2((width - 1) as nat) {
                        lemma_div_non_zero(val as int, pow2((width - 1) as nat) as int);
                        assert(false);
                    }
                    assert((val as nat) < pow2((width - 1) as nat));
                }
                Ok(val as i64)
            }
        }
    }

    /// The signed value of the bits `[start, end]`, a range of at most
    /// 8 bits: the bit at `start` is the sign bit.
    pub fn get_i8(&self, start: usize, end: usize) -> (r: Result<i8, Error>)
        ensures
            r is Ok <==> (start <= end && end - start <= 7 && end < self@.len() * 8),
            r is Ok ==> r->Ok_0 as int == signed_of(
                field(self@, start as int, (end + 1 - start) as nat),
                (end + 1 - start) as nat,
            ),
            r is Err ==> r->Err_0.kind == (if start > end {
                ErrorKind::OutOfRange
            } else if end - start > 7 {
                ErrorKind::InvParam
            } else {
                ErrorKind::OutOfRange
            }),
    {
        match self.get_u8(start, end) {
            Ok(byte) => {
                let sign_bit = 7 - (end - start);
                match BitField::twos_complement_u8(byte, sign_bit) {
                    Ok(v) => Ok(v),
                    Err(why) => {
                        proof {
                            assert(false);
                        }
                        Err(why)
                    },
                }
            },
            Err(why) => {
                let kind = why.kind();
                Err(
                    Error::with_all(kind, "get_i8: failure from get_u8", Box::new(why)),
                )
            },
        }
    }

    /// The signed big-endian value of the bits `[start, end]`, a range of
    /// at most 16 bits: the bit at `start` is the sign bit.
    pub fn get_i16_be(&self, start: usize, end: usize) -> (r: Result<i16, Error>)
        requires
            start <= end,
            end - start <= 15,
        ensures
            r is Ok <==> end < self@.len() * 8,
            r is Ok ==> r->Ok_0 as int == signed_of(
                field(self@, start as int, (end + 1 - start) as nat),
                (end + 1 - start) as nat,
            ),
            r is Err ==> r->Err_0.kind == ErrorKind::OutOfRange,
    {
        if end - start > 7 {
            match self.get_u16_be(start, end) {
                Ok(v) => {
                    proof {
                        lemma_field_bound(self@, start as int, (end + 1 - start) as nat);
                    }
                    match BitField::twos_complement_u16(v, 15 - (end - start)) {
                        Ok(x) => Ok(x),
                        Err(why) => {
                            proof {
                                assert(false);
                            }
                            Err(why)
                        },
                    }
                },
                Err(why) => {
                    let kind = why.kind();
                    Err(
                        Error::with_all(
                            kind,
                            "get_i16_be: failure from get_u16_be",
                            Box::new(why),
                        ),
                    )
                },
            }
        } else {
            match self.get_i8(start, end) {
                Ok(v) => Ok(v as i16),
                Err(why) => Err(why),
            }
        }
    }

    /// The signed little-endian value of the bits `[start, end]`, a range
    /// of at most 16 bits: the most significant bit of the decoded value is
    /// the sign bit.
    pub fn get_i16_le(&self, start: usize, end: usize) -> (r: Result<i16, Error>)
        requires
            start <= end,
            end - start <= 15,
        ensures
            r is Ok <==> end < self@.len() * 8,
            r is Ok ==> r->Ok_0 as int == signed_of(
                field_le(self@, start as int, (end + 1 - start) as nat),
                (end + 1 - start) as nat,
            ),
            r is Err ==> r->Err_0.kind == ErrorKind::OutOfRange,
    {
        if end - start > 7 {
            match self.get_u16_le(start, end) {
                Ok(v) => {
                    proof {
                        lemma_field_le_bound(self@, start as int, (end + 1 - start) as nat);
                    }
                    match BitField::twos_complement_u16(v, 15 - (end - start)) {
                        Ok(x) => Ok(x),
                        Err(why) => {
                            proof {
                                assert(false);
                            }
                            Err(why)
                        },
                    }
                },
                Err(why) => {
                    let kind = why.kind();
                    Err(
                        Error::with_all(
                            kind,
                            "get_i16_le: failure from get_u16_le",
                            Box::new(why),
                        ),
                    )
                },
            }
        } else {
            match self.get_i8(start, end) {
                Ok(v) => Ok(v as i16),
                Err(why) => Err(why),
            }
        }
    }

    /// The signed big-endian value of the bits `[start, end]`, a range of
    /// at most 32 bits: the bit at `start` is the sign bit.
    pub fn get_i32_be(&self, start: usize, end: usize) -> (r: Result<i32, Error>)
        requires
            start <= end,
            end - start <= 31,
        ensures
            r is Ok <==> end < self@.len() * 8,
            r is Ok ==> r->Ok_0 as int == signed_of(
                field(self@, start as int, (end + 1 - start) as nat),
                (end + 1 - start) as nat,
            ),
            r is Err ==> r->Err_0.kind == ErrorKind::OutOfRange,
    {
        if end - start > 15 {
            match self.get_u32_be(start, end) {
                Ok(v) => {
                    proof {
                        lemma_field_bound(self@, start as int, (end + 1 - start) as nat);
                    }
                    match BitField::twos_complement_u32(v, 31 - (end - start)) {
                        Ok(x) => Ok(x),
                        Err(why) => {
                            proof {
                                assert(false);
                            }
                            Err(why)
                        },
                    }
                },
                Err(why) => {
                    let kind = why.kind();
                    Err(
                        Error::with_all(
                            kind,
                            "get_i32_be: failure from get_u32_be",
                            Box::new(why),
                        ),
                    )
                },
            }
        } else {
            match self.get_i16_be(start, end) {
                Ok(v) => Ok(v as i32),
                Err(why) => Err(why),
            }
        }
    }

    /// The signed little-endian value of the bits `[start, end]`, a range
    /// of at most 32 bits: the most significant bit of the decoded value is
    /// the sign bit.
    pub fn get_i32_le(&self, start: usize, end: usize) -> (r: Result<i32, Error>)
        requires
            start <= end,
            end - start <= 31,
        ensures
            r is Ok <==> end < self@.len() * 8,
            r is Ok ==> r->Ok_0 as int == signed_of(
                field_le(self@, start as int, (end + 1 - start) as nat),
                (end + 1 - start) as nat,
            ),
            r is Err ==> r->Err_0.kind == ErrorKind::OutOfRange,
    {
        let offset = end - start;
        if offset > 15 {
            match self.get_u32_le(start, end) {
                Ok(v) => {
                    proof {
                        lemma_field_le_bound(self@, start as int, (end + 1 - start) as nat);
                    }
                    match BitField::twos_complement_u32(v, 31 - offset) {
                        Ok(x) => Ok(x),
                        Err(why) => {
                            proof {
                                assert(false);
                            }
                            Err(why)
                        },
                    }
                },
                Err(why) => {
                    let kind = why.kind();
                    Err(
                        Error::with_all(
                            kind,
                            "get_i32_le: failure from get_u32_le",
                            Box::new(why),
                        ),
                    )
                },
            }
        } else {
            match self.get_i16_le(start, end) {
                Ok(v) => Ok(v as i32),
                Err(why) => Err(why),
            }
        }
    }

    /// The signed little-endian value of the bits `[start, end]`, a range
    /// of at most 64 bits: the most significant bit of the decoded value is
    /// the sign bit.
    pub fn get_i64_le(&self, start: usize, end: usize) -> (r: Result<i64, Error>)
        requires
            start <= end,
            end - start <= 63,
        ensures
            r is Ok <==> end < self@.len() * 8,
            r is Ok ==> r->Ok_0 as int == signed_of(
                field_le(self@, start as int, (end + 1 - start) as nat),
                (end + 1 - start) as nat,
            ),
            r is Err ==> r->Err_0.kind == ErrorKind::OutOfRange,
    {
        match self.get_u64_le(start, end) {
            Ok(v) => {
                proof {
                    lemma_field_le_bound(self@, start as int, (end + 1 - start) as nat);
                }
                match BitField::twos_complement_u64(v, 63 - (end - start)) {
                    Ok(x) => Ok(x),
                    Err(why) => {
                        proof {
                            assert(false);
                        }
                        Err(why)
                    },
                }
            },
            Err(why) => {
                let kind = why.kind();
                Err(
                    Error::with_all(kind, "get_i64_le: failure from get_u64_le", Box::new(why)),
                )
            },
        }
    }
}

} // verus!
