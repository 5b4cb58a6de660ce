//! Masked in-place bit-addressed writes to a byte buffer.

use vstd::prelude::*;

verus! {

use vstd::arithmetic::div_mod::{lemma_breakdown, lemma_fundamental_div_mod};
use vstd::arithmetic::mul::lemma_mul_is_commutative;
use vstd::arithmetic::power2::{lemma2_to64, lemma_pow2_adds, lemma_pow2_pos,
    lemma_pow2_strictly_increases, lemma_pow2_unfold, pow2};
use vstd::bits::{lemma_u8_shl_is_mul, lemma_u8_shr_is_div};
use crate::bitfield::BitField;
use crate::error::{Error, ErrorKind};
use crate::model::{bit_at, field, mask_of, written};
use crate::model::{
    lemma_bit_index_parts,
    lemma_bit_of_high,
    lemma_bit_of_low,
    lemma_byte_field,
    lemma_field_same,
    lemma_field_split,
    lemma_masked_write,
};

/// An exclusively owned byte buffer accepting bit-addressed writes.  It can
/// be consumed into a read-only `BitField` over the same, now settled,
/// buffer.
pub struct MutableBitField {
    data: Vec<u8>,
}

impl View for MutableBitField {
    type V = Seq<u8>;

    closed spec fn view(&self) -> Seq<u8> {
        self.data@
    }
}

impl MutableBitField {
    /// A writer over the given buffer.
    pub fn new(data: Vec<u8>) -> (r: MutableBitField)
        ensures
            r@ == data@,
    {
        MutableBitField { data }
    }

    /// Consumes the writer and hands the buffer to a read-only `BitField`.
    pub fn to_bitfield(self) -> (r: BitField)
        ensures
            r@ == self@,
    {
        BitField::new(self.data)
    }

    /// Consumes the writer and hands back the buffer itself.
    pub fn into_data(self) -> (r: Vec<u8>)
        ensures
            r@ == self@,
    {
        self.data
    }

    /// The 8-bit mask whose bits `[first, last]` (MSB-first numbering) are
    /// set.  An internal primitive: callers must pre-validate
    /// `first <= last <= 7`.
    pub fn create_mask(first: usize, last: usize) -> (r: u8)
        requires
            first <= last,
            last <= 7,
        ensures
            r as nat == mask_of(first as int, last as int),
    {
        let mut byte: u8 = 0;
        let mut i: usize = first;
        proof {
            lemma2_to64();
        }
        while i <= last
            invariant
                first <= i <= last + 1,
                last <= 7,
                byte as nat == pow2((i - first) as nat) - 1,
            decreases last + 1 - i,
        {
            proof {
                lemma2_to64();
                if i - first < 7 {
                    lemma_pow2_strictly_increases((i - first) as nat, 7);
                }
                lemma_pow2_unfold((i + 1 - first) as nat);
                lemma_u8_shl_is_mul(byte, 1);
            }
            byte = (byte << 1) + 1;
            i = i + 1;
        }
        let width: usize = last + 1 - first;
        proof {
            lemma2_to64();
            lemma_pow2_adds(width as nat, (7 - last) as nat);
            if 8 - first < 8 {
                lemma_pow2_strictly_increases((8 - first) as nat, 8);
            }
            lemma_pow2_pos((7 - last) as nat);
            assert((pow2(width as nat) - 1) * pow2((7 - last) as nat) == pow2((8 - first) as nat)
                - pow2((7 - last) as nat)) by (nonlinear_arith)
                requires
                    pow2(width as nat) * pow2((7 - last) as nat) == pow2((8 - first) as nat),
            ;
            lemma_u8_shl_is_mul(byte, (7 - last) as u8);
        }
        byte << ((7 - last) as u8)
    }

    /// Overwrites the bits `[start_bit, end_bit]` of the byte at
    /// `byte_offset` with the low-order bits of `value`, leaving every other
    /// bit of that byte, and every other byte, unchanged.
    pub fn set_bits(
        &mut self,
        value: u8,
        byte_offset: usize,
        start_bit: usize,
        end_bit: usize,
    ) -> (r: Result<(), Error>)
        ensures
            r is Ok <==> (byte_offset < old(self)@.len() && start_bit <= end_bit && end_bit <= 7),
            final(self)@.len() == old(self)@.len(),
            r is Err ==> final(self)@ == old(self)@,
            r is Err ==> r->Err_0.kind == (if byte_offset >= old(self)@.len() {
                ErrorKind::OutOfRange
            } else {
                ErrorKind::InvRange
            }),
            r is Ok ==> ({
                let w = (end_bit + 1 - start_bit) as nat;
                &&& forall|k: int|
                    0 <= k < old(self)@.len() && k != byte_offset ==> final(self)@[k] == old(
                        self,
                    )@[k]
                &&& field(final(self)@, 8 * byte_offset + start_bit, w) == (value as nat) % pow2(w)
                &&& forall|j: int|
                    0 <= j < 8 && !(start_bit <= j <= end_bit) ==> #[trigger] bit_at(
                        final(self)@,
                        8 * byte_offset + j,
                    ) == bit_at(old(self)@, 8 * byte_offset + j)
            }),
    {
        if byte_offset < self.data.len() {
            if start_bit < 8 && end_bit < 8 && start_bit <= end_bit {
                let mask = MutableBitField::create_mask(start_bit, end_bit);
                let old_byte = self.data[byte_offset];
                let or_value = (value << ((7 - end_bit) as u8)) & mask;
                let new_byte = (old_byte & !mask) | or_value;
                self.data[byte_offset] = new_byte;
                proof {
                    let w: nat = (end_bit + 1 - start_bit) as nat;
                    let t: nat = (7 - end_bit) as nat;
                    let pre = old(self)@;
                    let post = self@;
                    lemma_masked_write(
                        old_byte,
                        value,
                        mask,
                        start_bit as int,
                        end_bit as int,
                    );
                    lemma_byte_field(post, byte_offset as int, start_bit as int, end_bit as int);
                    assert(field(post, 8 * byte_offset + start_bit, w) == (value as nat) % pow2(
                        w,
                    ));
                    assert forall|j: int|
                        0 <= j < 8 && !(start_bit <= j <= end_bit) implies #[trigger] bit_at(
                        post,
                        8 * byte_offset + j,
                    ) == bit_at(pre, 8 * byte_offset + j) by {
                        lemma_bit_index_parts(byte_offset as int, j);
                        let nbn: nat = new_byte as nat;
                        let obn: nat = old_byte as nat;
                        if j > end_bit {
                            lemma_bit_of_low(nbn, t, (7 - j) as nat);
                            lemma_bit_of_low(obn, t, (7 - j) as nat);
                        } else {
                            lemma_bit_of_high(nbn, (8 - start_bit) as nat, (7 - j) as nat);
                            lemma_bit_of_high(obn, (8 - start_bit) as nat, (7 - j) as nat);
                        }
                    }
                }
                Ok(())
            } else {
                Err(
                    Error::with_context(
                        ErrorKind::InvRange,
                        "set_bits: bit index is invalid for a byte",
                    ),
                )
            }
        } else {
            Err(
                Error::with_context(ErrorKind::OutOfRange, "set_bits: byte index is out of range"),
            )
        }
    }


    /// Writes the low bits of `value` into the bits `[start, end]` of the
    /// buffer, a range of at most 8 bits which may straddle one byte
    /// boundary.  The whole range is validated before any byte is touched,
    /// so a failed write leaves the buffer unchanged.
    pub fn set_u8(&mut self, value: u8, start: usize, end: usize) -> (r: Result<(), Error>)
        ensures
            r is Ok <==> (start <= end && end - start <= 7 && end < old(self)@.len() * 8),
            final(self)@.len() == old(self)@.len(),
            r is Err ==> final(self)@ == old(self)@,
            r is Err ==> r->Err_0.kind == (if start > end {
                ErrorKind::OutOfRange
            } else if end - start > 7 {
                ErrorKind::InvParam
            } else {
                ErrorKind::OutOfRange
            }),
            r is Ok ==> written(old(self)@, final(self)@, value, start as int, end as int),
    {
        if end >= start {
            let end_offset = end - start;
            if end_offset > 7 {
                Err(
                    Error::with_context(
                        ErrorKind::InvParam,
                        "set_u8: the range holds more than 8 bits",
                    ),
                )
            } else if end / 8 >= self.data.len() {
                proof {
                    lemma_fundamental_div_mod(end as int, 8);
                }
                Err(
                    Error::with_context(
                        ErrorKind::OutOfRange,
                        "set_u8: bit range is out of the buffer",
                    ),
                )
            } else {
                let start_byte = start / 8;
                let start_bit = start % 8;
                proof {
                    lemma_fundamental_div_mod(start as int, 8);
                    lemma_fundamental_div_mod(end as int, 8);
                }
                if start_bit + end_offset < 8 {
                    let ghost pre = self@;
                    proof {
                        lemma_bit_index_parts(start_byte as int, start_bit + end_offset);
                        assert(end as int == 8 * (start_byte as int) + start_bit + end_offset);
                    }
                    match self.set_bits(value, start_byte, start_bit, start_bit + end_offset) {
                        Ok(unit) => {
                            proof {
                                let post = self@;
                                let w: nat = (end + 1 - start) as nat;
                                assert(field(post, start as int, w) == (value as nat) % pow2(w));
                                assert forall|i: int|
                                    0 <= i < pre.len() * 8 && !(start <= i <= end) implies bit_at(
                                    post,
                                    i,
                                ) == bit_at(pre, i) by {
                                    lemma_fundamental_div_mod(i, 8);
                                    let kk = i / 8;
                                    let j = i % 8;
                                    if kk == start_byte as int {
                                        assert(bit_at(post, 8 * (start_byte as int) + j)
                                            == bit_at(pre, 8 * (start_byte as int) + j));
                                    } else {
                                        assert(post[kk] == pre[kk]);
                                    }
                                }
                            }
                            Ok(unit)
                        },
                        Err(why) => {
                            proof {
                                assert(false);
                            }
                            Err(why)
                        },
                    }
                } else {
                    let last_offset = end_offset + start_bit - 8;
                    let ghost pre = self@;
                    proof {
                        lemma_bit_index_parts(start_byte as int + 1, last_offset as int);
                        assert(end as int == 8 * (start_byte as int + 1) + last_offset);
                    }
                    let high_value = value >> ((last_offset + 1) as u8);
                    match self.set_bits(high_value, start_byte, start_bit, 7) {
                        Ok(_) => (),
                        Err(why) => {
                            proof {
                                assert(false);
                            }
                            return Err(why);
                        },
                    }
                    let ghost mid = self@;
                    match self.set_bits(value, start_byte + 1, 0, last_offset) {
                        Ok(_) => (),
                        Err(why) => {
                            proof {
                                assert(false);
                            }
                            return Err(why);
                        },
                    }
                    proof {
                        let post = self@;
                        let sbyte = start_byte as int;
                        let w: nat = (end + 1 - start) as nat;
                        let w1: nat = (8 - start_bit) as nat;
                        let w2: nat = (last_offset + 1) as nat;
                        lemma_u8_shr_is_div(value, (last_offset + 1) as u8);
                        assert(high_value as nat == (value as nat) / pow2(w2));
                        assert(field(mid, 8 * sbyte + start_bit, w1) == (high_value as nat)
                            % pow2(w1));
                        assert(field(post, 8 * (sbyte + 1), w2) == (value as nat) % pow2(w2));
                        assert forall|i: int|
                            start <= i < start + w1 implies bit_at(post, i) == bit_at(mid, i) by {
                            lemma_bit_index_parts(sbyte, i - 8 * sbyte);
                            assert(post[sbyte] == mid[sbyte]);
                        }
                        lemma_field_same(post, mid, start as int, w1);
                        lemma_field_split(post, start as int, w1, w2);
                        lemma_pow2_pos(w1);
                        lemma_pow2_pos(w2);
                        lemma_pow2_adds(w2, w1);
                        lemma_breakdown(value as int, pow2(w2) as int, pow2(w1) as int);
                        assert(((value as nat) / pow2(w2) % pow2(w1)) * pow2(w2) == pow2(w2) * (
                        (value as nat) / pow2(w2) % pow2(w1))) by {
                            lemma_mul_is_commutative(
                                ((value as nat) / pow2(w2) % pow2(w1)) as int,
                                pow2(w2) as int,
                            );
                        }
                        assert(field(post, start as int, w) == (value as nat) % pow2(w));
                        assert forall|i: int|
                            0 <= i < pre.len() * 8 && !(start <= i <= end) implies bit_at(post, i)
                            == bit_at(pre, i) by {
                            lemma_fundamental_div_mod(i, 8);
                            let kk = i / 8;
                            let j = i % 8;
                            if kk == sbyte {
                                assert(i < start);
                                assert(j < start_bit);
                                assert(bit_at(mid, 8 * sbyte + j) == bit_at(pre, 8 * sbyte + j));
                                assert(post[sbyte] == mid[sbyte]);
                                assert(bit_at(post, i) == bit_at(mid, i));
                            } else if kk == sbyte + 1 {
                                assert(i > end);
                                assert(j > last_offset);
                                assert(bit_at(post, 8 * (sbyte + 1) + j) == bit_at(
                                    mid,
                                    8 * (sbyte + 1) + j,
                                ));
                                assert(mid[kk] == pre[kk]);
                                assert(bit_at(mid, i) == bit_at(pre, i));
                            } else {
                                assert(mid[kk] == pre[kk]);
                                assert(post[kk] == mid[kk]);
                            }
                        }
                    }
                    Ok(())
                }
            }
        } else {
            Err(
                Error::with_context(ErrorKind::OutOfRange, "set_u8: start is greater than end"),
            )
        }
    }

}

} // verus!
