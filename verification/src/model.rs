//! The mathematical model of bit-addressed data: what a bit, a bit range and
//! its decoded integer value are, and the laws that relate them.

use vstd::prelude::*;

verus! {

use vstd::arithmetic::div_mod::{
    lemma_breakdown,
    lemma_div_basics,
    lemma_div_by_multiple,
    lemma_div_denominator,
    lemma_fundamental_div_mod,
    lemma_fundamental_div_mod_converse,
    lemma_hoist_over_denominator,
    lemma_mod_multiples_vanish,
    lemma_multiply_divide_lt,
    lemma_small_mod,
};
use vstd::arithmetic::mul::lemma_mul_is_commutative;
use vstd::bits::{lemma_u16_shl_is_mul, lemma_u16_shr_is_div, lemma_u64_pow2_no_overflow,
    lemma_u64_shl_is_mul, lemma_u64_shr_is_div, lemma_u8_shr_is_div};
use vstd::arithmetic::power2::{
    lemma2_to64,
    lemma_pow2_strictly_increases,
    lemma_pow2_adds,
    lemma_pow2_pos,
    lemma_pow2_unfold,
    pow2,
};

/// The bit of `data` at global bit index `i`, as 0 or 1.
///
/// Bits are numbered MSB-first within each byte: index `i` lives in byte
/// `i / 8`, and intra-byte position `i % 8` counts down from the most
/// significant bit, so position 0 carries weight 2^7.
pub open spec fn bit_at(data: Seq<u8>, i: int) -> nat
    recommends
        0 <= i < data.len() * 8,
{
    (data[i / 8] as nat / pow2((7 - i % 8) as nat)) % 2
}

/// The unsigned value of the `width` bits of `data` starting at global bit
/// index `start`, concatenated MSB-first: the bit at `start` is the most
/// significant of the result.
pub open spec fn field(data: Seq<u8>, start: int, width: nat) -> nat
    recommends
        0 <= start,
        start + width <= data.len() * 8,
    decreases width,
{
    if width == 0 {
        0
    } else {
        2 * field(data, start, (width - 1) as nat) + bit_at(data, start + width - 1)
    }
}

/// The little-endian value of the `width` bits of `data` starting at `start`:
/// successive 8-bit chunks are taken from `start` upward, and each later
/// chunk is more significant than the ones before it, so the byte order is
/// reversed relative to `field` while the MSB-first numbering inside each
/// chunk is unchanged.  A trailing chunk of fewer than 8 bits is the most
/// significant part.
pub open spec fn field_le(data: Seq<u8>, start: int, width: nat) -> nat
    recommends
        0 <= start,
        start + width <= data.len() * 8,
    decreases width,
{
    if width <= 8 {
        field(data, start, width)
    } else {
        field(data, start, 8) + 256 * field_le(data, start + 8, (width - 8) as nat)
    }
}

/// The two's-complement reinterpretation of the `width`-bit unsigned value
/// `val`: the most significant of the `width` bits is the sign bit.
pub open spec fn signed_of(val: nat, width: nat) -> int
    recommends
        1 <= width,
        val < pow2(width),
{
    if val < pow2((width - 1) as nat) {
        val as int
    } else {
        val - pow2(width)
    }
}

/// The 8-bit mask whose bits `[first, last]` (MSB-first numbering) are set.
pub open spec fn mask_of(first: int, last: int) -> nat
    recommends
        0 <= first <= last <= 7,
{
    (pow2((8 - first) as nat) - pow2((7 - last) as nat)) as nat
}

/// The relation a masked write establishes: in `post`, the bits
/// `[start, end]` hold `value` reduced to the range's width, and every other
/// bit of the buffer is unchanged from `pre`.
pub open spec fn written(pre: Seq<u8>, post: Seq<u8>, value: u8, start: int, end: int) -> bool
    recommends
        0 <= start <= end,
        end - start <= 7,
        end < pre.len() * 8,
{
    &&& post.len() == pre.len()
    &&& field(post, start, (end - start + 1) as nat) == (value as nat) % pow2(
        (end - start + 1) as nat,
    )
    &&& forall|i: int|
        0 <= i < pre.len() * 8 && !(start <= i <= end) ==> bit_at(post, i) == bit_at(pre, i)
}

/// A global bit index `8 * k + j` with `0 <= j < 8` addresses byte `k` at
/// intra-byte position `j`.
pub proof fn lemma_bit_index_parts(k: int, j: int)
    requires
        0 <= k,
        0 <= j < 8,
    ensures
        (8 * k + j) / 8 == k,
        (8 * k + j) % 8 == j,
{
    lemma_fundamental_div_mod_converse(8 * k + j, 8, k, j);
}

/// A bit is 0 or 1.
pub proof fn lemma_bit_at_le_1(data: Seq<u8>, i: int)
    ensures
        bit_at(data, i) <= 1,
{
}

/// A `width`-bit field is below 2^width.
pub proof fn lemma_field_bound(data: Seq<u8>, start: int, width: nat)
    ensures
        field(data, start, width) < pow2(width),
    decreases width,
{
    if width == 0 {
        lemma2_to64();
    } else {
        lemma_field_bound(data, start, (width - 1) as nat);
        lemma_pow2_unfold(width);
        lemma_bit_at_le_1(data, start + width - 1);
    }
}

/// Splitting a bit range: the value of `w1 + w2` bits is the value of the
/// first `w1` bits shifted up by `w2` places, plus the value of the last
/// `w2` bits.
pub proof fn lemma_field_split(data: Seq<u8>, start: int, w1: nat, w2: nat)
    ensures
        field(data, start, (w1 + w2) as nat) == field(data, start, w1) * pow2(w2) + field(
            data,
            start + w1,
            w2,
        ),
    decreases w2,
{
    if w2 == 0 {
        lemma2_to64();
    } else {
        lemma_field_split(data, start, w1, (w2 - 1) as nat);
        lemma_pow2_unfold(w2);
        let f1: nat = field(data, start, w1);
        let p: nat = pow2((w2 - 1) as nat);
        assert(2 * (f1 * p) == f1 * (2 * p)) by (nonlinear_arith);
    }
}

/// Two buffers agree on a field if they agree on each of its bits.
pub proof fn lemma_field_same(d1: Seq<u8>, d2: Seq<u8>, start: int, width: nat)
    requires
        forall|i: int| start <= i < start + width ==> bit_at(d1, i) == bit_at(d2, i),
    ensures
        field(d1, start, width) == field(d2, start, width),
    decreases width,
{
    if width > 0 {
        lemma_field_same(d1, d2, start, (width - 1) as nat);
    }
}

/// The field `[sb, eb]` inside byte `k` is that byte's value shifted down
/// past its `7 - eb` lowest bits and reduced to the field's width.
pub proof fn lemma_byte_field(data: Seq<u8>, k: int, sb: int, eb: int)
    requires
        0 <= k < data.len(),
        0 <= sb <= eb <= 7,
    ensures
        field(data, 8 * k + sb, (eb + 1 - sb) as nat) == (data[k] as nat / pow2(
            (7 - eb) as nat,
        )) % pow2((eb + 1 - sb) as nat),
    decreases eb - sb,
{
    let b: nat = data[k] as nat;
    if eb == sb {
        lemma_bit_index_parts(k, sb);
        lemma2_to64();
        assert(field(data, 8 * k + sb, 0) == 0);
        assert(field(data, 8 * k + sb, 1) == bit_at(data, 8 * k + sb));
    } else {
        let w: nat = (eb + 1 - sb) as nat;
        lemma_byte_field(data, k, sb, eb - 1);
        lemma_bit_index_parts(k, eb);
        lemma_pow2_pos((7 - eb) as nat);
        let x: nat = b / pow2((7 - eb) as nat);
        assert(x / 2 == b / pow2((8 - eb) as nat)) by {
            lemma_pow2_adds((7 - eb) as nat, 1);
            lemma2_to64();
            lemma_pow2_pos((7 - eb) as nat);
            lemma_div_denominator(b as int, pow2((7 - eb) as nat) as int, 2);
        }
        assert(x % pow2(w) == 2 * ((x / 2) % pow2((w - 1) as nat)) + x % 2) by {
            lemma_pow2_pos((w - 1) as nat);
            lemma_breakdown(x as int, 2, pow2((w - 1) as nat) as int);
            lemma_pow2_unfold(w);
        }
        assert(field(data, 8 * k + sb, w) == 2 * field(data, 8 * k + sb, (w - 1) as nat) + bit_at(
            data,
            8 * k + eb,
        ));
    }
}


/// Left-shifting a byte multiplies by 2^s and truncates to 8 bits.
pub proof fn lemma_u8_shl_mod(x: u8, s: u8)
    requires
        s < 8,
    ensures
        (x << s) as nat == (x as nat * pow2(s as nat)) % 256,
{
    let y: u16 = (x as u16) << (s as u16);
    assert(pow2(s as nat) < 256) by {
        lemma_pow2_strictly_increases(s as nat, 8);
        lemma2_to64();
    }
    assert(x as int * pow2(s as nat) <= 255 * 255) by (nonlinear_arith)
        requires
            x <= 255,
            pow2(s as nat) <= 255,
    ;
    lemma_u16_shl_is_mul(x as u16, s as u16);
    assert(x << s == (((x as u16) << (s as u16)) as u8)) by (bit_vector)
        requires
            s < 8,
    ;
    assert((y as u8) as nat == (y as nat) % 256) by (bit_vector);
}

/// The single-byte window: shifting a byte left by `sb` and then right by
/// `7 - eb + sb` leaves exactly its bits `[sb, eb]`, right-justified.
pub proof fn lemma_byte_extract(b: u8, sb: u8, eb: u8)
    requires
        sb <= eb <= 7,
    ensures
        ((b << sb) >> ((7 + sb - eb) as u8)) as nat == (b as nat / pow2((7 - eb) as nat)) % pow2(
            (eb + 1 - sb) as nat,
        ),
{
    let t: nat = (7 - eb) as nat;
    let w: nat = (eb + 1 - sb) as nat;
    let s: nat = sb as nat;
    let bn: nat = b as nat;
    lemma_pow2_pos(t);
    lemma_pow2_pos(w);
    lemma_pow2_pos(s);
    lemma_pow2_pos((8 - sb) as nat);
    let big: nat = pow2((8 - sb) as nat);
    let lo: nat = bn % big;
    let hi: nat = bn / big;
    lemma_fundamental_div_mod(bn as int, big as int);
    lemma_u8_shl_mod(b, sb);
    assert(big * pow2(s) == 256) by {
        lemma_pow2_adds((8 - sb) as nat, s);
        lemma2_to64();
    }
    assert(bn * pow2(s) == 256 * hi + lo * pow2(s)) by (nonlinear_arith)
        requires
            bn == big * hi + lo,
            big * pow2(s) == 256,
    ;
    assert(lo * pow2(s) < 256) by (nonlinear_arith)
        requires
            lo < big,
            big * pow2(s) == 256,
            pow2(s) > 0,
    ;
    assert((bn * pow2(s)) % 256 == lo * pow2(s)) by {
        lemma_mod_multiples_vanish(hi as int, (lo * pow2(s)) as int, 256);
        lemma_small_mod(lo * pow2(s), 256);
    }
    let shifted: u8 = b << sb;
    let rs: u8 = (7 + sb - eb) as u8;
    lemma_u8_shr_is_div(shifted, rs);
    assert(pow2(rs as nat) == pow2(s) * pow2(t)) by {
        lemma_pow2_adds(s, t);
    }
    assert((lo * pow2(s)) / (pow2(s) * pow2(t)) == lo / pow2(t)) by {
        lemma_div_denominator((lo * pow2(s)) as int, pow2(s) as int, pow2(t) as int);
        lemma_div_by_multiple(lo as int, pow2(s) as int);
        lemma_mul_is_commutative(lo as int, pow2(s) as int);
    }
    assert(big == pow2(t) * pow2(w)) by {
        lemma_pow2_adds(t, w);
    }
    assert(bn / pow2(t) == hi * pow2(w) + lo / pow2(t)) by {
        lemma_hoist_over_denominator(lo as int, (hi * pow2(w)) as int, pow2(t));
        assert(hi * pow2(w) * pow2(t) == hi * (pow2(t) * pow2(w))) by (nonlinear_arith);
        assert(lo + hi * pow2(w) * pow2(t) == bn);
    }
    assert(lo / pow2(t) < pow2(w)) by {
        assert(lo < pow2(t) * pow2(w));
        lemma_multiply_divide_lt(lo as int, pow2(t) as int, pow2(w) as int);
    }
    assert((bn / pow2(t)) % pow2(w) == lo / pow2(t)) by {
        lemma_mod_multiples_vanish(hi as int, (lo / pow2(t)) as int, pow2(w) as int);
        lemma_small_mod((lo / pow2(t)) as nat, pow2(w));
    }
}


/// Bits below position `t` (counting weights) depend only on a value's
/// residue modulo 2^t.
pub proof fn lemma_bit_of_low(x: nat, t: nat, k: nat)
    requires
        k < t,
    ensures
        (x / pow2(k)) % 2 == ((x % pow2(t)) / pow2(k)) % 2,
{
    lemma_pow2_pos(t);
    lemma_pow2_pos(k);
    lemma_pow2_pos((t - k) as nat);
    let q: nat = x / pow2(t);
    let r: nat = x % pow2(t);
    lemma_fundamental_div_mod(x as int, pow2(t) as int);
    lemma_pow2_adds(k, (t - k) as nat);
    assert(x / pow2(k) == q * pow2((t - k) as nat) + r / pow2(k)) by {
        lemma_hoist_over_denominator(r as int, (q * pow2((t - k) as nat)) as int, pow2(k));
        assert((q * pow2((t - k) as nat)) * pow2(k) == pow2(t) * q) by (nonlinear_arith)
            requires
                pow2(k) * pow2((t - k) as nat) == pow2(t),
        ;
        assert(r + (q * pow2((t - k) as nat)) * pow2(k) == x);
    }
    lemma_pow2_unfold((t - k) as nat);
    assert(q * pow2((t - k) as nat) == 2 * (q * pow2((t - k - 1) as nat))) by (nonlinear_arith)
        requires
            pow2((t - k) as nat) == 2 * pow2((t - k - 1) as nat),
    ;
    lemma_mod_multiples_vanish((q * pow2((t - k - 1) as nat)) as int, (r / pow2(k)) as int, 2);
}

/// Bits at or above position `h` depend only on a value's quotient by 2^h.
pub proof fn lemma_bit_of_high(x: nat, h: nat, k: nat)
    requires
        h <= k,
    ensures
        x / pow2(k) == (x / pow2(h)) / pow2((k - h) as nat),
{
    lemma_pow2_pos(h);
    lemma_pow2_pos((k - h) as nat);
    lemma_pow2_adds(h, (k - h) as nat);
    lemma_div_denominator(x as int, pow2(h) as int, pow2((k - h) as nat) as int);
}

/// The masked single-byte write: combining a byte cleared under the mask
/// with a value shifted into the mask's positions keeps the bits below the
/// mask, places the value's low bits inside it, and keeps the bits above it.
proof fn lemma_masked_write_bv(old_b: u8, value: u8, w: u16, t: u16, m: u8)
    by (bit_vector)
    requires
        1 <= w,
        w + t <= 8,
        m as u16 == (((1u16 << w) - 1) as u16) << t,
    ensures
        ((old_b & !m) | ((value << (t as u8)) & m)) as u16 % (1u16 << t) == (old_b as u16) % (
        1u16 << t),
        (((old_b & !m) | ((value << (t as u8)) & m)) as u16 >> t) % (1u16 << w) == (value as u16)
            % (1u16 << w),
        ((old_b & !m) | ((value << (t as u8)) & m)) as u16 / (1u16 << (w + t)) == (old_b as u16)
            / (1u16 << (w + t)),
{
}

/// The arithmetic consequences of the masked write, over powers of two: the
/// new byte keeps the old byte's bits outside `[sb, eb]` and holds the
/// value's low bits inside it.
pub proof fn lemma_masked_write(old_b: u8, value: u8, m: u8, sb: int, eb: int)
    requires
        0 <= sb <= eb <= 7,
        m as nat == mask_of(sb, eb),
    ensures
        ({
            let nb = (old_b & !m) | ((value << ((7 - eb) as u8)) & m);
            let w = (eb + 1 - sb) as nat;
            let t = (7 - eb) as nat;
            &&& (nb as nat) % pow2(t) == (old_b as nat) % pow2(t)
            &&& ((nb as nat) / pow2(t)) % pow2(w) == (value as nat) % pow2(w)
            &&& (nb as nat) / pow2((8 - sb) as nat) == (old_b as nat) / pow2((8 - sb) as nat)
        }),
{
    let w: nat = (eb + 1 - sb) as nat;
    let t: nat = (7 - eb) as nat;
    lemma2_to64();
    lemma_pow2_pos(w);
    lemma_pow2_pos(t);
    lemma_pow2_adds(w, t);
    if w + t < 8 {
        lemma_pow2_strictly_increases((w + t) as nat, 8);
    }
    assert(1u16 << (w as u16) == pow2(w)) by {
        lemma_u16_shl_is_mul(1u16, w as u16);
    }
    assert(((pow2(w) - 1) as u16) << (t as u16) == (pow2(w) - 1) * pow2(t)) by {
        assert((pow2(w) - 1) * pow2(t) < pow2(w) * pow2(t)) by (nonlinear_arith)
            requires
                pow2(t) >= 1,
                pow2(w) >= 1,
        ;
        lemma_u16_shl_is_mul((pow2(w) - 1) as u16, t as u16);
    }
    assert((pow2(w) - 1) * pow2(t) == pow2((w + t) as nat) - pow2(t)) by (nonlinear_arith)
        requires
            pow2(w) * pow2(t) == pow2((w + t) as nat),
    ;
    assert(m as u16 == (((1u16 << (w as u16)) - 1) as u16) << (t as u16));
    lemma_masked_write_bv(old_b, value, w as u16, t as u16, m);
    let nb: u8 = (old_b & !m) | ((value << ((7 - eb) as u8)) & m);
    assert(1u16 << (t as u16) == pow2(t)) by {
        lemma_u16_shl_is_mul(1u16, t as u16);
    }
    assert(1u16 << ((w + t) as u16) == pow2((w + t) as nat)) by {
        lemma_u16_shl_is_mul(1u16, (w + t) as u16);
    }
    assert((nb as u16) >> (t as u16) == nb as nat / pow2(t)) by {
        lemma_u16_shr_is_div(nb as u16, t as u16);
    }
}


/// A `width`-bit little-endian field is below 2^width.
pub proof fn lemma_field_le_bound(data: Seq<u8>, start: int, width: nat)
    ensures
        field_le(data, start, width) < pow2(width),
    decreases width,
{
    if width <= 8 {
        lemma_field_bound(data, start, width);
    } else {
        lemma_field_bound(data, start, 8);
        lemma_field_le_bound(data, start + 8, (width - 8) as nat);
        lemma_pow2_adds(8, (width - 8) as nat);
        lemma2_to64();
        assert(field(data, start, 8) + 256 * field_le(data, start + 8, (width - 8) as nat)
            < 256 * pow2((width - 8) as nat)) by (nonlinear_arith)
            requires
                field(data, start, 8) < 256,
                field_le(data, start + 8, (width - 8) as nat) < pow2((width - 8) as nat),
        ;
    }
}

/// Appending one more chunk of up to 8 bits to a little-endian field places
/// it above the bits already read: the chunks read so far are the low part.
pub proof fn lemma_field_le_snoc(data: Seq<u8>, start: int, w: nat, k: nat)
    requires
        w % 8 == 0,
        0 < k <= 8,
    ensures
        field_le(data, start, (w + k) as nat) == field_le(data, start, w) + pow2(w) * field(
            data,
            start + w,
            k,
        ),
    decreases w,
{
    lemma2_to64();
    if w == 0 {
        assert(field_le(data, start, k) == field(data, start, k));
        assert(field_le(data, start, 0) == field(data, start, 0));
        assert(field(data, start, 0) == 0);
    } else {
        assert(w >= 8);
        lemma_field_le_snoc(data, start + 8, (w - 8) as nat, k);
        lemma_pow2_adds(8, (w - 8) as nat);
        let f: nat = field(data, start + w, k);
        let rest: nat = field_le(data, start + 8, (w - 8) as nat);
        assert(field_le(data, start, (w + k) as nat) == field(data, start, 8) + 256 * (rest
            + pow2((w - 8) as nat) * f));
        assert(256 * (rest + pow2((w - 8) as nat) * f) == 256 * rest + pow2(w) * f)
            by (nonlinear_arith)
            requires
                pow2(w) == 256 * pow2((w - 8) as nat),
        ;
    }
}

/// Reading one more chunk of up to 8 bits grows a value by at most a factor
/// of 256, and the result stays under the type's capacity `2^cap`.
pub proof fn lemma_chunk_extend(v: nat, c: nat, k: nat, cap: nat)
    requires
        v < pow2(k),
        c < 256,
        k + 8 <= cap,
    ensures
        256 * v + c < pow2((k + 8) as nat),
        pow2((k + 8) as nat) <= pow2(cap),
{
    lemma_pow2_adds(k, 8);
    lemma2_to64();
    assert(256 * v + c < pow2(k) * 256) by (nonlinear_arith)
        requires
            v < pow2(k),
            c < 256,
    ;
    if k + 8 < cap {
        lemma_pow2_strictly_increases((k + 8) as nat, cap);
    }
}


/// Placing one more chunk of up to `kc` bits above the `k` bits already
/// read keeps a little-endian accumulation under the capacity `2^cap`.
pub proof fn lemma_chunk_extend_le(v: nat, c: nat, k: nat, kc: nat, cap: nat)
    requires
        v < pow2(k),
        c < pow2(kc),
        k + kc <= cap,
    ensures
        v + c * pow2(k) < pow2((k + kc) as nat),
        pow2((k + kc) as nat) <= pow2(cap),
{
    lemma_pow2_adds(k, kc);
    assert(v + c * pow2(k) < pow2(k) * pow2(kc)) by (nonlinear_arith)
        requires
            v < pow2(k),
            c < pow2(kc),
    ;
    if k + kc < cap {
        lemma_pow2_strictly_increases((k + kc) as nat, cap);
    }
}


/// Testing a value against a single-bit mask 2^k reads exactly bit k.
pub proof fn lemma_and_pow2_is_bit(x: u64, k: u64, m: u64)
    requires
        k < 64,
        m as nat == pow2(k as nat),
    ensures
        (x & m != 0) <==> ((x as nat) / pow2(k as nat)) % 2 == 1,
{
    lemma_u64_pow2_no_overflow(k as nat);
    lemma_u64_shl_is_mul(1u64, k);
    assert((x & m != 0) == (((x >> k) & 1) == 1)) by (bit_vector)
        requires
            m == 1u64 << k,
            k < 64,
    ;
    lemma_u64_shr_is_div(x, k);
    assert((x >> k) & 1 == (x >> k) % 2) by (bit_vector);
}


/// The single-bit law: the bit at global index `i` is set exactly when
/// shifting its byte right by `7 - i % 8` places and masking the low bit
/// yields 1.
pub proof fn lemma_bit_at_shift_form(data: Seq<u8>, i: int)
    requires
        0 <= i < data.len() * 8,
    ensures
        (bit_at(data, i) == 1) <==> ((data[i / 8] >> ((7 - i % 8) as u8)) & 1) == 1,
{
    lemma_fundamental_div_mod(i, 8);
    assert(i / 8 < data.len());
    let b: u8 = data[i / 8];
    let k: u8 = (7 - i % 8) as u8;
    lemma_u8_shr_is_div(b, k);
    assert((b >> k) & 1 == (b >> k) % 2) by (bit_vector);
}

/// The round-trip law: once a value no wider than its range has been
/// written into the bits `[start, end]`, reading the same range yields the
/// value unchanged, and every bit outside the range still reads as before
/// the write.
pub proof fn lemma_write_read_round_trip(
    pre: Seq<u8>,
    post: Seq<u8>,
    value: u8,
    start: int,
    end: int,
)
    requires
        0 <= start <= end,
        end - start <= 7,
        end < pre.len() * 8,
        written(pre, post, value, start, end),
        (value as nat) < pow2((end - start + 1) as nat),
    ensures
        field(post, start, (end - start + 1) as nat) == value as nat,
        forall|i: int|
            0 <= i < pre.len() * 8 && !(start <= i <= end) ==> bit_at(post, i) == bit_at(pre, i),
{
    lemma_pow2_pos((end - start + 1) as nat);
    lemma_small_mod(value as nat, pow2((end - start + 1) as nat));
}

/// A run of all-1 bits decodes to 2^width - 1.
pub proof fn lemma_field_all_ones(data: Seq<u8>, start: int, width: nat)
    requires
        forall|i: int| start <= i < start + width ==> bit_at(data, i) == 1,
    ensures
        field(data, start, width) == pow2(width) - 1,
    decreases width,
{
    lemma2_to64();
    if width > 0 {
        lemma_field_all_ones(data, start, (width - 1) as nat);
        lemma_pow2_unfold(width);
    }
}

/// The two's-complement boundary law: a run of all-1 bits of any positive
/// width reads as -1 when interpreted as signed.
pub proof fn lemma_all_ones_reads_minus_one(data: Seq<u8>, start: int, width: nat)
    requires
        1 <= width,
        forall|i: int| start <= i < start + width ==> bit_at(data, i) == 1,
    ensures
        signed_of(field(data, start, width), width) == -1,
{
    lemma_field_all_ones(data, start, width);
    lemma_pow2_unfold(width);
    lemma_pow2_pos((width - 1) as nat);
}

/// A 0 bit followed by all-1 bits decodes to 2^(width-1) - 1.
pub proof fn lemma_field_zero_then_ones(data: Seq<u8>, start: int, width: nat)
    requires
        1 <= width,
        bit_at(data, start) == 0,
        forall|i: int| start < i < start + width ==> bit_at(data, i) == 1,
    ensures
        field(data, start, width) == pow2((width - 1) as nat) - 1,
    decreases width,
{
    lemma2_to64();
    if width == 1 {
        assert(field(data, start, 0) == 0);
    } else {
        lemma_field_zero_then_ones(data, start, (width - 1) as nat);
        lemma_pow2_unfold((width - 1) as nat);
        assert(bit_at(data, start + width - 1) == 1);
    }
}

/// The other two's-complement boundary law: one 0 bit at the sign position
/// followed by all-1 bits reads as the width's maximum positive value,
/// 2^(width-1) - 1.
pub proof fn lemma_zero_then_ones_reads_max(data: Seq<u8>, start: int, width: nat)
    requires
        1 <= width,
        bit_at(data, start) == 0,
        forall|i: int| start < i < start + width ==> bit_at(data, i) == 1,
    ensures
        signed_of(field(data, start, width), width) == pow2((width - 1) as nat) - 1,
{
    lemma_field_zero_then_ones(data, start, width);
    lemma_pow2_pos((width - 1) as nat);
}

/// The endianness duality law: over a byte-aligned range of `n` whole
/// bytes, the little-endian reading of data whose bytes are reversed
/// equals the big-endian reading of the original data.
pub proof fn lemma_endianness_duality(d1: Seq<u8>, d2: Seq<u8>, s1: int, s2: int, n: nat)
    requires
        0 <= s1,
        0 <= s2,
        s1 % 8 == 0,
        s2 % 8 == 0,
        s1 + 8 * n <= d1.len() * 8,
        s2 + 8 * n <= d2.len() * 8,
        forall|k: int| 0 <= k < n ==> #[trigger] d2[s2 / 8 + k] == d1[s1 / 8 + (n - 1 - k)],
    ensures
        field_le(d2, s2, (8 * n) as nat) == field(d1, s1, (8 * n) as nat),
    decreases n,
{
    lemma2_to64();
    if n == 0 {
        assert(field_le(d2, s2, 0) == field(d2, s2, 0));
        assert(field(d2, s2, 0) == 0);
        assert(field(d1, s1, 0) == 0);
    } else {
        let k1 = s1 / 8;
        let k2 = s2 / 8;
        lemma_fundamental_div_mod(s1, 8);
        lemma_fundamental_div_mod(s2, 8);
        assert(s1 == 8 * k1);
        assert(s2 == 8 * k2);
        assert(d2[s2 / 8 + 0] == d1[s1 / 8 + (n - 1 - 0)]);
        assert(d2[k2] == d1[k1 + (n - 1)]);
        assert(k2 < d2.len());
        assert(k1 + (n - 1) < d1.len());
        assert(field(d2, s2, 8) == d2[k2] as nat) by {
            lemma_byte_field(d2, k2, 0, 7);
            lemma_div_basics(d2[k2] as int);
            lemma_small_mod(d2[k2] as nat, 256);
        }
        assert(field(d1, s1 + 8 * (n - 1), 8) == d1[k1 + (n - 1)] as nat) by {
            lemma_byte_field(d1, k1 + (n - 1), 0, 7);
            lemma_div_basics(d1[k1 + (n - 1)] as int);
            lemma_small_mod(d1[k1 + (n - 1)] as nat, 256);
        }
        lemma_field_split(d1, s1, (8 * (n - 1)) as nat, 8);
        if n == 1 {
            assert(field_le(d2, s2, 8) == field(d2, s2, 8));
            assert(field(d1, s1, 0) == 0);
        } else {
            assert forall|k: int| 0 <= k < n - 1 implies #[trigger] d2[(s2 + 8) / 8 + k] == d1[s1
                / 8 + (n - 2 - k)] by {
                lemma_fundamental_div_mod(s2 + 8, 8);
                assert((s2 + 8) / 8 == k2 + 1);
                assert(d2[k2 + (k + 1)] == d1[k1 + (n - 1 - (k + 1))]);
            }
            lemma_endianness_duality(d1, d2, s1, s2 + 8, (n - 1) as nat);
            assert(field_le(d2, s2, (8 * n) as nat) == field(d2, s2, 8) + 256 * field_le(
                d2,
                s2 + 8,
                (8 * (n - 1)) as nat,
            ));
        }
    }
}

} // verus!
