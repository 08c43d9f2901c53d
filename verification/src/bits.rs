//! Integer cores of the bit and byte functions: BIT, BITVALUE, INT16,
//! INT24, INT32, and the big-endian byte assembly behind FLOAT32/FLOAT64.
//! Operands arrive as 32-bit integers, the form the dialect's bitwise
//! operators bring every number to; shift counts are taken modulo 32.
use vstd::prelude::*;
use vstd::arithmetic::power2::{pow2, lemma_pow2_pos};
use vstd::bits::{
    low_bits_mask, lemma_u32_low_bits_mask_is_mod, lemma_u32_pow2_no_overflow,
    lemma_u32_shl_is_mul, lemma_u32_shr_is_div,
};

verus! {

/// Bit `index` (modulo 32) of `value`, counting from the least significant.
pub open spec fn bit_of(value: i32, index: u32) -> bool {
    (value >> (index & 31u32)) & 1i32 == 1i32
}

/// BIT: whether bit `index` (modulo 32) of `value` is set.
pub fn bit(value: i32, index: u32) -> (r: bool)
    ensures
        r == bit_of(value, index),
{
    let s: u32 = index & 31;
    assert(s < 32) by (bit_vector)
        requires
            s == index & 31u32,
    ;
    (value >> s) & 1 == 1
}

/// The field of `width` bits (modulo 32) of `value` starting at bit `start`
/// (modulo 32): `value` shifted right, under a mask of the low bits.
pub open spec fn field_of(value: i32, start: u32, width: u32) -> i32 {
    (value >> (start & 31u32)) & (low_bits_mask((width & 31u32) as nat) as i32)
}

/// BITVALUE on 32-bit operands: `width` bits of `value` from bit `start` up.
pub fn bit_field(value: i32, start: u32, width: u32) -> (r: i32)
    ensures
        r == field_of(value, start, width),
{
    let k: u32 = width & 31;
    assert(k < 32) by (bit_vector)
        requires
            k == width & 31u32,
    ;
    proof {
        lemma_pow2_pos(k as nat);
        lemma_u32_pow2_no_overflow(k as nat);
        lemma_u32_shl_is_mul(1u32, k);
    }
    let one_k: u32 = 1u32 << k;
    assert(one_k - 1 <= 0x7fff_ffff) by (bit_vector)
        requires
            one_k == 1u32 << k,
            k < 32,
    ;
    let m: u32 = one_k - 1;
    let s: u32 = start & 31;
    assert(s < 32) by (bit_vector)
        requires
            s == start & 31u32,
    ;
    (value >> s) & (m as i32)
}

/// INT16 on 32-bit operands: `hi` moved up one byte, or-ed with `lo`.
pub open spec fn int16_of(hi: i32, lo: i32) -> i32 {
    (hi << 8u32) | lo
}

/// INT24 on 32-bit operands.
pub open spec fn int24_of(a: i32, b: i32, c: i32) -> i32 {
    (a << 16u32) | (b << 8u32) | c
}

/// INT32 on 32-bit operands.
pub open spec fn int32_of(a: i32, b: i32, c: i32, d: i32) -> i32 {
    (a << 24u32) | (b << 16u32) | (c << 8u32) | d
}

/// INT16(hi, lo).
pub fn int16(hi: i32, lo: i32) -> (r: i32)
    ensures
        r == int16_of(hi, lo),
{
    (hi << 8u32) | lo
}

/// INT24(a, b, c).
pub fn int24(a: i32, b: i32, c: i32) -> (r: i32)
    ensures
        r == int24_of(a, b, c),
{
    (a << 16u32) | (b << 8u32) | c
}

/// INT32(a, b, c, d).
pub fn int32(a: i32, b: i32, c: i32, d: i32) -> (r: i32)
    ensures
        r == int32_of(a, b, c, d),
{
    (a << 24u32) | (b << 16u32) | (c << 8u32) | d
}

/// Law: INT16 of two bytes is their big-endian value.
pub proof fn lemma_int16_of_bytes(hi: i32, lo: i32)
    requires
        0 <= hi < 256,
        0 <= lo < 256,
    ensures
        int16_of(hi, lo) == hi * 256 + lo,
{
    assert((hi << 8u32) | lo == hi * 256 + lo) by (bit_vector)
        requires
            0 <= hi < 256,
            0 <= lo < 256,
    ;
}

/// Law: INT24 of three bytes is their big-endian value.
pub proof fn lemma_int24_of_bytes(a: i32, b: i32, c: i32)
    requires
        0 <= a < 256,
        0 <= b < 256,
        0 <= c < 256,
    ensures
        int24_of(a, b, c) == a * 65536 + b * 256 + c,
{
    assert((a << 16u32) | (b << 8u32) | c == a * 65536 + b * 256 + c) by (bit_vector)
        requires
            0 <= a < 256,
            0 <= b < 256,
            0 <= c < 256,
    ;
}

/// Law: INT32 of four bytes is their big-endian value read as a signed
/// 32-bit number (negative when the top byte has its high bit set).
pub proof fn lemma_int32_of_bytes(a: i32, b: i32, c: i32, d: i32)
    requires
        0 <= a < 256,
        0 <= b < 256,
        0 <= c < 256,
        0 <= d < 256,
    ensures
        int32_of(a, b, c, d) == a * 16777216 + b * 65536 + c * 256 + d - (if a >= 128 {
            4294967296int
        } else {
            0int
        }),
{
    assert(a < 128 ==> (a << 24u32) | (b << 16u32) | (c << 8u32) | d == a * 16777216 + b * 65536
        + c * 256 + d) by (bit_vector)
        requires
            0 <= a < 256,
            0 <= b < 256,
            0 <= c < 256,
            0 <= d < 256,
    ;
    assert(a >= 128 ==> (a << 24u32) | (b << 16u32) | (c << 8u32) | d == (a - 256) * 16777216 + b
        * 65536 + c * 256 + d) by (bit_vector)
        requires
            0 <= a < 256,
            0 <= b < 256,
            0 <= c < 256,
            0 <= d < 256,
    ;
}

/// Law: for a non-negative value and an index below 32, BIT tells whether
/// the binary digit of weight `2^index` is 1.
pub proof fn lemma_bit_is_digit(value: i32, index: u32)
    requires
        0 <= value,
        index < 32,
    ensures
        bit_of(value, index) == ((value as int / pow2(index as nat) as int) % 2 == 1),
{
    let u = value as u32;
    assert(index & 31u32 == index && ((value >> (index & 31u32)) & 1i32 == 1i32) == ((u >> index)
        & 1u32 == 1u32)) by (bit_vector)
        requires
            0 <= value,
            index < 32,
            u == value as u32,
    ;
    assert(((u >> index) & 1u32) == (u >> index) % 2) by (bit_vector);
    lemma_u32_shr_is_div(u, index);
}

/// Law: for a non-negative value and a field inside bits 0..31, BITVALUE
/// reads the field as an unsigned number: `(value / 2^start) % 2^width`.
pub proof fn lemma_field_is_div_mod(value: i32, start: u32, width: u32)
    requires
        0 <= value,
        start < 32,
        width < 32,
    ensures
        field_of(value, start, width) == (value as int / pow2(start as nat) as int) % (pow2(
            width as nat,
        ) as int),
{
    let u = value as u32;
    lemma_pow2_pos(width as nat);
    lemma_u32_pow2_no_overflow(width as nat);
    let m = low_bits_mask(width as nat);
    assert(m == pow2(width as nat) - 1);
    let mu = m as u32;
    lemma_u32_shl_is_mul(1u32, width);
    assert(mu <= 0x7fff_ffff) by (bit_vector)
        requires
            mu == (1u32 << width) - 1,
            width < 32,
    ;
    assert(start & 31u32 == start && width & 31u32 == width) by (bit_vector)
        requires
            start < 32,
            width < 32,
    ;
    assert(((value >> start) & (mu as i32)) == (((u >> start) & mu) as i32)) by (bit_vector)
        requires
            0 <= value,
            start < 32,
            u == value as u32,
            mu <= 0x7fff_ffff,
    ;
    lemma_u32_shr_is_div(u, start);
    lemma_u32_low_bits_mask_is_mod(u >> start, width as nat);
}

/// The number the bytes `b` spell in big-endian order.
pub open spec fn be_value(b: Seq<u8>) -> nat
    decreases b.len(),
{
    if b.len() == 0 {
        0
    } else {
        be_value(b.drop_last()) * 256 + b.last() as nat
    }
}

/// `256^n`.
pub open spec fn pow256(n: nat) -> nat
    decreases n,
{
    if n == 0 {
        1
    } else {
        256 * pow256((n - 1) as nat)
    }
}

proof fn lemma_be_value_bound(b: Seq<u8>)
    ensures
        be_value(b) < pow256(b.len()),
    decreases b.len(),
{
    if b.len() > 0 {
        lemma_be_value_bound(b.drop_last());
    }
}

/// The big-endian value of up to eight bytes (FLOAT32 reads four, FLOAT64
/// eight, as the bits of the float).
pub fn big_endian(bytes: &[u8]) -> (r: u64)
    requires
        bytes@.len() <= 8,
    ensures
        r == be_value(bytes@),
{
    let mut acc: u64 = 0;
    let mut i: usize = 0;
    assert(pow256(8) == 18446744073709551616nat) by {
        reveal_with_fuel(pow256, 9);
    }
    while i < bytes.len()
        invariant
            i <= bytes@.len() <= 8,
            acc == be_value(bytes@.take(i as int)),
            pow256(8) == 18446744073709551616nat,
        decreases bytes@.len() - i,
    {
        let ghost s = bytes@.take(i as int + 1);
        assert(s.drop_last() =~= bytes@.take(i as int));
        proof {
            lemma_be_value_bound(s);
            lemma_pow256_mono((i + 1) as nat, 8);
        }
        acc = acc * 256 + bytes[i] as u64;
        i = i + 1;
    }
    assert(bytes@.take(i as int) =~= bytes@);
    acc
}

proof fn lemma_pow256_mono(a: nat, b: nat)
    requires
        a <= b,
    ensures
        pow256(a) <= pow256(b),
    decreases b,
{
    if a < b {
        lemma_pow256_mono(a, (b - 1) as nat);
    }
}

} // verus!
