//! The mathematical model of bit streams: the bit sequence a word stands
//! for, the bit sequence a word sequence stands for, and the value a bit
//! sequence assembles to, least-significant-bit first.
use vstd::arithmetic::power2::{
    lemma2_to64, lemma_pow2_adds, lemma_pow2_pos, lemma_pow2_strictly_increases, lemma_pow2_unfold,
    pow2,
};
use vstd::prelude::*;

use crate::bit::accessor::BitAccessor;

verus! {

/// The bits of one word, least-significant-bit first.
pub open spec fn word_bits<W: BitAccessor>(w: W) -> Seq<bool> {
    Seq::new(W::width(), |i: int| w.spec_bit(i))
}

/// The bits of a word sequence: every word in order, each one
/// least-significant-bit first.
pub open spec fn stream_of<W: BitAccessor>(ws: Seq<W>) -> Seq<bool> {
    Seq::new(
        ws.len() * W::width(),
        |k: int| ws[k / (W::width() as int)].spec_bit(k % (W::width() as int)),
    )
}

/// The unsigned value a bit sequence assembles to, with the first bit as
/// the least-significant bit of the result.
pub open spec fn bits_value(s: Seq<bool>) -> nat
    decreases s.len(),
{
    if s.len() == 0 {
        0
    } else {
        (if s[0] {
            1nat
        } else {
            0nat
        }) + 2 * bits_value(s.drop_first())
    }
}

/// Unfolding `bits_value` at position `i` of a longer sequence.
pub proof fn lemma_bits_value_step(s: Seq<bool>, i: int)
    requires
        0 <= i < s.len(),
    ensures
        bits_value(s.skip(i)) == (if s[i] {
            1nat
        } else {
            0nat
        }) + 2 * bits_value(s.skip(i + 1)),
{
    assert(s.skip(i)[0] == s[i]);
    assert(s.skip(i).drop_first() =~= s.skip(i + 1));
}

/// A sequence of `n` bits assembles to a value below `pow2(n)`.
pub proof fn lemma_bits_value_bound(s: Seq<bool>)
    ensures
        bits_value(s) < pow2(s.len()),
    decreases s.len(),
{
    if s.len() == 0 {
        lemma2_to64();
    } else {
        lemma_bits_value_bound(s.drop_first());
        lemma_pow2_unfold(s.len());
    }
}

/// The concrete powers of two at the top of the `u128` range.
pub proof fn lemma_pow2_128()
    ensures
        pow2(127) == 0x80000000000000000000000000000000,
        pow2(128) == 0x100000000000000000000000000000000nat,
{
    lemma2_to64();
    lemma_pow2_adds(32, 31);
    lemma_pow2_adds(64, 63);
    lemma_pow2_adds(64, 64);
}

/// `pow2` is monotone.
pub proof fn lemma_pow2_le(a: nat, b: nat)
    requires
        a <= b,
    ensures
        pow2(a) <= pow2(b),
{
    if a < b {
        lemma_pow2_strictly_increases(a, b);
    }
}

/// The value whose byte representation, over the low `nbytes` bytes, is
/// the reverse of the byte representation of `v`.
pub open spec fn byte_swapped(v: nat, nbytes: nat) -> nat
    decreases nbytes,
{
    if nbytes == 0 {
        0
    } else {
        (v % 256) * pow2((8 * (nbytes - 1)) as nat) + byte_swapped(v / 256, (nbytes - 1) as nat)
    }
}

/// A value swapped over `nbytes` bytes stays below `pow2(8 * nbytes)`.
pub proof fn lemma_byte_swapped_bound(v: nat, nbytes: nat)
    ensures
        byte_swapped(v, nbytes) < pow2(8 * nbytes),
    decreases nbytes,
{
    if nbytes == 0 {
        lemma2_to64();
    } else {
        let p = pow2((8 * (nbytes - 1)) as nat);
        lemma_byte_swapped_bound(v / 256, (nbytes - 1) as nat);
        lemma_pow2_adds(8, (8 * (nbytes - 1)) as nat);
        lemma2_to64();
        assert((v % 256) * p <= 255 * p) by (nonlinear_arith)
            requires
                v % 256 <= 255,
                p > 0,
        ;
        assert(255 * p + p == 256 * p);
    }
}

/// The two's-complement reading of an unsigned `width`-bit pattern:
/// `half` is the weight of the sign bit, `full` the size of the range.
pub open spec fn signed_of(v: nat, half: nat, full: nat) -> int {
    if v < half {
        v as int
    } else {
        v as int - full
    }
}

/// Reinterprets a 16-bit pattern as a two's-complement signed value.
pub(crate) fn to_i16(u: u16) -> (r: i16)
    ensures
        r as int == signed_of(u as nat, 0x8000, 0x10000),
{
    if u < 0x8000 {
        u as i16
    } else {
        ((u as i32) - 0x10000) as i16
    }
}

/// Reinterprets a 32-bit pattern as a two's-complement signed value.
pub(crate) fn to_i32(u: u32) -> (r: i32)
    ensures
        r as int == signed_of(u as nat, 0x80000000, 0x100000000),
{
    if u < 0x80000000 {
        u as i32
    } else {
        ((u as i64) - 0x100000000) as i32
    }
}

/// Reinterprets a 64-bit pattern as a two's-complement signed value.
pub(crate) fn to_i64(u: u64) -> (r: i64)
    ensures
        r as int == signed_of(u as nat, 0x8000000000000000, 0x10000000000000000),
{
    if u < 0x8000000000000000 {
        u as i64
    } else {
        ((u as i128) - 0x10000000000000000) as i64
    }
}

/// Reinterprets a 128-bit pattern as a two's-complement signed value.
pub(crate) fn to_i128(u: u128) -> (r: i128)
    ensures
        r as int == signed_of(
            u as nat,
            0x80000000000000000000000000000000,
            0x100000000000000000000000000000000nat,
        ),
{
    if u < 0x80000000000000000000000000000000 {
        u as i128
    } else {
        let m = u128::MAX - u;
        -(m as i128) - 1
    }
}

/// Reverses the order of the low `nbytes` bytes of `v`.
pub(crate) fn swap_bytes_u128(v: u128, nbytes: usize) -> (r: u128)
    requires
        nbytes <= 16,
        v < pow2((8 * nbytes) as nat),
    ensures
        r == byte_swapped(v as nat, nbytes as nat),
{
    let mut out: u128 = 0;
    let mut x = v;
    let mut j: usize = 0;
    proof {
        lemma2_to64();
    }
    while j < nbytes
        invariant
            j <= nbytes <= 16,
            byte_swapped(v as nat, nbytes as nat) == (out as nat) * pow2((8 * (nbytes - j)) as nat)
                + byte_swapped(x as nat, (nbytes - j) as nat),
            out < pow2((8 * j) as nat),
        decreases nbytes - j,
    {
        let m = nbytes - j;
        let ghost p_low = pow2((8 * (m - 1)) as nat);
        let ghost p_high = pow2((8 * m) as nat);
        let ghost pj = pow2((8 * j) as nat);
        let ghost out0 = out as nat;
        let ghost x0 = x as nat;
        proof {
            lemma_pow2_adds(8, (8 * (m - 1)) as nat);
            lemma_pow2_adds(8, (8 * j) as nat);
            lemma_pow2_le((8 * (j + 1)) as nat, 128);
            lemma_pow2_128();
            lemma2_to64();
            lemma_pow2_pos((8 * (m - 1)) as nat);
            assert(out0 * 256 + 255 < 256 * pj) by (nonlinear_arith)
                requires
                    out0 < pj,
            ;
        }
        let lo = x % 256;
        out = out * 256 + lo;
        x = x / 256;
        j = j + 1;
        proof {
            assert((out0 * 256 + x0 % 256) * p_low == out0 * p_high + (x0 % 256) * p_low) by (
            nonlinear_arith)
                requires
                    p_high == 256 * p_low,
            ;
        }
    }
    proof {
        lemma2_to64();
        assert(byte_swapped(x as nat, (nbytes - j) as nat) == 0);
        assert(pow2((8 * (nbytes - j)) as nat) == 1);
        assert((out as nat) * 1 == out as nat);
    }
    out
}

/// Assembles up to 128 bits into an unsigned value, first bit least
/// significant.
pub(crate) fn bits_to_u128(bits: &[bool]) -> (r: u128)
    requires
        bits@.len() <= 128,
    ensures
        r == bits_value(bits@),
{
    let len = bits.len();
    let mut out: u128 = 0;
    let mut i: usize = len;
    proof {
        assert(bits@.skip(len as int) =~= Seq::<bool>::empty());
        lemma2_to64();
    }
    while i > 0
        invariant
            i <= len,
            len == bits@.len(),
            len <= 128,
            out == bits_value(bits@.skip(i as int)),
            out < pow2((len - i) as nat),
        decreases i,
    {
        proof {
            lemma_pow2_le((len - i) as nat, 127);
            lemma_pow2_128();
            lemma_bits_value_step(bits@, i - 1);
            lemma_pow2_unfold((len - i + 1) as nat);
        }
        i = i - 1;
        let b = bits[i];
        out = out * 2 + if b {
            1
        } else {
            0
        };
    }
    proof {
        assert(bits@.skip(0) =~= bits@);
    }
    out
}

} // verus!
