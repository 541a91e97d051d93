//! Laws the reading operations obey, stated over the stream model and
//! proved once for every reader: splitting a read in two changes nothing,
//! and byte encodings round-trip through the fixed-width reads.
use vstd::arithmetic::div_mod::{
    lemma_fundamental_div_mod, lemma_fundamental_div_mod_converse, lemma_mod_bound,
};
use vstd::arithmetic::power2::{lemma2_to64, lemma_pow2_unfold, pow2};
use vstd::prelude::*;

use crate::bit::accessor::BitAccessor;
use crate::bit::model::{
    bits_value, byte_swapped, lemma_bits_value_step, stream_of, word_bits,
};
use crate::bit::read::bits_at;

verus! {

broadcast use vstd::arithmetic::mul::lemma_mul_is_commutative;

/// The value of a little-endian byte sequence: the first byte is the
/// least significant.
pub open spec fn le_value(bytes: Seq<u8>) -> nat
    decreases bytes.len(),
{
    if bytes.len() == 0 {
        0
    } else {
        bytes[0] as nat + 256 * le_value(bytes.drop_first())
    }
}

/// The value of a big-endian byte sequence: the first byte is the most
/// significant.
pub open spec fn be_value(bytes: Seq<u8>) -> nat
    decreases bytes.len(),
{
    if bytes.len() == 0 {
        0
    } else {
        bytes[0] as nat * pow2((8 * (bytes.len() - 1)) as nat) + be_value(bytes.drop_first())
    }
}

/// Reading `n` bits at the cursor and then reading the remainder yields,
/// concatenated, exactly the bits of reading everything that remains in
/// one pass: `read` is splittable.
pub proof fn lemma_read_split(stream: Seq<bool>, cursor: int, n: nat)
    requires
        0 <= cursor,
        cursor + n <= stream.len(),
    ensures
        bits_at(stream, cursor, n) + bits_at(
            stream,
            cursor + n,
            (stream.len() - cursor - n) as nat,
        ) == bits_at(stream, cursor, (stream.len() - cursor) as nat),
{
    assert(bits_at(stream, cursor, n) + bits_at(
        stream,
        cursor + n,
        (stream.len() - cursor - n) as nat,
    ) =~= bits_at(stream, cursor, (stream.len() - cursor) as nat));
}

/// The bit stream of a non-empty word sequence opens with the bits of its
/// first word, followed by the stream of the rest.
proof fn lemma_stream_head<W: BitAccessor>(ws: Seq<W>)
    requires
        ws.len() > 0,
    ensures
        stream_of(ws) == word_bits(ws[0]) + stream_of(ws.drop_first()),
{
    W::lemma_width_pos();
    let w = W::width() as int;
    let rest = stream_of(ws.drop_first());
    assert(ws.len() * w == w + (ws.len() - 1) * w) by (nonlinear_arith);
    assert forall|k: int| 0 <= k < ws.len() * w implies stream_of(ws)[k] == (word_bits(ws[0])
        + rest)[k] by {
        if k < w {
            lemma_fundamental_div_mod_converse(k, w, 0, k);
            assert(stream_of(ws)[k] == ws[0].spec_bit(k));
            assert((word_bits(ws[0]) + rest)[k] == word_bits(ws[0])[k]);
        } else {
            let j = k - w;
            lemma_fundamental_div_mod(j, w);
            lemma_mod_bound(j, w);
            assert((1 + j / w) * w == w * (j / w) + w) by (nonlinear_arith);
            lemma_fundamental_div_mod_converse(k, w, 1 + j / w, j % w);
            assert(stream_of(ws)[k] == ws[1 + j / w].spec_bit(j % w));
            assert(j < (ws.len() - 1) * w);
            assert(j / w < ws.len() - 1) by (nonlinear_arith)
                requires
                    w > 0,
                    j >= 0,
                    j == w * (j / w) + j % w,
                    0 <= j % w < w,
                    j < (ws.len() - 1) * w,
            ;
            assert(rest[j] == ws.drop_first()[j / w].spec_bit(j % w));
            assert(ws.drop_first()[j / w] == ws[1 + j / w]);
            assert((word_bits(ws[0]) + rest)[k] == rest[j]);
        }
    }
    assert(stream_of(ws) =~= word_bits(ws[0]) + rest);
}

/// The value of concatenated bit sequences: the second part is weighted
/// by two to the length of the first.
proof fn lemma_bits_value_concat(a: Seq<bool>, b: Seq<bool>)
    ensures
        bits_value(a + b) == bits_value(a) + pow2(a.len()) * bits_value(b),
    decreases a.len(),
{
    if a.len() == 0 {
        assert(a + b =~= b);
        lemma2_to64();
    } else {
        assert((a + b).drop_first() =~= a.drop_first() + b);
        lemma_bits_value_concat(a.drop_first(), b);
        lemma_pow2_unfold(a.len());
        let p = pow2((a.len() - 1) as nat);
        let x = bits_value(a.drop_first());
        let y = bits_value(b);
        assert(2 * (x + p * y) == 2 * x + (2 * p) * y) by (nonlinear_arith);
        assert((a + b)[0] == a[0]);
    }
}

/// The tail of a byte's bit sequence, from position `i` on, assembles to
/// the byte shifted right by `i`.
proof fn lemma_byte_suffix(b: u8, i: usize)
    requires
        i < 8,
    ensures
        bits_value(word_bits(b).skip(i as int)) == (b >> i) as nat,
    decreases 8 - i,
{
    if i == 7 {
        let s = word_bits(b).skip(7);
        assert(s.len() == 1);
        assert(s[0] == b.spec_bit(7));
        assert(s.drop_first() =~= Seq::<bool>::empty());
        assert(bits_value(Seq::<bool>::empty()) == 0);
        assert(((b >> 7usize) & 1 == 1 ==> b >> 7usize == 1) && ((b >> 7usize) & 1 != 1 ==> b
            >> 7usize == 0)) by (bit_vector);
    } else {
        lemma_byte_suffix(b, (i + 1) as usize);
        lemma_bits_value_step(word_bits(b), i as int);
        assert(word_bits(b)[i as int] == b.spec_bit(i as int));
        assert((if (b >> i) & 1 == 1 {
            1nat
        } else {
            0nat
        }) + 2 * ((b >> (i + 1)) as nat) == (b >> i) as nat) by (bit_vector)
            requires
                i < 7,
        ;
    }
}

/// A byte's bit sequence, least-significant-bit first, assembles back to
/// the byte.
pub proof fn lemma_byte_value(b: u8)
    ensures
        bits_value(word_bits(b)) == b,
{
    lemma_byte_suffix(b, 0);
    assert(word_bits(b).skip(0) =~= word_bits(b));
    assert(b >> 0usize == b) by (bit_vector);
}

/// The tail of a `u16` word's bit sequence, from position `i` on,
/// assembles to the word shifted right by `i`.
proof fn lemma_u16_suffix(b: u16, i: usize)
    requires
        i < 16,
    ensures
        bits_value(word_bits(b).skip(i as int)) == (b >> i) as nat,
    decreases 16 - i,
{
    if i == 15 {
        let s = word_bits(b).skip(15);
        assert(s.len() == 1);
        assert(s[0] == b.spec_bit(15));
        assert(s.drop_first() =~= Seq::<bool>::empty());
        assert(bits_value(Seq::<bool>::empty()) == 0);
        assert(((b >> 15usize) & 1 == 1 ==> b >> 15usize == 1) && ((b >> 15usize)
            & 1 != 1 ==> b >> 15usize == 0)) by (bit_vector);
    } else {
        lemma_u16_suffix(b, (i + 1) as usize);
        lemma_bits_value_step(word_bits(b), i as int);
        assert(word_bits(b)[i as int] == b.spec_bit(i as int));
        assert((if (b >> i) & 1 == 1 {
            1nat
        } else {
            0nat
        }) + 2 * ((b >> (i + 1)) as nat) == (b >> i) as nat) by (bit_vector)
            requires
                i < 15,
        ;
    }
}

/// A `u16` word's bit sequence, least-significant-bit first, assembles
/// back to the word: the accessor exposes the standard bit pattern.
pub proof fn lemma_u16_word_value(b: u16)
    ensures
        bits_value(word_bits(b)) == b,
{
    lemma_u16_suffix(b, 0);
    assert(word_bits(b).skip(0) =~= word_bits(b));
    assert(b >> 0usize == b) by (bit_vector);
}

/// The tail of a `u32` word's bit sequence, from position `i` on,
/// assembles to the word shifted right by `i`.
proof fn lemma_u32_suffix(b: u32, i: usize)
    requires
        i < 32,
    ensures
        bits_value(word_bits(b).skip(i as int)) == (b >> i) as nat,
    decreases 32 - i,
{
    if i == 31 {
        let s = word_bits(b).skip(31);
        assert(s.len() == 1);
        assert(s[0] == b.spec_bit(31));
        assert(s.drop_first() =~= Seq::<bool>::empty());
        assert(bits_value(Seq::<bool>::empty()) == 0);
        assert(((b >> 31usize) & 1 == 1 ==> b >> 31usize == 1) && ((b >> 31usize)
            & 1 != 1 ==> b >> 31usize == 0)) by (bit_vector);
    } else {
        lemma_u32_suffix(b, (i + 1) as usize);
        lemma_bits_value_step(word_bits(b), i as int);
        assert(word_bits(b)[i as int] == b.spec_bit(i as int));
        assert((if (b >> i) & 1 == 1 {
            1nat
        } else {
            0nat
        }) + 2 * ((b >> (i + 1)) as nat) == (b >> i) as nat) by (bit_vector)
            requires
                i < 31,
        ;
    }
}

/// A `u32` word's bit sequence, least-significant-bit first, assembles
/// back to the word: the accessor exposes the standard bit pattern.
pub proof fn lemma_u32_word_value(b: u32)
    ensures
        bits_value(word_bits(b)) == b,
{
    lemma_u32_suffix(b, 0);
    assert(word_bits(b).skip(0) =~= word_bits(b));
    assert(b >> 0usize == b) by (bit_vector);
}

/// The tail of a `u64` word's bit sequence, from position `i` on,
/// assembles to the word shifted right by `i`.
proof fn lemma_u64_suffix(b: u64, i: usize)
    requires
        i < 64,
    ensures
        bits_value(word_bits(b).skip(i as int)) == (b >> i) as nat,
    decreases 64 - i,
{
    if i == 63 {
        let s = word_bits(b).skip(63);
        assert(s.len() == 1);
        assert(s[0] == b.spec_bit(63));
        assert(s.drop_first() =~= Seq::<bool>::empty());
        assert(bits_value(Seq::<bool>::empty()) == 0);
        assert(((b >> 63usize) & 1 == 1 ==> b >> 63usize == 1) && ((b >> 63usize)
            & 1 != 1 ==> b >> 63usize == 0)) by (bit_vector);
    } else {
        lemma_u64_suffix(b, (i + 1) as usize);
        lemma_bits_value_step(word_bits(b), i as int);
        assert(word_bits(b)[i as int] == b.spec_bit(i as int));
        assert((if (b >> i) & 1 == 1 {
            1nat
        } else {
            0nat
        }) + 2 * ((b >> (i + 1)) as nat) == (b >> i) as nat) by (bit_vector)
            requires
                i < 63,
        ;
    }
}

/// A `u64` word's bit sequence, least-significant-bit first, assembles
/// back to the word: the accessor exposes the standard bit pattern.
pub proof fn lemma_u64_word_value(b: u64)
    ensures
        bits_value(word_bits(b)) == b,
{
    lemma_u64_suffix(b, 0);
    assert(word_bits(b).skip(0) =~= word_bits(b));
    assert(b >> 0usize == b) by (bit_vector);
}

/// The tail of a `u128` word's bit sequence, from position `i` on,
/// assembles to the word shifted right by `i`.
proof fn lemma_u128_suffix(b: u128, i: usize)
    requires
        i < 128,
    ensures
        bits_value(word_bits(b).skip(i as int)) == (b >> i) as nat,
    decreases 128 - i,
{
    if i == 127 {
        let s = word_bits(b).skip(127);
        assert(s.len() == 1);
        assert(s[0] == b.spec_bit(127));
        assert(s.drop_first() =~= Seq::<bool>::empty());
        assert(bits_value(Seq::<bool>::empty()) == 0);
        assert(((b >> 127usize) & 1 == 1 ==> b >> 127usize == 1) && ((b >> 127usize)
            & 1 != 1 ==> b >> 127usize == 0)) by (bit_vector);
    } else {
        lemma_u128_suffix(b, (i + 1) as usize);
        lemma_bits_value_step(word_bits(b), i as int);
        assert(word_bits(b)[i as int] == b.spec_bit(i as int));
        assert((if (b >> i) & 1 == 1 {
            1nat
        } else {
            0nat
        }) + 2 * ((b >> (i + 1)) as nat) == (b >> i) as nat) by (bit_vector)
            requires
                i < 127,
        ;
    }
}

/// A `u128` word's bit sequence, least-significant-bit first, assembles
/// back to the word: the accessor exposes the standard bit pattern.
pub proof fn lemma_u128_word_value(b: u128)
    ensures
        bits_value(word_bits(b)) == b,
{
    lemma_u128_suffix(b, 0);
    assert(word_bits(b).skip(0) =~= word_bits(b));
    assert(b >> 0usize == b) by (bit_vector);
}

/// An `i8` word exposes the bits of its two's-complement pattern:
/// they assemble back to the word's unsigned reinterpretation.
pub proof fn lemma_i8_word_value(b: i8)
    ensures
        bits_value(word_bits(b)) == b as u8,
{
    assert(word_bits(b) =~= word_bits(b as u8));
    lemma_byte_value(b as u8);
}

/// An `i16` word exposes the bits of its two's-complement pattern:
/// they assemble back to the word's unsigned reinterpretation.
pub proof fn lemma_i16_word_value(b: i16)
    ensures
        bits_value(word_bits(b)) == b as u16,
{
    assert(word_bits(b) =~= word_bits(b as u16));
    lemma_u16_word_value(b as u16);
}

/// An `i32` word exposes the bits of its two's-complement pattern:
/// they assemble back to the word's unsigned reinterpretation.
pub proof fn lemma_i32_word_value(b: i32)
    ensures
        bits_value(word_bits(b)) == b as u32,
{
    assert(word_bits(b) =~= word_bits(b as u32));
    lemma_u32_word_value(b as u32);
}

/// An `i64` word exposes the bits of its two's-complement pattern:
/// they assemble back to the word's unsigned reinterpretation.
pub proof fn lemma_i64_word_value(b: i64)
    ensures
        bits_value(word_bits(b)) == b as u64,
{
    assert(word_bits(b) =~= word_bits(b as u64));
    lemma_u64_word_value(b as u64);
}

/// An `i128` word exposes the bits of its two's-complement pattern:
/// they assemble back to the word's unsigned reinterpretation.
pub proof fn lemma_i128_word_value(b: i128)
    ensures
        bits_value(word_bits(b)) == b as u128,
{
    assert(word_bits(b) =~= word_bits(b as u128));
    lemma_u128_word_value(b as u128);
}

/// A boolean word is one bit wide and assembles to one or zero.
pub proof fn lemma_bool_word_value(b: bool)
    ensures
        bits_value(word_bits(b)) == (if b {
            1nat
        } else {
            0nat
        }),
{
    let s = word_bits(b);
    assert(s.len() == 1);
    assert(s[0] == b.spec_bit(0));
    assert(s.drop_first() =~= Seq::<bool>::empty());
    assert(bits_value(Seq::<bool>::empty()) == 0);
}


/// Round trip, little-endian: the bit stream over a byte sequence
/// assembles, first bit least significant, to the little-endian value of
/// those bytes. With the contract of the little-endian fixed-width reads,
/// a value encoded as little-endian bytes is reproduced exactly.
pub proof fn lemma_le_round_trip(bytes: Seq<u8>)
    ensures
        bits_value(stream_of(bytes)) == le_value(bytes),
    decreases bytes.len(),
{
    if bytes.len() == 0 {
        assert(stream_of(bytes) =~= Seq::<bool>::empty());
    } else {
        lemma_stream_head::<u8>(bytes);
        lemma_byte_value(bytes[0]);
        lemma_bits_value_concat(word_bits(bytes[0]), stream_of(bytes.drop_first()));
        lemma_le_round_trip(bytes.drop_first());
        lemma2_to64();
        assert(word_bits(bytes[0]).len() == 8);
    }
}

/// Reversing the byte order of a little-endian value yields the
/// big-endian value of the same bytes.
proof fn lemma_be_swap(bytes: Seq<u8>)
    ensures
        byte_swapped(le_value(bytes), bytes.len()) == be_value(bytes),
    decreases bytes.len(),
{
    if bytes.len() > 0 {
        lemma_be_swap(bytes.drop_first());
        let v = le_value(bytes);
        let r = le_value(bytes.drop_first());
        lemma_fundamental_div_mod_converse(v as int, 256, r as int, bytes[0] as int);
    }
}

/// Round trip, big-endian: with the contract of the big-endian
/// fixed-width reads, which reverse the byte order of the little-endian
/// result, a value encoded as big-endian bytes is reproduced exactly.
pub proof fn lemma_be_round_trip(bytes: Seq<u8>)
    ensures
        byte_swapped(bits_value(stream_of(bytes)), bytes.len()) == be_value(bytes),
{
    lemma_le_round_trip(bytes);
    lemma_be_swap(bytes);
}

} // verus!
