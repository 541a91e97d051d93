//! The cursor-based bit reader over an adapted word sequence, and the
//! primitive bit-extraction operation it rests on.
use vstd::arithmetic::div_mod::{
    lemma_fundamental_div_mod, lemma_fundamental_div_mod_converse, lemma_mod_bound,
};
use vstd::arithmetic::mul::lemma_mul_inequality;
use vstd::math::min;
use vstd::prelude::*;

use crate::bit::accessor::{BitAccessor, BitAdapter};
use crate::bit::model::{
    bits_to_u128, bits_value, byte_swapped, lemma_bits_value_bound, lemma_byte_swapped_bound,
    lemma_pow2_128, signed_of, stream_of, swap_bytes_u128, to_i128, to_i16, to_i32, to_i64,
};
use vstd::arithmetic::power2::lemma2_to64;
use crate::error::Error;

verus! {

broadcast use vstd::arithmetic::mul::lemma_mul_is_commutative;

/// Whether `nbits` more bits fit between cursor position `cursor` and the
/// end of a stream of `len` bits.
pub open spec fn can_take(len: int, cursor: int, nbits: nat) -> bool {
    cursor + nbits <= len
}

/// The `nbits` bits of `stream` that start at position `cursor`.
pub open spec fn bits_at(stream: Seq<bool>, cursor: int, nbits: nat) -> Seq<bool> {
    stream.subrange(cursor, cursor + nbits)
}

/// The primitive bit-extraction capability: a stream of bits with a cursor.
///
/// `stream` is the whole underlying bit sequence, `cursor` the absolute
/// number of bits consumed so far, and `inv` the implementor's
/// well-formedness condition, preserved by every read.
pub trait BitRead: Sized {
    /// The implementor's well-formedness condition.
    spec fn inv(&self) -> bool;

    /// The whole underlying bit sequence.
    spec fn stream(&self) -> Seq<bool>;

    /// The absolute bit position consumed so far.
    spec fn cursor(&self) -> int;

    /// A well-formed reader's cursor lies inside its stream.
    proof fn lemma_inv_bounds(&self)
        requires
            self.inv(),
        ensures
            0 <= self.cursor() <= self.stream().len(),
    ;

    /// Copies up to `buf.len()` bits starting at the cursor into `buf`,
    /// advances the cursor by the number copied, and returns that count.
    /// The count falls short of `buf.len()` exactly when the stream is
    /// exhausted first; a zero-length `buf` is a no-op returning 0.
    fn read(&mut self, buf: &mut [bool]) -> (n: usize)
        requires
            old(self).inv(),
        ensures
            final(self).inv(),
            final(self).stream() == old(self).stream(),
            final(buf)@.len() == old(buf)@.len(),
            n == min(old(buf)@.len() as int, old(self).stream().len() - old(self).cursor()),
            final(self).cursor() == old(self).cursor() + n,
            forall|j: int|
                0 <= j < n ==> final(buf)@[j] == old(self).stream()[old(self).cursor() + j],
            forall|j: int| n <= j < old(buf)@.len() ==> final(buf)@[j] == old(buf)@[j],
    ;

    /// Reads exactly one bit; fails with `InvalidSize` once the stream is
    /// exhausted, after consuming whatever was left.
    fn read_bit(&mut self) -> (r: Result<bool, Error>)
        requires
            old(self).inv(),
        ensures
            final(self).inv(),
            final(self).stream() == old(self).stream(),
            can_take(old(self).stream().len() as int, old(self).cursor(), 1) ==> {
                &&& final(self).cursor() == old(self).cursor() + 1
                &&& r == Ok::<bool, Error>(old(self).stream()[old(self).cursor()])
            },
            !can_take(old(self).stream().len() as int, old(self).cursor(), 1) ==> {
                &&& final(self).cursor() == old(self).stream().len()
                &&& r == Err::<bool, Error>(Error::InvalidSize)
            },
    {
        proof {
            self.lemma_inv_bounds();
        }
        let mut buf: [bool; 1] = [false; 1];
        let n = self.read(&mut buf);
        if n != 1 {
            return Err(Error::InvalidSize);
        }
        Ok(buf[0])
    }

    /// Reads exactly four bits and assembles them with the first bit as
    /// the least-significant bit of the result; fails with `InvalidSize`
    /// on a short read, after consuming whatever was left.
    fn read_4bits(&mut self) -> (r: Result<u8, Error>)
        requires
            old(self).inv(),
        ensures
            final(self).inv(),
            final(self).stream() == old(self).stream(),
            can_take(old(self).stream().len() as int, old(self).cursor(), 4) ==> {
                &&& final(self).cursor() == old(self).cursor() + 4
                &&& r == Ok::<u8, Error>(
                    bits_value(bits_at(old(self).stream(), old(self).cursor(), 4)) as u8,
                )
            },
            !can_take(old(self).stream().len() as int, old(self).cursor(), 4) ==> {
                &&& final(self).cursor() == old(self).stream().len()
                &&& r == Err::<u8, Error>(Error::InvalidSize)
            },
    {
        proof {
            self.lemma_inv_bounds();
        }
        let mut buf: [bool; 4] = [false; 4];
        let n = self.read(&mut buf);
        if n != 4 {
            return Err(Error::InvalidSize);
        }
        proof {
            assert(buf@ =~= bits_at(old(self).stream(), old(self).cursor(), 4));
            lemma_bits_value_bound(buf@);
            vstd::arithmetic::power2::lemma2_to64();
        }
        let v = bits_to_u128(buf.as_slice());
        Ok(v as u8)
    }

    /// Reads exactly eight bits and assembles them with the first bit as
    /// the least-significant bit of the result; fails with `InvalidSize`
    /// on a short read, after consuming whatever was left.
    fn read_u8(&mut self) -> (r: Result<u8, Error>)
        requires
            old(self).inv(),
        ensures
            final(self).inv(),
            final(self).stream() == old(self).stream(),
            can_take(old(self).stream().len() as int, old(self).cursor(), 8) ==> {
                &&& final(self).cursor() == old(self).cursor() + 8
                &&& r == Ok::<u8, Error>(
                    bits_value(bits_at(old(self).stream(), old(self).cursor(), 8)) as u8,
                )
            },
            !can_take(old(self).stream().len() as int, old(self).cursor(), 8) ==> {
                &&& final(self).cursor() == old(self).stream().len()
                &&& r == Err::<u8, Error>(Error::InvalidSize)
            },
    {
        proof {
            self.lemma_inv_bounds();
        }
        let mut buf: [bool; 8] = [false; 8];
        let n = self.read(&mut buf);
        if n != 8 {
            return Err(Error::InvalidSize);
        }
        proof {
            assert(buf@ =~= bits_at(old(self).stream(), old(self).cursor(), 8));
            lemma_bits_value_bound(buf@);
            vstd::arithmetic::power2::lemma2_to64();
        }
        let v = bits_to_u128(buf.as_slice());
        Ok(v as u8)
    }
}

/// A cursor-based reader over an adapted container: the word sequence plus
/// a two-part position (word index, in-word bit offset).
#[derive(Debug, Clone)]
pub struct BitBuf<T> {
    buf: T,
    index: usize,
    offset: usize,
}

impl<N: BitAccessor, T: BitAdapter<Accessor = N>> BitBuf<T> {
    /// The word sequence the reader walks.
    pub closed spec fn spec_words(self) -> Seq<N> {
        self.buf.words()
    }

    /// The whole bit sequence the reader walks.
    pub open spec fn spec_stream(self) -> Seq<bool> {
        stream_of(self.spec_words())
    }

    /// The word index part of the cursor.
    pub closed spec fn spec_index(self) -> nat {
        self.index as nat
    }

    /// The in-word bit offset part of the cursor.
    pub closed spec fn spec_offset(self) -> nat {
        self.offset as nat
    }

    /// The absolute bit position of the cursor.
    pub open spec fn spec_pos(self) -> int {
        self.spec_index() * N::width() + self.spec_offset() as int
    }

    /// Well-formedness: the offset stays inside one word, the position
    /// inside the stream, and the total bit length inside `usize`.
    pub open spec fn wf(self) -> bool {
        &&& self.spec_offset() < N::width()
        &&& self.spec_pos() <= self.spec_stream().len()
        &&& self.spec_stream().len() <= usize::MAX
    }

    /// Wraps a container, cursor at the start.
    pub fn new(buf: T) -> (r: Self)
        requires
            stream_of(buf.words()).len() <= usize::MAX,
        ensures
            r.wf(),
            r.spec_words() == buf.words(),
            r.spec_pos() == 0,
    {
        proof {
            N::lemma_width_pos();
        }
        Self { buf, index: 0, offset: 0 }
    }

    /// The word index part of the cursor.
    pub fn index(&self) -> (i: usize)
        ensures
            i == self.spec_index(),
    {
        self.index
    }

    /// The in-word bit offset part of the cursor.
    pub fn offset(&self) -> (o: usize)
        ensures
            o == self.spec_offset(),
    {
        self.offset
    }

    /// Repositions the cursor on word `index`, keeping the bit offset.
    /// The new position must stay inside the stream.
    pub fn set_index(&mut self, index: usize)
        requires
            old(self).wf(),
            index * N::width() + old(self).spec_offset() <= old(self).spec_stream().len(),
        ensures
            final(self).wf(),
            final(self).spec_words() == old(self).spec_words(),
            final(self).spec_index() == index,
            final(self).spec_offset() == old(self).spec_offset(),
    {
        self.index = index;
    }

    /// Repositions the in-word bit offset. The offset must stay inside one
    /// word and the new position inside the stream.
    pub fn set_offset(&mut self, offset: usize)
        requires
            old(self).wf(),
            offset < N::width(),
            old(self).spec_index() * N::width() + offset <= old(self).spec_stream().len(),
        ensures
            final(self).wf(),
            final(self).spec_words() == old(self).spec_words(),
            final(self).spec_index() == old(self).spec_index(),
            final(self).spec_offset() == offset,
    {
        self.offset = offset;
    }

    /// The absolute bit position consumed so far.
    pub fn position(&self) -> (p: usize)
        requires
            self.wf(),
        ensures
            p == self.spec_pos(),
    {
        self.index * N::bit_width() + self.offset
    }

    /// The total bit length of the stream.
    fn len(&self) -> (l: usize)
        requires
            self.wf(),
        ensures
            l == self.spec_stream().len(),
    {
        self.buf.accessor().len() * N::bit_width()
    }

    /// How many bits are left before the stream is exhausted.
    pub fn remain(&self) -> (r: usize)
        requires
            self.wf(),
        ensures
            r == self.spec_stream().len() - self.spec_pos(),
    {
        self.len() - self.position()
    }

    /// Whether the stream is exhausted.
    fn is_empty(&self) -> (e: bool)
        requires
            self.wf(),
        ensures
            e == (self.spec_pos() == self.spec_stream().len()),
    {
        self.remain() == 0
    }

    /// The underlying word slice.
    pub fn accessor(&self) -> (s: &[N])
        ensures
            s@ == self.spec_words(),
    {
        self.buf.accessor()
    }

    /// The next bit of the stream, or `None` once it is exhausted.
    pub fn next(&mut self) -> (r: Option<bool>)
        requires
            old(self).wf(),
        ensures
            final(self).wf(),
            final(self).spec_stream() == old(self).spec_stream(),
            old(self).spec_pos() < old(self).spec_stream().len() ==> {
                &&& r == Some(old(self).spec_stream()[old(self).spec_pos()])
                &&& final(self).spec_pos() == old(self).spec_pos() + 1
            },
            old(self).spec_pos() == old(self).spec_stream().len() ==> {
                &&& r is None
                &&& final(self).spec_pos() == old(self).spec_pos()
            },
    {
        let mut buf: [bool; 1] = [false; 1];
        if self.read(&mut buf) != 1 {
            None
        } else {
            Some(buf[0])
        }
    }
}

impl<N: BitAccessor, T: BitAdapter<Accessor = N>> BitRead for BitBuf<T> {
    open spec fn inv(&self) -> bool {
        self.wf()
    }

    open spec fn stream(&self) -> Seq<bool> {
        self.spec_stream()
    }

    open spec fn cursor(&self) -> int {
        self.spec_pos()
    }

    proof fn lemma_inv_bounds(&self) {
    }

    fn read(&mut self, buf: &mut [bool]) -> (n: usize) {
        proof {
            N::lemma_width_pos();
        }
        if self.is_empty() || buf.len() == 0 {
            return 0;
        }
        let w = N::bit_width();
        let p = self.position();
        let size = copy_bits_from_accessor(buf, self.buf.accessor(), p);
        let pos = p + size;
        proof {
            lemma_fundamental_div_mod(pos as int, w as int);
            lemma_mod_bound(pos as int, w as int);
        }
        self.index = pos / w;
        self.offset = pos % w;
        size
    }
}

/// Copies bits of the adapted word sequence, starting at absolute bit
/// position `pos`, into `bits` until `bits` is full or the sequence is
/// exhausted, and returns the number copied.
fn copy_bits_from_accessor<N: BitAccessor>(bits: &mut [bool], accessor: &[N], pos: usize) -> (n:
    usize)
    requires
        pos <= accessor@.len() * N::width(),
        accessor@.len() * N::width() <= usize::MAX,
    ensures
        final(bits)@.len() == old(bits)@.len(),
        n == min(old(bits)@.len() as int, accessor@.len() * N::width() - pos),
        forall|j: int| 0 <= j < n ==> final(bits)@[j] == stream_of(accessor@)[pos + j],
        forall|j: int| n <= j < old(bits)@.len() ==> final(bits)@[j] == old(bits)@[j],
{
    proof {
        N::lemma_width_pos();
    }
    let w = N::bit_width();
    let total = accessor.len() * w;
    let mut k = pos;
    let mut out: usize = 0;
    let mut wi = pos / w;
    let mut bi = pos % w;
    proof {
        lemma_fundamental_div_mod(pos as int, w as int);
        lemma_mod_bound(pos as int, w as int);
    }
    while k < total && out < bits.len()
        invariant
            w == N::width(),
            w > 0,
            total == accessor@.len() * N::width(),
            total <= usize::MAX,
            pos <= k <= total,
            out == k - pos,
            out <= bits@.len(),
            k == wi * w + bi,
            bi < w,
            bits@.len() == old(bits)@.len(),
            forall|j: int| 0 <= j < out ==> bits@[j] == stream_of(accessor@)[pos + j],
            forall|j: int| out <= j < bits@.len() ==> bits@[j] == old(bits)@[j],
        decreases total - k,
    {
        proof {
            if wi >= accessor@.len() {
                lemma_mul_inequality(accessor@.len() as int, wi as int, w as int);
                assert(false);
            }
            lemma_fundamental_div_mod_converse(k as int, w as int, wi as int, bi as int);
            assert(stream_of(accessor@)[k as int] == accessor@[wi as int].spec_bit(bi as int));
        }
        let b = accessor[wi].bit(bi);
        bits[out] = b;
        k = k + 1;
        out = out + 1;
        bi = bi + 1;
        if bi == w {
            bi = 0;
            wi = wi + 1;
            proof {
                assert((wi as int) * (w as int) == (wi - 1) * w + w) by (nonlinear_arith);
            }
        }
    }
    out
}

/// Fixed-width, byte-order-aware decoding, built purely on the primitive
/// extraction of `BitRead`.
///
/// The little-endian form of an integer read is native: the first bit read
/// becomes the least-significant bit of the whole value. The big-endian
/// form is derived from it by reversing the byte order of the result;
/// 24-bit values travel in a 32-bit container whose top byte stays zero.
pub trait BitReadExt: BitRead {
    /// Reads 16 bits as an unsigned value, first bit least significant.
    fn read_u16_le(&mut self) -> (r: Result<u16, Error>)
        requires
            old(self).inv(),
        ensures
            final(self).inv(),
            final(self).stream() == old(self).stream(),
            can_take(old(self).stream().len() as int, old(self).cursor(), 16) ==> {
                &&& final(self).cursor() == old(self).cursor() + 16
                &&& r == Ok::<u16, Error>(bits_value(bits_at(old(self).stream(), old(self).cursor(), 16)) as u16)
            },
            !can_take(old(self).stream().len() as int, old(self).cursor(), 16) ==> {
                &&& final(self).cursor() == old(self).stream().len()
                &&& r == Err::<u16, Error>(Error::InvalidSize)
            },
    {
        proof {
            self.lemma_inv_bounds();
        }
        let mut buf: [bool; 16] = [false; 16];
        let c = self.read(&mut buf);
        if c != 16 {
            return Err(Error::InvalidSize);
        }
        proof {
            assert(buf@ =~= bits_at(old(self).stream(), old(self).cursor(), 16));
            lemma_bits_value_bound(buf@);
            lemma2_to64();
        }
        let v = bits_to_u128(buf.as_slice());
        Ok(v as u16)
    }

    /// Reads 16 bits as in the little-endian form, then reverses the
    /// byte order of the result.
    fn read_u16_be(&mut self) -> (r: Result<u16, Error>)
        requires
            old(self).inv(),
        ensures
            final(self).inv(),
            final(self).stream() == old(self).stream(),
            can_take(old(self).stream().len() as int, old(self).cursor(), 16) ==> {
                &&& final(self).cursor() == old(self).cursor() + 16
                &&& r == Ok::<u16, Error>(byte_swapped(bits_value(bits_at(old(self).stream(), old(self).cursor(), 16)), 2) as u16)
            },
            !can_take(old(self).stream().len() as int, old(self).cursor(), 16) ==> {
                &&& final(self).cursor() == old(self).stream().len()
                &&& r == Err::<u16, Error>(Error::InvalidSize)
            },
    {
        proof {
            self.lemma_inv_bounds();
        }
        let le = match self.read_u16_le() {
            Ok(v) => v,
            Err(e) => return Err(e),
        };
        proof {
            lemma_bits_value_bound(bits_at(old(self).stream(), old(self).cursor(), 16));
            lemma_byte_swapped_bound(le as nat, 2);
            lemma2_to64();
        }
        let s = swap_bytes_u128(le as u128, 2);
        Ok(s as u16)
    }

    /// Reads 24 bits as an unsigned value, first bit least significant.
    fn read_u24_le(&mut self) -> (r: Result<u32, Error>)
        requires
            old(self).inv(),
        ensures
            final(self).inv(),
            final(self).stream() == old(self).stream(),
            can_take(old(self).stream().len() as int, old(self).cursor(), 24) ==> {
                &&& final(self).cursor() == old(self).cursor() + 24
                &&& r == Ok::<u32, Error>(bits_value(bits_at(old(self).stream(), old(self).cursor(), 24)) as u32)
            },
            !can_take(old(self).stream().len() as int, old(self).cursor(), 24) ==> {
                &&& final(self).cursor() == old(self).stream().len()
                &&& r == Err::<u32, Error>(Error::InvalidSize)
            },
    {
        proof {
            self.lemma_inv_bounds();
        }
        let mut buf: [bool; 24] = [false; 24];
        let c = self.read(&mut buf);
        if c != 24 {
            return Err(Error::InvalidSize);
        }
        proof {
            assert(buf@ =~= bits_at(old(self).stream(), old(self).cursor(), 24));
            lemma_bits_value_bound(buf@);
            lemma2_to64();
        }
        let v = bits_to_u128(buf.as_slice());
        Ok(v as u32)
    }

    /// Reads 24 bits as in the little-endian form, then reverses the
    /// byte order of the result.
    fn read_u24_be(&mut self) -> (r: Result<u32, Error>)
        requires
            old(self).inv(),
        ensures
            final(self).inv(),
            final(self).stream() == old(self).stream(),
            can_take(old(self).stream().len() as int, old(self).cursor(), 24) ==> {
                &&& final(self).cursor() == old(self).cursor() + 24
                &&& r == Ok::<u32, Error>(byte_swapped(bits_value(bits_at(old(self).stream(), old(self).cursor(), 24)), 3) as u32)
            },
            !can_take(old(self).stream().len() as int, old(self).cursor(), 24) ==> {
                &&& final(self).cursor() == old(self).stream().len()
                &&& r == Err::<u32, Error>(Error::InvalidSize)
            },
    {
        proof {
            self.lemma_inv_bounds();
        }
        let le = match self.read_u24_le() {
            Ok(v) => v,
            Err(e) => return Err(e),
        };
        proof {
            lemma_bits_value_bound(bits_at(old(self).stream(), old(self).cursor(), 24));
            lemma_byte_swapped_bound(le as nat, 3);
            lemma2_to64();
        }
        let s = swap_bytes_u128(le as u128, 3);
        Ok(s as u32)
    }

    /// Reads 32 bits as an unsigned value, first bit least significant.
    fn read_u32_le(&mut self) -> (r: Result<u32, Error>)
        requires
            old(self).inv(),
        ensures
            final(self).inv(),
            final(self).stream() == old(self).stream(),
            can_take(old(self).stream().len() as int, old(self).cursor(), 32) ==> {
                &&& final(self).cursor() == old(self).cursor() + 32
                &&& r == Ok::<u32, Error>(bits_value(bits_at(old(self).stream(), old(self).cursor(), 32)) as u32)
            },
            !can_take(old(self).stream().len() as int, old(self).cursor(), 32) ==> {
                &&& final(self).cursor() == old(self).stream().len()
                &&& r == Err::<u32, Error>(Error::InvalidSize)
            },
    {
        proof {
            self.lemma_inv_bounds();
        }
        let mut buf: [bool; 32] = [false; 32];
        let c = self.read(&mut buf);
        if c != 32 {
            return Err(Error::InvalidSize);
        }
        proof {
            assert(buf@ =~= bits_at(old(self).stream(), old(self).cursor(), 32));
            lemma_bits_value_bound(buf@);
            lemma2_to64();
        }
        let v = bits_to_u128(buf.as_slice());
        Ok(v as u32)
    }

    /// Reads 32 bits as in the little-endian form, then reverses the
    /// byte order of the result.
    fn read_u32_be(&mut self) -> (r: Result<u32, Error>)
        requires
            old(self).inv(),
        ensures
            final(self).inv(),
            final(self).stream() == old(self).stream(),
            can_take(old(self).stream().len() as int, old(self).cursor(), 32) ==> {
                &&& final(self).cursor() == old(self).cursor() + 32
                &&& r == Ok::<u32, Error>(byte_swapped(bits_value(bits_at(old(self).stream(), old(self).cursor(), 32)), 4) as u32)
            },
            !can_take(old(self).stream().len() as int, old(self).cursor(), 32) ==> {
                &&& final(self).cursor() == old(self).stream().len()
                &&& r == Err::<u32, Error>(Error::InvalidSize)
            },
    {
        proof {
            self.lemma_inv_bounds();
        }
        let le = match self.read_u32_le() {
            Ok(v) => v,
            Err(e) => return Err(e),
        };
        proof {
            lemma_bits_value_bound(bits_at(old(self).stream(), old(self).cursor(), 32));
            lemma_byte_swapped_bound(le as nat, 4);
            lemma2_to64();
        }
        let s = swap_bytes_u128(le as u128, 4);
        Ok(s as u32)
    }

    /// Reads 64 bits as an unsigned value, first bit least significant.
    fn read_u64_le(&mut self) -> (r: Result<u64, Error>)
        requires
            old(self).inv(),
        ensures
            final(self).inv(),
            final(self).stream() == old(self).stream(),
            can_take(old(self).stream().len() as int, old(self).cursor(), 64) ==> {
                &&& final(self).cursor() == old(self).cursor() + 64
                &&& r == Ok::<u64, Error>(bits_value(bits_at(old(self).stream(), old(self).cursor(), 64)) as u64)
            },
            !can_take(old(self).stream().len() as int, old(self).cursor(), 64) ==> {
                &&& final(self).cursor() == old(self).stream().len()
                &&& r == Err::<u64, Error>(Error::InvalidSize)
            },
    {
        proof {
            self.lemma_inv_bounds();
        }
        let mut buf: [bool; 64] = [false; 64];
        let c = self.read(&mut buf);
        if c != 64 {
            return Err(Error::InvalidSize);
        }
        proof {
            assert(buf@ =~= bits_at(old(self).stream(), old(self).cursor(), 64));
            lemma_bits_value_bound(buf@);
            lemma2_to64();
        }
        let v = bits_to_u128(buf.as_slice());
        Ok(v as u64)
    }

    /// Reads 64 bits as in the little-endian form, then reverses the
    /// byte order of the result.
    fn read_u64_be(&mut self) -> (r: Result<u64, Error>)
        requires
            old(self).inv(),
        ensures
            final(self).inv(),
            final(self).stream() == old(self).stream(),
            can_take(old(self).stream().len() as int, old(self).cursor(), 64) ==> {
                &&& final(self).cursor() == old(self).cursor() + 64
                &&& r == Ok::<u64, Error>(byte_swapped(bits_value(bits_at(old(self).stream(), old(self).cursor(), 64)), 8) as u64)
            },
            !can_take(old(self).stream().len() as int, old(self).cursor(), 64) ==> {
                &&& final(self).cursor() == old(self).stream().len()
                &&& r == Err::<u64, Error>(Error::InvalidSize)
            },
    {
        proof {
            self.lemma_inv_bounds();
        }
        let le = match self.read_u64_le() {
            Ok(v) => v,
            Err(e) => return Err(e),
        };
        proof {
            lemma_bits_value_bound(bits_at(old(self).stream(), old(self).cursor(), 64));
            lemma_byte_swapped_bound(le as nat, 8);
            lemma2_to64();
        }
        let s = swap_bytes_u128(le as u128, 8);
        Ok(s as u64)
    }

    /// Reads 128 bits as an unsigned value, first bit least significant.
    fn read_u128_le(&mut self) -> (r: Result<u128, Error>)
        requires
            old(self).inv(),
        ensures
            final(self).inv(),
            final(self).stream() == old(self).stream(),
            can_take(old(self).stream().len() as int, old(self).cursor(), 128) ==> {
                &&& final(self).cursor() == old(self).cursor() + 128
                &&& r == Ok::<u128, Error>(bits_value(bits_at(old(self).stream(), old(self).cursor(), 128)) as u128)
            },
            !can_take(old(self).stream().len() as int, old(self).cursor(), 128) ==> {
                &&& final(self).cursor() == old(self).stream().len()
                &&& r == Err::<u128, Error>(Error::InvalidSize)
            },
    {
        proof {
            self.lemma_inv_bounds();
        }
        let mut buf: [bool; 128] = [false; 128];
        let c = self.read(&mut buf);
        if c != 128 {
            return Err(Error::InvalidSize);
        }
        proof {
            assert(buf@ =~= bits_at(old(self).stream(), old(self).cursor(), 128));
            lemma_bits_value_bound(buf@);
            lemma_pow2_128();
        }
        let v = bits_to_u128(buf.as_slice());
        Ok(v)
    }

    /// Reads 128 bits as in the little-endian form, then reverses the
    /// byte order of the result.
    fn read_u128_be(&mut self) -> (r: Result<u128, Error>)
        requires
            old(self).inv(),
        ensures
            final(self).inv(),
            final(self).stream() == old(self).stream(),
            can_take(old(self).stream().len() as int, old(self).cursor(), 128) ==> {
                &&& final(self).cursor() == old(self).cursor() + 128
                &&& r == Ok::<u128, Error>(byte_swapped(bits_value(bits_at(old(self).stream(), old(self).cursor(), 128)), 16) as u128)
            },
            !can_take(old(self).stream().len() as int, old(self).cursor(), 128) ==> {
                &&& final(self).cursor() == old(self).stream().len()
                &&& r == Err::<u128, Error>(Error::InvalidSize)
            },
    {
        proof {
            self.lemma_inv_bounds();
        }
        let le = match self.read_u128_le() {
            Ok(v) => v,
            Err(e) => return Err(e),
        };
        proof {
            lemma_bits_value_bound(bits_at(old(self).stream(), old(self).cursor(), 128));
            lemma_byte_swapped_bound(le as nat, 16);
            lemma2_to64();
            lemma_pow2_128();
        }
        let s = swap_bytes_u128(le as u128, 16);
        Ok(s as u128)
    }

    /// Reads 16 bits as a two's-complement signed value, first bit
    /// least significant.
    fn read_i16_le(&mut self) -> (r: Result<i16, Error>)
        requires
            old(self).inv(),
        ensures
            final(self).inv(),
            final(self).stream() == old(self).stream(),
            can_take(old(self).stream().len() as int, old(self).cursor(), 16) ==> {
                &&& final(self).cursor() == old(self).cursor() + 16
                &&& r == Ok::<i16, Error>(signed_of(bits_value(bits_at(old(self).stream(), old(self).cursor(), 16)), 0x8000, 0x10000) as i16)
            },
            !can_take(old(self).stream().len() as int, old(self).cursor(), 16) ==> {
                &&& final(self).cursor() == old(self).stream().len()
                &&& r == Err::<i16, Error>(Error::InvalidSize)
            },
    {
        proof {
            self.lemma_inv_bounds();
        }
        let u = match self.read_u16_le() {
            Ok(v) => v,
            Err(e) => return Err(e),
        };
        proof {
            lemma_bits_value_bound(bits_at(old(self).stream(), old(self).cursor(), 16));

            lemma2_to64();
        }
        Ok(to_i16(u))
    }

    /// Reads 16 bits as in the little-endian form, then reverses the
    /// byte order of the two's-complement pattern.
    fn read_i16_be(&mut self) -> (r: Result<i16, Error>)
        requires
            old(self).inv(),
        ensures
            final(self).inv(),
            final(self).stream() == old(self).stream(),
            can_take(old(self).stream().len() as int, old(self).cursor(), 16) ==> {
                &&& final(self).cursor() == old(self).cursor() + 16
                &&& r == Ok::<i16, Error>(signed_of(byte_swapped(bits_value(bits_at(old(self).stream(), old(self).cursor(), 16)), 2), 0x8000, 0x10000) as i16)
            },
            !can_take(old(self).stream().len() as int, old(self).cursor(), 16) ==> {
                &&& final(self).cursor() == old(self).stream().len()
                &&& r == Err::<i16, Error>(Error::InvalidSize)
            },
    {
        proof {
            self.lemma_inv_bounds();
        }
        let u = match self.read_u16_be() {
            Ok(v) => v,
            Err(e) => return Err(e),
        };
        proof {
            lemma_bits_value_bound(bits_at(old(self).stream(), old(self).cursor(), 16));
            lemma_byte_swapped_bound(bits_value(bits_at(old(self).stream(), old(self).cursor(), 16)), 2);
            lemma2_to64();
        }
        Ok(to_i16(u))
    }

    /// Reads 32 bits as a two's-complement signed value, first bit
    /// least significant.
    fn read_i32_le(&mut self) -> (r: Result<i32, Error>)
        requires
            old(self).inv(),
        ensures
            final(self).inv(),
            final(self).stream() == old(self).stream(),
            can_take(old(self).stream().len() as int, old(self).cursor(), 32) ==> {
                &&& final(self).cursor() == old(self).cursor() + 32
                &&& r == Ok::<i32, Error>(signed_of(bits_value(bits_at(old(self).stream(), old(self).cursor(), 32)), 0x80000000, 0x100000000) as i32)
            },
            !can_take(old(self).stream().len() as int, old(self).cursor(), 32) ==> {
                &&& final(self).cursor() == old(self).stream().len()
                &&& r == Err::<i32, Error>(Error::InvalidSize)
            },
    {
        proof {
            self.lemma_inv_bounds();
        }
        let u = match self.read_u32_le() {
            Ok(v) => v,
            Err(e) => return Err(e),
        };
        proof {
            lemma_bits_value_bound(bits_at(old(self).stream(), old(self).cursor(), 32));

            lemma2_to64();
        }
        Ok(to_i32(u))
    }

    /// Reads 32 bits as in the little-endian form, then reverses the
    /// byte order of the two's-complement pattern.
    fn read_i32_be(&mut self) -> (r: Result<i32, Error>)
        requires
            old(self).inv(),
        ensures
            final(self).inv(),
            final(self).stream() == old(self).stream(),
            can_take(old(self).stream().len() as int, old(self).cursor(), 32) ==> {
                &&& final(self).cursor() == old(self).cursor() + 32
                &&& r == Ok::<i32, Error>(signed_of(byte_swapped(bits_value(bits_at(old(self).stream(), old(self).cursor(), 32)), 4), 0x80000000, 0x100000000) as i32)
            },
            !can_take(old(self).stream().len() as int, old(self).cursor(), 32) ==> {
                &&& final(self).cursor() == old(self).stream().len()
                &&& r == Err::<i32, Error>(Error::InvalidSize)
            },
    {
        proof {
            self.lemma_inv_bounds();
        }
        let u = match self.read_u32_be() {
            Ok(v) => v,
            Err(e) => return Err(e),
        };
        proof {
            lemma_bits_value_bound(bits_at(old(self).stream(), old(self).cursor(), 32));
            lemma_byte_swapped_bound(bits_value(bits_at(old(self).stream(), old(self).cursor(), 32)), 4);
            lemma2_to64();
        }
        Ok(to_i32(u))
    }

    /// Reads 64 bits as a two's-complement signed value, first bit
    /// least significant.
    fn read_i64_le(&mut self) -> (r: Result<i64, Error>)
        requires
            old(self).inv(),
        ensures
            final(self).inv(),
            final(self).stream() == old(self).stream(),
            can_take(old(self).stream().len() as int, old(self).cursor(), 64) ==> {
                &&& final(self).cursor() == old(self).cursor() + 64
                &&& r == Ok::<i64, Error>(signed_of(bits_value(bits_at(old(self).stream(), old(self).cursor(), 64)), 0x8000000000000000, 0x10000000000000000) as i64)
            },
            !can_take(old(self).stream().len() as int, old(self).cursor(), 64) ==> {
                &&& final(self).cursor() == old(self).stream().len()
                &&& r == Err::<i64, Error>(Error::InvalidSize)
            },
    {
        proof {
            self.lemma_inv_bounds();
        }
        let u = match self.read_u64_le() {
            Ok(v) => v,
            Err(e) => return Err(e),
        };
        proof {
            lemma_bits_value_bound(bits_at(old(self).stream(), old(self).cursor(), 64));

            lemma2_to64();
        }
        Ok(to_i64(u))
    }

    /// Reads 64 bits as in the little-endian form, then reverses the
    /// byte order of the two's-complement pattern.
    fn read_i64_be(&mut self) -> (r: Result<i64, Error>)
        requires
            old(self).inv(),
        ensures
            final(self).inv(),
            final(self).stream() == old(self).stream(),
            can_take(old(self).stream().len() as int, old(self).cursor(), 64) ==> {
                &&& final(self).cursor() == old(self).cursor() + 64
                &&& r == Ok::<i64, Error>(signed_of(byte_swapped(bits_value(bits_at(old(self).stream(), old(self).cursor(), 64)), 8), 0x8000000000000000, 0x10000000000000000) as i64)
            },
            !can_take(old(self).stream().len() as int, old(self).cursor(), 64) ==> {
                &&& final(self).cursor() == old(self).stream().len()
                &&& r == Err::<i64, Error>(Error::InvalidSize)
            },
    {
        proof {
            self.lemma_inv_bounds();
        }
        let u = match self.read_u64_be() {
            Ok(v) => v,
            Err(e) => return Err(e),
        };
        proof {
            lemma_bits_value_bound(bits_at(old(self).stream(), old(self).cursor(), 64));
            lemma_byte_swapped_bound(bits_value(bits_at(old(self).stream(), old(self).cursor(), 64)), 8);
            lemma2_to64();
        }
        Ok(to_i64(u))
    }

    /// Reads 128 bits as a two's-complement signed value, first bit
    /// least significant.
    fn read_i128_le(&mut self) -> (r: Result<i128, Error>)
        requires
            old(self).inv(),
        ensures
            final(self).inv(),
            final(self).stream() == old(self).stream(),
            can_take(old(self).stream().len() as int, old(self).cursor(), 128) ==> {
                &&& final(self).cursor() == old(self).cursor() + 128
                &&& r == Ok::<i128, Error>(signed_of(bits_value(bits_at(old(self).stream(), old(self).cursor(), 128)), 0x80000000000000000000000000000000, 0x100000000000000000000000000000000nat) as i128)
            },
            !can_take(old(self).stream().len() as int, old(self).cursor(), 128) ==> {
                &&& final(self).cursor() == old(self).stream().len()
                &&& r == Err::<i128, Error>(Error::InvalidSize)
            },
    {
        proof {
            self.lemma_inv_bounds();
        }
        let u = match self.read_u128_le() {
            Ok(v) => v,
            Err(e) => return Err(e),
        };
        proof {
            lemma_bits_value_bound(bits_at(old(self).stream(), old(self).cursor(), 128));

            lemma_pow2_128();
        }
        Ok(to_i128(u))
    }

    /// Reads 128 bits as in the little-endian form, then reverses the
    /// byte order of the two's-complement pattern.
    fn read_i128_be(&mut self) -> (r: Result<i128, Error>)
        requires
            old(self).inv(),
        ensures
            final(self).inv(),
            final(self).stream() == old(self).stream(),
            can_take(old(self).stream().len() as int, old(self).cursor(), 128) ==> {
                &&& final(self).cursor() == old(self).cursor() + 128
                &&& r == Ok::<i128, Error>(signed_of(byte_swapped(bits_value(bits_at(old(self).stream(), old(self).cursor(), 128)), 16), 0x80000000000000000000000000000000, 0x100000000000000000000000000000000nat) as i128)
            },
            !can_take(old(self).stream().len() as int, old(self).cursor(), 128) ==> {
                &&& final(self).cursor() == old(self).stream().len()
                &&& r == Err::<i128, Error>(Error::InvalidSize)
            },
    {
        proof {
            self.lemma_inv_bounds();
        }
        let u = match self.read_u128_be() {
            Ok(v) => v,
            Err(e) => return Err(e),
        };
        proof {
            lemma_bits_value_bound(bits_at(old(self).stream(), old(self).cursor(), 128));
            lemma_byte_swapped_bound(bits_value(bits_at(old(self).stream(), old(self).cursor(), 128)), 16);
            lemma_pow2_128();
        }
        Ok(to_i128(u))
    }

}

impl<R: BitRead> BitReadExt for R {

}


} // verus!
