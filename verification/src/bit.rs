//! Bit-level access: accessor and adapter capabilities, the cursor-based
//! reader, and type-directed decoding.
use vstd::prelude::*;
use vstd::string::StringSliceAdditionalSpecFns;

pub mod accessor;
pub mod laws;
pub mod model;
pub mod read;

pub use accessor::BitAccessor;
pub use accessor::BitAdapter;
pub use read::BitBuf;
pub use read::BitRead;
pub use read::BitReadExt;

use crate::bit::model::bits_value;
use crate::bit::read::{bits_at, can_take};
use crate::error::Error;

verus! {

/// Type-directed decoding: builds a value of the implementing type from
/// exactly `bit_len()` bits taken at the reader's cursor, by repeated
/// primitive reads.
///
/// On success the cursor has advanced by `bit_len()` and the value's view
/// is `from_bits` of the bits taken; when fewer bits were left, the read
/// fails with `InvalidSize` after consuming every remaining bit.
pub trait BitCast: Sized + View {
    /// How many bits one value of this type consumes.
    spec fn bit_len() -> nat;

    /// The view of the value decoded from a slice of `bit_len()` bits.
    spec fn from_bits(s: Seq<bool>) -> Self::V;

    /// Decodes one value of this type out of `reader`.
    fn bit_cast<R: BitRead>(reader: &mut R) -> (r: Result<Self, Error>)
        requires
            old(reader).inv(),
        ensures
            final(reader).inv(),
            final(reader).stream() == old(reader).stream(),
            can_take(
                old(reader).stream().len() as int,
                old(reader).cursor(),
                Self::bit_len(),
            ) ==> {
                &&& final(reader).cursor() == old(reader).cursor() + Self::bit_len()
                &&& r is Ok
                &&& r->Ok_0@ == Self::from_bits(
                    bits_at(old(reader).stream(), old(reader).cursor(), Self::bit_len()),
                )
            },
            !can_take(
                old(reader).stream().len() as int,
                old(reader).cursor(),
                Self::bit_len(),
            ) ==> {
                &&& final(reader).cursor() == old(reader).stream().len()
                &&& r == Err::<Self, Error>(Error::InvalidSize)
            },
    ;
}

impl BitCast for bool {
    open spec fn bit_len() -> nat {
        1
    }

    open spec fn from_bits(s: Seq<bool>) -> bool {
        s[0]
    }

    fn bit_cast<R: BitRead>(reader: &mut R) -> (r: Result<Self, Error>) {
        proof {
            reader.lemma_inv_bounds();
        }
        let r = reader.read_bit();
        proof {
            if can_take(old(reader).stream().len() as int, old(reader).cursor(), 1) {
                assert(bits_at(old(reader).stream(), old(reader).cursor(), 1)[0] == old(
                    reader,
                ).stream()[old(reader).cursor()]);
            }
        }
        r
    }
}

impl BitCast for u8 {
    open spec fn bit_len() -> nat {
        8
    }

    open spec fn from_bits(s: Seq<bool>) -> u8 {
        bits_value(s) as u8
    }

    fn bit_cast<R: BitRead>(reader: &mut R) -> (r: Result<Self, Error>) {
        reader.read_u8()
    }
}

impl<const N: usize> BitCast for [bool; N] {
    open spec fn bit_len() -> nat {
        N as nat
    }

    open spec fn from_bits(s: Seq<bool>) -> Seq<bool> {
        s
    }

    fn bit_cast<R: BitRead>(reader: &mut R) -> (r: Result<Self, Error>) {
        proof {
            reader.lemma_inv_bounds();
        }
        let mut buf: [bool; N] = [false; N];
        let size = reader.read(&mut buf);
        if size != N {
            return Err(Error::InvalidSize);
        }
        proof {
            assert(buf@ =~= bits_at(old(reader).stream(), old(reader).cursor(), N as nat));
        }
        Ok(buf)
    }
}

impl<const N: usize> BitCast for [u8; N] {
    open spec fn bit_len() -> nat {
        (N * 8) as nat
    }

    open spec fn from_bits(s: Seq<bool>) -> Seq<u8> {
        Seq::new(N as nat, |j: int| bits_value(s.subrange(8 * j, 8 * j + 8)) as u8)
    }

    fn bit_cast<R: BitRead>(reader: &mut R) -> (r: Result<Self, Error>) {
        proof {
            reader.lemma_inv_bounds();
        }
        let mut data: [u8; N] = [0; N];
        match fill_bytes(reader, &mut data) {
            Ok(()) => {
                proof {
                    lemma_filled_bytes(data@, old(reader).stream(), old(reader).cursor(), N as nat);
                }
                Ok(data)
            },
            Err(e) => Err(e),
        }
    }
}

/// Fills `data` with sequential byte reads; on a short read it stops with
/// `InvalidSize` after the stream is consumed.
fn fill_bytes<R: BitRead, const N: usize>(reader: &mut R, data: &mut [u8; N]) -> (r: Result<
    (),
    Error,
>)
    requires
        old(reader).inv(),
    ensures
        final(reader).inv(),
        final(reader).stream() == old(reader).stream(),
        can_take(old(reader).stream().len() as int, old(reader).cursor(), (N * 8) as nat) ==> {
            &&& final(reader).cursor() == old(reader).cursor() + N * 8
            &&& r is Ok
            &&& forall|i: int|
                0 <= i < N ==> final(data)@[i] == bits_value(
                    old(reader).stream().subrange(
                        old(reader).cursor() + 8 * i,
                        old(reader).cursor() + 8 * i + 8,
                    ),
                ) as u8
        },
        !can_take(old(reader).stream().len() as int, old(reader).cursor(), (N * 8) as nat) ==> {
            &&& final(reader).cursor() == old(reader).stream().len()
            &&& r == Err::<(), Error>(Error::InvalidSize)
        },
{
    proof {
        reader.lemma_inv_bounds();
    }
    let ghost c0 = reader.cursor();
    let mut j: usize = 0;
    while j < N
        invariant
            j <= N,
            reader.inv(),
            reader.stream() == old(reader).stream(),
            c0 == old(reader).cursor(),
            reader.cursor() == c0 + 8 * j,
            0 <= c0,
            c0 + 8 * j <= reader.stream().len(),
            data@.len() == N,
            forall|i: int|
                0 <= i < j ==> data@[i] == bits_value(
                    reader.stream().subrange(c0 + 8 * i, c0 + 8 * i + 8),
                ) as u8,
        decreases N - j,
    {
        match reader.read_u8() {
            Ok(b) => {
                proof {
                    assert(bits_at(reader.stream(), c0 + 8 * (j as int), 8) =~= reader
                        .stream()
                        .subrange(c0 + 8 * (j as int), c0 + 8 * (j as int) + 8));
                }
                data[j] = b;
            },
            Err(e) => {
                proof {
                    assert(8 * (j as int) + 8 <= 8 * (N as int));
                    assert(!can_take(
                        old(reader).stream().len() as int,
                        old(reader).cursor(),
                        (N * 8) as nat,
                    ));
                }
                return Err(e);
            },
        }
        j = j + 1;
        proof {
            reader.lemma_inv_bounds();
        }
    }
    Ok(())
}

/// Bytes read one after the other at `cursor` are the bytes of the single
/// `8 * n`-bit slice taken there, cut eight bits at a time.
proof fn lemma_filled_bytes(bytes: Seq<u8>, stream: Seq<bool>, cursor: int, n: nat)
    requires
        bytes.len() == n,
        0 <= cursor,
        cursor + n * 8 <= stream.len(),
        forall|i: int|
            0 <= i < n ==> bytes[i] == bits_value(
                stream.subrange(cursor + 8 * i, cursor + 8 * i + 8),
            ) as u8,
    ensures
        bytes == Seq::new(
            n,
            |j: int| bits_value(bits_at(stream, cursor, (n * 8) as nat).subrange(8 * j, 8 * j + 8)) as u8,
        ),
{
    let s = bits_at(stream, cursor, (n * 8) as nat);
    assert forall|j: int| 0 <= j < n implies bytes[j] == bits_value(
        s.subrange(8 * j, 8 * j + 8),
    ) as u8 by {
        assert(s.subrange(8 * j, 8 * j + 8) =~= stream.subrange(cursor + 8 * j, cursor + 8 * j + 8));
    }
    assert(bytes =~= Seq::new(
        n,
        |j: int| bits_value(s.subrange(8 * j, 8 * j + 8)) as u8,
    ));
}

/// A fixed-capacity byte string: exactly `BYTE_SIZE` bytes, exposed as
/// validated UTF-8 text on demand.
#[derive(Debug, Clone, PartialEq)]
pub struct ConstStr<const BYTE_SIZE: usize> {
    data: [u8; BYTE_SIZE],
}

impl<const N: usize> View for ConstStr<N> {
    type V = Seq<u8>;

    closed spec fn view(&self) -> Seq<u8> {
        self.data@
    }
}

impl<const N: usize> ConstStr<N> {
    /// A string of `N` zero bytes.
    pub fn new() -> (r: Self)
        ensures
            r@.len() == N,
            forall|i: int| 0 <= i < N ==> r@[i] == 0u8,
    {
        Self { data: [0; N] }
    }

    /// The stored bytes.
    pub fn as_bytes(&self) -> (s: &[u8])
        ensures
            s@ == self@,
    {
        self.data.as_slice()
    }

    /// The stored bytes, writable in place.
    pub fn as_mut_bytes(&mut self) -> (s: &mut [u8])
        ensures
            s@ == old(self)@,
            final(self)@ == final(s)@,
    {
        &mut self.data
    }

    /// The stored bytes as text, when they are valid UTF-8.
    pub fn as_str(&self) -> (r: Result<&str, core::str::Utf8Error>)
        ensures
            r is Ok <==> vstd::utf8::valid_utf8(self@),
            r is Ok ==> r->Ok_0.spec_bytes() == self@,
            r is Ok ==> r->Ok_0@ == vstd::utf8::decode_utf8(self@),
    {
        let r = core::str::from_utf8(self.data.as_slice());
        proof {
            if r is Ok {
                vstd::utf8::encode_utf8_decode_utf8(r->Ok_0@);
            }
        }
        r
    }
}

impl<const N: usize> Default for ConstStr<N> {
    fn default() -> (r: Self)
        ensures
            r@.len() == N,
            forall|i: int| 0 <= i < N ==> r@[i] == 0u8,
    {
        Self::new()
    }
}

impl<const N: usize> BitCast for ConstStr<N> {
    open spec fn bit_len() -> nat {
        (N * 8) as nat
    }

    open spec fn from_bits(s: Seq<bool>) -> Seq<u8> {
        Seq::new(N as nat, |j: int| bits_value(s.subrange(8 * j, 8 * j + 8)) as u8)
    }

    fn bit_cast<R: BitRead>(reader: &mut R) -> (r: Result<Self, Error>) {
        proof {
            reader.lemma_inv_bounds();
        }
        let mut data: [u8; N] = [0; N];
        match fill_bytes(reader, &mut data) {
            Ok(()) => {
                proof {
                    lemma_filled_bytes(data@, old(reader).stream(), old(reader).cursor(), N as nat);
                }
                Ok(ConstStr { data })
            },
            Err(e) => Err(e),
        }
    }
}

/// The error type of `core::str::from_utf8`, declared so that it can stand
/// in signatures; the library never looks inside it.
#[verifier::external_type_specification]
#[verifier::external_body]
pub struct ExUtf8Error(core::str::Utf8Error);

/// Relies on `core::str::from_utf8`: it succeeds exactly on valid UTF-8
/// input, and the returned text is backed by the given bytes.
pub assume_specification<'a>[ core::str::from_utf8 ](v: &'a [u8]) -> (r: Result<
    &'a str,
    core::str::Utf8Error,
>)
    ensures
        r is Ok <==> vstd::utf8::valid_utf8(v@),
        r is Ok ==> r->Ok_0.spec_bytes() == v@,
;

} // verus!
