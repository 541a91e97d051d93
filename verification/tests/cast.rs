use bitbuf::bit::{BitBuf, BitCast, ConstStr};
use bitbuf::error::Error;
use bitbuf::ByteCast;

#[test]
fn bool_and_u8_cast() {
    let mut b = BitBuf::new([0b0000_0001u8, 0xC3]);
    assert_eq!(bool::bit_cast(&mut b), Ok(true));
    assert_eq!(bool::bit_cast(&mut b), Ok(false));
    let mut c = BitBuf::new([0xC3u8]);
    assert_eq!(u8::bit_cast(&mut c), Ok(0xC3));
    assert_eq!(u8::bit_cast(&mut c), Err(Error::InvalidSize));
}

#[test]
fn bool_array_cast_needs_exact_bits() {
    let mut b = BitBuf::new([0b0000_0101u8]);
    let bits = <[bool; 4]>::bit_cast(&mut b).unwrap();
    assert_eq!(bits, [true, false, true, false]);
    // Only four bits remain: an eight-bit array fails.
    assert_eq!(<[bool; 8]>::bit_cast(&mut b), Err(Error::InvalidSize));
}

#[test]
fn byte_array_cast_reads_sequentially() {
    let mut b = BitBuf::new([0x10u8, 0x20, 0x30]);
    let bytes = <[u8; 2]>::bit_cast(&mut b).unwrap();
    assert_eq!(bytes, [0x10, 0x20]);
    assert_eq!(<[u8; 2]>::bit_cast(&mut b), Err(Error::InvalidSize));
}

#[test]
fn const_str_cast_and_text() {
    let mut b = BitBuf::new("Hello");
    let s = ConstStr::<5>::bit_cast(&mut b).unwrap();
    assert_eq!(s.as_bytes(), b"Hello");
    assert_eq!(s.as_str(), Ok("Hello"));
    // Not enough bytes left for another.
    let mut c = BitBuf::new("Hi");
    assert_eq!(ConstStr::<3>::bit_cast(&mut c), Err(Error::InvalidSize));
}

#[test]
fn const_str_rejects_invalid_utf8() {
    let mut b = BitBuf::new([0xFFu8, 0xFE]);
    let s = ConstStr::<2>::bit_cast(&mut b).unwrap();
    assert!(s.as_str().is_err());
}

#[test]
fn const_str_new_default_and_mutation() {
    let mut s = ConstStr::<4>::new();
    assert_eq!(s.as_bytes(), &[0, 0, 0, 0]);
    let d = ConstStr::<4>::default();
    assert_eq!(d, s);
    let bytes = s.as_mut_bytes();
    bytes[0] = b'a';
    bytes[1] = b'b';
    bytes[2] = b'c';
    bytes[3] = b'd';
    assert_eq!(s.as_str(), Ok("abcd"));
    assert_ne!(s, d);
    let t = s.clone();
    assert_eq!(t, s);
}

#[test]
fn error_messages() {
    assert_eq!(Error::InvalidSize.message(), "Invalid size");
    assert_eq!(Error::InvalidData.message(), "Invalid data");
    assert_eq!(Error::Custom(String::from("bad tag")).message(), "bad tag");
    assert_ne!(Error::InvalidSize, Error::InvalidData);
}

struct Zeroed(u8);

impl ByteCast for Zeroed {
    fn cast() -> Self {
        Zeroed(0)
    }
}

#[test]
fn byte_cast_builds_values() {
    let z = Zeroed::cast();
    assert_eq!(z.0, 0);
}
