use bitbuf::bit::{BitAccessor, BitAdapter, BitBuf, BitRead, BitReadExt};
use bitbuf::error::Error;

#[test]
fn bit_width_matches_type_size() {
    assert_eq!(u8::bit_width(), 8);
    assert_eq!(u16::bit_width(), 16);
    assert_eq!(u32::bit_width(), 32);
    assert_eq!(u64::bit_width(), 64);
    assert_eq!(u128::bit_width(), 128);
    assert_eq!(i8::bit_width(), 8);
    assert_eq!(i16::bit_width(), 16);
    assert_eq!(i32::bit_width(), 32);
    assert_eq!(i64::bit_width(), 64);
    assert_eq!(i128::bit_width(), 128);
    assert_eq!(bool::bit_width(), 1);
    assert_eq!(usize::bit_width(), usize::BITS as usize);
    assert_eq!(isize::bit_width(), isize::BITS as usize);
}

#[test]
fn bit_is_lsb_first() {
    let v: u8 = 0b1010_0101;
    let expected = [true, false, true, false, false, true, false, true];
    for (i, e) in expected.iter().enumerate() {
        assert_eq!(v.bit(i), *e);
    }
    let w: u16 = 1 << 9;
    assert!(w.bit(9));
    assert!(!w.bit(8));
    assert!(true.bit(0));
    assert!(!false.bit(0));
}

#[test]
fn bit_of_signed_uses_twos_complement() {
    let v: i8 = -1;
    for i in 0..8 {
        assert!(v.bit(i));
    }
    let w: i32 = -2;
    assert!(!w.bit(0));
    for i in 1..32 {
        assert!(w.bit(i));
    }
}

#[test]
fn adapters_expose_words() {
    let arr: [u8; 3] = [1, 2, 3];
    assert_eq!(arr.accessor(), &[1, 2, 3]);
    let v: Vec<u16> = vec![7, 8];
    assert_eq!(v.accessor(), &[7, 8]);
    let s: &[u32] = &[9];
    assert_eq!(s.accessor(), &[9]);
    assert_eq!("AB".accessor(), &[0x41, 0x42]);
    assert_eq!(String::from("AB").accessor(), &[0x41, 0x42]);
}

#[test]
fn read_is_splittable() {
    // Reading 5 bits and then the rest equals one whole read.
    let data: [u8; 2] = [0xA5, 0x3C];
    let mut first = BitBuf::new(data);
    let mut head = [false; 5];
    let mut tail = [false; 11];
    assert_eq!(first.read(&mut head), 5);
    assert_eq!(first.read(&mut tail), 11);
    let mut whole = BitBuf::new(data);
    let mut all = [false; 16];
    assert_eq!(whole.read(&mut all), 16);
    let glued: Vec<bool> = head.iter().chain(tail.iter()).copied().collect();
    assert_eq!(glued, all.to_vec());
}

#[test]
fn position_advances_by_bits_read() {
    let data: [u8; 2] = [0xFF, 0x00];
    let mut b = BitBuf::new(data);
    assert_eq!(b.position(), 0);
    let mut buf = [false; 3];
    assert_eq!(b.read(&mut buf), 3);
    assert_eq!(b.position(), 3);
    let mut buf2 = [false; 10];
    assert_eq!(b.read(&mut buf2), 10);
    assert_eq!(b.position(), 13);
    assert_eq!(b.remain(), 3);
    // A short read advances by the count returned, not the request.
    let mut buf3 = [false; 8];
    assert_eq!(b.read(&mut buf3), 3);
    assert_eq!(b.position(), 16);
    assert_eq!(b.remain(), 0);
}

#[test]
fn zero_length_read_is_a_no_op() {
    let data: [u8; 1] = [0xAB];
    let mut b = BitBuf::new(data);
    let mut empty: [bool; 0] = [];
    assert_eq!(b.read(&mut empty), 0);
    assert_eq!(b.position(), 0);
    let mut buf = [false; 4];
    assert_eq!(b.read(&mut buf), 4);
    assert_eq!(b.read(&mut empty), 0);
    assert_eq!(b.position(), 4);
}

#[test]
fn reading_past_the_end_is_short_then_fails() {
    let data: [u8; 1] = [0x5A];
    let mut b = BitBuf::new(data);
    let mut buf = [false; 8];
    assert_eq!(b.read(&mut buf), 8);
    // One extra bit request: short count of zero from the primitive.
    let mut one = [false; 1];
    assert_eq!(b.read(&mut one), 0);
    // The fixed-width operation on the same state fails with InvalidSize.
    assert_eq!(b.read_bit(), Err(Error::InvalidSize));
    assert_eq!(b.read_u8(), Err(Error::InvalidSize));
    let mut c = BitBuf::new(data);
    assert_eq!(c.read_u16_le(), Err(Error::InvalidSize));
}

#[test]
fn hello_bytes_read_in_order() {
    let mut b = BitBuf::new("Hello");
    assert_eq!(b.read_u8(), Ok(b'H'));
    assert_eq!(b.read_u8(), Ok(b'e'));
    assert_eq!(b.read_u8(), Ok(b'l'));
    assert_eq!(b.read_u8(), Ok(b'l'));
    assert_eq!(b.read_u8(), Ok(b'o'));
    assert_eq!(b.read_u8(), Err(Error::InvalidSize));
}

#[test]
fn i32_le_concrete_value() {
    let bytes = (-18934i32).to_le_bytes();
    assert_eq!(bytes, [0x0A, 0xB6, 0xFF, 0xFF]);
    let mut b = BitBuf::new(bytes);
    assert_eq!(b.read_i32_le(), Ok(-18934));
}

#[test]
fn nibbles_and_bits() {
    // 0xA5 = 0b1010_0101: low nibble first.
    let mut b = BitBuf::new([0xA5u8]);
    assert_eq!(b.read_4bits(), Ok(0x5));
    assert_eq!(b.read_4bits(), Ok(0xA));
    let mut c = BitBuf::new([0b0000_0001u8]);
    assert_eq!(c.read_bit(), Ok(true));
    assert_eq!(c.read_bit(), Ok(false));
}

#[test]
fn unsigned_round_trips_little_endian() {
    let mut b = BitBuf::new(0x1234u16.to_le_bytes());
    assert_eq!(b.read_u16_le(), Ok(0x1234));
    let mut c = BitBuf::new(0xDEADBEEFu32.to_le_bytes());
    assert_eq!(c.read_u32_le(), Ok(0xDEADBEEF));
    let mut d = BitBuf::new(0x0123_4567_89AB_CDEFu64.to_le_bytes());
    assert_eq!(d.read_u64_le(), Ok(0x0123_4567_89AB_CDEF));
    let mut e = BitBuf::new(0xFEDC_BA98_7654_3210_0123_4567_89AB_CDEFu128.to_le_bytes());
    assert_eq!(e.read_u128_le(), Ok(0xFEDC_BA98_7654_3210_0123_4567_89AB_CDEF));
}

#[test]
fn unsigned_round_trips_big_endian() {
    let mut b = BitBuf::new(0x1234u16.to_be_bytes());
    assert_eq!(b.read_u16_be(), Ok(0x1234));
    let mut c = BitBuf::new(0xDEADBEEFu32.to_be_bytes());
    assert_eq!(c.read_u32_be(), Ok(0xDEADBEEF));
    let mut d = BitBuf::new(0x0123_4567_89AB_CDEFu64.to_be_bytes());
    assert_eq!(d.read_u64_be(), Ok(0x0123_4567_89AB_CDEF));
    let mut e = BitBuf::new(0xFEDC_BA98_7654_3210_0123_4567_89AB_CDEFu128.to_be_bytes());
    assert_eq!(e.read_u128_be(), Ok(0xFEDC_BA98_7654_3210_0123_4567_89AB_CDEF));
}

#[test]
fn signed_round_trips_both_orders() {
    let mut b = BitBuf::new((-12345i16).to_le_bytes());
    assert_eq!(b.read_i16_le(), Ok(-12345));
    let mut c = BitBuf::new((-12345i16).to_be_bytes());
    assert_eq!(c.read_i16_be(), Ok(-12345));
    let mut d = BitBuf::new(i64::MIN.to_le_bytes());
    assert_eq!(d.read_i64_le(), Ok(i64::MIN));
    let mut e = BitBuf::new(i64::MIN.to_be_bytes());
    assert_eq!(e.read_i64_be(), Ok(i64::MIN));
    let mut f = BitBuf::new((-1i128).to_le_bytes());
    assert_eq!(f.read_i128_le(), Ok(-1));
    let mut g = BitBuf::new(i128::MIN.to_be_bytes());
    assert_eq!(g.read_i128_be(), Ok(i128::MIN));
    let mut h = BitBuf::new(i32::MAX.to_be_bytes());
    assert_eq!(h.read_i32_be(), Ok(i32::MAX));
}

#[test]
fn u24_decodes_into_32_bit_container() {
    let mut b = BitBuf::new([0x01u8, 0x02, 0x03]);
    assert_eq!(b.read_u24_le(), Ok(0x0003_0201));
    let mut c = BitBuf::new([0x01u8, 0x02, 0x03]);
    assert_eq!(c.read_u24_be(), Ok(0x0001_0203));
    // Short input fails.
    let mut d = BitBuf::new([0x01u8, 0x02]);
    assert_eq!(d.read_u24_le(), Err(Error::InvalidSize));
}

#[test]
fn floats_round_trip_through_their_bit_patterns() {
    // The big-endian read is the native float form: the bytes feed the
    // bit pattern most-significant byte first.
    let x = -3.75f32;
    let mut b = BitBuf::new(x.to_bits().to_be_bytes());
    assert_eq!(b.read_u32_be().map(f32::from_bits), Ok(x));
    let mut c = BitBuf::new(x.to_bits().to_le_bytes());
    assert_eq!(c.read_u32_le().map(f32::from_bits), Ok(x));
    let y = 6.02214076e23f64;
    let mut d = BitBuf::new(y.to_bits().to_be_bytes());
    assert_eq!(d.read_u64_be().map(f64::from_bits), Ok(y));
    let mut e = BitBuf::new(y.to_bits().to_le_bytes());
    assert_eq!(e.read_u64_le().map(f64::from_bits), Ok(y));
}

#[test]
fn wider_words_stream_low_bits_first() {
    // One u16 word 0x0201: bits of the whole word LSB-first, so the first
    // eight bits are 0x01, the next eight 0x02.
    let mut b = BitBuf::new([0x0201u16]);
    assert_eq!(b.read_u8(), Ok(0x01));
    assert_eq!(b.read_u8(), Ok(0x02));
    let mut c = BitBuf::new(vec![0x04030201u32]);
    assert_eq!(c.read_u16_le(), Ok(0x0201));
    assert_eq!(c.read_u16_le(), Ok(0x0403));
    let mut d = BitBuf::new([true, false, true]);
    assert_eq!(d.read(&mut [false; 8]), 3);
    let mut e = BitBuf::new([0x8877_6655_4433_2211u64]);
    assert_eq!(e.read_u32_le(), Ok(0x4433_2211));
    assert_eq!(e.read_u32_le(), Ok(0x8877_6655));
}

#[test]
fn next_yields_bits_until_exhausted() {
    let mut b = BitBuf::new([0b0000_0101u8]);
    assert_eq!(b.next(), Some(true));
    assert_eq!(b.next(), Some(false));
    assert_eq!(b.next(), Some(true));
    for _ in 3..8 {
        assert_eq!(b.next(), Some(false));
    }
    assert_eq!(b.next(), None);
}

#[test]
fn cloned_reader_has_independent_cursor() {
    let data: [u8; 2] = [0xAA, 0xBB];
    let mut a = BitBuf::new(data);
    assert_eq!(a.read_u8(), Ok(0xAA));
    let mut b = a.clone();
    assert_eq!(a.position(), b.position());
    assert_eq!(b.read_u8(), Ok(0xBB));
    assert_eq!(a.position(), 8);
    assert_eq!(b.position(), 16);
    assert_eq!(a.read_u8(), Ok(0xBB));
}

#[test]
fn cursor_parts_and_repositioning() {
    let data: [u8; 4] = [0x11, 0x22, 0x33, 0x44];
    let mut b = BitBuf::new(data);
    let mut buf = [false; 11];
    assert_eq!(b.read(&mut buf), 11);
    assert_eq!(b.index(), 1);
    assert_eq!(b.offset(), 3);
    assert_eq!(b.position(), 11);
    b.set_index(2);
    b.set_offset(0);
    assert_eq!(b.position(), 16);
    assert_eq!(b.read_u8(), Ok(0x33));
    assert_eq!(b.accessor(), &[0x11, 0x22, 0x33, 0x44]);
}
