use mcping_api::minecraft::codec;
use mcping_api::minecraft::codec::{CodecError, Reader};

fn varint(v: i32) -> Vec<u8> {
    let mut b = Vec::new();
    codec::write_varint(&mut b, v);
    b
}

fn varlong(v: i64) -> Vec<u8> {
    let mut b = Vec::new();
    codec::write_varlong(&mut b, v);
    b
}

#[test]
fn varints_have_their_known_bytes() {
    assert_eq!(varint(0), vec![0x00]);
    assert_eq!(varint(1), vec![0x01]);
    assert_eq!(varint(127), vec![0x7F]);
    assert_eq!(varint(128), vec![0x80, 0x01]);
    assert_eq!(varint(255), vec![0xFF, 0x01]);
    assert_eq!(varint(25565), vec![0xDD, 0xC7, 0x01]);
    assert_eq!(varint(2097151), vec![0xFF, 0xFF, 0x7F]);
    assert_eq!(varint(i32::MAX), vec![0xFF, 0xFF, 0xFF, 0xFF, 0x07]);
    assert_eq!(varint(-1), vec![0xFF, 0xFF, 0xFF, 0xFF, 0x0F]);
    assert_eq!(varint(i32::MIN), vec![0x80, 0x80, 0x80, 0x80, 0x08]);
}

#[test]
fn varlongs_have_their_known_bytes() {
    assert_eq!(varlong(0), vec![0x00]);
    assert_eq!(varlong(i64::MAX), vec![0xFF, 0xFF, 0xFF, 0xFF, 0xFF, 0xFF, 0xFF, 0xFF, 0x7F]);
    assert_eq!(varlong(-1), vec![0xFF, 0xFF, 0xFF, 0xFF, 0xFF, 0xFF, 0xFF, 0xFF, 0xFF, 0x01]);
    assert_eq!(varlong(i64::MIN).len(), codec::MAX_VARLONG_BYTES);
}

#[test]
fn negative_varints_take_the_full_length() {
    for v in [-1, -2, -128, -65536, i32::MIN] {
        assert_eq!(varint(v).len(), codec::MAX_VARINT_BYTES);
    }
}

#[test]
fn varints_are_read_back() {
    for v in [0, 1, 127, 128, 255, 25565, 2097151, i32::MAX, -1, -25565, i32::MIN] {
        let mut b = varint(v);
        b.push(0x55);
        let mut r = Reader::new(&b);
        assert_eq!(r.read_varint(), Ok(v));
        assert_eq!(r.remaining(), 1);
    }
}

#[test]
fn varint_errors_leave_the_reader_behind_the_bytes_that_were_read() {
    let long = [0x80, 0x80, 0x80, 0x80, 0x80, 0x01];
    let mut r = Reader::new(&long);
    assert_eq!(r.read_varint(), Err(CodecError::VarIntTooLong));
    assert_eq!(r.remaining(), 1);

    let short = [0xFF, 0xFF];
    let mut r = Reader::new(&short);
    assert_eq!(r.read_varint(), Err(CodecError::OutOfBounds));
    assert_eq!(r.remaining(), 0);
}

#[test]
fn a_fifth_varint_byte_keeps_its_low_bits_only() {
    let b = [0xFF, 0xFF, 0xFF, 0xFF, 0x7F];
    let mut r = Reader::new(&b);
    assert_eq!(r.read_varint(), Ok(-1));
}

#[test]
fn strings_are_read_back() {
    for s in ["", "abc", "汉字", "a\u{1F600}b"] {
        let mut b = Vec::new();
        codec::write_string(&mut b, s);
        assert_eq!(b[0] as usize, s.len());
        b.push(7);
        let mut r = Reader::new(&b);
        assert_eq!(r.read_string(100), Ok(s.to_string()));
        assert_eq!(r.remaining(), 1);
    }
}

#[test]
fn string_errors_are_told_apart() {
    let mut b = varint(-1);
    b.push(0);
    assert_eq!(Reader::new(&b).read_string(10), Err(CodecError::NegativeLength));
    assert_eq!(Reader::new(&[3, b'a', b'b', b'c']).read_string(2), Err(CodecError::StringTooLong));
    let mut r = Reader::new(&[3, b'a']);
    assert_eq!(r.read_string(10), Err(CodecError::OutOfBounds));
    assert_eq!(r.remaining(), 1);
    let mut r = Reader::new(&[2, 0xC3, 0x28, 9]);
    assert_eq!(r.read_string(10), Err(CodecError::InvalidUtf8));
    assert_eq!(r.remaining(), 1);
}

#[test]
fn error_messages() {
    assert_eq!(CodecError::OutOfBounds.message(), "包体读越界");
    assert_eq!(CodecError::VarIntTooLong.message(), "VarInt 过长");
    assert_eq!(CodecError::NegativeLength.message(), "字符串长为负");
    assert_eq!(CodecError::StringTooLong.message(), "字符串超长");
    assert_eq!(CodecError::InvalidUtf8.message(), "字符串非合法 UTF-8");
}

#[test]
fn fixed_width_numbers_are_big_endian() {
    let mut b = Vec::new();
    codec::write_u16(&mut b, 25565);
    assert_eq!(b, vec![0x63, 0xDD]);
    codec::write_i64(&mut b, 0x0123_4567_89AB_CDEF);
    assert_eq!(&b[2..], &[0x01, 0x23, 0x45, 0x67, 0x89, 0xAB, 0xCD, 0xEF]);
    let mut r = Reader::new(&b);
    assert_eq!(r.read_i16(), Ok(25565));
    assert_eq!(r.read_i64(), Ok(0x0123_4567_89AB_CDEF));
    assert_eq!(r.read_u8(), Err(CodecError::OutOfBounds));
    assert_eq!(Reader::new(&[0xFF, 0xFE]).read_i16(), Ok(-2));
    assert_eq!(Reader::new(&[1]).read_i16(), Err(CodecError::OutOfBounds));
    let mut b = Vec::new();
    codec::write_i64(&mut b, -2);
    assert_eq!(b, vec![0xFF, 0xFF, 0xFF, 0xFF, 0xFF, 0xFF, 0xFF, 0xFE]);
    assert_eq!(Reader::new(&b).read_i64(), Ok(-2));
    assert_eq!(Reader::new(&b[1..]).read_i64(), Err(CodecError::OutOfBounds));
}

#[test]
fn a_packet_starts_with_the_length_of_the_rest() {
    let p = codec::packet(5, &[1, 2, 3]);
    assert_eq!(p, vec![4, 5, 1, 2, 3]);
    let big = codec::packet(0, &vec![9u8; 300]);
    assert_eq!(&big[..3], &[0xAD, 0x02, 0x00]);
    assert_eq!(big.len(), 2 + 301);
}

#[test]
fn the_handshake_has_its_known_bytes() {
    let h = codec::handshake(-1, "ab", 25565, 1);
    assert_eq!(
        h,
        vec![12, 0, 0xFF, 0xFF, 0xFF, 0xFF, 0x0F, 2, b'a', b'b', 0x63, 0xDD, 1]
    );
    assert_eq!(codec::status_request(), vec![1, 0]);
    assert_eq!(codec::ping_request(1), vec![9, 1, 0, 0, 0, 0, 0, 0, 0, 1]);
}
