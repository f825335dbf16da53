use leb128::model::DecodeError;
use leb128::signed::{read_signed_leb128, write_signed_leb128, write_signed_leb128_to};
use leb128::unsigned::{read_unsigned_leb128, write_unsigned_leb128, write_unsigned_leb128_to};

fn unsigned_bytes(value: u128) -> Vec<u8> {
    let mut out = Vec::new();
    let written = write_unsigned_leb128_to(value, &mut out);
    assert_eq!(written, out.len());
    out
}

fn signed_bytes(value: i128) -> Vec<u8> {
    let mut out = Vec::new();
    let written = write_signed_leb128_to(value, &mut out);
    assert_eq!(written, out.len());
    out
}

#[test]
fn test_unsigned_leb128() {
    let mut stream = Vec::with_capacity(10000);

    for x in 0..62 {
        let pos = stream.len();
        let bytes_written = write_unsigned_leb128(&mut stream, pos, 3 << x);
        assert_eq!(stream.len(), pos + bytes_written);
    }

    let mut position = 0;
    for x in 0..62 {
        let expected: u128 = 3 << x;
        let (actual, bytes_read) = read_unsigned_leb128(&stream, position).unwrap();
        assert_eq!(expected, actual);
        position += bytes_read;
    }
    assert_eq!(stream.len(), position);
}

#[test]
fn test_signed_leb128() {
    let values: Vec<i128> = (-500..500).map(|i: i128| i * 0x12345789ABCDEF).collect();
    let mut stream = Vec::new();
    for &x in &values {
        let pos = stream.len();
        let bytes_written = write_signed_leb128(&mut stream, pos, x);
        assert_eq!(stream.len(), pos + bytes_written);
    }
    let mut pos = 0;
    for &x in &values {
        let (value, bytes_read) = read_signed_leb128(&mut stream, pos).unwrap();
        pos += bytes_read;
        assert_eq!(x, value);
    }
    assert_eq!(pos, stream.len());
}

#[test]
fn unsigned_small_values_have_known_bytes() {
    assert_eq!(unsigned_bytes(0), vec![0x00]);
    assert_eq!(unsigned_bytes(127), vec![0x7f]);
    assert_eq!(unsigned_bytes(128), vec![0x80, 0x01]);
    assert_eq!(unsigned_bytes(300), vec![0xac, 0x02]);
}

#[test]
fn signed_small_values_have_known_bytes() {
    assert_eq!(signed_bytes(0), vec![0x00]);
    assert_eq!(signed_bytes(-1), vec![0x7f]);
    assert_eq!(signed_bytes(63), vec![0x3f]);
    assert_eq!(signed_bytes(-128), vec![0x80, 0x7f]);
    assert_eq!(signed_bytes(-123456), vec![0xc0, 0xbb, 0x78]);
}

#[test]
fn signed_group_boundaries_get_no_extra_byte() {
    assert_eq!(signed_bytes(64), vec![0xc0, 0x00]);
    assert_eq!(signed_bytes(-64), vec![0x40]);
    assert_eq!(signed_bytes(-65), vec![0xbf, 0x7f]);
    assert_eq!(signed_bytes(8191).len(), 2);
    assert_eq!(signed_bytes(8192).len(), 3);
    assert_eq!(signed_bytes(-8192).len(), 2);
    assert_eq!(signed_bytes(-8193).len(), 3);
}

#[test]
fn unsigned_boundary_values_round_trip() {
    let mut expected_2_63 = vec![0x80u8; 9];
    expected_2_63.push(0x01);
    assert_eq!(unsigned_bytes(1u128 << 63), expected_2_63);
    let mut expected_2_64 = vec![0x80u8; 9];
    expected_2_64.push(0x02);
    assert_eq!(unsigned_bytes(1u128 << 64), expected_2_64);
    let mut expected_max = vec![0xffu8; 18];
    expected_max.push(0x03);
    assert_eq!(unsigned_bytes(u128::MAX), expected_max);
    for value in [0u128, 1u128 << 63, 1u128 << 64, (1u128 << 127) - 1, u128::MAX] {
        let bytes = unsigned_bytes(value);
        assert!(bytes.len() <= 19);
        assert_eq!(read_unsigned_leb128(&bytes, 0), Ok((value, bytes.len())));
    }
    assert_eq!(unsigned_bytes((1u128 << 127) - 1).len(), 19);
}

#[test]
fn signed_boundary_values_round_trip() {
    let mut expected_max = vec![0xffu8; 18];
    expected_max.push(0x01);
    assert_eq!(signed_bytes(i128::MAX), expected_max);
    let mut expected_min = vec![0x80u8; 18];
    expected_min.push(0x7e);
    assert_eq!(signed_bytes(i128::MIN), expected_min);
    for value in [0i128, -1, 1i128 << 63, 1i128 << 64, -(1i128 << 64), i128::MAX, i128::MIN] {
        let bytes = signed_bytes(value);
        assert!(bytes.len() <= 19);
        assert_eq!(read_signed_leb128(&bytes, 0), Ok((value, bytes.len())));
    }
}

#[test]
fn unsigned_round_trip_sampled() {
    let mut values = vec![0u128, u128::MAX];
    for x in 0..126 {
        values.push(3u128 << x);
    }
    for &value in &values {
        let bytes = unsigned_bytes(value);
        assert_eq!(read_unsigned_leb128(&bytes, 0), Ok((value, bytes.len())));
    }
}

#[test]
fn mixed_values_pack_back_to_back() {
    let values = [5i128, -64, 64, i128::MIN, 0, i128::MAX, -1];
    let mut stream = vec![0xaau8];
    for &value in &values {
        write_signed_leb128_to(value, &mut stream);
    }
    let mut offset = 1;
    for &value in &values {
        let (decoded, read) = read_signed_leb128(&stream, offset).unwrap();
        assert_eq!(decoded, value);
        offset += read;
    }
    assert_eq!(offset, stream.len());
}

#[test]
fn writing_at_a_position_overwrites_and_grows() {
    let mut buffer = vec![1u8, 2, 3, 4, 5];
    let written = write_unsigned_leb128(&mut buffer, 1, 300);
    assert_eq!(written, 2);
    assert_eq!(buffer, vec![1, 0xac, 0x02, 4, 5]);
    let written = write_signed_leb128(&mut buffer, 4, -65);
    assert_eq!(written, 2);
    assert_eq!(buffer, vec![1, 0xac, 0x02, 4, 0xbf, 0x7f]);
    let written = write_unsigned_leb128(&mut buffer, 6, 0);
    assert_eq!(written, 1);
    assert_eq!(buffer, vec![1, 0xac, 0x02, 4, 0xbf, 0x7f, 0x00]);
}

#[test]
fn truncated_input_is_an_error() {
    assert_eq!(read_unsigned_leb128(&[], 0), Err(DecodeError::Truncated));
    assert_eq!(read_unsigned_leb128(&[0x80, 0x80], 0), Err(DecodeError::Truncated));
    assert_eq!(read_signed_leb128(&[0xff], 0), Err(DecodeError::Truncated));
    assert_eq!(read_unsigned_leb128(&[0x01], 1), Err(DecodeError::Truncated));
    assert_eq!(read_signed_leb128(&[0x01], 7), Err(DecodeError::Truncated));
}

#[test]
fn decoding_stops_at_the_first_final_byte() {
    assert_eq!(read_unsigned_leb128(&[0xac, 0x02, 0x80], 0), Ok((300, 2)));
    assert_eq!(read_unsigned_leb128(&[0x07, 0xac, 0x02], 1), Ok((300, 2)));
    assert_eq!(read_signed_leb128(&[0xbf, 0x7f, 0xff], 0), Ok((-65, 2)));
}

#[test]
fn longer_than_minimal_input_is_accepted() {
    assert_eq!(read_unsigned_leb128(&[0x80, 0x80, 0x00], 0), Ok((0, 3)));
    assert_eq!(read_signed_leb128(&[0xff, 0x7f], 0), Ok((-1, 2)));
    assert_eq!(read_signed_leb128(&[0xc0, 0x00], 0), Ok((64, 2)));
}

#[test]
fn bits_past_the_width_are_dropped() {
    // 2^128 + 5: the group that holds bit 128 is dropped.
    let mut bytes = vec![0x85u8];
    bytes.extend(vec![0x80u8; 17]);
    bytes.push(0x04);
    assert_eq!(read_unsigned_leb128(&bytes, 0), Ok((5, 19)));
    // Twenty-one bytes whose top groups lie wholly past the width.
    let mut long = vec![0xffu8; 20];
    long.push(0x7f);
    assert_eq!(read_unsigned_leb128(&long, 0), Ok((u128::MAX, 21)));
    assert_eq!(read_signed_leb128(&long, 0), Ok((-1, 21)));
    // Signed: 2^127 wraps to the least value.
    let mut wrap = vec![0x80u8; 18];
    wrap.push(0x02);
    assert_eq!(read_signed_leb128(&wrap, 0), Ok((i128::MIN, 19)));
}
