use varint::EncodeVar;
use varint::required_encoded_space_unsigned;

#[test]
fn test_var_u32() {
    let mut value = 1u32;
    while value < u32::MAX / 10 {
        value *= 10;
        let v = value.encode_varint();
        let expected_len = v.len();
        let (result, l) = u32::decode_varint(&v);
        assert_eq!(l, expected_len);
        assert_eq!(result, value);
    }
}

#[test]
fn test_var_u64() {
    let mut value = 1u64;
    while value < u64::MAX / 10 {
        value *= 10;
        let v = value.encode_varint();
        let expected_len = v.len();
        let (result, l) = u64::decode_varint(&v);
        assert_eq!(l, expected_len);
        assert_eq!(result, value);
    }
}

#[test]
fn test_zero_encodes_to_single_zero_byte() {
    assert_eq!(0u64.encode_varint(), vec![0x00]);
    assert_eq!(u64::decode_varint(&[0x00]), (0, 1));
    assert_eq!(0u64.required_size(), 1);
}

#[test]
fn test_boundary_values() {
    assert_eq!(127u64.encode_varint(), vec![0x7f]);
    assert_eq!(128u64.encode_varint(), vec![0x80, 0x01]);
    assert_eq!(300u64.encode_varint(), vec![0xac, 0x02]);
    assert_eq!(u64::decode_varint(&[0x7f]), (127, 1));
    assert_eq!(u64::decode_varint(&[0x80, 0x01]), (128, 2));
    assert_eq!(u64::decode_varint(&[0xac, 0x02]), (300, 2));
}

#[test]
fn test_max_u64_takes_ten_bytes() {
    let v = u64::MAX.encode_varint();
    assert_eq!(v.len(), 10);
    assert_eq!(
        v,
        vec![0xff, 0xff, 0xff, 0xff, 0xff, 0xff, 0xff, 0xff, 0xff, 0x01]
    );
    assert_eq!(u64::decode_varint(&v), (u64::MAX, 10));
}

#[test]
fn test_max_values_of_narrow_widths_round_trip() {
    let v = u8::MAX.encode_varint();
    assert_eq!(v, vec![0xff, 0x01]);
    assert_eq!(u8::decode_varint(&v), (u8::MAX, 2));

    let v = u16::MAX.encode_varint();
    assert_eq!(v, vec![0xff, 0xff, 0x03]);
    assert_eq!(u16::decode_varint(&v), (u16::MAX, 3));

    let v = u32::MAX.encode_varint();
    assert_eq!(v, vec![0xff, 0xff, 0xff, 0xff, 0x0f]);
    assert_eq!(u32::decode_varint(&v), (u32::MAX, 5));

    let v = usize::MAX.encode_varint();
    assert_eq!(usize::decode_varint(&v), (usize::MAX, v.len()));
}

#[test]
fn test_required_size_matches_encoded_length() {
    let samples: [u64; 9] = [0, 1, 127, 128, 300, 16383, 16384, 1 << 62, u64::MAX];
    for &value in samples.iter() {
        let v = value.encode_varint();
        assert_eq!(value.required_size(), v.len());
        assert_eq!(required_encoded_space_unsigned(value), v.len());
        // calling again gives the same answer
        assert_eq!(value.required_size(), v.len());
    }
}

#[test]
fn test_continuation_bits() {
    let v = 987654321098765u64.encode_varint();
    for (idx, byte) in v.iter().enumerate() {
        if idx == v.len() - 1 {
            assert_eq!(byte & 0x80, 0);
        } else {
            assert_eq!(byte & 0x80, 0x80);
        }
    }
}

#[test]
fn test_truncated_input_stops_at_cap() {
    // nothing but continuation bytes: the decoder stops after ten groups
    assert_eq!(u64::decode_varint(&[0x80; 12]), (0, 10));
    assert_eq!(u64::decode_varint(&[0xff; 15]), (u64::MAX, 10));
    // shorter than the cap: the whole input is consumed
    assert_eq!(u64::decode_varint(&[0x80; 5]), (0, 5));
    assert_eq!(u64::decode_varint(&[]), (0, 0));
}

#[test]
fn test_decode_narrows_by_truncation() {
    // 512 fits a u16 but not a u8: the low eight bits remain
    assert_eq!(u16::decode_varint(&[0x80, 0x04]), (512, 2));
    assert_eq!(u8::decode_varint(&[0x80, 0x04]), (0, 2));
}

#[test]
fn test_real_encode_leaves_tail_untouched() {
    let mut buf = [0x55u8; 4];
    300u64.real_encode(&mut buf);
    assert_eq!(buf, [0xac, 0x02, 0x55, 0x55]);

    let mut exact = [0u8; 2];
    300u32.real_encode(&mut exact);
    assert_eq!(exact, [0xac, 0x02]);
}
