use memscan::codec::ValueType;
use memscan::scan::ScanError;

#[test]
fn value_type_sizes() {
    assert_eq!(ValueType::U64.get_size(), 8);
    assert_eq!(ValueType::I64.get_size(), 8);
    assert_eq!(ValueType::U32.get_size(), 4);
    assert_eq!(ValueType::I32.get_size(), 4);
    assert_eq!(ValueType::String.get_size(), 0);
    assert_eq!(ValueType::Hex.get_size(), 0);
}

#[test]
fn value_type_labels() {
    assert_eq!(ValueType::U64.get_string(), "u64 (8B)");
    assert_eq!(ValueType::I64.get_string(), "i64 (8B)");
    assert_eq!(ValueType::U32.get_string(), "u32 (4B)");
    assert_eq!(ValueType::I32.get_string(), "i32 (4B)");
    assert_eq!(ValueType::String.get_string(), "string");
    assert_eq!(ValueType::Hex.get_string(), "hex");
}

#[test]
fn parse_integers_little_endian() {
    assert_eq!(
        ValueType::U64.parse_value("12345").unwrap(),
        12345_u64.to_le_bytes().to_vec()
    );
    assert_eq!(
        ValueType::I64.parse_value("-54321").unwrap(),
        (-54321_i64).to_le_bytes().to_vec()
    );
    assert_eq!(
        ValueType::U32.parse_value("31337").unwrap(),
        31337_u32.to_le_bytes().to_vec()
    );
    assert_eq!(
        ValueType::I32.parse_value("-999").unwrap(),
        (-999_i32).to_le_bytes().to_vec()
    );
    assert_eq!(
        ValueType::U64.parse_value("+7").unwrap(),
        7_u64.to_le_bytes().to_vec()
    );
}

#[test]
fn parse_integer_bounds() {
    assert_eq!(
        ValueType::U64.parse_value("18446744073709551615").unwrap(),
        u64::MAX.to_le_bytes().to_vec()
    );
    assert!(matches!(
        ValueType::U64.parse_value("18446744073709551616").unwrap_err(),
        ScanError::InvalidValue
    ));
    assert_eq!(
        ValueType::I64.parse_value("-9223372036854775808").unwrap(),
        i64::MIN.to_le_bytes().to_vec()
    );
    assert!(matches!(
        ValueType::I64.parse_value("-9223372036854775809").unwrap_err(),
        ScanError::InvalidValue
    ));
    assert!(matches!(
        ValueType::U32.parse_value("4294967296").unwrap_err(),
        ScanError::InvalidValue
    ));
    assert!(matches!(
        ValueType::I32.parse_value("2147483648").unwrap_err(),
        ScanError::InvalidValue
    ));
    assert_eq!(
        ValueType::I32.parse_value("-2147483648").unwrap(),
        i32::MIN.to_le_bytes().to_vec()
    );
    assert!(matches!(
        ValueType::U64.parse_value("").unwrap_err(),
        ScanError::InvalidValue
    ));
    assert!(matches!(
        ValueType::U64.parse_value("-1").unwrap_err(),
        ScanError::InvalidValue
    ));
}

#[test]
fn parse_string_passes_bytes_through() {
    assert_eq!(
        ValueType::String.parse_value("FLAG{").unwrap(),
        b"FLAG{".to_vec()
    );
    assert_eq!(
        ValueType::String.parse_value("héllo").unwrap(),
        "héllo".as_bytes().to_vec()
    );
}

#[test]
fn parse_hex_values() {
    assert_eq!(
        ValueType::Hex.parse_value("deadbeef").unwrap(),
        vec![0xde, 0xad, 0xbe, 0xef]
    );
    assert_eq!(
        ValueType::Hex.parse_value("0xDEADbeef").unwrap(),
        vec![0xde, 0xad, 0xbe, 0xef]
    );
    assert!(matches!(
        ValueType::Hex.parse_value("abc").unwrap_err(),
        ScanError::InvalidValue
    ));
    assert!(matches!(
        ValueType::Hex.parse_value("zz").unwrap_err(),
        ScanError::InvalidValue
    ));
    // the empty string decodes to no bytes at all
    assert_eq!(ValueType::Hex.parse_value("").unwrap(), Vec::<u8>::new());
}

#[test]
fn render_integers() {
    assert_eq!(
        ValueType::U64
            .get_value_string(&12345_u64.to_le_bytes())
            .unwrap(),
        "12345"
    );
    assert_eq!(
        ValueType::I64
            .get_value_string(&(-54321_i64).to_le_bytes())
            .unwrap(),
        "-54321"
    );
    assert_eq!(
        ValueType::U32
            .get_value_string(&31337_u32.to_le_bytes())
            .unwrap(),
        "31337"
    );
    assert_eq!(
        ValueType::I32
            .get_value_string(&(-999_i32).to_le_bytes())
            .unwrap(),
        "-999"
    );
    assert_eq!(
        ValueType::I64
            .get_value_string(&i64::MIN.to_le_bytes())
            .unwrap(),
        "-9223372036854775808"
    );
    assert_eq!(ValueType::U64.get_value_string(&0u64.to_le_bytes()).unwrap(), "0");
}

#[test]
fn render_wrong_width_is_type_mismatch() {
    assert!(matches!(
        ValueType::U64.get_value_string(&[1, 2, 3, 4]).unwrap_err(),
        ScanError::TypeMismatch
    ));
    assert!(matches!(
        ValueType::U32.get_value_string(&[1, 2, 3]).unwrap_err(),
        ScanError::TypeMismatch
    ));
    // the empty buffer is a wrong-length buffer for an integer type
    assert!(matches!(
        ValueType::U32.get_value_string(&[]).unwrap_err(),
        ScanError::TypeMismatch
    ));
    assert!(matches!(
        ValueType::I64.get_value_string(&[]).unwrap_err(),
        ScanError::TypeMismatch
    ));
    // the variable-width types render an empty buffer as the empty string
    assert_eq!(ValueType::String.get_value_string(&[]).unwrap(), "");
    assert_eq!(ValueType::Hex.get_value_string(&[]).unwrap(), "");
}

#[test]
fn render_string_escapes_and_truncates() {
    assert_eq!(
        ValueType::String.get_value_string(b"hello").unwrap(),
        "hello"
    );
    // the ANSI escape byte renders as \x1b, other controls as \xHH
    assert_eq!(
        ValueType::String.get_value_string(b"a\x1bb\x01").unwrap(),
        "a\\x1bb\\x01"
    );
    // multi-byte text survives
    assert_eq!(
        ValueType::String.get_value_string("héllo✓".as_bytes()).unwrap(),
        "héllo✓"
    );
    // ill-formed trailing bytes are dropped: only the valid prefix shows
    assert_eq!(
        ValueType::String.get_value_string(b"ok\xffrest").unwrap(),
        "ok"
    );
    // a lone continuation byte cuts the text immediately
    assert_eq!(ValueType::String.get_value_string(b"\x80abc").unwrap(), "");
    // an overlong encoding is ill-formed
    assert_eq!(ValueType::String.get_value_string(b"\xc0\x80x").unwrap(), "");
}

#[test]
fn render_hex_lowercase() {
    assert_eq!(
        ValueType::Hex.get_value_string(&[0xde, 0xad, 0xbe, 0xef]).unwrap(),
        "deadbeef"
    );
    assert_eq!(ValueType::Hex.get_value_string(&[0x00, 0x0f]).unwrap(), "000f");
}

#[test]
fn round_trip_bytes_to_text_to_bytes() {
    // parse(render(bytes)) == bytes for each integer type
    let cases_u64: [u64; 4] = [0, 1, 31337, u64::MAX];
    for v in cases_u64 {
        let b = v.to_le_bytes();
        let s = ValueType::U64.get_value_string(&b).unwrap();
        assert_eq!(ValueType::U64.parse_value(&s).unwrap(), b.to_vec());
    }
    let cases_i64: [i64; 5] = [0, -1, 31337, i64::MIN, i64::MAX];
    for v in cases_i64 {
        let b = v.to_le_bytes();
        let s = ValueType::I64.get_value_string(&b).unwrap();
        assert_eq!(ValueType::I64.parse_value(&s).unwrap(), b.to_vec());
    }
    let cases_u32: [u32; 3] = [0, 31337, u32::MAX];
    for v in cases_u32 {
        let b = v.to_le_bytes();
        let s = ValueType::U32.get_value_string(&b).unwrap();
        assert_eq!(ValueType::U32.parse_value(&s).unwrap(), b.to_vec());
    }
    let cases_i32: [i32; 4] = [0, -999, i32::MIN, i32::MAX];
    for v in cases_i32 {
        let b = v.to_le_bytes();
        let s = ValueType::I32.get_value_string(&b).unwrap();
        assert_eq!(ValueType::I32.parse_value(&s).unwrap(), b.to_vec());
    }
}

#[test]
fn round_trip_text_to_bytes_to_text() {
    // render(parse(s)) == s for canonical decimal text
    for s in ["0", "7", "31337", "18446744073709551615"] {
        let b = ValueType::U64.parse_value(s).unwrap();
        assert_eq!(ValueType::U64.get_value_string(&b).unwrap(), s);
    }
    for s in ["0", "-1", "31337", "-9223372036854775808"] {
        let b = ValueType::I64.parse_value(s).unwrap();
        assert_eq!(ValueType::I64.get_value_string(&b).unwrap(), s);
    }
    // hex text round-trips through bytes in lowercase
    let b = ValueType::Hex.parse_value("00ff10").unwrap();
    assert_eq!(ValueType::Hex.get_value_string(&b).unwrap(), "00ff10");
}
