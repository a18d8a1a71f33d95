use ecs_snapshot::component::{find_duplicate_quadratic, ComponentArray, GlobalComponent};
use ecs_snapshot::decode;
use ecs_snapshot::decode::{Error, Expected, Found};
use ecs_snapshot::encode;
use ecs_snapshot::entity::{
    ComponentIdx, EntityArray, EntityData, IdScale, IdxScale,
};
use ecs_snapshot::ieee;
use ecs_snapshot::text::{parse_number, split_words};
use ecs_snapshot::value::{EntityId, EntityIdRewrite, Identity, Value};
use ecs_snapshot::world::{Compaction, World};
use ecs_snapshot::WorldContext;

fn encoded(val: &Value) -> Vec<u8> {
    let mut state = encode::State::new(Vec::new());
    state.encode_value(val, &Identity);
    state.into_inner()
}

fn decoded(b: &[u8]) -> Result<Value, Error> {
    decode::State::new(b).decode_value()
}

fn unexpected(idx: usize, ex: Expected, got: Found) -> Error {
    Error::Unexpected { idx, ex, got }
}

fn sample_values() -> Vec<Value> {
    vec![
        Value::Bool(true),
        Value::Bool(false),
        Value::Int(0),
        Value::Int(127),
        Value::Int(128),
        Value::Int(-1),
        Value::Int(-129),
        Value::Int(32768),
        Value::Int(-2147483649),
        Value::Int(i64::MAX),
        Value::Int(i64::MIN),
        Value::Float(0),
        Value::Float((-0.0f64).to_bits()),
        Value::Float(1.5f64.to_bits()),
        Value::Float(0.1f64.to_bits()),
        Value::Float(f64::INFINITY.to_bits()),
        Value::Float(f64::NEG_INFINITY.to_bits()),
        Value::Float(0x7ff8_0000_0000_0000),
        Value::Float(0x7ff0_0000_0000_0001),
        Value::Float(f64::MIN_POSITIVE.to_bits()),
        Value::Float(1),
        Value::Float((f32::from_bits(1) as f64).to_bits()),
        Value::Float((f32::MAX as f64).to_bits()),
        Value::Bytes(vec![]),
        Value::Bytes(vec![7; 15]),
        Value::Bytes(vec![7; 16]),
        Value::Bytes(vec![7; 255]),
        Value::Bytes(vec![7; 256]),
        Value::Array((0..15).map(Value::Int).collect()),
        Value::Array((0..16).map(Value::Int).collect()),
        Value::Array((0..300).map(Value::Int).collect()),
        Value::Maybe(None),
        Value::Maybe(Some(Box::new(Value::Array(vec![
            Value::EntityId(EntityId::Idx(63)),
            Value::Maybe(Some(Box::new(Value::Bytes(vec![1, 2, 3])))),
        ])))),
        Value::EntityId(EntityId::Invalid),
        Value::EntityId(EntityId::Idx(0)),
        Value::EntityId(EntityId::Idx(63)),
        Value::EntityId(EntityId::Idx(64)),
        Value::EntityId(EntityId::Idx(255)),
        Value::EntityId(EntityId::Idx(256)),
        Value::EntityId(EntityId::Idx(65535)),
        Value::EntityId(EntityId::Idx(65536)),
        Value::EntityId(EntityId::Idx(u32::MAX)),
    ]
}

#[test]
fn decoding_undoes_encoding() {
    for v in sample_values() {
        assert!(v.is_encodable());
        let bytes = encoded(&v);
        let mut state = decode::State::new(&bytes);
        assert_eq!(state.decode_value(), Ok(v));
        assert_eq!(state.position(), bytes.len());
    }
}

#[test]
fn canonical_bytes_are_stable() {
    for v in sample_values() {
        let bytes = encoded(&v);
        assert_eq!(encoded(&decoded(&bytes).unwrap()), bytes);
    }
}

#[test]
fn wider_forms_decode_to_the_same_value() {
    let cases: Vec<(&[u8], &[u8])> = vec![
        (b"\xa8\x05", b"\x05"),
        (b"\xa9\x00\x05", b"\x05"),
        (b"\xaa\x00\x00\x00\x05", b"\x05"),
        (b"\xab\x00\x00\x00\x00\x00\x00\x00\x05", b"\x05"),
        (b"\xab\xff\xff\xff\xff\xff\xff\xff\xff", b"\xa8\xff"),
        (b"\xa0\x02ab", b"\x82ab"),
        (b"\xa1\x00\x00\x00\x02ab", b"\x82ab"),
        (b"\xa2\x01\xa4", b"\x91\xa4"),
        (b"\xa3\x00\x00\x00\x01\xa4", b"\x91\xa4"),
        (b"\xae\x05", b"\xc5"),
        (b"\xaf\x00\x05", b"\xc5"),
        (b"\xb0\x00\x00\x00\x05", b"\xc5"),
        (b"\xb0\x00\x00\x01\x00", b"\xaf\x01\x00"),
        (b"\xa7\x3f\xf8\x00\x00\x00\x00\x00\x00", b"\xa6\x3f\xc0\x00\x00"),
    ];
    for (wide, canonical) in cases {
        let from_wide = decoded(wide).unwrap();
        let from_canonical = decoded(canonical).unwrap();
        assert_eq!(from_wide, from_canonical);
        assert_eq!(encoded(&from_wide), canonical);
        assert!(canonical.len() < wide.len());
    }
}

#[test]
fn encoder_writes_the_shortest_form() {
    for i in 0..128 {
        assert_eq!(encoded(&Value::Int(i)), vec![i as u8]);
    }
    for i in 0..64 {
        assert_eq!(encoded(&Value::EntityId(EntityId::Idx(i))), vec![0xc0 + i as u8]);
    }
    assert_eq!(encoded(&Value::Int(127)), vec![0x7f]);
    assert_eq!(encoded(&Value::Int(128)), vec![0xa9, 0x00, 0x80]);
    assert_eq!(encoded(&Value::Int(200)), vec![0xa9, 0x00, 0xc8]);
    assert_eq!(encoded(&Value::Int(-1)), vec![0xa8, 0xff]);
    assert_eq!(encoded(&Value::Int(-128)), vec![0xa8, 0x80]);
    assert_eq!(encoded(&Value::Int(-129)), vec![0xa9, 0xff, 0x7f]);
    assert_eq!(encoded(&Value::Int(32767)), vec![0xa9, 0x7f, 0xff]);
    assert_eq!(encoded(&Value::Int(32768)), vec![0xaa, 0x00, 0x00, 0x80, 0x00]);
    assert_eq!(
        encoded(&Value::Int(2147483648)),
        vec![0xab, 0x00, 0x00, 0x00, 0x00, 0x80, 0x00, 0x00, 0x00]
    );
    assert_eq!(encoded(&Value::EntityId(EntityId::Idx(64))), vec![0xae, 0x40]);
    assert_eq!(encoded(&Value::EntityId(EntityId::Idx(256))), vec![0xaf, 0x01, 0x00]);
    assert_eq!(
        encoded(&Value::EntityId(EntityId::Idx(65536))),
        vec![0xb0, 0x00, 0x01, 0x00, 0x00]
    );
    assert_eq!(encoded(&Value::Bytes(vec![9; 15]))[0], 0x8f);
    assert_eq!(&encoded(&Value::Bytes(vec![9; 16]))[..2], &[0xa0, 0x10]);
    assert_eq!(&encoded(&Value::Bytes(vec![9; 256]))[..5], &[0xa1, 0x00, 0x00, 0x01, 0x00]);
    assert_eq!(encoded(&Value::Array((0..15).map(Value::Int).collect()))[0], 0x9f);
    assert_eq!(&encoded(&Value::Array((0..16).map(Value::Int).collect()))[..2], &[0xa2, 0x10]);
    assert_eq!(
        &encoded(&Value::Array((0..256).map(|_| Value::Int(0)).collect()))[..5],
        &[0xa3, 0x00, 0x00, 0x01, 0x00]
    );
}

#[test]
fn numbers_take_the_narrower_pattern_where_it_is_exact() {
    assert_eq!(encoded(&Value::Float(1.5f64.to_bits())), vec![0xa6, 0x3f, 0xc0, 0x00, 0x00]);
    assert_eq!(
        encoded(&Value::Float(0.1f64.to_bits())),
        vec![0xa7, 0x3f, 0xb9, 0x99, 0x99, 0x99, 0x99, 0x99, 0x9a]
    );
    assert_eq!(encoded(&Value::Float(0)), vec![0xa6, 0x00, 0x00, 0x00, 0x00]);
    assert_eq!(
        encoded(&Value::Float((-0.0f64).to_bits())),
        vec![0xa6, 0x80, 0x00, 0x00, 0x00]
    );
    assert_eq!(
        encoded(&Value::Float(f64::INFINITY.to_bits())),
        vec![0xa6, 0x7f, 0x80, 0x00, 0x00]
    );
    assert_eq!(
        encoded(&Value::Float(0x7ff8_0000_0000_0000)),
        vec![0xa6, 0x7f, 0xc0, 0x00, 0x00]
    );
    assert_eq!(
        encoded(&Value::Float((f32::from_bits(1) as f64).to_bits())),
        vec![0xa6, 0x00, 0x00, 0x00, 0x01]
    );
    assert_eq!(encoded(&Value::Float(1))[0], 0xa7);
}

fn sample_patterns() -> Vec<u32> {
    let mut patterns = Vec::new();
    for exponent in 0..256u32 {
        for fraction in [0u32, 1, 2, 3, 0x2a, 0x40_0000, 0x55_5555, 0x7f_fffe, 0x7f_ffff] {
            for sign in [0u32, 1] {
                patterns.push((sign << 31) | (exponent << 23) | fraction);
            }
        }
    }
    for shift in 0..23u32 {
        patterns.push(1 << shift);
        patterns.push((1 << shift) | 1);
        patterns.push(0x8000_0000 | (1 << shift));
    }
    patterns
}

#[test]
fn widening_is_that_of_the_machine() {
    for pattern in sample_patterns() {
        let f = f32::from_bits(pattern);
        if f.is_nan() {
            let wide = f64::from_bits(ieee::widen(pattern));
            assert!(wide.is_nan());
            assert_eq!(wide.is_sign_negative(), f.is_sign_negative());
        } else {
            assert_eq!(ieee::widen(pattern), (f as f64).to_bits(), "{:08x}", pattern);
        }
    }
}

#[test]
fn narrowing_undoes_widening() {
    for pattern in sample_patterns() {
        assert_eq!(ieee::narrow(ieee::widen(pattern)), Some(pattern), "{:08x}", pattern);
    }
}

#[test]
fn narrowing_is_exact_or_nothing() {
    let mut doubles: Vec<u64> = vec![
        0.1f64.to_bits(),
        1.0f64.to_bits(),
        (f32::MAX as f64 * 2.0).to_bits(),
        (f32::from_bits(1) as f64 / 2.0).to_bits(),
        (f32::from_bits(1) as f64 * 1.5).to_bits(),
        (f32::from_bits(3) as f64).to_bits(),
        f64::MAX.to_bits(),
        f64::MIN_POSITIVE.to_bits(),
        1,
        0x8000_0000_0000_0001,
        1.0000000001f64.to_bits(),
        (1.0f64 + f32::EPSILON as f64).to_bits(),
        (1.0f64 + f32::EPSILON as f64 / 2.0).to_bits(),
    ];
    for pattern in sample_patterns() {
        if !f32::from_bits(pattern).is_nan() {
            doubles.push((f32::from_bits(pattern) as f64).to_bits());
            doubles.push((f32::from_bits(pattern) as f64).to_bits() ^ 1);
        }
    }
    for bits in doubles {
        let d = f64::from_bits(bits);
        if d.is_nan() {
            continue;
        }
        let exact = ((d as f32) as f64).to_bits() == bits;
        match ieee::narrow(bits) {
            Some(pattern) => {
                assert!(exact, "{:016x}", bits);
                assert_eq!(pattern, (d as f32).to_bits(), "{:016x}", bits);
            }
            None => assert!(!exact, "{:016x}", bits),
        }
    }
}

#[test]
fn value_errors_say_where_and_what() {
    assert_eq!(decoded(b""), Err(unexpected(0, Expected::Value, Found::Eof)));
    assert_eq!(decoded(b"\xb2"), Err(unexpected(1, Expected::Value, Found::InvalidByte(0xb2))));
    assert_eq!(decoded(b"\xbf"), Err(unexpected(1, Expected::Value, Found::InvalidByte(0xbf))));
    assert_eq!(decoded(b"\x85test"), Err(unexpected(5, Expected::ByteString, Found::Eof)));
    assert_eq!(decoded(b"\xa0"), Err(unexpected(1, Expected::Uint8, Found::Eof)));
    assert_eq!(decoded(b"\xa1\x00"), Err(unexpected(2, Expected::Uint32, Found::Eof)));
    assert_eq!(decoded(b"\xa6\x00\x00\x00"), Err(unexpected(4, Expected::Single, Found::Eof)));
    assert_eq!(decoded(b"\xa7\x00"), Err(unexpected(2, Expected::Double, Found::Eof)));
    assert_eq!(decoded(b"\xa8"), Err(unexpected(1, Expected::Int8, Found::Eof)));
    assert_eq!(decoded(b"\xa9\x00"), Err(unexpected(2, Expected::Int16, Found::Eof)));
    assert_eq!(decoded(b"\xaa\x00"), Err(unexpected(2, Expected::Int32, Found::Eof)));
    assert_eq!(decoded(b"\xab\x00"), Err(unexpected(2, Expected::Int64, Found::Eof)));
    assert_eq!(decoded(b"\xaf\x00"), Err(unexpected(2, Expected::Uint16, Found::Eof)));
    assert_eq!(decoded(b"\xad"), Err(unexpected(1, Expected::Value, Found::Eof)));
    assert_eq!(
        decoded(b"\x92\x01\xb5"),
        Err(unexpected(3, Expected::Value, Found::InvalidByte(0xb5)))
    );
}

#[test]
fn cursor_reads_and_peeks() {
    let bytes = [0x12u8, 0x34, 0x56, 0x80, 0x00, 0xff, 0xff, 0xff, 0xfe, 0x0a, 0x41];
    let mut state = decode::State::new(&bytes);
    assert_eq!(state.position(), 0);
    assert_eq!(state.try_peek(), Some(0x12));
    assert_eq!(state.peek(Expected::Value), Ok(0x12));
    assert_eq!(state.position(), 0);
    assert_eq!(state.decode_u24(), Ok(0x123456));
    assert_eq!(state.decode_i16(), Ok(-0x8000));
    assert_eq!(state.decode_i32(), Ok(-2));
    assert_eq!(state.position(), 9);
    assert_eq!(state.expect_newline(), Ok(()));
    assert_eq!(
        state.expect_newline(),
        Err(unexpected(11, Expected::Newline, Found::NonNewline(0x41)))
    );
    assert_eq!(state.try_next(), None);
    assert_eq!(state.try_peek(), None);
    assert_eq!(state.peek(Expected::Newline), Err(unexpected(11, Expected::Newline, Found::Eof)));
    assert_eq!(state.next(Expected::Uint8), Err(unexpected(11, Expected::Uint8, Found::Eof)));
    assert_eq!(state.expect_newline(), Err(unexpected(11, Expected::Newline, Found::Eof)));
    assert_eq!(
        state.err_unexpected(Expected::Value, Found::Eof),
        unexpected(11, Expected::Value, Found::Eof)
    );

    let mut state = decode::State::new(
        b"\xff\x80\xff\xff\xff\xff\xff\xff\xff\xff\x01\x02\x03\x04\x80\x00\x00\x00\x00\x00\x00\x00",
    );
    assert_eq!(state.decode_u8(), Ok(0xff));
    assert_eq!(state.decode_i8(), Ok(-128));
    assert_eq!(state.decode_i64(), Ok(-1));
    assert_eq!(state.decode_u32(), Ok(0x01020304));
    assert_eq!(state.decode_f64(), Ok(0x8000_0000_0000_0000));
    let mut state = decode::State::new(b"\x01\x02\x3f\x80\x00\x00");
    assert_eq!(state.decode_u16(), Ok(0x0102));
    assert_eq!(state.decode_f32(), Ok(1.0f32.to_bits()));
}

#[test]
fn sink_writes_numbers() {
    let mut state = encode::State::new(vec![0x2a]);
    state.write(b"ab");
    state.write_fmt(0);
    state.write_u8(0x20);
    state.write_fmt(65535);
    state.write_u8(0x20);
    state.write_fmt(u64::MAX);
    assert_eq!(state.into_inner(), b"*ab0 65535 18446744073709551615".to_vec());

    let mut state = encode::State::new(Vec::new());
    state.write_u16(0x1234);
    state.write_u24(0x56789a);
    state.write_u32(0xbcdef012);
    state.write_u64(0x0102030405060708);
    state.write_i8(-2);
    state.write_i16(-2);
    state.write_i32(-2);
    state.write_i64(-2);
    assert_eq!(
        state.into_inner(),
        vec![
            0x12, 0x34, 0x56, 0x78, 0x9a, 0xbc, 0xde, 0xf0, 0x12, 1, 2, 3, 4, 5, 6, 7, 8, 0xfe,
            0xff, 0xfe, 0xff, 0xff, 0xff, 0xfe, 0xff, 0xff, 0xff, 0xff, 0xff, 0xff, 0xff, 0xfe,
        ]
    );
}

#[test]
fn header_lines_split_on_ascii_space() {
    let words = |line: &[u8]| split_words(line);
    assert_eq!(words(b""), Vec::<Vec<u8>>::new());
    assert_eq!(words(b"  \t "), Vec::<Vec<u8>>::new());
    assert_eq!(words(b"a"), vec![b"a".to_vec()]);
    assert_eq!(
        words(b" ab\t\tc \x0b d\x0ce\rf  "),
        vec![b"ab".to_vec(), b"c".to_vec(), b"d".to_vec(), b"e".to_vec(), b"f".to_vec()]
    );
    assert_eq!(words(b"a\x00b \x1fc"), vec![b"a\x00b".to_vec(), b"\x1fc".to_vec()]);

    let mut state = decode::State::new(b"WORLD \t 1  2\nrest");
    assert_eq!(
        state.decode_header_line(Expected::WorldHeader),
        Ok(vec!["WORLD".to_string(), "1".to_string(), "2".to_string()])
    );
    assert_eq!(state.position(), 13);
    let mut state = decode::State::new(b"a b\n");
    assert_eq!(
        state.decode_header_words(Expected::WorldHeader),
        Ok(vec![b"a".to_vec(), b"b".to_vec()])
    );
    let mut state = decode::State::new(b"a b\n");
    assert_eq!(state.decode_line(Expected::WorldHeader), Ok(b"a b".to_vec()));
    let mut state = decode::State::new(b"ab");
    assert_eq!(
        state.decode_header_line(Expected::WorldHeader),
        Err(unexpected(2, Expected::WorldHeader, Found::Eof))
    );
    let mut state = decode::State::new(b"a\xc3\xa9\n");
    assert_eq!(
        state.decode_header_line(Expected::WorldHeader),
        Err(unexpected(2, Expected::WorldHeader, Found::NonAscii(0xc3)))
    );
}

#[test]
fn numbers_are_decimal_digits_after_an_optional_plus() {
    assert_eq!(parse_number(b"0", 65535), Some(0));
    assert_eq!(parse_number(b"65535", 65535), Some(65535));
    assert_eq!(parse_number(b"65536", 65535), None);
    assert_eq!(parse_number(b"+17", 65535), Some(17));
    assert_eq!(parse_number(b"00017", 65535), Some(17));
    assert_eq!(parse_number(b"4294967295", u32::MAX), Some(u32::MAX));
    assert_eq!(parse_number(b"4294967296", u32::MAX), None);
    assert_eq!(parse_number(b"99999999999999999999999999", u32::MAX), None);
    assert_eq!(parse_number(b"", 65535), None);
    assert_eq!(parse_number(b"+", 65535), None);
    assert_eq!(parse_number(b"-1", 65535), None);
    assert_eq!(parse_number(b"++1", 65535), None);
    assert_eq!(parse_number(b"1a", 65535), None);
    assert_eq!(parse_number(b"0x10", 65535), None);
    assert_eq!("+17".parse::<u16>(), Ok(17));
    assert!("-0".parse::<u16>().is_err());
    assert!("".parse::<u16>().is_err());
    assert!("+".parse::<u16>().is_err());
}

fn component_array(b: &[u8]) -> Result<ComponentArray, Error> {
    decode::State::new(b).decode_component_array()
}

fn global_component(b: &[u8]) -> Result<GlobalComponent, Error> {
    decode::State::new(b).decode_global_component()
}

fn error_of<T>(r: Result<T, Error>) -> Error {
    match r {
        Ok(_) => panic!("decoded"),
        Err(e) => e,
    }
}

#[test]
fn a_field_name_that_stands_twice_fails_the_block() {
    assert_eq!(
        error_of(component_array(b"COMPONENT foo 0 0 a b a\n")),
        unexpected(24, Expected::DistinctFieldNames, Found::DuplicateName("a".to_string()))
    );
    assert_eq!(
        error_of(component_array(b"COMPONENT foo 0 0 a b b a\n")),
        unexpected(26, Expected::DistinctFieldNames, Found::DuplicateName("b".to_string()))
    );
    assert_eq!(
        error_of(global_component(b"GLOBAL x y x\n\x01\x02\x03")),
        unexpected(13, Expected::DistinctFieldNames, Found::DuplicateName("x".to_string()))
    );
    assert!(component_array(b"COMPONENT foo 0 0 a b c\n").is_ok());

    let names: Vec<String> = ["a", "b", "c", "b", "a"].iter().map(|s| s.to_string()).collect();
    assert_eq!(find_duplicate_quadratic(&names), Some(&"b".to_string()));
    assert_eq!(find_duplicate_quadratic(&names[..3]), None);
    assert_eq!(find_duplicate_quadratic(&[]), None);
}

#[test]
fn block_errors_say_where_and_what() {
    assert_eq!(
        error_of(component_array(b"COMPONENT foo 0\n")),
        unexpected(16, Expected::ComponentArrayHeader, Found::TooFewFields)
    );
    assert_eq!(
        error_of(component_array(b"TNENOPMOC foo 0 0\n")),
        unexpected(
            18,
            Expected::ComponentArraySignature,
            Found::InvalidSignature("TNENOPMOC".to_string())
        )
    );
    assert_eq!(
        error_of(component_array(b"COMPONENT foo 65536 0\n")),
        unexpected(22, Expected::ComponentId, Found::InvalidNumber)
    );
    assert_eq!(
        error_of(component_array(b"COMPONENT foo 1 4294967296\n")),
        unexpected(27, Expected::ComponentCount, Found::InvalidNumber)
    );
    assert_eq!(
        error_of(component_array(b"COMPONENT foo 1 4294967295 a b\n")),
        unexpected(31, Expected::ComponentValueCount, Found::Overflow)
    );
    assert_eq!(
        error_of(component_array(b"COMPONENT foo 1 2 a\n\x01")),
        unexpected(21, Expected::Value, Found::Eof)
    );
    assert_eq!(
        error_of(component_array(b"COMPONENT \xc1\xa1foo 0 0\n")),
        unexpected(11, Expected::ComponentArrayHeader, Found::NonAscii(0xc1))
    );
    assert_eq!(
        error_of(global_component(b"\n")),
        unexpected(1, Expected::GlobalComponentHeader, Found::TooFewFields)
    );
    assert_eq!(
        error_of(global_component(b"LABOLG\n")),
        unexpected(
            7,
            Expected::GlobalComponentSignature,
            Found::InvalidSignature("LABOLG".to_string())
        )
    );
    assert_eq!(
        error_of(global_component(b"GLOBAL")),
        unexpected(6, Expected::GlobalComponentHeader, Found::Eof)
    );
}

#[test]
fn a_marker_has_the_record_zero_only() {
    let mut marker = component_array(b"COMPONENT seen 9 5\n").unwrap();
    assert!(marker.is_marker());
    let record = marker.get(0).unwrap();
    assert!(record.scheme.is_empty());
    assert!(record.values.is_empty());
    for idx in [1, 2, 4, 5, 6, u32::MAX] {
        assert!(marker.get(idx).is_none());
        assert!(marker.get_mut(idx).is_none());
    }
    let mut state = encode::State::new(Vec::new());
    state.encode_component_array(&marker, &Identity);
    assert_eq!(state.into_inner(), b"COMPONENT seen 9 0\n".to_vec());
}

#[test]
fn records_are_found_by_index_and_fields_by_name() {
    let mut array = component_array(b"COMPONENT p 1 2 x y\n\x01\x02\x03\x04").unwrap();
    assert!(!array.is_marker());
    assert!(array.is_encodable());
    assert_eq!(array.field_idx("x"), Some(0));
    assert_eq!(array.field_idx("y"), Some(1));
    assert_eq!(array.field_idx("z"), None);
    assert_eq!(array.field_idx(""), None);
    let second = array.get(1).unwrap();
    assert_eq!(second.field_idx("y"), Some(1));
    assert_eq!(second.values, &[Value::Int(3), Value::Int(4)]);
    assert_eq!(second.field("y"), Some(&Value::Int(4)));
    assert_eq!(second.field("z"), None);
    assert!(array.get(2).is_none());
    assert!(array.get(u32::MAX).is_none());
    {
        let mut record = array.get_mut(1).unwrap();
        assert_eq!(record.field_idx("x"), Some(0));
        assert_eq!(record.field("x"), Some(&Value::Int(3)));
        assert!(record.field_mut("z").is_none());
        *record.field_mut("x").unwrap() = Value::Bool(true);
        assert_eq!(record.to_ref().field("x"), Some(&Value::Bool(true)));
    }
    assert_eq!(array.get(0).unwrap().values, &[Value::Int(1), Value::Int(2)]);
    assert_eq!(array.get(1).unwrap().values, &[Value::Bool(true), Value::Int(4)]);

    let empty = GlobalComponent::empty();
    assert!(empty.is_empty());
    assert!(empty.is_encodable());
    assert!(empty.scheme().is_empty());
    assert!(empty.get().values.is_empty());
    assert_eq!(empty.field_idx("x"), None);
}

#[test]
fn component_index_scales() {
    assert!(matches!(IdScale::from_id(0), IdScale::U6(0)));
    assert!(matches!(IdScale::from_id(0x3f), IdScale::U6(0x3f)));
    assert!(matches!(IdScale::from_id(0x40), IdScale::U8(0x40)));
    assert!(matches!(IdScale::from_id(0xff), IdScale::U8(0xff)));
    assert!(matches!(IdScale::from_id(0x100), IdScale::U16(0x100)));
    assert!(matches!(IdxScale::from_idx(0), IdxScale::Zero));
    assert!(matches!(IdxScale::from_idx(1), IdxScale::U8(1)));
    assert!(matches!(IdxScale::from_idx(0xff), IdxScale::U8(0xff)));
    assert!(matches!(IdxScale::from_idx(0x100), IdxScale::U16(0x100)));
    assert!(matches!(IdxScale::from_idx(0xffff), IdxScale::U16(0xffff)));
    assert!(matches!(IdxScale::from_idx(0x1_0000), IdxScale::U24(0x1_0000)));
    assert!(matches!(IdxScale::from_idx(0xff_ffff), IdxScale::U24(0xff_ffff)));
    assert!(matches!(IdxScale::from_idx(0x100_0000), IdxScale::U32(0x100_0000)));
}

fn component_idx_bytes(id: u16, idx: u32) -> Vec<u8> {
    let mut state = encode::State::new(Vec::new());
    state.encode_component_idx(ComponentIdx { id, idx });
    state.into_inner()
}

#[test]
fn component_indices_have_one_form_each() {
    assert_eq!(component_idx_bytes(5, 0), vec![0xc5]);
    assert_eq!(component_idx_bytes(5, 7), vec![0x05, 0x07]);
    assert_eq!(component_idx_bytes(5, 0x1234), vec![0x45, 0x12, 0x34]);
    assert_eq!(component_idx_bytes(5, 0x123456), vec![0x82, 0x05, 0x12, 0x34, 0x56]);
    assert_eq!(component_idx_bytes(5, 0x12345678), vec![0x83, 0x05, 0x12, 0x34, 0x56, 0x78]);
    assert_eq!(component_idx_bytes(0x80, 0), vec![0x88, 0x80]);
    assert_eq!(component_idx_bytes(0x80, 0x1234), vec![0x81, 0x80, 0x12, 0x34]);
    assert_eq!(component_idx_bytes(0x1234, 0), vec![0x89, 0x12, 0x34]);
    assert_eq!(component_idx_bytes(0x1234, 0x56), vec![0x84, 0x12, 0x34, 0x56]);
    for id in [0u16, 1, 0x3f, 0x40, 0xff, 0x100, 0xffff] {
        for idx in [0u32, 1, 0xff, 0x100, 0xffff, 0x1_0000, 0xff_ffff, 0x100_0000, u32::MAX] {
            let bytes = component_idx_bytes(id, idx);
            let mut state = decode::State::new(&bytes);
            assert_eq!(state.decode_component_idx(), Ok(ComponentIdx { id, idx }));
            assert_eq!(state.position(), bytes.len());
        }
    }
    for tag in 0x8au8..0xc0 {
        assert_eq!(
            decode::State::new(&[tag, 0, 0, 0, 0, 0, 0]).decode_component_idx(),
            Err(unexpected(1, Expected::ComponentIndex, Found::InvalidByte(tag)))
        );
    }
    assert_eq!(
        decode::State::new(b"").decode_component_idx(),
        Err(unexpected(0, Expected::ComponentIndex, Found::Eof))
    );
    assert_eq!(
        decode::State::new(b"\x86\x01\x02\x03").decode_component_idx(),
        Err(unexpected(4, Expected::Uint24, Found::Eof))
    );
    assert_eq!(
        decode::State::new(b"").decode_entity_data(),
        Err(unexpected(0, Expected::ComponentIndexCount, Found::Eof))
    );
}

fn entity(is_deleted: bool, components: Vec<ComponentIdx>) -> EntityData {
    EntityData { is_deleted, components }
}

#[test]
fn packed_indices_skip_the_deleted() {
    let array = EntityArray {
        entries: vec![
            entity(false, vec![]),
            entity(true, vec![]),
            entity(false, vec![]),
            entity(false, vec![]),
            entity(true, vec![]),
        ],
    };
    assert_eq!(array.packed_idxs(), vec![Some(0), None, Some(1), Some(2), None]);
    assert_eq!(EntityArray::empty().packed_idxs(), Vec::<Option<u32>>::new());
    let all_deleted = EntityArray { entries: vec![entity(true, vec![]), entity(true, vec![])] };
    assert_eq!(all_deleted.packed_idxs(), vec![None, None]);
    let none_deleted = EntityArray { entries: (0..4).map(|_| entity(false, vec![])).collect() };
    assert_eq!(none_deleted.packed_idxs(), vec![Some(0), Some(1), Some(2), Some(3)]);
}

#[test]
fn compaction_rewrites_entity_ids() {
    let rule = Compaction { packed_idxs: vec![Some(0), None, Some(1)] };
    assert_eq!(rule.rewrite(EntityId::Idx(0)), EntityId::Idx(0));
    assert_eq!(rule.rewrite(EntityId::Idx(1)), EntityId::Invalid);
    assert_eq!(rule.rewrite(EntityId::Idx(2)), EntityId::Idx(1));
    assert_eq!(rule.rewrite(EntityId::Idx(3)), EntityId::Invalid);
    assert_eq!(rule.rewrite(EntityId::Invalid), EntityId::Invalid);
    assert_eq!(Identity.rewrite(EntityId::Idx(3)), EntityId::Idx(3));
    let value = Value::Array(vec![
        Value::EntityId(EntityId::Idx(2)),
        Value::Maybe(Some(Box::new(Value::EntityId(EntityId::Idx(1))))),
        Value::Array(vec![Value::EntityId(EntityId::Idx(0)), Value::Int(2)]),
    ]);
    let mut state = encode::State::new(Vec::new());
    state.encode_value(&value, &rule);
    assert_eq!(state.into_inner(), b"\x93\xc1\xad\xb1\x92\xc0\x02".to_vec());
}

#[test]
fn entity_arrays_leave_the_deleted_out() {
    let mut array = decode::State::new(b"ENTITIES 3\n\x01\xc5\x01\x05\x01\x02\x05\x02\xc2")
        .decode_entity_array()
        .unwrap();
    assert_eq!(array.entries.len(), 3);
    assert!(array.entries.iter().all(|e| !e.is_deleted));
    assert_eq!(array.entries[2].components, vec![
        ComponentIdx { id: 5, idx: 2 },
        ComponentIdx { id: 2, idx: 0 },
    ]);
    assert!(array.is_encodable());
    array.entries[1].is_deleted = true;
    let mut state = encode::State::new(Vec::new());
    state.encode_entity_array(&array);
    assert_eq!(state.into_inner(), b"ENTITIES 2\n\x01\xc5\x02\x05\x02\xc2".to_vec());

    let entity_array = |b: &[u8]| error_of(decode::State::new(b).decode_entity_array());
    assert_eq!(
        entity_array(b"ENTITIES\n"),
        unexpected(9, Expected::EntityArrayHeaderFields, Found::FieldCount(1))
    );
    assert_eq!(
        entity_array(b"ENTITIES 1 2\n"),
        unexpected(13, Expected::EntityArrayHeaderFields, Found::FieldCount(3))
    );
    assert_eq!(
        entity_array(b"SEITITNE 1\n"),
        unexpected(
            11,
            Expected::EntityArraySignature,
            Found::InvalidSignature("SEITITNE".to_string())
        )
    );
    assert_eq!(
        entity_array(b"ENTITIES x\n"),
        unexpected(11, Expected::EntityCount, Found::InvalidNumber)
    );
    assert_eq!(
        entity_array(b"ENTITIES 2\n\x00"),
        unexpected(12, Expected::ComponentIndexCount, Found::Eof)
    );
    assert_eq!(entity_array(b""), unexpected(0, Expected::EntityArrayHeader, Found::Eof));
}

fn sample_world() -> Vec<u8> {
    let mut doc = Vec::new();
    doc.extend_from_slice(b"WORLD 2 5\n");
    doc.extend_from_slice(b"COMPONENT link 5 3 to\n\xc2\xc1\xc7\n");
    doc.extend_from_slice(b"COMPONENT tag 2 0\n\n");
    doc.extend_from_slice(b"GLOBAL tick\n\x07\n");
    doc.extend_from_slice(b"ENTITIES 3\n\x01\xc5\x01\x05\x01\x02\x05\x02\xc2");
    doc
}

#[test]
fn deleted_entities_are_compacted_out_of_a_world() {
    let mut world = World::from_reader(&sample_world()).unwrap();
    assert!(world.is_encodable());
    assert_eq!(world.entities().entries.len(), 3);
    assert_eq!(world.component(5).unwrap().name(), "link");
    assert_eq!(world.component(2).unwrap().name(), "tag");
    assert!(world.component(2).unwrap().is_marker());
    assert!(world.component(3).is_none());
    assert_eq!(world.global().get().field("tick"), Some(&Value::Int(7)));
    assert_eq!(
        world.component(5).unwrap().get(0).unwrap().field("to"),
        Some(&Value::EntityId(EntityId::Idx(2)))
    );

    world.entities_mut().entries[1].is_deleted = true;
    *world.global_mut().get_mut().field_mut("tick").unwrap() = Value::Int(8);

    let mut out = b"# ".to_vec();
    world.to_writer(&mut out);
    let mut expected = Vec::new();
    expected.extend_from_slice(b"# WORLD 2 5\n");
    expected.extend_from_slice(b"COMPONENT tag 2 0\n\n");
    expected.extend_from_slice(b"COMPONENT link 5 3 to\n\xc1\xb1\xb1\n");
    expected.extend_from_slice(b"GLOBAL tick\n\x08\n");
    expected.extend_from_slice(b"ENTITIES 2\n\x01\xc5\x02\x05\x02\xc2");
    assert_eq!(out, expected);

    let again = World::from_reader(&expected[2..]).unwrap();
    assert_eq!(again.entities().entries.len(), 2);
    assert_eq!(
        again.component(5).unwrap().get(0).unwrap().field("to"),
        Some(&Value::EntityId(EntityId::Idx(1)))
    );
    assert_eq!(
        again.component(5).unwrap().get(1).unwrap().field("to"),
        Some(&Value::EntityId(EntityId::Invalid))
    );
    let mut out = Vec::new();
    again.to_writer(&mut out);
    assert_eq!(out, &expected[2..]);
}

#[test]
fn components_of_a_world_are_open_to_change() {
    let mut world = World::from_reader(&sample_world()).unwrap();
    assert!(world.component_mut(3).is_none());
    {
        let links = world.component_mut(5).unwrap();
        assert_eq!(links.name(), "link");
        let mut record = links.get_mut(2).unwrap();
        *record.field_mut("to").unwrap() = Value::EntityId(EntityId::Idx(0));
    }
    assert_eq!(
        world.component(5).unwrap().get(2).unwrap().field("to"),
        Some(&Value::EntityId(EntityId::Idx(0)))
    );
    assert_eq!(
        world.component(5).unwrap().get(0).unwrap().field("to"),
        Some(&Value::EntityId(EntityId::Idx(2)))
    );
    let mut out = Vec::new();
    world.to_writer(&mut out);
    let mut expected = Vec::new();
    expected.extend_from_slice(b"WORLD 2 5\n");
    expected.extend_from_slice(b"COMPONENT tag 2 0\n\n");
    expected.extend_from_slice(b"COMPONENT link 5 3 to\n\xc2\xc1\xc0\n");
    expected.extend_from_slice(b"GLOBAL tick\n\x07\n");
    expected.extend_from_slice(b"ENTITIES 3\n\x01\xc5\x01\x05\x01\x02\x05\x02\xc2");
    assert_eq!(out, expected);
}

#[test]
fn an_empty_world_is_three_header_lines() {
    let world: WorldContext = World::empty();
    assert!(world.is_encodable());
    assert!(world.component(0).is_none());
    assert!(world.global().is_empty());
    assert!(world.entities().entries.is_empty());
    let mut out = Vec::new();
    world.to_writer(&mut out);
    assert_eq!(out, b"WORLD 0 0\nGLOBAL\n\nENTITIES 0\n".to_vec());
    let again = World::from_reader(&out).unwrap();
    let mut out_again = Vec::new();
    again.to_writer(&mut out_again);
    assert_eq!(out_again, out);
}

fn world_error(parts: &[&[u8]]) -> Error {
    let mut doc = Vec::new();
    for part in parts {
        doc.extend_from_slice(part);
    }
    error_of(World::from_reader(&doc))
}

#[test]
fn components_of_a_world_have_their_own_names_and_ids() {
    assert_eq!(
        world_error(&[b"WORLD 2 9\n", b"COMPONENT a 1 0\n\n", b"COMPONENT a 2 0\n\n"]),
        unexpected(
            43,
            Expected::UniqueComponentNames,
            Found::DuplicateComponentName("a".to_string())
        )
    );
    assert_eq!(
        world_error(&[b"WORLD 2 9\n", b"COMPONENT a 1 0\n\n", b"COMPONENT b 1 0\n\n"]),
        unexpected(
            43,
            Expected::UniqueComponentIds,
            Found::DuplicateId { name: "b".to_string(), id: 1 }
        )
    );
    assert_eq!(
        world_error(&[b"WORLD 2 9\n", b"COMPONENT a 1 0\n\n", b"COMPONENT b 10 0\n\n"]),
        unexpected(
            44,
            Expected::ComponentIdsWithinMaximum(9),
            Found::IdAboveMaximum { name: "b".to_string(), id: 10 }
        )
    );
    assert_eq!(
        world_error(&[b"WORLD 1 9\n", b"COMPONENT a 9 0\n", b"GLOBAL\n"]),
        unexpected(27, Expected::Newline, Found::NonNewline(b'G'))
    );
    assert_eq!(
        world_error(&[b"WORLD 1\n"]),
        unexpected(8, Expected::WorldHeaderFields, Found::FieldCount(2))
    );
    assert_eq!(
        world_error(&[b"DLROW 1 1\n"]),
        unexpected(10, Expected::WorldSignature, Found::InvalidSignature("DLROW".to_string()))
    );
    assert_eq!(
        world_error(&[b"WORLD 65536 1\n"]),
        unexpected(14, Expected::ComponentArrayCount, Found::InvalidNumber)
    );
    assert_eq!(
        world_error(&[b"WORLD 1 -1\n"]),
        unexpected(11, Expected::MaxComponentId, Found::InvalidNumber)
    );
    assert_eq!(world_error(&[b"WORLD 1 1"]), unexpected(9, Expected::WorldHeader, Found::Eof));
    assert_eq!(
        world_error(&[b"WORLD 0 0\n", b"GLOBAL\n", b"ENTITIES 0\n"]),
        unexpected(18, Expected::Newline, Found::NonNewline(b'E'))
    );
    assert!(World::from_reader(b"WORLD 0 0\nGLOBAL\n\nENTITIES 0\n").is_ok());
}

#[test]
fn components_are_written_in_the_order_of_their_ids() {
    let mut doc = Vec::new();
    doc.extend_from_slice(b"WORLD 3 300\n");
    doc.extend_from_slice(b"COMPONENT c 300 0\n\n");
    doc.extend_from_slice(b"COMPONENT a 0 1 v\n\x01\n");
    doc.extend_from_slice(b"COMPONENT b 7 0\n\n");
    doc.extend_from_slice(b"GLOBAL\n\nENTITIES 0\n");
    let world = World::from_reader(&doc).unwrap();
    let mut out = Vec::new();
    world.to_writer(&mut out);
    let mut expected = Vec::new();
    expected.extend_from_slice(b"WORLD 3 300\n");
    expected.extend_from_slice(b"COMPONENT a 0 1 v\n\x01\n");
    expected.extend_from_slice(b"COMPONENT b 7 0\n\n");
    expected.extend_from_slice(b"COMPONENT c 300 0\n\n");
    expected.extend_from_slice(b"GLOBAL\n\nENTITIES 0\n");
    assert_eq!(out, expected);
}
