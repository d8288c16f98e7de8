use swampyer::errors::WampError;
use swampyer::serialization::{WampData, WampWrite};

fn text(s: &str) -> WampData {
    WampData::Str(s.to_string())
}

fn array(items: Vec<WampData>) -> WampData {
    WampData::Array(items, 0)
}

fn hash(entries: Vec<(&str, WampData)>) -> WampData {
    WampData::Hash(entries.into_iter().map(|(k, v)| (k.to_string(), v)).collect(), 0)
}

/// Compares two values, their recorded positions aside.
fn same(a: &WampData, b: &WampData) -> bool {
    match (a, b) {
        (WampData::Float(x), WampData::Float(y)) => x == y,
        (WampData::Int(x), WampData::Int(y)) => x == y,
        (WampData::UInt(x), WampData::UInt(y)) => x == y,
        (WampData::Bool(x), WampData::Bool(y)) => x == y,
        (WampData::Str(x), WampData::Str(y)) => x == y,
        (WampData::Null, WampData::Null) => true,
        (WampData::Array(x, _), WampData::Array(y, _)) => {
            x.len() == y.len() && x.iter().zip(y.iter()).all(|(p, q)| same(p, q))
        }
        (WampData::Hash(x, _), WampData::Hash(y, _)) => {
            x.len() == y.len() && x.iter().zip(y.iter()).all(|(p, q)| p.0 == q.0 && same(&p.1, &q.1))
        }
        _ => false,
    }
}

fn round_trip(v: WampData) {
    let bytes = v.to_vec();
    let back = WampData::from_slice(&bytes).expect("decodes");
    assert!(same(&v, &back), "value changed through {:?}", bytes);
    let (_, end) = WampData::deserialize_with(&bytes, 0).expect("decodes");
    assert_eq!(end, bytes.len());
}

#[test]
fn unsigned_integers_use_the_shortest_head() {
    assert_eq!(WampData::UInt(0).to_vec(), vec![0x00]);
    assert_eq!(WampData::UInt(23).to_vec(), vec![0x17]);
    assert_eq!(WampData::UInt(24).to_vec(), vec![0x18, 24]);
    assert_eq!(WampData::UInt(500).to_vec(), vec![0x19, 0x01, 0xf4]);
    assert_eq!(WampData::UInt(70000).to_vec(), vec![0x1a, 0x00, 0x01, 0x11, 0x70]);
    assert_eq!(
        WampData::UInt(u64::MAX).to_vec(),
        vec![0x1b, 0xff, 0xff, 0xff, 0xff, 0xff, 0xff, 0xff, 0xff]
    );
}

#[test]
fn negative_integers_and_scalars_encode_exactly() {
    assert_eq!(WampData::Int(-1).to_vec(), vec![0x20]);
    assert_eq!(WampData::Int(-500).to_vec(), vec![0x39, 0x01, 0xf3]);
    assert_eq!(WampData::Int(7).to_vec(), vec![0x07]);
    assert_eq!(WampData::Bool(true).to_vec(), vec![0xf5]);
    assert_eq!(WampData::Bool(false).to_vec(), vec![0xf4]);
    assert_eq!(WampData::Null.to_vec(), vec![0xf6]);
    assert_eq!(text("ab").to_vec(), vec![0x62, b'a', b'b']);
    let bits = 1.5f64.to_bits();
    let mut expected = vec![0xfb];
    expected.extend_from_slice(&bits.to_be_bytes());
    assert_eq!(WampData::Float(bits).to_vec(), expected);
}

#[test]
fn composites_are_definite_length() {
    let v = array(vec![WampData::UInt(1), hash(vec![("k", WampData::Null)])]);
    assert_eq!(v.to_vec(), vec![0x82, 0x01, 0xa1, 0x61, b'k', 0xf6]);
    let mut w = WampWrite { buffer: vec![9] };
    v.serialize_with(&mut w);
    assert_eq!(w.buffer, vec![9, 0x82, 0x01, 0xa1, 0x61, b'k', 0xf6]);
}

#[test]
fn opaque_items_are_written_as_they_are() {
    let v = array(vec![WampData::Serializable(vec![0x83, 1, 2, 3])]);
    assert_eq!(v.to_vec(), vec![0x81, 0x83, 1, 2, 3]);
    let mut w = WampWrite { buffer: vec![] };
    w.write_all(&[1, 2, 3]);
    assert_eq!(w.buffer, vec![1, 2, 3]);
}

#[test]
fn values_survive_a_round_trip() {
    for n in [0u64, 1, 23, 24, 255, 256, 65535, 65536, 4294967295, 4294967296, u64::MAX] {
        round_trip(WampData::UInt(n));
    }
    for n in [-1i64, -24, -25, -256, -257, -65537, i64::MIN] {
        round_trip(WampData::Int(n));
    }
    round_trip(WampData::Bool(true));
    round_trip(WampData::Null);
    round_trip(WampData::Float((-0.25f64).to_bits()));
    round_trip(WampData::Float(f64::NAN.to_bits()));
    round_trip(text(""));
    round_trip(text("héllo wörld ✓"));
    round_trip(text(&"x".repeat(300)));
    round_trip(array(vec![]));
    round_trip(hash(vec![]));
    round_trip(array((0..30).map(WampData::UInt).collect()));
    round_trip(array(vec![
        WampData::UInt(48),
        hash(vec![("a", array(vec![WampData::Int(-3), text("b")])), ("c", hash(vec![]))]),
        WampData::Null,
    ]));
}

#[test]
fn an_item_in_the_middle_of_a_buffer_is_read_alone() {
    let v = array(vec![WampData::Int(-7), text("mid"), hash(vec![("k", WampData::UInt(1))])]);
    let mut bytes = vec![0x01, 0x02];
    bytes.extend(v.to_vec());
    let after = bytes.len();
    bytes.extend_from_slice(&[0xf6, 0x63]);
    let (back, end) = WampData::deserialize_with(&bytes, 2).unwrap();
    assert_eq!(end, after);
    assert!(same(&back, &v));
    assert!(matches!(back, WampData::Array(_, 2)));
}

#[test]
fn non_negative_signed_integers_come_back_unsigned() {
    let back = WampData::from_slice(&WampData::Int(5).to_vec()).unwrap();
    assert!(matches!(back, WampData::UInt(5)));
}

#[test]
fn integer_widths_widen_on_decode() {
    assert!(matches!(WampData::from_slice(&[0x18, 0x05]), Ok(WampData::UInt(5))));
    assert!(matches!(WampData::from_slice(&[0x1b, 0, 0, 0, 0, 0, 0, 0, 7]), Ok(WampData::UInt(7))));
    assert!(matches!(WampData::from_slice(&[0x38, 0xff]), Ok(WampData::Int(-256))));
    assert!(matches!(
        WampData::from_slice(&[0x3b, 0x7f, 0xff, 0xff, 0xff, 0xff, 0xff, 0xff, 0xff]),
        Ok(WampData::Int(i64::MIN))
    ));
}

#[test]
fn indefinite_composites_decode() {
    // [_ 1, [_ 2], {_ "a": 3}]
    let bytes = [0x9f, 0x01, 0x9f, 0x02, 0xff, 0xbf, 0x61, b'a', 0x03, 0xff, 0xff];
    let (v, end) = WampData::deserialize_with(&bytes, 0).unwrap();
    assert_eq!(end, bytes.len());
    let expected = array(vec![
        WampData::UInt(1),
        array(vec![WampData::UInt(2)]),
        hash(vec![("a", WampData::UInt(3))]),
    ]);
    assert!(same(&v, &expected));
    match &v {
        WampData::Array(items, 0) => {
            assert!(matches!(items[1], WampData::Array(_, 2)));
            assert!(matches!(items[2], WampData::Hash(_, 5)));
        }
        _ => panic!("not an array at 0"),
    }
}

#[test]
fn decoding_agrees_with_minicbor_encoder() {
    let mut buf: Vec<u8> = Vec::new();
    let mut e = minicbor::Encoder::new(&mut buf);
    e.array(4).unwrap().u32(70000).unwrap().i16(-300).unwrap().str("zz").unwrap().f64(2.5).unwrap();
    let v = WampData::from_slice(&buf).unwrap();
    let expected = array(vec![
        WampData::UInt(70000),
        WampData::Int(-300),
        text("zz"),
        WampData::Float(2.5f64.to_bits()),
    ]);
    assert!(same(&v, &expected));
}

#[test]
fn truncated_input_is_malformed() {
    assert_eq!(WampData::from_slice(&[]).unwrap_err(), WampError::MalformedData);
    assert_eq!(WampData::from_slice(&[0x19, 0x01]).unwrap_err(), WampError::MalformedData);
    assert_eq!(WampData::from_slice(&[0x62, b'a']).unwrap_err(), WampError::MalformedData);
    assert_eq!(WampData::from_slice(&[0x82, 0x01]).unwrap_err(), WampError::MalformedData);
    assert_eq!(WampData::from_slice(&[0x9f, 0x01]).unwrap_err(), WampError::MalformedData);
    assert_eq!(WampData::from_slice(&[0xff]).unwrap_err(), WampError::MalformedData);
    assert_eq!(WampData::from_slice(&[0x62, 0xff, 0xfe]).unwrap_err(), WampError::MalformedData);
}

#[test]
fn unsupported_items_are_typed_errors() {
    // a byte string, a tag, undefined, a negative integer beyond 64 bits
    assert_eq!(WampData::from_slice(&[0x41, 0x00]).unwrap_err(), WampError::UnsupportedType);
    assert_eq!(WampData::from_slice(&[0xc1, 0x00]).unwrap_err(), WampError::UnsupportedType);
    assert_eq!(WampData::from_slice(&[0xf7]).unwrap_err(), WampError::UnsupportedType);
    assert_eq!(WampData::from_slice(&[0xfa, 0x3f, 0x80]).unwrap_err(), WampError::MalformedData);
    assert_eq!(
        WampData::from_slice(&[0x3b, 0x80, 0, 0, 0, 0, 0, 0, 0]).unwrap_err(),
        WampError::UnsupportedType
    );
    assert_eq!(
        WampData::from_slice(&[0x82, 0x01, 0x41, 0x00]).unwrap_err(),
        WampError::UnsupportedType
    );
}

#[test]
fn map_keys_must_be_unique_text() {
    let dup = [0xa2, 0x61, b'a', 0x01, 0x61, b'a', 0x02];
    assert_eq!(WampData::from_slice(&dup).unwrap_err(), WampError::MalformedData);
    let numeric_key = [0xa1, 0x01, 0x02];
    assert_eq!(WampData::from_slice(&numeric_key).unwrap_err(), WampError::IncorrectElementType);
}

#[test]
fn navigation_reports_typed_errors() {
    let v = array(vec![WampData::UInt(7), hash(vec![("k", text("v"))])]);
    assert!(matches!(v.a(0), Ok(WampData::UInt(7))));
    assert_eq!(v.a(2).unwrap_err(), WampError::IndexOutOfRange);
    assert_eq!(v.h("k").unwrap_err(), WampError::NotHash);
    let map = v.a(1).unwrap();
    assert!(matches!(map.h("k"), Ok(WampData::Str(s)) if s == "v"));
    assert_eq!(map.h("missing").unwrap_err(), WampError::MissingKey);
    assert_eq!(map.a(0).unwrap_err(), WampError::NotArray);
    assert_eq!(v.a(0).unwrap().as_u64().unwrap(), 7);
    assert_eq!(map.as_u64().unwrap_err(), WampError::IncorrectElementType);
}

#[test]
fn subtree_decodes_from_its_recorded_offset() {
    // [1, [2, 3, [4, 5]], 6]
    let source = array(vec![
        WampData::UInt(1),
        array(vec![WampData::UInt(2), WampData::UInt(3), array(vec![WampData::UInt(4), WampData::UInt(5)])]),
        WampData::UInt(6),
    ]);
    let bytes = source.to_vec();
    assert_eq!(bytes, vec![0x83, 0x01, 0x83, 0x02, 0x03, 0x82, 0x04, 0x05, 0x06]);
    let decoded = WampData::from_slice(&bytes).unwrap();
    let inner = decoded.a(1).unwrap().a(2).unwrap();
    assert!(matches!(inner, WampData::Array(_, 5)));
    let again = inner.decode_with(&bytes).unwrap();
    assert!(same(&again, &array(vec![WampData::UInt(4), WampData::UInt(5)])));
    assert!(matches!(again, WampData::Array(_, 5)));
    assert_eq!(WampData::UInt(3).decode_with(&bytes).unwrap_err(), WampError::InvalidField);
    assert_eq!(inner.offset(), Some(5));
    assert_eq!(WampData::UInt(3).offset(), None);
}

#[test]
fn conversions_pick_the_matching_variant() {
    assert!(matches!(WampData::from(5u64), WampData::UInt(5)));
    assert!(matches!(WampData::from(7u32), WampData::UInt(7)));
    assert!(matches!(WampData::from(-5i64), WampData::Int(-5)));
    assert!(matches!(WampData::from(-7i32), WampData::Int(-7)));
    assert!(matches!(WampData::from(true), WampData::Bool(true)));
    assert!(matches!(WampData::from(300u16), WampData::UInt(300)));
    assert!(matches!(WampData::from(200u8), WampData::UInt(200)));
    assert!(matches!(WampData::from(-300i16), WampData::Int(-300)));
    assert!(matches!(WampData::from(-100i8), WampData::Int(-100)));
    assert!(matches!(WampData::text("hé"), WampData::Str(s) if s == "hé"));
    assert!(matches!(WampData::from("x".to_string()), WampData::Str(s) if s == "x"));
}

struct Point {
    x: u64,
}

impl swampyer::serialization::WampSerializable for Point {
    fn encode(&self, w: &mut WampWrite) {
        let mut e = minicbor::Encoder::new(&mut w.buffer);
        e.array(1).unwrap().u64(self.x).unwrap();
    }

    fn encoded(&self) -> Vec<u8> {
        let mut w = WampWrite { buffer: vec![] };
        self.encode(&mut w);
        w.buffer
    }

    fn debug_name(&self) -> &str {
        "Point"
    }
}

#[test]
fn application_items_encode_themselves() {
    let p = Point { x: 300 };
    assert_eq!(swampyer::serialization::WampSerializable::debug_name(&p), "Point");
    assert_eq!(swampyer::serialization::WampSerializable::encoded(&p), vec![0x81, 0x19, 0x01, 0x2c]);
    let v = array(vec![WampData::serializable(&p), WampData::Null]);
    let bytes = v.to_vec();
    assert_eq!(bytes, vec![0x82, 0x81, 0x19, 0x01, 0x2c, 0xf6]);
    let back = WampData::from_slice(&bytes).unwrap();
    assert!(same(&back, &array(vec![array(vec![WampData::UInt(300)]), WampData::Null])));
}

fn float_bits_of(bytes: &[u8]) -> u64 {
    match WampData::from_slice(bytes).unwrap() {
        WampData::Float(b) => b,
        other => panic!("not a float: {:?}", other),
    }
}

#[test]
fn single_precision_floats_widen_exactly() {
    let samples = [
        0.0f32, -0.0, 1.0, -1.5, 3.14159, 1.0e-30, 3.4e38, f32::MIN_POSITIVE, f32::MAX, f32::MIN,
        f32::INFINITY, f32::NEG_INFINITY, 1.0e-45, 1.0e-40, -2.5e-39, 1.1754942e-38,
    ];
    for x in samples {
        let mut bytes = vec![0xfa];
        bytes.extend_from_slice(&x.to_bits().to_be_bytes());
        assert_eq!(float_bits_of(&bytes), (x as f64).to_bits(), "widening {:e}", x);
    }
    for raw in (0u32..=0xffff_ffff).step_by(65521) {
        let x = f32::from_bits(raw);
        if x.is_nan() {
            continue;
        }
        let mut bytes = vec![0xfa];
        bytes.extend_from_slice(&raw.to_be_bytes());
        assert_eq!(float_bits_of(&bytes), (x as f64).to_bits(), "widening bits {:#x}", raw);
    }
    let quiet_nan = f32::NAN.to_bits();
    let mut bytes = vec![0xfa];
    bytes.extend_from_slice(&quiet_nan.to_be_bytes());
    assert!(f64::from_bits(float_bits_of(&bytes)).is_nan());
    assert_eq!(float_bits_of(&bytes), (f32::NAN as f64).to_bits());
}

#[test]
fn half_precision_floats_widen_exactly() {
    assert_eq!(float_bits_of(&[0xf9, 0x3c, 0x00]), 1.0f64.to_bits());
    assert_eq!(float_bits_of(&[0xf9, 0xc0, 0x00]), (-2.0f64).to_bits());
    assert_eq!(float_bits_of(&[0xf9, 0x7b, 0xff]), 65504.0f64.to_bits());
    assert_eq!(float_bits_of(&[0xf9, 0x00, 0x01]), 2.0f64.powi(-24).to_bits());
    assert_eq!(float_bits_of(&[0xf9, 0x03, 0xff]), (1023.0f64 * 2.0f64.powi(-24)).to_bits());
    assert_eq!(float_bits_of(&[0xf9, 0x80, 0x00]), (-0.0f64).to_bits());
    assert_eq!(float_bits_of(&[0xf9, 0x7c, 0x00]), f64::INFINITY.to_bits());
    assert_eq!(float_bits_of(&[0xf9, 0x7e, 0x00]), 0x7ff8_0000_0000_0000);
}

#[test]
fn minicbor_narrow_floats_decode_to_their_value() {
    let mut buf: Vec<u8> = Vec::new();
    minicbor::Encoder::new(&mut buf).f32(0.15625).unwrap();
    assert_eq!(float_bits_of(&buf), 0.15625f64.to_bits());
}

#[test]
fn duplicate_keys_make_a_value_invalid() {
    let good = array(vec![hash(vec![("a", WampData::UInt(1)), ("b", hash(vec![("a", WampData::Null)]))])]);
    assert!(good.has_unique_keys());
    let nested_dup = array(vec![WampData::UInt(1), hash(vec![("x", WampData::Null), ("x", WampData::Null)])]);
    assert!(!nested_dup.has_unique_keys());
    // such a value encodes, but its encoding is refused on the way back
    assert_eq!(WampData::from_slice(&nested_dup.to_vec()).unwrap_err(), WampError::MalformedData);
    assert!(WampData::UInt(3).has_unique_keys());
}
