use zvariant::alignment::padding_for;
use zvariant::context::{Context, Endian, Format};
use zvariant::decode::from_slice;
use zvariant::encode::to_bytes;
use zvariant::error::Error;
use zvariant::signature::Signature;
use zvariant::value::Value;

fn enc(format: Format, endian: Endian, position: usize, v: &Value) -> Vec<u8> {
    to_bytes(Context::new(format, endian, position), v).unwrap()
}

fn dec(format: Format, endian: Endian, position: usize, b: &[u8], s: &Signature) -> (Value, usize) {
    from_slice(Context::new(format, endian, position), b, s).unwrap()
}

fn variant(v: Value) -> Value {
    Value::Value(Box::new(v))
}

fn sig_text(s: &Signature) -> String {
    let mut out = Vec::new();
    s.write_text(&mut out);
    String::from_utf8(out).unwrap()
}

/// Encodes at offset 1 (checking the padding) and at offset 0, decodes both,
/// and returns the unpadded encoding.
fn basic_type_test(format: Format, endian: Endian, v: Value, expected_len: usize, align: usize) -> Vec<u8> {
    let s = v.value_signature();
    let encoded = enc(format, endian, 1, &v);
    assert_eq!(encoded.len(), expected_len + padding_for(1, align), "invalid encoding using `to_bytes`");
    let (decoded, parsed) = dec(format, endian, 1, &encoded, &s);
    assert_eq!(format!("{:?}", decoded), format!("{:?}", v), "invalid decoding");
    assert_eq!(parsed, encoded.len(), "invalid parsing");
    let encoded = enc(format, endian, 0, &v);
    assert_eq!(encoded.len(), expected_len, "invalid encoding using `to_bytes`");
    encoded
}

/// Encodes a value as a variant and decodes it back.
fn value_test(format: Format, endian: Endian, v: Value, expected_len: usize) -> Vec<u8> {
    let wrapped = variant(v);
    let encoded = enc(format, endian, 0, &wrapped);
    assert_eq!(encoded.len(), expected_len, "invalid encoding using `to_bytes`");
    let (decoded, parsed) = dec(format, endian, 0, &encoded, &Signature::Variant);
    assert_eq!(format!("{:?}", decoded), format!("{:?}", wrapped), "invalid decoding");
    assert_eq!(parsed, encoded.len(), "invalid parsing");
    encoded
}

#[test]
fn u8_value() {
    let encoded = basic_type_test(Format::DBus, Endian::Little, Value::U8(77), 1, 1);
    assert_eq!(encoded.len(), 1);
    assert_eq!(sig_text(&Value::U8(77).value_signature()), "y");
    value_test(Format::DBus, Endian::Little, Value::U8(77), 4);
    basic_type_test(Format::GVariant, Endian::Little, Value::U8(77), 1, 1);
    value_test(Format::GVariant, Endian::Little, Value::U8(77), 3);
}

#[test]
fn i8_value() {
    basic_type_test(Format::DBus, Endian::Little, Value::I16(77), 2, 2);
    basic_type_test(Format::GVariant, Endian::Little, Value::I16(77), 2, 2);
}

#[test]
fn u16_value() {
    let encoded = basic_type_test(Format::DBus, Endian::Big, Value::U16(0xABBA), 2, 2);
    assert_eq!(encoded.len(), 2);
    value_test(Format::DBus, Endian::Little, Value::U16(0xABBA), 6);
    basic_type_test(Format::GVariant, Endian::Big, Value::U16(0xABBA), 2, 2);
    value_test(Format::GVariant, Endian::Little, Value::U16(0xABBA), 4);
}

#[test]
fn i16_value() {
    let encoded = basic_type_test(Format::DBus, Endian::Big, Value::I16(-0xAB0), 2, 2);
    assert_eq!(i16::from_le_bytes([encoded[0], encoded[1]]), 0x50F5_i16);
    value_test(Format::DBus, Endian::Little, Value::I16(-0xAB0), 6);
    basic_type_test(Format::GVariant, Endian::Big, Value::I16(-0xAB0), 2, 2);
    value_test(Format::GVariant, Endian::Little, Value::I16(-0xAB0), 4);
}

#[test]
fn u32_value() {
    let encoded = basic_type_test(Format::DBus, Endian::Big, Value::U32(0xABBA_ABBA), 4, 4);
    assert_eq!(encoded.len(), 4);
    value_test(Format::DBus, Endian::Little, Value::U32(0xABBA_ABBA), 8);
    basic_type_test(Format::GVariant, Endian::Big, Value::U32(0xABBA_ABBA), 4, 4);
    value_test(Format::GVariant, Endian::Little, Value::U32(0xABBA_ABBA), 6);
}

#[test]
fn i32_value() {
    let encoded = basic_type_test(Format::DBus, Endian::Big, Value::I32(-0xABBA_AB0), 4, 4);
    assert_eq!(i32::from_le_bytes([encoded[0], encoded[1], encoded[2], encoded[3]]), 0x5055_44F5_i32);
    value_test(Format::DBus, Endian::Little, Value::I32(-0xABBA_AB0), 8);
    basic_type_test(Format::GVariant, Endian::Big, Value::I32(-0xABBA_AB0), 4, 4);
    value_test(Format::GVariant, Endian::Little, Value::I32(-0xABBA_AB0), 6);
}

#[test]
fn i64_value() {
    let v = Value::I64(-0xABBA_ABBA_ABBA_AB0);
    let encoded = basic_type_test(Format::DBus, Endian::Big, v, 8, 8);
    let mut b = [0u8; 8];
    b.copy_from_slice(&encoded);
    assert_eq!(i64::from_le_bytes(b), 0x5055_4455_4455_44F5_i64);
    value_test(Format::DBus, Endian::Little, Value::I64(-0xABBA_ABBA_ABBA_AB0), 16);
    basic_type_test(Format::GVariant, Endian::Big, Value::I64(-0xABBA_ABBA_ABBA_AB0), 8, 8);
    value_test(Format::GVariant, Endian::Little, Value::I64(-0xABBA_ABBA_ABBA_AB0), 10);
}

#[test]
fn f64_value() {
    let bits = 99999.99999_f64.to_bits();
    let encoded = basic_type_test(Format::DBus, Endian::Little, Value::F64(bits), 8, 8);
    let mut b = [0u8; 8];
    b.copy_from_slice(&encoded);
    assert!((f64::from_le_bytes(b) - 99999.99999_f64).abs() < f64::EPSILON);
    value_test(Format::DBus, Endian::Little, Value::F64(bits), 16);
    basic_type_test(Format::GVariant, Endian::Little, Value::F64(bits), 8, 8);
    value_test(Format::GVariant, Endian::Little, Value::F64(bits), 10);
}

#[test]
fn str_value() {
    let string = || Value::Str(String::from("hello world"));
    basic_type_test(Format::DBus, Endian::Little, string(), 16, 4);
    basic_type_test(Format::GVariant, Endian::Little, string(), 12, 1);
    assert_eq!(sig_text(&string().value_signature()), "s");
    value_test(Format::DBus, Endian::Little, string(), 20);
    value_test(Format::GVariant, Endian::Little, string(), 14);

    // Characters are carried as strings.
    basic_type_test(Format::DBus, Endian::Little, Value::Str(String::from("c")), 6, 4);
    basic_type_test(Format::GVariant, Endian::Little, Value::Str(String::from("c")), 2, 1);
    let encoded = value_test(Format::DBus, Endian::Little, Value::Str(String::from("c")), 10);
    let (v, _) = dec(Format::DBus, Endian::Little, 0, &encoded, &Signature::Variant);
    assert!(matches!(v, Value::Value(inner) if matches!(&*inner, Value::Str(s) if s == "c")));
}

#[test]
fn signature() {
    let sig = || Value::Signature(Signature::from_str("yys").unwrap());
    // A structure always carries its brackets.
    basic_type_test(Format::DBus, Endian::Little, sig(), 7, 1);
    basic_type_test(Format::GVariant, Endian::Little, sig(), 6, 1);
    assert_eq!(sig_text(&sig().value_signature()), "g");
    let encoded = value_test(Format::DBus, Endian::Little, sig(), 10);
    let (v, _) = dec(Format::DBus, Endian::Little, 0, &encoded, &Signature::Variant);
    match v {
        Value::Value(inner) => match *inner {
            Value::Signature(s) => assert_eq!(sig_text(&s), "(yys)"),
            other => panic!("unexpected value {:?}", other),
        },
        other => panic!("unexpected value {:?}", other),
    }
    value_test(Format::GVariant, Endian::Little, sig(), 8);
}

#[test]
fn object_path_value() {
    let o = || Value::ObjectPath(String::from("/hello/world"));
    basic_type_test(Format::DBus, Endian::Little, o(), 17, 4);
    basic_type_test(Format::GVariant, Endian::Little, o(), 13, 1);
    assert_eq!(sig_text(&o().value_signature()), "o");
    value_test(Format::DBus, Endian::Little, o(), 21);
    value_test(Format::GVariant, Endian::Little, o(), 15);
}

#[test]
fn value_value() {
    let encoded = enc(Format::DBus, Endian::Big, 0, &Value::U64(0xABBA_ABBA_ABBA_ABBA));
    assert_eq!(encoded.len(), 8);
    let mut b = [0u8; 8];
    b.copy_from_slice(&encoded);
    assert_eq!(u64::from_le_bytes(b), 0xBAAB_BAAB_BAAB_BAAB_u64);
    let (decoded, _) = dec(Format::DBus, Endian::Big, 0, &encoded, &Signature::U64);
    assert!(matches!(decoded, Value::U64(0xABBA_ABBA_ABBA_ABBA)));

    // Pretend there are bytes before.
    let encoded = enc(Format::DBus, Endian::Little, 2, &Value::U64(0xABBA_ABBA_ABBA_ABBA));
    assert_eq!(encoded.len(), 14);
    let (decoded, _) = dec(Format::DBus, Endian::Little, 2, &encoded, &Signature::U64);
    assert!(matches!(decoded, Value::U64(0xABBA_ABBA_ABBA_ABBA)));

    // As a variant.
    assert_eq!(sig_text(&Value::U64(0xFEFE).value_signature()), "t");
    let encoded = enc(Format::DBus, Endian::Little, 0, &variant(Value::U64(0xFEFE)));
    assert_eq!(encoded.len(), 16);
    let (v, _) = dec(Format::DBus, Endian::Little, 0, &encoded, &Signature::Variant);
    assert!(matches!(v, Value::Value(inner) if matches!(*inner, Value::U64(0xFEFE))));

    // A variant in a variant.
    let encoded = enc(Format::DBus, Endian::Little, 0, &variant(variant(Value::U64(0xFEFE))));
    assert_eq!(encoded.len(), 16);
    let (v, _) = dec(Format::DBus, Endian::Little, 0, &encoded, &Signature::Variant);
    match v {
        Value::Value(outer) => match *outer {
            Value::Value(inner) => {
                assert_eq!(sig_text(&inner.value_signature()), "t");
                assert!(matches!(*inner, Value::U64(0xFEFE)));
            },
            _ => panic!(),
        },
        _ => panic!(),
    }
}

#[test]
fn recursion_limits() {
    let ctxt = Context::new(Format::DBus, Endian::Little, 0);
    // Total container depth exceeds the limit (64).
    let mut value = Value::U8(0);
    for _ in 0..64 {
        value = variant(value);
    }
    assert!(matches!(
        to_bytes(ctxt, &variant(value)),
        Err(Error::MaxDepthExceeded(zvariant::error::MaxDepthExceeded::Container))
    ));

    // Array depth exceeds the limit (32).
    let mut value = Value::U8(0);
    for _ in 0..33 {
        let s = value.value_signature();
        value = Value::new_array(s, vec![value]).unwrap();
    }
    assert!(matches!(
        to_bytes(ctxt, &value),
        Err(Error::MaxDepthExceeded(zvariant::error::MaxDepthExceeded::Array))
    ));

    // Structure depth exceeds the limit (32).
    let mut value = Value::U8(0);
    for _ in 0..33 {
        value = Value::new_structure(vec![value]).unwrap();
    }
    assert!(matches!(
        to_bytes(ctxt, &value),
        Err(Error::MaxDepthExceeded(zvariant::error::MaxDepthExceeded::Structure))
    ));

    // Total depth exceeds the limit (64) with structures, arrays and variants.
    let mut value = Value::U8(0);
    for _ in 0..33 {
        value = variant(value);
    }
    for _ in 0..16 {
        let s = value.value_signature();
        value = Value::new_array(s, vec![value]).unwrap();
    }
    for _ in 0..16 {
        value = Value::new_structure(vec![value]).unwrap();
    }
    assert!(matches!(
        to_bytes(ctxt, &value),
        Err(Error::MaxDepthExceeded(zvariant::error::MaxDepthExceeded::Container))
    ));
}
