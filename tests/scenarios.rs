use zvariant::alignment::padding_for;
use zvariant::context::{Context, Endian, Format};
use zvariant::decode::from_slice;
use zvariant::encode::to_bytes;
use zvariant::error::Error;
use zvariant::signature::Signature;
use zvariant::value::Value;

fn text(s: &Signature) -> String {
    let mut out = Vec::new();
    s.write_text(&mut out);
    String::from_utf8(out).unwrap()
}

#[test]
fn signature_grammar_rejects_and_accepts() {
    assert!(matches!(Signature::from_str(""), Err(Error::SignatureParse(_))));
    assert!(matches!(Signature::from_str("a"), Err(Error::SignatureParse(_))));
    assert!(matches!(Signature::from_str("a{vs}"), Err(Error::SignatureParse(_))));
    assert!(matches!(Signature::from_str("(yy"), Err(Error::SignatureParse(_))));
    assert!(matches!(Signature::from_str("()"), Err(Error::SignatureParse(_))));
    assert!(matches!(Signature::from_str("a{s}"), Err(Error::SignatureParse(_))));
    let long = "y".repeat(256);
    assert!(matches!(Signature::from_str(&long), Err(Error::SignatureParse(_))));
    let longest = "y".repeat(255);
    assert!(Signature::from_str(&longest).is_ok());

    assert_eq!(text(&Signature::from_str("(yy)").unwrap()), "(yy)");
    assert_eq!(text(&Signature::from_str("a{sv}").unwrap()), "a{sv}");
    assert_eq!(text(&Signature::from_str("ay").unwrap()), "ay");
    assert_eq!(text(&Signature::from_str("a(yu(xbxas)s)").unwrap()), "a(yu(xbxas)s)");
    assert_eq!(text(&Signature::from_str("mi").unwrap()), "mi");
    // Several complete types make a structure.
    assert_eq!(text(&Signature::from_str("yys").unwrap()), "(yys)");
}

#[test]
fn u32_big_endian_read_as_little_endian() {
    let ctxt = Context::new(Format::DBus, Endian::Big, 0);
    let encoded = to_bytes(ctxt, &Value::U32(0xABBA_ABBA)).unwrap();
    assert_eq!(encoded, vec![0xAB, 0xBA, 0xAB, 0xBA]);
    let le = Context::new(Format::DBus, Endian::Little, 0);
    let (v, n) = from_slice(le, &encoded, &Signature::U32).unwrap();
    assert_eq!(n, 4);
    assert!(matches!(v, Value::U32(0xBAAB_BAAB)));
}

#[test]
fn hello_world_in_both_formats() {
    let v = Value::Str(String::from("hello world"));
    let a = to_bytes(Context::new(Format::DBus, Endian::Little, 0), &v).unwrap();
    assert_eq!(a.len(), 16);
    assert_eq!(&a[0..4], &[11, 0, 0, 0]);
    assert_eq!(&a[4..15], b"hello world");
    assert_eq!(a[15], 0);
    let b = to_bytes(Context::new(Format::GVariant, Endian::Little, 0), &v).unwrap();
    assert_eq!(b.len(), 12);
    assert_eq!(&b[0..11], b"hello world");
    assert_eq!(b[11], 0);
}

#[test]
fn padding_formula() {
    assert_eq!(padding_for(0, 8), 0);
    assert_eq!(padding_for(1, 8), 7);
    assert_eq!(padding_for(5, 4), 3);
    assert_eq!(padding_for(6, 2), 0);
    assert_eq!(padding_for(7, 1), 0);
}

#[test]
fn scalar_size_at_every_offset() {
    for k in 0..=8usize {
        let ctxt = Context::new(Format::DBus, Endian::Little, k);
        let b = to_bytes(ctxt, &Value::U64(5)).unwrap();
        assert_eq!(b.len(), padding_for(k, 8) + 8);
        let b = to_bytes(ctxt, &Value::U16(5)).unwrap();
        assert_eq!(b.len(), padding_for(k, 2) + 2);
        let b = to_bytes(ctxt, &Value::Bool(true)).unwrap();
        assert_eq!(b.len(), padding_for(k, 4) + 4);
        let g = Context::new(Format::GVariant, Endian::Little, k);
        let b = to_bytes(g, &Value::Bool(true)).unwrap();
        assert_eq!(b.len(), 1);
    }
}

#[test]
fn truncated_input_is_reported() {
    let ctxt = Context::new(Format::DBus, Endian::Little, 0);
    let inner = Value::new_structure(vec![Value::I32(1), Value::Str(String::from("abc"))]).unwrap();
    let values = vec![
        Value::U64(0x0102_0304_0506_0708),
        Value::Str(String::from("hello world")),
        Value::Value(Box::new(Value::U32(9))),
        inner,
    ];
    for v in values {
        let sig = v.value_signature();
        let b = to_bytes(ctxt, &v).unwrap();
        for k in 0..b.len() {
            assert_eq!(from_slice(ctxt, &b[..k], &sig).unwrap_err(), Error::Truncated, "cut at {}", k);
        }
        let (back, n) = from_slice(ctxt, &b, &sig).unwrap();
        assert_eq!(n, b.len());
        assert!(back == v);
    }
}

#[test]
fn truncated_gvariant_variant_is_reported() {
    let ctxt = Context::new(Format::GVariant, Endian::Little, 0);
    let v = Value::Value(Box::new(Value::Str(String::from("a.b"))));
    let b = to_bytes(ctxt, &v).unwrap();
    assert_eq!(b, vec![b'a', b'.', b'b', 0, 0, b's']);
    for k in 0..b.len() {
        assert_eq!(from_slice(ctxt, &b[..k], &Signature::Variant).unwrap_err(), Error::Truncated, "cut at {}", k);
    }
}

#[test]
fn invalid_data_is_reported() {
    let ctxt = Context::new(Format::DBus, Endian::Little, 0);
    // A boolean other than 0 or 1.
    assert_eq!(from_slice(ctxt, &[2, 0, 0, 0], &Signature::Bool).unwrap_err(), Error::InvalidData);
    // A string without its NUL.
    assert_eq!(
        from_slice(ctxt, &[1, 0, 0, 0, b'a', b'b'], &Signature::Str).unwrap_err(),
        Error::InvalidData
    );
    // A string that is not UTF-8.
    assert_eq!(
        from_slice(ctxt, &[1, 0, 0, 0, 0xff, 0], &Signature::Str).unwrap_err(),
        Error::InvalidData
    );
    // A malformed signature inside the data.
    assert_eq!(from_slice(ctxt, &[1, b'a', 0], &Signature::Signature).unwrap_err(), Error::InvalidData);
}

#[test]
fn round_trip_both_formats_and_orders() {
    for format in [Format::DBus, Format::GVariant] {
        for endian in [Endian::Little, Endian::Big] {
            for pos in 0..3usize {
                let ctxt = Context::new(format, endian, pos);
                let values = vec![
                    Value::U8(200),
                    Value::Bool(false),
                    Value::I16(-2),
                    Value::U16(0xFFFE),
                    Value::I32(-70000),
                    Value::U32(70000),
                    Value::I64(-5_000_000_000),
                    Value::U64(5_000_000_000),
                    Value::F64(1.5_f64.to_bits()),
                    Value::Fd(3),
                    Value::Str(String::from("grüße")),
                    Value::ObjectPath(String::from("/org/example")),
                    Value::Signature(Signature::from_str("a{sv}").unwrap()),
                    Value::Value(Box::new(Value::Str(String::from("x")))),
                ];
                for v in values {
                    let sig = v.value_signature();
                    let b = to_bytes(ctxt, &v).unwrap();
                    let (back, n) = from_slice(ctxt, &b, &sig).unwrap();
                    assert_eq!(n, b.len());
                    assert!(back == v, "{:?}", v);
                }
            }
        }
    }
}
