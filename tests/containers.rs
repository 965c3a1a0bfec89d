use zvariant::context::{Context, Endian, Format};
use zvariant::decode::from_slice;
use zvariant::encode::to_bytes;
use zvariant::error::{Error, MaxDepthExceeded};
use zvariant::signature::Signature;
use zvariant::value::Value;

fn dbus_le() -> Context {
    Context::new(Format::DBus, Endian::Little, 0)
}

fn variant(v: Value) -> Value {
    Value::Value(Box::new(v))
}

fn text(s: &Signature) -> String {
    let mut out = Vec::new();
    s.write_text(&mut out);
    String::from_utf8(out).unwrap()
}

fn string(s: &str) -> Value {
    Value::Str(String::from(s))
}

fn byte_array() -> Value {
    Value::new_array(Signature::U8, vec![Value::U8(77), Value::U8(88)]).unwrap()
}

fn int_str_dict(first_one: bool) -> Value {
    let entries = if first_one {
        vec![(Value::I64(1), string("123")), (Value::I64(2), string("456"))]
    } else {
        vec![(Value::I64(2), string("456")), (Value::I64(1), string("123"))]
    };
    Value::new_dict(Signature::I64, Signature::Str, entries).unwrap()
}

#[test]
fn array_value() {
    // A fixed-length run of bytes is a structure.
    let st = Value::new_structure(vec![Value::U8(77), Value::U8(88)]).unwrap();
    assert_eq!(text(&st.value_signature()), "(yy)");
    let encoded = to_bytes(dbus_le(), &st).unwrap();
    assert_eq!(encoded.len(), 2);

    let ay = byte_array();
    let encoded = to_bytes(dbus_le(), &ay).unwrap();
    assert_eq!(encoded.len(), 6);
    let (decoded, n) = from_slice(dbus_le(), &encoded, &ay.value_signature()).unwrap();
    assert_eq!(n, 6);
    assert!(decoded == ay);

    // As a variant.
    assert_eq!(text(&ay.value_signature()), "ay");
    let encoded = to_bytes(dbus_le(), &variant(byte_array())).unwrap();
    assert_eq!(encoded.len(), 10);
    let (decoded, _) = from_slice(dbus_le(), &encoded, &Signature::Variant).unwrap();
    assert!(decoded == variant(byte_array()));

    // Empty array of 64-bit numbers: the length, then padding to 8.
    let at = Value::new_array(Signature::U64, vec![]).unwrap();
    let encoded = to_bytes(dbus_le(), &at).unwrap();
    assert_eq!(encoded.len(), 8);
    let (decoded, n) = from_slice(dbus_le(), &encoded, &at.value_signature()).unwrap();
    assert_eq!(n, 8);
    assert!(decoded == at);

    // An array of strings.
    let as_ = strings(&["Hello", "World", "Now", "Bye!"]);
    assert_eq!(round_trips(dbus_le(), &as_), 45);
    assert_eq!(to_bytes(dbus_le(), &variant(strings(&["Hello", "World", "Now", "Bye!"]))).unwrap().len(), 49);

    // An array of nested structures.
    assert_eq!(text(&nested_record().value_signature()), "a(yu(xbxas)s)");
    assert_eq!(round_trips(dbus_le(), &nested_record()), 78);
    assert_eq!(round_trips(dbus_le(), &variant(nested_record())), 94);

    // Elements must share the element type.
    assert_eq!(
        Value::new_array(Signature::U8, vec![Value::U8(1), Value::U16(2)]).unwrap_err(),
        Error::SignatureMismatch
    );
}

#[test]
fn struct_value() {
    let inner = Value::new_structure(vec![Value::I32(1), Value::I32(2)]).unwrap();
    let s = Value::new_structure(vec![string("a"), string("b"), inner]).unwrap();
    assert_eq!(text(&s.value_signature()), "(ss(ii))");
    let wrapped = variant(s);
    let encoded = to_bytes(dbus_le(), &wrapped).unwrap();
    assert_eq!(encoded.len(), 40);
    let (decoded, n) = from_slice(dbus_le(), &encoded, &Signature::Variant).unwrap();
    assert_eq!(n, 40);
    assert!(decoded == wrapped);
    let inner = Value::new_structure(vec![Value::I32(1), Value::I32(2)]).unwrap();
    let s = Value::new_structure(vec![string("a"), string("b"), inner]).unwrap();
    // "a\0" "b\0", two aligned 32-bit numbers, then the ends of the first two fields.
    assert_eq!(round_trips(gv_le(), &s), 14);
    assert_eq!(Value::new_structure(vec![]).unwrap_err(), Error::SignatureMismatch);
}

#[test]
fn dict_value() {
    let map = int_str_dict(true);
    let encoded = to_bytes(dbus_le(), &map).unwrap();
    assert_eq!(encoded.len(), 40);
    let (decoded, n) = from_slice(dbus_le(), &encoded, &map.value_signature()).unwrap();
    assert_eq!(n, 40);
    assert!(decoded == map);

    assert_eq!(text(&map.value_signature()), "a{xs}");
    let encoded = to_bytes(dbus_le(), &variant(int_str_dict(true))).unwrap();
    assert_eq!(encoded.len(), 48);

    round_trips(gv_le(), &int_str_dict(true));
    round_trips(gv_le(), &variant(int_str_dict(true)));

    // A key must be a basic type.
    assert_eq!(
        Value::new_dict(Signature::Variant, Signature::Str, vec![]).unwrap_err(),
        Error::SignatureMismatch
    );
}

#[test]
fn dict_compare() {
    // The order in which a dictionary was built plays no role.
    let v = || variant(string("value"));
    let dict1 = Value::new_dict(
        Signature::Str,
        Signature::Variant,
        vec![(string("first"), v()), (string("second"), v())],
    )
    .unwrap();
    let dict2 = Value::new_dict(
        Signature::Str,
        Signature::Variant,
        vec![(string("second"), v()), (string("first"), v())],
    )
    .unwrap();
    assert!(dict1 == dict2);
    assert!(!dict1.same(&dict2));
    assert!(int_str_dict(true) == int_str_dict(false));
}

#[test]
fn dict_with_different_entries_differs() {
    let a = Value::new_dict(Signature::U8, Signature::U8, vec![(Value::U8(1), Value::U8(1))]).unwrap();
    let b = Value::new_dict(Signature::U8, Signature::U8, vec![(Value::U8(1), Value::U8(2))]).unwrap();
    let c = Value::new_dict(
        Signature::U8,
        Signature::U8,
        vec![(Value::U8(1), Value::U8(1)), (Value::U8(1), Value::U8(1))],
    )
    .unwrap();
    assert!(a != b);
    assert!(a != c);
}

#[test]
fn option_value() {
    let some = Value::new_maybe(Signature::Str, Some(string("hello world"))).unwrap();
    let none = Value::new_maybe(Signature::Str, None).unwrap();
    // The D-Bus format carries an optional value as an array of at most one element.
    let encoded = to_bytes(dbus_le(), &some).unwrap();
    assert_eq!(encoded.len(), 20);
    let (decoded, _) = from_slice(dbus_le(), &encoded, &some.value_signature()).unwrap();
    assert!(decoded == some);
    let encoded = to_bytes(dbus_le(), &none).unwrap();
    assert_eq!(encoded.len(), 4);
    let (decoded, _) = from_slice(dbus_le(), &encoded, &none.value_signature()).unwrap();
    assert!(decoded == none);
    // The GVariant format carries optional values natively.
    let mn = Value::new_maybe(Signature::I16, Some(Value::I16(16))).unwrap();
    assert_eq!(round_trips(gv_le(), &mn), 2);
    assert_eq!(round_trips(gv_le(), &variant(Value::new_maybe(Signature::I16, Some(Value::I16(16))).unwrap())), 5);
    assert_eq!(round_trips(dbus_le(), &mn), 6);
    assert_eq!(round_trips(dbus_le(), &variant(Value::new_maybe(Signature::I16, Some(Value::I16(16))).unwrap())), 10);
    assert_eq!(round_trips(gv_le(), &Value::new_maybe(Signature::Str, Some(string("hello world"))).unwrap()), 13);
    assert_eq!(round_trips(gv_le(), &Value::new_maybe(Signature::Str, None).unwrap()), 0);
    assert_eq!(
        Value::new_maybe(Signature::U8, Some(string("x"))).unwrap_err(),
        Error::SignatureMismatch
    );
}

fn gv_le() -> Context {
    Context::new(Format::GVariant, Endian::Little, 0)
}

fn round_trips(ctxt: Context, v: &Value) -> usize {
    let encoded = to_bytes(ctxt, v).unwrap();
    let (decoded, n) = from_slice(ctxt, &encoded, &v.value_signature()).unwrap();
    assert_eq!(n, encoded.len());
    assert!(decoded == *v, "{:?}", v);
    encoded.len()
}

fn strings(items: &[&str]) -> Value {
    Value::new_array(Signature::Str, items.iter().map(|s| string(s)).collect()).unwrap()
}

fn nested_record() -> Value {
    let inner = Value::new_structure(vec![
        Value::I64(i64::MAX),
        Value::Bool(true),
        Value::I64(i64::MAX),
        strings(&["Hello", "World"]),
    ])
    .unwrap();
    let rec = Value::new_structure(vec![Value::U8(u8::MAX), Value::U32(u32::MAX), inner, string("hello")]).unwrap();
    let s = rec.value_signature();
    Value::new_array(s, vec![rec]).unwrap()
}

#[test]
fn gvariant_arrays() {
    // Scalars are written one after another, with no offsets.
    assert_eq!(round_trips(gv_le(), &byte_array()), 2);
    let at = Value::new_array(Signature::U64, vec![]).unwrap();
    assert_eq!(round_trips(gv_le(), &at), 0);
    assert_eq!(round_trips(gv_le(), &variant(Value::new_array(Signature::U64, vec![]).unwrap())), 3);
    // Strings: each with its NUL, then one offset per element.
    let as_ = strings(&["Hello", "World", "Now", "Bye!"]);
    assert_eq!(round_trips(gv_le(), &as_), 25);
    assert_eq!(round_trips(gv_le(), &variant(strings(&["Hello", "World", "Now", "Bye!"]))), 28);
    let encoded = to_bytes(gv_le(), &as_).unwrap();
    assert_eq!(&encoded[21..], &[6, 12, 16, 21]);
    assert_eq!(round_trips(gv_le(), &strings(&[])), 0);
}

#[test]
fn gvariant_containers_round_trip() {
    for endian in [Endian::Little, Endian::Big] {
        for pos in 0..3usize {
            let ctxt = Context::new(Format::GVariant, endian, pos);
            round_trips(ctxt, &nested_record());
            round_trips(ctxt, &variant(nested_record()));
            round_trips(ctxt, &int_str_dict(true));
            round_trips(ctxt, &Value::new_dict(Signature::Str, Signature::U32, vec![(string("a.b"), Value::U32(7))]).unwrap());
            round_trips(ctxt, &Value::new_maybe(Signature::I16, Some(Value::I16(16))).unwrap());
            round_trips(ctxt, &Value::new_maybe(Signature::Str, Some(string("hello world"))).unwrap());
            round_trips(ctxt, &Value::new_maybe(Signature::Str, None).unwrap());
            round_trips(ctxt, &Value::new_structure(vec![string("a.b"), Value::U32(3), string("c")]).unwrap());
        }
    }
}

#[test]
fn depth_limits_are_inclusive() {
    let ctxt = dbus_le();
    let mut value = Value::U8(0);
    for _ in 0..63 {
        value = variant(value);
    }
    assert!(to_bytes(ctxt, &variant(value)).is_ok());

    let mut value = Value::U8(0);
    for _ in 0..65 {
        value = variant(value);
    }
    assert_eq!(
        to_bytes(ctxt, &value).unwrap_err(),
        Error::MaxDepthExceeded(MaxDepthExceeded::Container)
    );

    let mut arrays = Value::U8(0);
    let mut structs = Value::U8(0);
    for _ in 0..31 {
        let s = arrays.value_signature();
        arrays = Value::new_array(s, vec![arrays]).unwrap();
        structs = Value::new_structure(vec![structs]).unwrap();
    }
    assert!(to_bytes(ctxt, &arrays).is_ok());
    assert!(to_bytes(ctxt, &structs).is_ok());
}

#[test]
fn decoding_checks_array_and_structure_depth() {
    // 33 arrays around one byte, written by hand: each length, then its body.
    let mut bytes = Vec::new();
    for k in (2..=33u32).rev() {
        bytes.extend_from_slice(&(4 * (k - 1) + 1).to_le_bytes());
    }
    bytes.extend_from_slice(&1u32.to_le_bytes());
    bytes.push(7);
    let sig = Signature::from_str(&format!("{}y", "a".repeat(33))).unwrap();
    assert_eq!(
        from_slice(dbus_le(), &bytes, &sig).unwrap_err(),
        Error::MaxDepthExceeded(MaxDepthExceeded::Array)
    );
    let sig = Signature::from_str(&format!("{}y", "a".repeat(32))).unwrap();
    assert!(from_slice(dbus_le(), &bytes[4..], &sig).is_ok());

    // 33 structures around one byte: the byte alone.
    let sig = Signature::from_str(&format!("{}y{}", "(".repeat(33), ")".repeat(33))).unwrap();
    assert_eq!(
        from_slice(dbus_le(), &[7], &sig).unwrap_err(),
        Error::MaxDepthExceeded(MaxDepthExceeded::Structure)
    );
    let sig = Signature::from_str(&format!("{}y{}", "(".repeat(32), ")".repeat(32))).unwrap();
    assert!(from_slice(dbus_le(), &[7], &sig).is_ok());
}

#[test]
fn gvariant_depth_limits() {
    let mut arrays = string("org.gnome.X");
    for _ in 0..31 {
        let s = arrays.value_signature();
        arrays = Value::new_array(s, vec![arrays]).unwrap();
    }
    round_trips(gv_le(), &arrays);
    let mut structs = string("org.gnome.X");
    for _ in 0..31 {
        structs = Value::new_structure(vec![structs]).unwrap();
    }
    round_trips(gv_le(), &structs);
    let mut vars = string("org.gnome.X");
    for _ in 0..63 {
        vars = variant(vars);
    }
    round_trips(gv_le(), &vars);
    let s = arrays.value_signature();
    let deeper = Value::new_array(s, vec![arrays]).unwrap();
    let s = deeper.value_signature();
    let deeper = Value::new_array(s, vec![deeper]).unwrap();
    assert_eq!(to_bytes(gv_le(), &deeper).unwrap_err(), Error::MaxDepthExceeded(MaxDepthExceeded::Array));
}

#[test]
fn decoding_checks_depth() {
    // 65 nested variants written by hand: signature "v" each time, then a byte.
    let mut bytes = Vec::new();
    for _ in 0..65 {
        bytes.extend_from_slice(&[1, b'v', 0]);
    }
    bytes.extend_from_slice(&[1, b'y', 0, 7]);
    assert_eq!(
        from_slice(dbus_le(), &bytes, &Signature::Variant).unwrap_err(),
        Error::MaxDepthExceeded(MaxDepthExceeded::Container)
    );
}
