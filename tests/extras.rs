use zvariant::alignment::alignment_of;
use zvariant::context::{Context, Endian, Format};
use zvariant::encode::{to_bytes, to_bytes_with_fds};
use zvariant::error::Error;
use zvariant::interface_name::{validate, InterfaceName, OwnedInterfaceName};
use zvariant::signature::Signature;
use zvariant::value::Value;

fn string(s: &str) -> Value {
    Value::Str(String::from(s))
}

fn dict(first_a: bool) -> Value {
    let entries = if first_a {
        vec![(string("a"), Value::U32(1)), (string("b"), Value::U32(2))]
    } else {
        vec![(string("b"), Value::U32(2)), (string("a"), Value::U32(1))]
    };
    Value::new_dict(Signature::Str, Signature::U32, entries).unwrap()
}

#[test]
fn nested_dicts_compare_by_entries() {
    let wrap = |d: Value| Value::Value(Box::new(d));
    assert!(wrap(dict(true)) == wrap(dict(false)));
    let st = |d: Value| Value::new_structure(vec![Value::U8(1), d]).unwrap();
    assert!(st(dict(true)) == st(dict(false)));
    let arr = |d: Value| {
        let s = d.value_signature();
        Value::new_array(s, vec![d]).unwrap()
    };
    assert!(arr(dict(true)) == arr(dict(false)));
    let outer = |a: bool, b: bool| {
        Value::new_dict(
            Signature::Str,
            Signature::Variant,
            vec![(string("x"), wrap(dict(a))), (string("y"), wrap(dict(b)))],
        )
        .unwrap()
    };
    assert!(outer(true, false) == outer(false, true));
    let other = Value::new_dict(Signature::Str, Signature::U32, vec![(string("a"), Value::U32(9))]).unwrap();
    assert!(wrap(dict(true)) != wrap(other));
}

#[test]
fn conversions() {
    assert_eq!(Value::U8(7).to_u32(), Ok(7));
    assert_eq!(Value::I64(-1).to_u32(), Err(Error::OutOfRange));
    assert_eq!(Value::U64(70000).to_u16(), Err(Error::OutOfRange));
    assert_eq!(Value::I16(-5).to_i64(), Ok(-5));
    assert_eq!(Value::U32(u32::MAX).to_i32(), Err(Error::OutOfRange));
    assert_eq!(Value::Str(String::from("x")).to_u8(), Err(Error::IncorrectType));
    assert_eq!(Value::Bool(true).to_bool(), Ok(true));
    assert_eq!(Value::U8(1).to_bool(), Err(Error::IncorrectType));
    assert_eq!(Value::Str(String::from("hi")).to_str(), Ok("hi"));
    assert_eq!(Value::U8(1).to_str(), Err(Error::IncorrectType));
}

#[test]
fn messages() {
    let e = validate("no-dots").unwrap_err();
    assert!(e.message().starts_with("Invalid interface name."));
    assert_eq!(Error::Truncated.message(), "Truncated data");
}

#[test]
fn fd_side_list() {
    let v = Value::new_structure(vec![
        Value::Fd(2),
        Value::Value(Box::new(Value::Fd(0))),
        Value::new_array(Signature::Fd, vec![Value::Fd(1), Value::Fd(3)]).unwrap(),
    ])
    .unwrap();
    assert_eq!(v.fd_indices(), vec![2, 0, 1, 3]);
    let (bytes, fds) = to_bytes_with_fds(Context::new(Format::DBus, Endian::Little, 0), &v).unwrap();
    assert_eq!(fds, vec![2, 0, 1, 3]);
    assert_eq!(bytes, to_bytes(Context::new(Format::DBus, Endian::Little, 0), &v).unwrap());
}

#[test]
fn natural_alignments() {
    let g = Format::GVariant;
    let d = Format::DBus;
    assert_eq!(alignment_of(g, &Signature::Variant), 1);
    assert_eq!(alignment_of(d, &Signature::Variant), 1);
    assert_eq!(alignment_of(g, &Signature::from_str("ay").unwrap()), 1);
    assert_eq!(alignment_of(g, &Signature::from_str("at").unwrap()), 8);
    assert_eq!(alignment_of(g, &Signature::from_str("(yt)").unwrap()), 1);
    assert_eq!(alignment_of(g, &Signature::from_str("(ty)").unwrap()), 8);
    assert_eq!(alignment_of(g, &Signature::from_str("a{is}").unwrap()), 4);
    assert_eq!(alignment_of(d, &Signature::from_str("(yy)").unwrap()), 8);
    assert_eq!(alignment_of(d, &Signature::from_str("ay").unwrap()), 4);
}

#[test]
fn name_comparisons() {
    let n = InterfaceName::try_from_str("org.example.Foo").unwrap();
    let o = OwnedInterfaceName::new(InterfaceName::try_from_str("org.example.Foo").unwrap());
    assert!(n.eq_owned(&o));
    assert!(o.eq_name(&n));
    assert!(o.eq_str("org.example.Foo"));
    assert!(!o.eq_str("org.example.Bar"));
}
