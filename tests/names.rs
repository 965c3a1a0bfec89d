use zvariant::error::Error;
use zvariant::interface_name::{validate, validate_bytes, InterfaceName, OwnedInterfaceName};

#[test]
fn valid_interface_names() {
    let name = InterfaceName::try_from_str("org.gnome.Interface_for_you").unwrap();
    assert!(name.eq_str("org.gnome.Interface_for_you"));
    let name = InterfaceName::try_from_str("a.very.loooooooooooooooooo_ooooooo_0000o0ng.Name").unwrap();
    assert_eq!(name.as_str(), "a.very.loooooooooooooooooo_ooooooo_0000o0ng.Name");
    assert!(validate("a.b").is_ok());
    assert!(validate_bytes(b"_x._y").is_ok());
}

#[test]
fn invalid_interface_names() {
    for bad in [
        "",
        ":start.with.a.colon",
        "double..dots",
        ".",
        ".start.with.dot",
        "no-dots",
        "nodots",
        "1st.element.starts.with.digit",
        "the.2nd.element.starts.with.digit",
        "contains.dashes-in.the.name",
        "trailing.dot.",
    ] {
        assert_eq!(InterfaceName::try_from_str(bad).unwrap_err(), Error::InvalidName, "{}", bad);
    }
    let long = format!("a.{}", "b".repeat(254));
    assert_eq!(validate(&long).unwrap_err(), Error::InvalidName);
    let longest = format!("a.{}", "b".repeat(253));
    assert!(validate(&longest).is_ok());
}

#[test]
fn interface_name_conversions() {
    let name = InterfaceName::from_static_str("org.example.Foo").unwrap();
    assert!(InterfaceName::from_static_str("bad").is_err());
    let unchecked = InterfaceName::from_str_unchecked("not valid");
    assert_eq!(unchecked.as_str(), "not valid");
    let s = InterfaceName::from_static_str_unchecked("x");
    assert_eq!(s.as_str(), "x");
    let o = InterfaceName::from_string_unchecked(String::from("org.example.Foo"));
    assert!(o == name);
    assert!(name.as_ref() == name);
    assert!(name.to_owned() == name);
    let owned = OwnedInterfaceName::new(name.into_owned());
    assert_eq!(owned.as_str(), "org.example.Foo");
    assert!(owned.inner().eq_str("org.example.Foo"));
    let back = owned.clone().into_inner();
    assert_eq!(back.as_str(), "org.example.Foo");
    assert!(InterfaceName::try_from_string(String::from("org.example.Bar")).is_ok());
}
