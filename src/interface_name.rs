use crate::error::Error;
use vstd::prelude::*;
use vstd::string::StringSliceAdditionalSpecFns;

verus! {

/// A byte that may begin an element of an interface name: an ASCII letter or `_`.
pub open spec fn is_element_start(c: u8) -> bool {
    (0x41 <= c <= 0x5a) || (0x61 <= c <= 0x7a) || c == 0x5f
}

/// A byte that may follow inside an element: an ASCII letter, digit or `_`.
pub open spec fn is_element_char(c: u8) -> bool {
    is_element_start(c) || (0x30 <= c <= 0x39)
}

/// An interface name: at most 255 bytes, at least two elements separated by
/// `.`, each element non-empty, made of ASCII letters, digits and `_`, and not
/// starting with a digit.
pub open spec fn is_interface_name(b: Seq<u8>) -> bool {
    &&& 0 < b.len() <= 255
    &&& is_element_start(b[0])
    &&& forall|i: int| 0 <= i < b.len() ==> is_element_char(#[trigger] b[i]) || b[i] == 0x2e
    &&& forall|i: int|
        0 <= i < b.len() && #[trigger] b[i] == 0x2e ==> i + 1 < b.len() && is_element_start(
            b[i + 1],
        )
    &&& exists|i: int| 0 <= i < b.len() && #[trigger] b[i] == 0x2e
}

/// Checks the bytes of a name against the interface-name rules.
pub fn validate_bytes(bytes: &[u8]) -> (r: Result<(), ()>)
    ensures
        r is Ok <==> is_interface_name(bytes@),
{
    let n = bytes.len();
    if n == 0 || !is_start_byte(bytes[0]) {
        return Err(());
    }
    let mut seen_dot = false;
    let mut i: usize = 1;
    while i < n
        invariant
            1 <= i <= n,
            n == bytes@.len(),
            is_element_start(bytes@[0]),
            forall|j: int| 0 <= j < i ==> is_element_char(#[trigger] bytes@[j]) || bytes@[j] == 0x2e,
            forall|j: int|
                0 <= j < i && #[trigger] bytes@[j] == 0x2e ==> j + 1 < n && is_element_start(
                    bytes@[j + 1],
                ),
            seen_dot <==> exists|j: int| 0 <= j < i && #[trigger] bytes@[j] == 0x2e,
        decreases n - i,
    {
        let c = bytes[i];
        if c == 0x2e {
            if i + 1 >= n || !is_start_byte(bytes[i + 1]) {
                assert(!is_interface_name(bytes@)) by {
                    assert(bytes@[i as int] == 0x2e);
                }
                return Err(());
            }
            seen_dot = true;
        } else if !is_char_byte(c) {
            assert(!is_interface_name(bytes@)) by {
                assert(!(is_element_char(bytes@[i as int]) || bytes@[i as int] == 0x2e));
            }
            return Err(());
        }
        i = i + 1;
    }
    if !seen_dot || n > 255 {
        return Err(());
    }
    Ok(())
}

fn is_start_byte(c: u8) -> (r: bool)
    ensures
        r == is_element_start(c),
{
    (0x41 <= c && c <= 0x5a) || (0x61 <= c && c <= 0x7a) || c == 0x5f
}

fn is_char_byte(c: u8) -> (r: bool)
    ensures
        r == is_element_char(c),
{
    is_start_byte(c) || (0x30 <= c && c <= 0x39)
}

/// Checks a name against the interface-name rules.
pub fn validate(name: &str) -> (r: Result<(), Error>)
    ensures
        r is Ok <==> is_interface_name(name.spec_bytes()),
        r is Err ==> r == Err::<(), Error>(Error::InvalidName),
{
    match validate_bytes(name.as_bytes()) {
        Ok(()) => Ok(()),
        Err(()) => Err(Error::InvalidName),
    }
}

/// A string naming an interface on the bus.
///
/// The checked constructors only produce names that satisfy
/// `is_interface_name`; the `_unchecked` ones take the text as it is.
#[derive(Clone, Debug, Hash)]
pub struct InterfaceName {
    name: String,
}

impl View for InterfaceName {
    type V = Seq<char>;

    closed spec fn view(&self) -> Seq<char> {
        self.name@
    }
}

impl InterfaceName {
    /// Another handle on the same name.
    pub fn as_ref(&self) -> (r: InterfaceName)
        ensures
            r@ == self@,
    {
        InterfaceName { name: self.name.clone() }
    }

    /// The interface name as a string.
    pub fn as_str(&self) -> (r: &str)
        ensures
            r@ == self@,
    {
        self.name.as_str()
    }

    /// Wraps the text without checking it.
    pub fn from_str_unchecked(name: &str) -> (r: InterfaceName)
        ensures
            r@ == name@,
    {
        InterfaceName { name: name.to_owned() }
    }

    /// Checks the text and wraps it.
    pub fn try_from_str(name: &str) -> (r: Result<InterfaceName, Error>)
        ensures
            r is Ok <==> is_interface_name(name.spec_bytes()),
            r matches Ok(n) ==> n@ == name@,
            r is Err ==> r == Err::<InterfaceName, Error>(Error::InvalidName),
    {
        validate(name)?;
        Ok(InterfaceName { name: name.to_owned() })
    }

    /// Checks a static text and wraps it.
    pub fn from_static_str(name: &'static str) -> (r: Result<InterfaceName, Error>)
        ensures
            r is Ok <==> is_interface_name(name.spec_bytes()),
            r matches Ok(n) ==> n@ == name@,
            r is Err ==> r == Err::<InterfaceName, Error>(Error::InvalidName),
    {
        validate(name)?;
        Ok(InterfaceName { name: name.to_owned() })
    }

    /// Wraps a static text without checking it.
    pub fn from_static_str_unchecked(name: &'static str) -> (r: InterfaceName)
        ensures
            r@ == name@,
    {
        InterfaceName { name: name.to_owned() }
    }

    /// Wraps an owned string without checking it.
    pub fn from_string_unchecked(name: String) -> (r: InterfaceName)
        ensures
            r@ == name@,
    {
        InterfaceName { name }
    }

    /// Checks an owned string and wraps it.
    pub fn try_from_string(name: String) -> (r: Result<InterfaceName, Error>)
        ensures
            r is Ok <==> is_interface_name(vstd::utf8::encode_utf8(name@)),
            r matches Ok(n) ==> n@ == name@,
            r is Err ==> r == Err::<InterfaceName, Error>(Error::InvalidName),
    {
        validate(name.as_str())?;
        Ok(InterfaceName { name })
    }

    /// An owned copy of the name.
    pub fn to_owned(&self) -> (r: InterfaceName)
        ensures
            r@ == self@,
    {
        InterfaceName { name: self.name.clone() }
    }

    /// Turns the name into an owned one.
    pub fn into_owned(self) -> (r: InterfaceName)
        ensures
            r@ == self@,
    {
        self
    }

    /// Whether the name reads as the given text.
    pub fn eq_str(&self, other: &str) -> (r: bool)
        ensures
            r == (self@ == other@),
    {
        let o = other.to_owned();
        self.name == o
    }

    /// Whether the name equals an owned name.
    pub fn eq_owned(&self, other: &OwnedInterfaceName) -> (r: bool)
        ensures
            r == (self@ == other@),
    {
        self.name == other.0.name
    }
}

impl PartialEq for InterfaceName {
    fn eq(&self, other: &InterfaceName) -> (r: bool) {
        self.name == other.name
    }
}

impl vstd::std_specs::cmp::PartialEqSpecImpl for InterfaceName {
    open spec fn obeys_eq_spec() -> bool {
        true
    }

    open spec fn eq_spec(&self, other: &InterfaceName) -> bool {
        self@ == other@
    }
}

impl Eq for InterfaceName {

}

/// The owned sibling of `InterfaceName`.
#[derive(Clone, Debug, Hash)]
pub struct OwnedInterfaceName(pub InterfaceName);

impl View for OwnedInterfaceName {
    type V = Seq<char>;

    open spec fn view(&self) -> Seq<char> {
        self.0@
    }
}

impl OwnedInterfaceName {
    /// Wraps an interface name.
    pub fn new(name: InterfaceName) -> (r: OwnedInterfaceName)
        ensures
            r@ == name@,
    {
        OwnedInterfaceName(name.into_owned())
    }

    /// The inner `InterfaceName`, consuming `self`.
    pub fn into_inner(self) -> (r: InterfaceName)
        ensures
            r@ == self@,
    {
        self.0
    }

    /// A reference to the inner `InterfaceName`.
    pub fn inner(&self) -> (r: &InterfaceName)
        ensures
            r@ == self@,
    {
        &self.0
    }

    /// The interface name as a string.
    pub fn as_str(&self) -> (r: &str)
        ensures
            r@ == self@,
    {
        self.0.as_str()
    }

    /// Whether the name reads as the given text.
    pub fn eq_str(&self, other: &str) -> (r: bool)
        ensures
            r == (self@ == other@),
    {
        self.0.eq_str(other)
    }

    /// Whether the name equals a borrowed name.
    pub fn eq_name(&self, other: &InterfaceName) -> (r: bool)
        ensures
            r == (self@ == other@),
    {
        self.0.name == other.name
    }
}

impl PartialEq for OwnedInterfaceName {
    fn eq(&self, other: &OwnedInterfaceName) -> (r: bool) {
        self.0.name == other.0.name
    }
}

impl vstd::std_specs::cmp::PartialEqSpecImpl for OwnedInterfaceName {
    open spec fn obeys_eq_spec() -> bool {
        true
    }

    open spec fn eq_spec(&self, other: &OwnedInterfaceName) -> bool {
        self@ == other@
    }
}

impl Eq for OwnedInterfaceName {

}

} // verus!
