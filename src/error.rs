use vstd::prelude::*;

verus! {

/// Which nesting ceiling an operation ran into.
#[derive(Clone, Copy, Debug, PartialEq, Eq, Structural)]
pub enum MaxDepthExceeded {
    Array,
    Structure,
    Container,
}

/// Every failure the library reports: a closed set, never a panic.
#[derive(Clone, Copy, Debug, PartialEq, Eq, Structural)]
pub enum Error {
    /// A malformed signature text; the field is the byte position of the fault.
    SignatureParse(usize),
    /// A value whose shape does not match the signature it is used with.
    SignatureMismatch,
    /// A conversion asked for a kind of value that is not there.
    IncorrectType,
    /// A number that does not fit the requested width.
    OutOfRange,
    /// A nesting ceiling was hit.
    MaxDepthExceeded(MaxDepthExceeded),
    /// The input ended before the value it announces.
    Truncated,
    /// Bytes that are not valid UTF-8, a missing NUL, or another malformed datum.
    InvalidData,
    /// A name that breaks its naming rules.
    InvalidName,
    /// A feature the chosen format does not carry.
    Unsupported,
}

impl Error {
    /// A short text describing the error.
    pub fn message(&self) -> (r: &'static str)
        ensures
            self is InvalidName ==> r@ == "Invalid interface name. See https://dbus.freedesktop.org/doc/dbus-specification.html#message-protocol-names-interface"@,
            self is SignatureParse ==> r@ == "Invalid signature"@,
            self is SignatureMismatch ==> r@ == "Signature mismatch"@,
            self is IncorrectType ==> r@ == "Incorrect type"@,
            self is OutOfRange ==> r@ == "Value out of range"@,
            self is MaxDepthExceeded ==> r@ == "Maximum nesting depth exceeded"@,
            self is Truncated ==> r@ == "Truncated data"@,
            self is InvalidData ==> r@ == "Invalid data"@,
            self is Unsupported ==> r@ == "Unsupported in this format"@,
    {
        match self {
            Error::InvalidName => "Invalid interface name. See https://dbus.freedesktop.org/doc/dbus-specification.html#message-protocol-names-interface",
            Error::SignatureParse(_) => "Invalid signature",
            Error::SignatureMismatch => "Signature mismatch",
            Error::IncorrectType => "Incorrect type",
            Error::OutOfRange => "Value out of range",
            Error::MaxDepthExceeded(_) => "Maximum nesting depth exceeded",
            Error::Truncated => "Truncated data",
            Error::InvalidData => "Invalid data",
            Error::Unsupported => "Unsupported in this format",
        }
    }
}

} // verus!
