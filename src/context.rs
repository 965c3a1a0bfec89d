use vstd::prelude::*;

verus! {

/// The two wire conventions.
#[derive(Clone, Copy, Debug, PartialEq, Eq, Structural)]
pub enum Format {
    /// Fixed framing: explicit length prefixes and natural alignment.
    DBus,
    /// Offset framing: lengths implied by the enclosing boundary.
    GVariant,
}

/// Byte order of multi-byte scalars.
#[derive(Clone, Copy, Debug, PartialEq, Eq, Structural)]
pub enum Endian {
    Little,
    Big,
}

/// Where and how a value is encoded: the format, the byte order, and the
/// offset in the enclosing message at which the encoding starts (used only
/// for padding).
#[derive(Clone, Copy, Debug, PartialEq, Eq, Structural)]
pub struct Context {
    pub format: Format,
    pub endian: Endian,
    pub position: usize,
}

impl Context {
    /// A context for the given format, byte order and starting offset.
    pub fn new(format: Format, endian: Endian, position: usize) -> (r: Context)
        ensures
            r.format == format,
            r.endian == endian,
            r.position == position,
    {
        Context { format, endian, position }
    }
}

} // verus!
