//! A verified codec for the D-Bus wire format and its offset-framed sibling,
//! the GVariant format: the type-signature grammar, the dynamic value model,
//! padding and alignment, the nesting-depth guard, and an encoder and decoder
//! whose results are proved equal to the byte-level definitions `encoding`
//! and `decoding`.
//!
//! - `signature`: the grammar, its parser and the text of a signature.
//! - `value`: dynamically typed values and their constructors.
//! - `equality`: value equality, where dictionaries compare by their entries
//!   whatever their order.
//! - `context`, `alignment`, `bytes`, `depth`: the shared wire rules.
//! - `encode`, `decode`: the codec, for both formats; in the GVariant format
//!   arrays of non-scalar elements and dictionaries end with a table of
//!   element ends, structures with the ends of their variable-size fields
//!   (the last apart) written back to front, and optional values follow the
//!   trailing-NUL rule.
//! - `round_trip`, `laws`: properties that relate encoding and decoding.
//! - `interface_name`: interface names on the bus and their naming rules.

pub mod alignment;
pub mod bytes;
pub mod context;
pub mod decode;
pub mod depth;
pub mod encode;
pub mod equality;
pub mod error;
pub mod interface_name;
pub mod round_trip;
pub mod laws;
pub mod signature;
pub mod value;
