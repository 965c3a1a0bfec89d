use crate::context::Format;
use crate::signature::{SigType, Signature};
use vstd::prelude::*;

verus! {

/// The number of zero bytes that bring `pos` up to a multiple of `align`.
pub open spec fn pad(pos: int, align: int) -> int
    recommends
        align > 0,
{
    (align - pos % align) % align
}

/// `n` zero bytes.
pub open spec fn zeros(n: int) -> Seq<u8> {
    Seq::new(n as nat, |i: int| 0u8)
}

/// The alignment that padding goes to (it divides 8): the natural alignment
/// of a scalar in either format, and of any type in the D-Bus format. The
/// GVariant framing adds no padding of its own around containers and
/// variants (their first part pads itself); their alignment is
/// `natural_alignment`.
pub open spec fn alignment(f: Format, t: SigType) -> int {
    match t {
        SigType::U8 => 1,
        SigType::Bool => if f == Format::DBus {
            4
        } else {
            1
        },
        SigType::I16 | SigType::U16 => 2,
        SigType::I32 | SigType::U32 | SigType::Fd => 4,
        SigType::I64 | SigType::U64 | SigType::F64 => 8,
        SigType::Str | SigType::ObjectPath => if f == Format::DBus {
            4
        } else {
            1
        },
        SigType::Signature => 1,
        SigType::Variant => if f == Format::DBus {
            1
        } else {
            8
        },
        SigType::Array(_) | SigType::Dict(_, _) | SigType::Maybe(_) => if f == Format::DBus {
            4
        } else {
            8
        },
        SigType::Structure(_) => 8,
    }
}

/// The natural alignment of a type in a format: in the D-Bus format as
/// `alignment` gives it; in the GVariant format as `gv_alignment` gives it.
pub open spec fn natural_alignment(f: Format, t: SigType) -> int {
    if f == Format::DBus {
        alignment(f, t)
    } else {
        gv_alignment(t)
    }
}

/// Alignment in the GVariant format: a variant is self-framing (1); an array
/// or optional value aligns as its element, a dictionary as its entries'
/// first field (the key), and a structure as its first field.
pub open spec fn gv_alignment(t: SigType) -> int
    decreases t,
{
    match t {
        SigType::U8 | SigType::Bool | SigType::Str | SigType::ObjectPath | SigType::Signature
        | SigType::Variant => 1,
        SigType::I16 | SigType::U16 => 2,
        SigType::I32 | SigType::U32 | SigType::Fd => 4,
        SigType::I64 | SigType::U64 | SigType::F64 => 8,
        SigType::Array(el) => gv_alignment(*el),
        SigType::Maybe(el) => gv_alignment(*el),
        SigType::Dict(k, _) => gv_alignment(*k),
        SigType::Structure(fs) => if fs.len() == 0 {
            1
        } else {
            gv_alignment(fs[0])
        },
    }
}

/// The padding needed at `offset` for the given alignment.
pub fn padding_for(offset: usize, align: usize) -> (r: usize)
    requires
        align > 0,
    ensures
        r == pad(offset as int, align as int),
        r < align,
{
    (align - offset % align) % align
}

/// The alignment that padding goes to for a signature's type (see
/// `alignment`).
pub fn padding_alignment_of(f: Format, s: &Signature) -> (r: usize)
    ensures
        r == alignment(f, s@),
        r == 1 || r == 2 || r == 4 || r == 8,
{
    let dbus = f == Format::DBus;
    match s {
        Signature::U8 => 1,
        Signature::Bool => if dbus {
            4
        } else {
            1
        },
        Signature::I16 | Signature::U16 => 2,
        Signature::I32 | Signature::U32 | Signature::Fd => 4,
        Signature::I64 | Signature::U64 | Signature::F64 => 8,
        Signature::Str | Signature::ObjectPath => if dbus {
            4
        } else {
            1
        },
        Signature::Signature => 1,
        Signature::Variant => if dbus {
            1
        } else {
            8
        },
        Signature::Array(_) | Signature::Dict(_, _) | Signature::Maybe(_) => if dbus {
            4
        } else {
            8
        },
        Signature::Structure(_) => 8,
    }
}

/// The alignment of a signature's type in the GVariant format.
pub fn gv_alignment_of(s: &Signature) -> (r: usize)
    ensures
        r == gv_alignment(s@),
        r == 1 || r == 2 || r == 4 || r == 8,
    decreases s,
{
    match s {
        Signature::U8 | Signature::Bool | Signature::Str | Signature::ObjectPath
        | Signature::Signature | Signature::Variant => 1,
        Signature::I16 | Signature::U16 => 2,
        Signature::I32 | Signature::U32 | Signature::Fd => 4,
        Signature::I64 | Signature::U64 | Signature::F64 => 8,
        Signature::Array(el) | Signature::Maybe(el) => gv_alignment_of(&**el),
        Signature::Dict(k, _) => gv_alignment_of(&**k),
        Signature::Structure(fs) => {
            if fs.len() == 0 {
                return 1;
            }
            proof {
                vstd::std_specs::vec::axiom_vec_index_decreases(*fs, 0);
            }
            assert(s@->Structure_0[0] == fs[0]@);
            gv_alignment_of(&fs[0])
        },
    }
}

/// The natural alignment of a signature's type in a format.
pub fn alignment_of(f: Format, s: &Signature) -> (r: usize)
    ensures
        r == natural_alignment(f, s@),
        r == 1 || r == 2 || r == 4 || r == 8,
{
    if f == Format::DBus {
        padding_alignment_of(f, s)
    } else {
        gv_alignment_of(s)
    }
}

/// Padding depends on the offset modulo 8 only.
pub proof fn lemma_pad_mod8(pos: int, align: int)
    requires
        pos >= 0,
        align == 1 || align == 2 || align == 4 || align == 8,
    ensures
        pad(pos, align) == pad(pos % 8, align),
        0 <= pad(pos, align) < align,
        (pos + pad(pos, align)) % align == 0,
{
    assert((pos % 8) % align == pos % align) by (nonlinear_arith)
        requires
            pos >= 0,
            align == 1 || align == 2 || align == 4 || align == 8,
    ;
    assert((pos + (align - pos % align) % align) % align == 0) by (nonlinear_arith)
        requires
            pos >= 0,
            align == 1 || align == 2 || align == 4 || align == 8,
    ;
}

} // verus!
