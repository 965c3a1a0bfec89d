use crate::alignment::{alignment, padding_alignment_of, lemma_pad_mod8, pad, padding_for, zeros};
use crate::bytes::{push_u16, push_u32, push_u64, u16_bytes, u32_bytes, u64_bytes};
use crate::context::{Context, Endian, Format};
use crate::depth::{depths_ok, enter_array, enter_structure, enter_variant, ContainerDepths};
use crate::error::Error;
use crate::decode::is_fixed_type;
use crate::signature::{text, SigType};
use crate::value::{
    entry_views, sig_of, views, Array, Dict, Maybe, Structure, Value, ValueModel,
};
use vstd::prelude::*;
use vstd::string::StringSliceAdditionalSpecFns;
use vstd::utf8::encode_utf8;

verus! {

broadcast use vstd::std_specs::vec::group_vec_axioms, vstd::seq::group_seq_axioms;

/// `acc` followed by what `r` holds, or the error of `r`.
pub open spec fn prepend(acc: Seq<u8>, r: Result<Seq<u8>, Error>) -> Result<Seq<u8>, Error> {
    match r {
        Ok(b) => Ok(acc + b),
        Err(x) => Err(x),
    }
}

/// A fixed-size scalar of `n` bytes at `pos`: padding to `n`, then its bytes.
pub open spec fn aligned(pos: int, n: int, b: Seq<u8>) -> Seq<u8> {
    zeros(pad(pos, n)) + b
}

/// A string's bytes at `pos`: in the D-Bus format a 4-byte length, the bytes and a
/// NUL; in the GVariant format the bytes and a NUL.
pub open spec fn enc_str(f: Format, e: Endian, s: Seq<u8>, pos: int) -> Result<Seq<u8>, Error> {
    if f == Format::DBus {
        if s.len() > u32::MAX {
            Err(Error::OutOfRange)
        } else {
            Ok(aligned(pos, 4, u32_bytes(s.len() as u32, e)) + s + seq![0u8])
        }
    } else {
        Ok(s + seq![0u8])
    }
}

/// A signature's text: in the D-Bus format a 1-byte length, the text and a NUL; in
/// the GVariant format the text and a NUL. Texts over 255 bytes do not fit.
pub open spec fn enc_sig(f: Format, s: Seq<u8>) -> Result<Seq<u8>, Error> {
    if s.len() > 255 {
        Err(Error::OutOfRange)
    } else if f == Format::DBus {
        Ok(seq![s.len() as u8] + s + seq![0u8])
    } else {
        Ok(s + seq![0u8])
    }
}

/// The encoding of a fixed-size scalar at `pos`.
pub open spec fn enc_fixed(f: Format, e: Endian, v: ValueModel, pos: int) -> Seq<u8> {
    match v {
        ValueModel::U8(x) => seq![x],
        ValueModel::Bool(x) => if f == Format::DBus {
            aligned(
                pos,
                4,
                u32_bytes(
                    if x {
                        1
                    } else {
                        0
                    },
                    e,
                ),
            )
        } else {
            seq![
                if x {
                    1u8
                } else {
                    0u8
                },
            ]
        },
        ValueModel::I16(x) => aligned(pos, 2, u16_bytes(x as u16, e)),
        ValueModel::U16(x) => aligned(pos, 2, u16_bytes(x, e)),
        ValueModel::I32(x) => aligned(pos, 4, u32_bytes(x as u32, e)),
        ValueModel::U32(x) => aligned(pos, 4, u32_bytes(x, e)),
        ValueModel::Fd(x) => aligned(pos, 4, u32_bytes(x, e)),
        ValueModel::I64(x) => aligned(pos, 8, u64_bytes(x as u64, e)),
        ValueModel::U64(x) => aligned(pos, 8, u64_bytes(x, e)),
        ValueModel::F64(x) => aligned(pos, 8, u64_bytes(x, e)),
        _ => Seq::empty(),
    }
}

/// A fixed-size scalar.
pub open spec fn is_fixed(v: ValueModel) -> bool {
    v is U8 || v is Bool || v is I16 || v is U16 || v is I32 || v is U32 || v is Fd || v is I64
        || v is U64 || v is F64
}

/// The encoding of `v` starting at absolute offset `pos`, with the depth
/// counters `d` of the containers around it.
pub open spec fn enc(f: Format, e: Endian, v: ValueModel, pos: int, d: ContainerDepths) -> Result<
    Seq<u8>,
    Error,
>
    decreases v, 0int,
{
    match v {
        ValueModel::Str(s) => enc_str(f, e, encode_utf8(s), pos),
        ValueModel::ObjectPath(s) => enc_str(f, e, encode_utf8(s), pos),
        ValueModel::Signature(t) => enc_sig(f, text(t)),
        ValueModel::Variant(inner) => enc_variant(f, e, *inner, pos, d),
        ValueModel::Array(t, es) => match enter_array(d) {
            Err(x) => Err(x),
            Ok(d2) => if f == Format::GVariant {
                match encs(f, e, es, pos, d2) {
                    Ok(body) => Ok(gv_array_frame(t, body, list_ends(f, e, es, pos, pos, d2))),
                    Err(x) => Err(x),
                }
            } else {
                let p1 = pos + pad(pos, 4) + 4;
                let p2 = pad(p1, alignment(f, t));
                frame(e, pos, p2, encs(f, e, es, p1 + p2, d2))
            },
        },
        ValueModel::Dict(k, t, es) => match enter_array(d) {
            Err(x) => Err(x),
            Ok(d2) => if f == Format::GVariant {
                match gv_entries(e, es, pos, d2) {
                    Ok(body) => Ok(
                        if es.len() == 0 {
                            body
                        } else {
                            body + offsets_table(
                                gv_entry_ends(e, es, pos, pos, d2),
                                width_for(body.len() as int, es.len() as int),
                            )
                        },
                    ),
                    Err(x) => Err(x),
                }
            } else {
                let p1 = pos + pad(pos, 4) + 4;
                let p2 = pad(p1, 8);
                frame(e, pos, p2, enc_entries(f, e, es, p1 + p2, d2))
            },
        },
        ValueModel::Structure(fs) => match enter_structure(d) {
            Err(x) => Err(x),
            Ok(d2) => if f == Format::GVariant {
                match encs(f, e, fs, pos, d2) {
                    Ok(body) => {
                        let xs = framed_ends(fs, list_ends(f, e, fs, pos, pos, d2));
                        Ok(body + offsets_table_rev(xs, width_for(body.len() as int, xs.len() as int)))
                    },
                    Err(x) => Err(x),
                }
            } else {
                let p = pad(pos, 8);
                prepend(zeros(p), encs(f, e, fs, pos + p, d2))
            },
        },
        ValueModel::Maybe(t, o) => if f == Format::GVariant {
            match enter_array(d) {
                Err(x) => Err(x),
                Ok(d2) => match o {
                    None => Ok(Seq::empty()),
                    Some(x) => gv_maybe(f, e, *x, pos, d2),
                },
            }
        } else {
            match o {
                Some(x) => enc_maybe(f, e, t, *x, pos, d),
                None => match enter_array(d) {
                    Err(x) => Err(x),
                    Ok(_) => frame(e, pos, pad(pos + pad(pos, 4) + 4, alignment(f, t)), Ok(Seq::empty())),
                },
            }
        },
        _ => Ok(enc_fixed(f, e, v, pos)),
    }
}

/// A variant holding `inner` at `pos`: in the D-Bus format the inner signature as a
/// signature string, then the inner value; in the GVariant format the inner value, a
/// NUL, then the signature text.
pub open spec fn enc_variant(
    f: Format,
    e: Endian,
    inner: ValueModel,
    pos: int,
    d: ContainerDepths,
) -> Result<Seq<u8>, Error>
    decreases inner, 1int,
{
    match enter_variant(d) {
        Err(x) => Err(x),
        Ok(d2) => {
            let st = text(sig_of(inner));
            if st.len() > 255 {
                Err(Error::OutOfRange)
            } else if f == Format::DBus {
                let head = seq![st.len() as u8] + st + seq![0u8];
                prepend(head, enc(f, e, inner, pos + head.len(), d2))
            } else {
                match enc(f, e, inner, pos, d2) {
                    Ok(b) => Ok(b + seq![0u8] + st),
                    Err(x) => Err(x),
                }
            }
        },
    }
}

/// A present optional value in the D-Bus format: an array holding the one value.
pub open spec fn enc_maybe(
    f: Format,
    e: Endian,
    t: SigType,
    x: ValueModel,
    pos: int,
    d: ContainerDepths,
) -> Result<Seq<u8>, Error>
    decreases x, 1int,
{
    match enter_array(d) {
        Err(err) => Err(err),
        Ok(d2) => {
            let p1 = pos + pad(pos, 4) + 4;
            let p2 = pad(p1, alignment(f, t));
            frame(e, pos, p2, enc(f, e, x, p1 + p2, d2))
        },
    }
}

/// A present optional value in the GVariant format: the value, then a NUL
/// unless the value has a fixed size.
pub open spec fn gv_maybe(f: Format, e: Endian, x: ValueModel, pos: int, d: ContainerDepths) -> Result<
    Seq<u8>,
    Error,
>
    decreases x, 1int,
{
    match enc(f, e, x, pos, d) {
        Ok(b) => Ok(
            if is_fixed(x) {
                b
            } else {
                b + seq![0u8]
            },
        ),
        Err(err) => Err(err),
    }
}

/// The width of the framing offsets in a container of `size` bytes in all.
pub open spec fn offset_width(size: int) -> int {
    if size <= 0xff {
        1
    } else if size <= 0xffff {
        2
    } else if size <= 0xffff_ffff {
        4
    } else {
        8
    }
}

/// The smallest offset width for a body of `len` bytes followed by `n`
/// offsets: the width of the resulting container.
pub open spec fn width_for(len: int, n: int) -> int {
    if len + n <= 0xff {
        1
    } else if len + 2 * n <= 0xffff {
        2
    } else if len + 4 * n <= 0xffff_ffff {
        4
    } else {
        8
    }
}

/// An offset as `w` little-endian bytes.
pub open spec fn offset_bytes(x: int, w: int) -> Seq<u8> {
    if w == 1 {
        seq![x as u8]
    } else if w == 2 {
        u16_bytes(x as u16, Endian::Little)
    } else if w == 4 {
        u32_bytes(x as u32, Endian::Little)
    } else {
        u64_bytes(x as u64, Endian::Little)
    }
}

/// Offsets written in order.
pub open spec fn offsets_table(xs: Seq<int>, w: int) -> Seq<u8>
    decreases xs.len(),
{
    if xs.len() == 0 {
        Seq::empty()
    } else {
        offsets_table(xs.drop_last(), w) + offset_bytes(xs.last(), w)
    }
}

/// Offsets written back to front.
pub open spec fn offsets_table_rev(xs: Seq<int>, w: int) -> Seq<u8>
    decreases xs.len(),
{
    if xs.len() == 0 {
        Seq::empty()
    } else {
        offsets_table_rev(xs.drop_first(), w) + offset_bytes(xs[0], w)
    }
}

/// Where each value of `es`, encoded one after another from `pos`, ends,
/// counted from `start`.
pub open spec fn list_ends(
    f: Format,
    e: Endian,
    es: Seq<ValueModel>,
    pos: int,
    start: int,
    d: ContainerDepths,
) -> Seq<int>
    decreases es, 0int,
{
    if es.len() == 0 {
        Seq::empty()
    } else {
        match enc(f, e, es[0], pos, d) {
            Ok(b) => seq![pos + b.len() - start] + list_ends(f, e, es.drop_first(), pos + b.len(), start, d),
            Err(_) => Seq::empty(),
        }
    }
}

/// A GVariant array around its encoded elements: no offsets for scalar
/// elements or for no elements, else the end of each element in order.
pub open spec fn gv_array_frame(t: SigType, body: Seq<u8>, ends: Seq<int>) -> Seq<u8> {
    if is_fixed_type(t) || ends.len() == 0 {
        body
    } else {
        body + offsets_table(ends, width_for(body.len() as int, ends.len() as int))
    }
}

/// The ends of a structure's fields that need an offset: those of variable
/// size, the last field apart.
pub open spec fn framed_ends(fs: Seq<ValueModel>, ends: Seq<int>) -> Seq<int>
    decreases fs.len(),
{
    if fs.len() <= 1 || ends.len() == 0 {
        Seq::empty()
    } else {
        (if is_fixed(fs[0]) {
            Seq::empty()
        } else {
            seq![ends[0]]
        }) + framed_ends(fs.drop_first(), ends.drop_first())
    }
}

/// A dictionary entry in the GVariant format at `pos`: the key, the value,
/// and the key's end when the key has no fixed size.
pub open spec fn gv_entry(e: Endian, kv: (ValueModel, ValueModel), pos: int, d: ContainerDepths) -> Result<
    Seq<u8>,
    Error,
>
    decreases kv, 1int,
{
    let f = Format::GVariant;
    match enc(f, e, kv.0, pos, d) {
        Ok(kb) => match enc(f, e, kv.1, pos + kb.len(), d) {
            Ok(vb) => Ok(
                if is_fixed(kv.0) {
                    kb + vb
                } else {
                    kb + vb + offset_bytes(kb.len() as int, width_for(kb.len() + vb.len() as int, 1))
                },
            ),
            Err(x) => Err(x),
        },
        Err(x) => Err(x),
    }
}

/// GVariant dictionary entries one after another from `pos`.
pub open spec fn gv_entries(e: Endian, es: Seq<(ValueModel, ValueModel)>, pos: int, d: ContainerDepths) -> Result<
    Seq<u8>,
    Error,
>
    decreases es, 0int,
{
    if es.len() == 0 {
        Ok(Seq::empty())
    } else {
        match gv_entry(e, es[0], pos, d) {
            Ok(c) => prepend(c, gv_entries(e, es.drop_first(), pos + c.len(), d)),
            Err(x) => Err(x),
        }
    }
}

/// Where each GVariant dictionary entry ends, counted from `start`.
pub open spec fn gv_entry_ends(
    e: Endian,
    es: Seq<(ValueModel, ValueModel)>,
    pos: int,
    start: int,
    d: ContainerDepths,
) -> Seq<int>
    decreases es, 0int,
{
    if es.len() == 0 {
        Seq::empty()
    } else {
        match gv_entry(e, es[0], pos, d) {
            Ok(c) => seq![pos + c.len() - start] + gv_entry_ends(e, es.drop_first(), pos + c.len(), start, d),
            Err(_) => Seq::empty(),
        }
    }
}

/// An array's frame in the D-Bus format around an encoded body: padding to 4, the
/// body's length in 4 bytes, `p2` bytes of padding to the element alignment,
/// then the body.
pub open spec fn frame(e: Endian, pos: int, p2: int, body: Result<Seq<u8>, Error>) -> Result<
    Seq<u8>,
    Error,
> {
    match body {
        Ok(b) => if b.len() > u32::MAX {
            Err(Error::OutOfRange)
        } else {
            Ok(aligned(pos, 4, u32_bytes(b.len() as u32, e)) + zeros(p2) + b)
        },
        Err(x) => Err(x),
    }
}

/// The values of `es` encoded one after another from `pos`.
pub open spec fn encs(
    f: Format,
    e: Endian,
    es: Seq<ValueModel>,
    pos: int,
    d: ContainerDepths,
) -> Result<Seq<u8>, Error>
    decreases es, 0int,
{
    if es.len() == 0 {
        Ok(Seq::empty())
    } else {
        match enc(f, e, es[0], pos, d) {
            Ok(b) => prepend(b, encs(f, e, es.drop_first(), pos + b.len(), d)),
            Err(x) => Err(x),
        }
    }
}

/// One dictionary entry at `pos`: padding to 8, its key, then its value.
pub open spec fn enc_entry(
    f: Format,
    e: Endian,
    kv: (ValueModel, ValueModel),
    pos: int,
    d: ContainerDepths,
) -> Result<Seq<u8>, Error>
    decreases kv, 1int,
{
    let p = pad(pos, 8);
    match enc(f, e, kv.0, pos + p, d) {
        Ok(kb) => match enc(f, e, kv.1, pos + p + kb.len(), d) {
            Ok(vb) => Ok(zeros(p) + kb + vb),
            Err(x) => Err(x),
        },
        Err(x) => Err(x),
    }
}

/// Dictionary entries encoded one after another from `pos`.
pub open spec fn enc_entries(
    f: Format,
    e: Endian,
    es: Seq<(ValueModel, ValueModel)>,
    pos: int,
    d: ContainerDepths,
) -> Result<Seq<u8>, Error>
    decreases es, 0int,
{
    if es.len() == 0 {
        Ok(Seq::empty())
    } else {
        match enc_entry(f, e, es[0], pos, d) {
            Ok(c) => prepend(c, enc_entries(f, e, es.drop_first(), pos + c.len(), d)),
            Err(x) => Err(x),
        }
    }
}

/// The encoding of a whole value in a context.
pub open spec fn encoding(ctxt: Context, v: ValueModel) -> Result<Seq<u8>, Error> {
    enc(
        ctxt.format,
        ctxt.endian,
        v,
        ctxt.position as int,
        ContainerDepths { array: 0, structure: 0, variant: 0 },
    )
}

/// Encodes a value in a context: the bytes that `encoding` gives, or its error.
pub fn to_bytes(ctxt: Context, v: &Value) -> (r: Result<Vec<u8>, Error>)
    ensures
        match encoding(ctxt, v@) {
            Ok(b) => r matches Ok(out) && out@ == b,
            Err(x) => r == Err::<Vec<u8>, Error>(x),
        },
{
    let mut out: Vec<u8> = Vec::new();
    let d = ContainerDepths::new();
    match enc_into(ctxt.format, ctxt.endian, v, &mut out, ctxt.position % 8, Ghost(ctxt.position as int), d) {
        Ok(()) => {
            assert(out@ =~= Seq::<u8>::empty() + out@);
            Ok(out)
        },
        Err(x) => Err(x),
    }
}

/// Encodes a value in a context and returns, beside the bytes, the ordered
/// side list of the file-descriptor indices the value holds.
pub fn to_bytes_with_fds(ctxt: Context, v: &Value) -> (r: Result<(Vec<u8>, Vec<u32>), Error>)
    ensures
        match encoding(ctxt, v@) {
            Ok(b) => r matches Ok((out, fds)) && out@ == b && fds@ == crate::value::fds_of(v@),
            Err(x) => r == Err::<(Vec<u8>, Vec<u32>), Error>(x),
        },
{
    let bytes = to_bytes(ctxt, v)?;
    Ok((bytes, v.fd_indices()))
}

/// A list of indices as integers.
pub open spec fn ints(xs: Seq<usize>) -> Seq<int> {
    xs.map_values(|x: usize| x as int)
}

/// Appends an offset of width `w`.
fn push_offset(out: &mut Vec<u8>, x: usize, w: usize)
    requires
        w == 1 || w == 2 || w == 4 || w == 8,
    ensures
        final(out)@ == old(out)@ + offset_bytes(x as int, w as int),
{
    if w == 1 {
        out.push(x as u8);
        assert(final(out)@ =~= old(out)@ + seq![x as u8]);
    } else if w == 2 {
        push_u16(out, x as u16, Endian::Little);
    } else if w == 4 {
        push_u32(out, x as u32, Endian::Little);
    } else {
        push_u64(out, x as u64, Endian::Little);
    }
}

/// The offset width for a body of `len` bytes and `n` offsets.
fn width_for_exec(len: usize, n: usize) -> (r: usize)
    ensures
        r == width_for(len as int, n as int),
        r == 1 || r == 2 || r == 4 || r == 8,
{
    let l = len as u128;
    let k = n as u128;
    if l + k <= 0xff {
        1
    } else if l + 2 * k <= 0xffff {
        2
    } else if l + 4 * k <= 0xffff_ffff {
        4
    } else {
        8
    }
}

/// Appends offsets in order.
fn push_table(out: &mut Vec<u8>, xs: &Vec<usize>, w: usize)
    requires
        w == 1 || w == 2 || w == 4 || w == 8,
    ensures
        final(out)@ == old(out)@ + offsets_table(ints(xs@), w as int),
{
    let mut k: usize = 0;
    assert(ints(xs@).subrange(0, 0) =~= Seq::<int>::empty());
    assert(old(out)@ + Seq::<u8>::empty() =~= old(out)@);
    while k < xs.len()
        invariant
            k <= xs.len(),
            w == 1 || w == 2 || w == 4 || w == 8,
            out@ == old(out)@ + offsets_table(ints(xs@).subrange(0, k as int), w as int),
        decreases xs.len() - k,
    {
        let ghost before = out@;
        push_offset(out, xs[k], w);
        proof {
            let ys = ints(xs@).subrange(0, k + 1);
            assert(ys.drop_last() =~= ints(xs@).subrange(0, k as int));
            assert(ys.last() == xs[k as int] as int);
            assert(out@ =~= old(out)@ + offsets_table(ys, w as int));
        }
        k = k + 1;
    }
    assert(ints(xs@).subrange(0, xs.len() as int) =~= ints(xs@));
}

/// Appends offsets back to front.
fn push_table_rev(out: &mut Vec<u8>, xs: &Vec<usize>, w: usize)
    requires
        w == 1 || w == 2 || w == 4 || w == 8,
    ensures
        final(out)@ == old(out)@ + offsets_table_rev(ints(xs@), w as int),
{
    let n = xs.len();
    let mut k: usize = n;
    assert(ints(xs@).subrange(n as int, n as int) =~= Seq::<int>::empty());
    assert(old(out)@ + Seq::<u8>::empty() =~= old(out)@);
    while k > 0
        invariant
            k <= n == xs.len(),
            w == 1 || w == 2 || w == 4 || w == 8,
            out@ == old(out)@ + offsets_table_rev(ints(xs@).subrange(k as int, n as int), w as int),
        decreases k,
    {
        push_offset(out, xs[k - 1], w);
        proof {
            let ys = ints(xs@).subrange(k - 1, n as int);
            assert(ys.drop_first() =~= ints(xs@).subrange(k as int, n as int));
            assert(ys[0] == xs[k - 1] as int);
            assert(out@ =~= old(out)@ + offsets_table_rev(ys, w as int));
        }
        k = k - 1;
    }
    assert(ints(xs@).subrange(0, n as int) =~= ints(xs@));
}

/// Whether a value is a fixed-size scalar.
fn value_is_fixed(v: &Value) -> (r: bool)
    ensures
        r == is_fixed(v@),
{
    match v {
        Value::U8(_) | Value::Bool(_) | Value::I16(_) | Value::U16(_) | Value::I32(_) | Value::U32(
            _,
        ) | Value::Fd(_) | Value::I64(_) | Value::U64(_) | Value::F64(_) => true,
        _ => false,
    }
}

/// The ends of the fields that need an offset, as `framed_ends` gives them.
fn framed_ends_exec(fields: &Vec<Value>, ends: &Vec<usize>) -> (r: Vec<usize>)
    ensures
        ints(r@) == framed_ends(views(fields@), ints(ends@)),
{
    let ghost fs = views(fields@);
    let ghost es = ints(ends@);
    let mut out: Vec<usize> = Vec::new();
    let mut k: usize = 0;
    assert(fs.subrange(0, fs.len() as int) =~= fs);
    assert(es.subrange(0, es.len() as int) =~= es);
    assert(ints(out@) + framed_ends(fs, es) =~= framed_ends(fs, es));
    while k < ends.len() && fields.len() > 0 && k < fields.len() - 1
        invariant
            k <= fields.len(),
            k <= ends.len(),
            fs == views(fields@),
            es == ints(ends@),
            ints(out@) + framed_ends(
                fs.subrange(k as int, fs.len() as int),
                es.subrange(k as int, es.len() as int),
            ) == framed_ends(fs, es),
        decreases fields.len() - k,
    {
        let ghost f1 = fs.subrange(k as int, fs.len() as int);
        let ghost e1 = es.subrange(k as int, es.len() as int);
        assert(f1.drop_first() =~= fs.subrange(k + 1, fs.len() as int));
        assert(e1.drop_first() =~= es.subrange(k + 1, es.len() as int));
        assert(f1[0] == fields[k as int]@);
        let ghost before = ints(out@);
        if !value_is_fixed(&fields[k]) {
            out.push(ends[k]);
            assert(ints(out@) =~= before + seq![ends[k as int] as int]);
        }
        k = k + 1;
    }
    proof {
        let f1 = fs.subrange(k as int, fs.len() as int);
        let e1 = es.subrange(k as int, es.len() as int);
        assert(framed_ends(f1, e1) == Seq::<int>::empty());
        assert(ints(out@) + Seq::<int>::empty() =~= ints(out@));
    }
    out
}

fn push_zeros(out: &mut Vec<u8>, n: usize)
    ensures
        final(out)@ == old(out)@ + zeros(n as int),
{
    let mut i: usize = 0;
    while i < n
        invariant
            i <= n,
            out@ == old(out)@ + zeros(i as int),
        decreases n - i,
    {
        out.push(0);
        i = i + 1;
        assert(out@ =~= old(out)@ + zeros(i as int));
    }
}

fn push_all(out: &mut Vec<u8>, b: &[u8])
    ensures
        final(out)@ == old(out)@ + b@,
{
    let mut i: usize = 0;
    while i < b.len()
        invariant
            i <= b.len(),
            out@ == old(out)@ + b@.subrange(0, i as int),
        decreases b.len() - i,
    {
        out.push(b[i]);
        i = i + 1;
        assert(out@ =~= old(out)@ + b@.subrange(0, i as int));
    }
    assert(b@.subrange(0, b@.len() as int) =~= b@);
}

/// The offset modulo 8 of the next byte of `out`, whose first byte stands at
/// an offset `base` with `base % 8 == base8`.
fn offset8(out: &Vec<u8>, base8: usize, base: Ghost<int>) -> (r: usize)
    requires
        base8 == base@ % 8,
        base@ >= 0,
    ensures
        r == (base@ + out@.len()) % 8,
        r < 8,
{
    let r = (base8 + out.len() % 8) % 8;
    assert(r == (base@ + out@.len()) % 8) by (nonlinear_arith)
        requires
            base8 == base@ % 8,
            base@ >= 0,
            r == (base8 + out@.len() % 8) % 8,
    ;
    r
}

/// Pads `out` to `align` and appends `b`; the padding is that of `aligned`.
fn push_padding(out: &mut Vec<u8>, base8: usize, base: Ghost<int>, align: usize)
    requires
        base8 == base@ % 8,
        base@ >= 0,
        align == 1 || align == 2 || align == 4 || align == 8,
    ensures
        final(out)@ == old(out)@ + zeros(pad(base@ + old(out)@.len(), align as int)),
{
    let o = offset8(out, base8, base);
    let p = padding_for(o, align);
    proof {
        lemma_pad_mod8(base@ + out@.len(), align as int);
    }
    push_zeros(out, p);
}

/// Appends a fixed-size scalar's encoding.
#[verifier::rlimit(100)]
#[verifier::spinoff_prover]
fn push_fixed(
    f: Format,
    e: Endian,
    v: &Value,
    out: &mut Vec<u8>,
    base8: usize,
    base: Ghost<int>,
    d: ContainerDepths,
)
    requires
        base8 == base@ % 8,
        base@ >= 0,
        v is U8 || v is Bool || v is I16 || v is U16 || v is I32 || v is U32 || v is Fd || v is I64
            || v is U64 || v is F64,
    ensures
        enc(f, e, v@, base@ + old(out)@.len(), d) is Ok,
        final(out)@ == old(out)@ + enc(f, e, v@, base@ + old(out)@.len(), d)->Ok_0,
{
    let ghost pos = base@ + old(out)@.len();
    match v {
        Value::U8(x) => {
            out.push(*x);
        },
        Value::Bool(x) => {
            if f == Format::DBus {
                push_padding(out, base8, base, 4);
                push_u32(
                    out,
                    if *x {
                        1
                    } else {
                        0
                    },
                    e,
                );
            } else {
                out.push(
                    if *x {
                        1
                    } else {
                        0
                    },
                );
            }
        },
        Value::I16(x) => {
            push_padding(out, base8, base, 2);
            push_u16(out, *x as u16, e);
        },
        Value::U16(x) => {
            push_padding(out, base8, base, 2);
            push_u16(out, *x, e);
        },
        Value::I32(x) => {
            push_padding(out, base8, base, 4);
            push_u32(out, *x as u32, e);
        },
        Value::U32(x) => {
            push_padding(out, base8, base, 4);
            push_u32(out, *x, e);
        },
        Value::Fd(x) => {
            push_padding(out, base8, base, 4);
            push_u32(out, *x, e);
        },
        Value::I64(x) => {
            push_padding(out, base8, base, 8);
            push_u64(out, *x as u64, e);
        },
        Value::U64(x) => {
            push_padding(out, base8, base, 8);
            push_u64(out, *x, e);
        },
        Value::F64(x) => {
            push_padding(out, base8, base, 8);
            push_u64(out, *x, e);
        },
        _ => {},
    }
    assert(out@ =~= old(out)@ + enc(f, e, v@, pos, d)->Ok_0);
}

/// Appends the encoding of a string, object path or signature value.
#[verifier::rlimit(100)]
#[verifier::spinoff_prover]
fn push_text_like(
    f: Format,
    e: Endian,
    v: &Value,
    out: &mut Vec<u8>,
    base8: usize,
    base: Ghost<int>,
    d: ContainerDepths,
) -> (r: Result<(), Error>)
    requires
        base8 == base@ % 8,
        base@ >= 0,
        v is Str || v is ObjectPath || v is Signature,
    ensures
        match enc(f, e, v@, base@ + old(out)@.len(), d) {
            Ok(b) => r is Ok && final(out)@ == old(out)@ + b,
            Err(x) => r == Err::<(), Error>(x),
        },
{
    let ghost pos = base@ + old(out)@.len();
    match v {
        Value::Str(s) => {
            let bs = s.as_str().as_bytes();
            assert(bs@ == encode_utf8(s@));
            assert(enc(f, e, v@, pos, d) == enc_str(f, e, bs@, pos));
            push_str(f, e, bs, out, base8, base)
        },
        Value::ObjectPath(s) => {
            let bs = s.as_str().as_bytes();
            assert(bs@ == encode_utf8(s@));
            assert(enc(f, e, v@, pos, d) == enc_str(f, e, bs@, pos));
            push_str(f, e, bs, out, base8, base)
        },
        Value::Signature(s) => {
            let mut t: Vec<u8> = Vec::new();
            s.write_text(&mut t);
            assert(t@ =~= text(s@));
            assert(enc(f, e, v@, pos, d) == enc_sig(f, t@));
            push_sig(f, t.as_slice(), out)
        },
        _ => Err(Error::Unsupported),
    }
}

/// Appends the encoding of `v` to `out`, as `enc` gives it for the offset at
/// which `v` starts; on an error `out` holds unspecified bytes.
#[verifier::rlimit(100)]
#[verifier::spinoff_prover]
fn enc_into(
    f: Format,
    e: Endian,
    v: &Value,
    out: &mut Vec<u8>,
    base8: usize,
    base: Ghost<int>,
    d: ContainerDepths,
) -> (r: Result<(), Error>)
    requires
        base8 == base@ % 8,
        base@ >= 0,
        depths_ok(d),
    ensures
        match enc(f, e, v@, base@ + old(out)@.len(), d) {
            Ok(b) => r is Ok && final(out)@ == old(out)@ + b,
            Err(x) => r == Err::<(), Error>(x),
        },
    decreases v, 2int,
{
    match v {
        Value::Str(_) => push_text_like(f, e, v, out, base8, base, d),
        Value::ObjectPath(_) => push_text_like(f, e, v, out, base8, base, d),
        Value::Signature(_) => push_text_like(f, e, v, out, base8, base, d),
        Value::Value(inner) => push_variant(f, e, v, &**inner, out, base8, base, d),
        Value::Array(a) => push_array(f, e, v, a, out, base8, base, d),
        Value::Structure(st) => push_structure(f, e, v, st, out, base8, base, d),
        Value::Dict(dd) => push_dict(f, e, v, dd, out, base8, base, d),
        Value::Maybe(m) => push_maybe(f, e, v, m, out, base8, base, d),
        _ => {
            push_fixed(f, e, v, out, base8, base, d);
            Ok(())
        },
    }
}

/// Appends the encoding of an array value `v` whose content is `a`.
#[verifier::spinoff_prover]
#[verifier::rlimit(100)]
fn push_array(
    f: Format,
    e: Endian,
    v: &Value,
    a: &Array,
    out: &mut Vec<u8>,
    base8: usize,
    base: Ghost<int>,
    d: ContainerDepths,
) -> (r: Result<(), Error>)
    requires
        base8 == base@ % 8,
        base@ >= 0,
        depths_ok(d),
        *v == Value::Array(*a),
    ensures
        match enc(f, e, v@, base@ + old(out)@.len(), d) {
            Ok(b) => r is Ok && final(out)@ == old(out)@ + b,
            Err(x) => r == Err::<(), Error>(x),
        },
    decreases v, 1int,
{
    let d2 = match d.inc_array() {
        Ok(d2) => d2,
        Err(x) => {
            return Err(x);
        },
    };
    if f == Format::GVariant {
        let start_len = out.len();
        let mut ends: Vec<usize> = Vec::new();
        assert(views(a.elems@) =~= v@->Array_1);
        let r = enc_list(f, e, v, &a.elems, out, base8, base, d2, &mut ends, start_len);
        if r.is_err() {
            return r;
        }
        assert(ints(Seq::<usize>::empty()) =~= Seq::<int>::empty());
        assert(ints(ends@) =~= list_ends(f, e, v@->Array_1, base@ + start_len, base@ + start_len, d2));
        if a.elem.is_scalar() || ends.len() == 0 {
            return Ok(());
        }
        let body_len = out.len() - start_len;
        let w = width_for_exec(body_len, ends.len());
        push_table(out, &ends, w);
        return Ok(());
    }
    let align = padding_alignment_of(f, &a.elem);
    let ghost pos = base@ + old(out)@.len();
    let ghost p1 = pos + pad(pos, 4) + 4;
    let (p2, body_base8) = frame_start(out, base8, base, align);
    let mut body: Vec<u8> = Vec::new();
    assert(views(a.elems@) =~= v@->Array_1);
    let mut unused: Vec<usize> = Vec::new();
    let r = enc_list(f, e, v, &a.elems, &mut body, body_base8, Ghost(p1 + p2), d2, &mut unused, 0);
    if r.is_err() {
        return r;
    }
    frame_finish(e, out, base8, base, p2, &mut body)
}

/// Appends the encoding of a structure value `v` whose content is `st`.
#[verifier::spinoff_prover]
#[verifier::rlimit(100)]
fn push_structure(
    f: Format,
    e: Endian,
    v: &Value,
    st: &Structure,
    out: &mut Vec<u8>,
    base8: usize,
    base: Ghost<int>,
    d: ContainerDepths,
) -> (r: Result<(), Error>)
    requires
        base8 == base@ % 8,
        base@ >= 0,
        depths_ok(d),
        *v == Value::Structure(*st),
    ensures
        match enc(f, e, v@, base@ + old(out)@.len(), d) {
            Ok(b) => r is Ok && final(out)@ == old(out)@ + b,
            Err(x) => r == Err::<(), Error>(x),
        },
    decreases v, 1int,
{
    let d2 = match d.inc_structure() {
        Ok(d2) => d2,
        Err(x) => {
            return Err(x);
        },
    };
    if f == Format::GVariant {
        let start_len = out.len();
        let mut ends: Vec<usize> = Vec::new();
        assert(views(st.fields@) =~= v@->Structure_0);
        let r = enc_list(f, e, v, &st.fields, out, base8, base, d2, &mut ends, start_len);
        if r.is_err() {
            return r;
        }
        assert(ints(Seq::<usize>::empty()) =~= Seq::<int>::empty());
        assert(ints(ends@) =~= list_ends(f, e, v@->Structure_0, base@ + start_len, base@ + start_len, d2));
        let framed = framed_ends_exec(&st.fields, &ends);
        let body_len = out.len() - start_len;
        let w = width_for_exec(body_len, framed.len());
        push_table_rev(out, &framed, w);
        return Ok(());
    }
    let ghost pos = base@ + old(out)@.len();
    push_padding(out, base8, base, 8);
    assert(views(st.fields@) =~= v@->Structure_0);
    let mut unused: Vec<usize> = Vec::new();
    let r = enc_list(f, e, v, &st.fields, out, base8, base, d2, &mut unused, 0);
    proof {
        match encs(f, e, v@->Structure_0, pos + pad(pos, 8), d2) {
            Ok(b) => {
                assert(out@ =~= old(out)@ + (zeros(pad(pos, 8)) + b));
            },
            Err(_) => {},
        }
    }
    r
}

/// Appends the encoding of a dictionary value `v` whose content is `dd`.
#[verifier::spinoff_prover]
#[verifier::rlimit(100)]
fn push_dict(
    f: Format,
    e: Endian,
    v: &Value,
    dd: &Dict,
    out: &mut Vec<u8>,
    base8: usize,
    base: Ghost<int>,
    d: ContainerDepths,
) -> (r: Result<(), Error>)
    requires
        base8 == base@ % 8,
        base@ >= 0,
        depths_ok(d),
        *v == Value::Dict(*dd),
    ensures
        match enc(f, e, v@, base@ + old(out)@.len(), d) {
            Ok(b) => r is Ok && final(out)@ == old(out)@ + b,
            Err(x) => r == Err::<(), Error>(x),
        },
    decreases v, 1int,
{
    let d2 = match d.inc_array() {
        Ok(d2) => d2,
        Err(x) => {
            return Err(x);
        },
    };
    if f == Format::GVariant {
        let start_len = out.len();
        let mut ends: Vec<usize> = Vec::new();
        assert(entry_views(dd.entries@) =~= v@->Dict_2);
        let r = gv_entry_list(e, v, &dd.entries, out, base8, base, d2, &mut ends, start_len);
        if r.is_err() {
            return r;
        }
        assert(ints(Seq::<usize>::empty()) =~= Seq::<int>::empty());
        assert(ints(ends@) =~= gv_entry_ends(e, v@->Dict_2, base@ + start_len, base@ + start_len, d2));
        if dd.entries.len() == 0 {
            return Ok(());
        }
        let body_len = out.len() - start_len;
        let w = width_for_exec(body_len, dd.entries.len());
        push_table(out, &ends, w);
        return Ok(());
    }
    let ghost pos = base@ + old(out)@.len();
    let ghost p1 = pos + pad(pos, 4) + 4;
    let (p2, body_base8) = frame_start(out, base8, base, 8);
    let mut body: Vec<u8> = Vec::new();
    assert(entry_views(dd.entries@) =~= v@->Dict_2);
    let r = enc_entry_list(f, e, v, &dd.entries, &mut body, body_base8, Ghost(p1 + p2), d2);
    if r.is_err() {
        return r;
    }
    frame_finish(e, out, base8, base, p2, &mut body)
}

/// Appends the encoding of an optional value `v` whose content is `m`: in
/// the D-Bus format, an array of no or one element.
#[verifier::spinoff_prover]
#[verifier::rlimit(100)]
fn push_maybe(
    f: Format,
    e: Endian,
    v: &Value,
    m: &Maybe,
    out: &mut Vec<u8>,
    base8: usize,
    base: Ghost<int>,
    d: ContainerDepths,
) -> (r: Result<(), Error>)
    requires
        base8 == base@ % 8,
        base@ >= 0,
        depths_ok(d),
        *v == Value::Maybe(*m),
    ensures
        match enc(f, e, v@, base@ + old(out)@.len(), d) {
            Ok(b) => r is Ok && final(out)@ == old(out)@ + b,
            Err(x) => r == Err::<(), Error>(x),
        },
    decreases v, 1int,
{
    let d2 = match d.inc_array() {
        Ok(d2) => d2,
        Err(x) => {
            return Err(x);
        },
    };
    if f == Format::GVariant {
        match &m.inner {
            Some(x) => {
                let r = enc_into(f, e, &**x, out, base8, base, d2);
                if r.is_err() {
                    return r;
                }
                if !value_is_fixed(&**x) {
                    out.push(0);
                }
                proof {
                    let pos = base@ + old(out)@.len();
                    let b = enc(f, e, x@, pos, d2)->Ok_0;
                    if !is_fixed(x@) {
                        assert(out@ =~= old(out)@ + (b + seq![0u8]));
                    }
                }
            },
            None => {
                assert(old(out)@ + Seq::<u8>::empty() =~= old(out)@);
            },
        }
        return Ok(());
    }
    let align = padding_alignment_of(f, &m.sig);
    let ghost pos = base@ + old(out)@.len();
    let ghost p1 = pos + pad(pos, 4) + 4;
    let (p2, body_base8) = frame_start(out, base8, base, align);
    let mut body: Vec<u8> = Vec::new();
    match &m.inner {
        Some(x) => {
            let r = enc_into(f, e, &**x, &mut body, body_base8, Ghost(p1 + p2), d2);
            if r.is_err() {
                return r;
            }
        },
        None => {},
    }
    frame_finish(e, out, base8, base, p2, &mut body)
}

/// Appends one dictionary entry, as `enc_entry` gives it.
#[verifier::rlimit(100)]
#[verifier::spinoff_prover]
fn push_entry(
    f: Format,
    e: Endian,
    kv: &(Value, Value),
    out: &mut Vec<u8>,
    base8: usize,
    base: Ghost<int>,
    d: ContainerDepths,
) -> (r: Result<(), Error>)
    requires
        base8 == base@ % 8,
        base@ >= 0,
        depths_ok(d),
    ensures
        match enc_entry(f, e, (kv.0@, kv.1@), base@ + old(out)@.len(), d) {
            Ok(b) => r is Ok && final(out)@ == old(out)@ + b,
            Err(x) => r == Err::<(), Error>(x),
        },
    decreases kv, 3int,
{
    let ghost pos = base@ + old(out)@.len();
    push_padding(out, base8, base, 8);
    let ghost padded = out@;
    let r = enc_into(f, e, &kv.0, out, base8, base, d);
    if r.is_err() {
        return r;
    }
    let ghost keyed = out@;
    let r = enc_into(f, e, &kv.1, out, base8, base, d);
    if r.is_err() {
        return r;
    }
    proof {
        let p = pad(pos, 8);
        let kb = keyed.subrange(padded.len() as int, keyed.len() as int);
        let vb = out@.subrange(keyed.len() as int, out@.len() as int);
        assert(kb =~= enc(f, e, kv.0@, pos + p, d)->Ok_0);
        assert(out@ =~= old(out)@ + (zeros(p) + kb + vb));
    }
    Ok(())
}

/// Appends a key's encoding, then its value's.
#[verifier::rlimit(100)]
#[verifier::spinoff_prover]
fn push_key_value(
    e: Endian,
    kv: &(Value, Value),
    out: &mut Vec<u8>,
    base8: usize,
    base: Ghost<int>,
    d: ContainerDepths,
) -> (r: Result<usize, Error>)
    requires
        base8 == base@ % 8,
        base@ >= 0,
        depths_ok(d),
    ensures
        ({
            let f = Format::GVariant;
            let pos = base@ + old(out)@.len();
            match enc(f, e, kv.0@, pos, d) {
                Ok(kb) => match enc(f, e, kv.1@, pos + kb.len(), d) {
                    Ok(vb) => r == Ok::<usize, Error>(kb.len() as usize) && final(out)@ == old(
                        out,
                    )@ + kb + vb,
                    Err(x) => r == Err::<usize, Error>(x),
                },
                Err(x) => r == Err::<usize, Error>(x),
            }
        }),
    decreases kv, 2int,
{
    let f = Format::GVariant;
    let start_len = out.len();
    match enc_into(f, e, &kv.0, out, base8, base, d) {
        Ok(()) => {},
        Err(x) => {
            return Err(x);
        },
    }
    let key_len = out.len() - start_len;
    match enc_into(f, e, &kv.1, out, base8, base, d) {
        Ok(()) => {},
        Err(x) => {
            return Err(x);
        },
    }
    proof {
        let pos = base@ + old(out)@.len();
        let kb = enc(f, e, kv.0@, pos, d)->Ok_0;
        let vb = enc(f, e, kv.1@, pos + kb.len(), d)->Ok_0;
        assert(out@ =~= old(out)@ + kb + vb);
    }
    Ok(key_len)
}

/// Appends one GVariant dictionary entry, as `gv_entry` gives it.
#[verifier::rlimit(100)]
#[verifier::spinoff_prover]
fn push_gv_entry(
    e: Endian,
    kv: &(Value, Value),
    out: &mut Vec<u8>,
    base8: usize,
    base: Ghost<int>,
    d: ContainerDepths,
) -> (r: Result<(), Error>)
    requires
        base8 == base@ % 8,
        base@ >= 0,
        depths_ok(d),
    ensures
        match gv_entry(e, (kv.0@, kv.1@), base@ + old(out)@.len(), d) {
            Ok(b) => r is Ok && final(out)@ == old(out)@ + b,
            Err(x) => r == Err::<(), Error>(x),
        },
    decreases kv, 3int,
{
    let start_len = out.len();
    let key_len = match push_key_value(e, kv, out, base8, base, d) {
        Ok(n) => n,
        Err(x) => {
            return Err(x);
        },
    };
    let ghost valued = out@;
    if !value_is_fixed(&kv.0) {
        let total = out.len() - start_len;
        let w = width_for_exec(total, 1);
        push_offset(out, key_len, w);
        assert(out@ =~= valued + offset_bytes(key_len as int, w as int));
    }
    Ok(())
}

/// Appends GVariant dictionary entries one after another, as `gv_entries`
/// gives them, and collects where each ends.
#[verifier::rlimit(100)]
#[verifier::spinoff_prover]
fn gv_entry_list(
    e: Endian,
    parent: &Value,
    entries: &Vec<(Value, Value)>,
    out: &mut Vec<u8>,
    base8: usize,
    base: Ghost<int>,
    d: ContainerDepths,
    ends: &mut Vec<usize>,
    start_len: usize,
) -> (r: Result<(), Error>)
    requires
        base8 == base@ % 8,
        base@ >= 0,
        depths_ok(d),
        decreases_to!(*parent => *entries),
        start_len <= old(out)@.len(),
    ensures
        match gv_entries(e, entry_views(entries@), base@ + old(out)@.len(), d) {
            Ok(b) => r is Ok && final(out)@ == old(out)@ + b,
            Err(x) => r == Err::<(), Error>(x),
        },
        r is Ok ==> ints(final(ends)@) == ints(old(ends)@) + gv_entry_ends(
            e,
            entry_views(entries@),
            base@ + old(out)@.len(),
            base@ + start_len,
            d,
        ),
    decreases parent, 0int,
{
    let ghost es = entry_views(entries@);
    let ghost start = base@ + old(out)@.len();
    let ghost sb = base@ + start_len;
    let mut i: usize = 0;
    assert(es.subrange(0, es.len() as int) =~= es);
    assert(old(out)@ + Seq::<u8>::empty() =~= old(out)@);
    while i < entries.len()
        invariant
            i <= entries.len(),
            es.len() == entries.len(),
            es == entry_views(entries@),
            decreases_to!(*parent => *entries),
            base8 == base@ % 8,
            base@ >= 0,
            depths_ok(d),
            old(out)@.len() <= out@.len(),
            start == base@ + old(out)@.len(),
            sb == base@ + start_len,
            start_len <= old(out)@.len(),
            gv_entries(e, es, start, d) == prepend(
                out@.subrange(old(out)@.len() as int, out@.len() as int),
                gv_entries(e, es.subrange(i as int, es.len() as int), base@ + out@.len(), d),
            ),
            out@ == old(out)@ + out@.subrange(old(out)@.len() as int, out@.len() as int),
            gv_entries(e, es.subrange(i as int, es.len() as int), base@ + out@.len(), d) is Ok
                ==> ints(ends@) + gv_entry_ends(
                e,
                es.subrange(i as int, es.len() as int),
                base@ + out@.len(),
                sb,
                d,
            ) == ints(old(ends)@) + gv_entry_ends(e, es, start, sb, d),
        decreases entries.len() - i,
    {
        proof {
            vstd::std_specs::vec::axiom_vec_index_decreases(*entries, i as int);
        }
        let ghost before = out@;
        let ghost rest = es.subrange(i as int, es.len() as int);
        assert(rest[0] == (entries[i as int].0@, entries[i as int].1@));
        assert(rest.drop_first() =~= es.subrange(i + 1, es.len() as int));
        let r = push_gv_entry(e, &entries[i], out, base8, base, d);
        if r.is_err() {
            return r;
        }
        let ghost old_ends = ends@;
        ends.push(out.len() - start_len);
        proof {
            let acc = before.subrange(old(out)@.len() as int, before.len() as int);
            let c = gv_entry(e, rest[0], base@ + before.len(), d)->Ok_0;
            let tail = gv_entries(e, rest.drop_first(), base@ + out@.len(), d);
            assert(out@.subrange(old(out)@.len() as int, out@.len() as int) =~= acc + c);
            assert(ints(ends@) =~= ints(old_ends) + seq![base@ + out@.len() - sb]);
            match tail {
                Ok(tb) => {
                    assert(acc + (c + tb) =~= (acc + c) + tb);
                    assert(ints(ends@) + gv_entry_ends(
                        e,
                        rest.drop_first(),
                        base@ + out@.len(),
                        sb,
                        d,
                    ) =~= ints(old_ends) + gv_entry_ends(e, rest, base@ + before.len(), sb, d));
                },
                Err(_) => {},
            }
        }
        i = i + 1;
    }
    proof {
        assert(es.subrange(i as int, es.len() as int) =~= Seq::<(ValueModel, ValueModel)>::empty());
        let acc = out@.subrange(old(out)@.len() as int, out@.len() as int);
        assert(acc + Seq::<u8>::empty() =~= acc);
        assert(ints(ends@) + Seq::<int>::empty() =~= ints(ends@));
    }
    Ok(())
}

/// Appends dictionary entries one after another, as `enc_entries` gives them.
#[verifier::rlimit(100)]
#[verifier::spinoff_prover]
fn enc_entry_list(
    f: Format,
    e: Endian,
    parent: &Value,
    entries: &Vec<(Value, Value)>,
    out: &mut Vec<u8>,
    base8: usize,
    base: Ghost<int>,
    d: ContainerDepths,
) -> (r: Result<(), Error>)
    requires
        base8 == base@ % 8,
        base@ >= 0,
        depths_ok(d),
        decreases_to!(*parent => *entries),
    ensures
        match enc_entries(f, e, entry_views(entries@), base@ + old(out)@.len(), d) {
            Ok(b) => r is Ok && final(out)@ == old(out)@ + b,
            Err(x) => r == Err::<(), Error>(x),
        },
    decreases parent, 0int,
{
    let ghost es = entry_views(entries@);
    let ghost start = base@ + old(out)@.len();
    let mut i: usize = 0;
    assert(es.subrange(0, es.len() as int) =~= es);
    assert(old(out)@ + Seq::<u8>::empty() =~= old(out)@);
    while i < entries.len()
        invariant
            i <= entries.len(),
            es.len() == entries.len(),
            es == entry_views(entries@),
            decreases_to!(*parent => *entries),
            base8 == base@ % 8,
            base@ >= 0,
            depths_ok(d),
            old(out)@.len() <= out@.len(),
            start == base@ + old(out)@.len(),
            enc_entries(f, e, es, start, d) == prepend(
                out@.subrange(old(out)@.len() as int, out@.len() as int),
                enc_entries(f, e, es.subrange(i as int, es.len() as int), base@ + out@.len(), d),
            ),
            out@ == old(out)@ + out@.subrange(old(out)@.len() as int, out@.len() as int),
        decreases entries.len() - i,
    {
        proof {
            vstd::std_specs::vec::axiom_vec_index_decreases(*entries, i as int);
        }
        let ghost before = out@;
        let ghost rest = es.subrange(i as int, es.len() as int);
        assert(rest[0] == (entries[i as int].0@, entries[i as int].1@));
        assert(rest.drop_first() =~= es.subrange(i + 1, es.len() as int));
        let r = push_entry(f, e, &entries[i], out, base8, base, d);
        if r.is_err() {
            return r;
        }
        proof {
            let acc = before.subrange(old(out)@.len() as int, before.len() as int);
            let chunk = enc_entry(f, e, rest[0], base@ + before.len(), d)->Ok_0;
            let tail = enc_entries(f, e, rest.drop_first(), base@ + out@.len(), d);
            assert(out@.subrange(old(out)@.len() as int, out@.len() as int) =~= acc + chunk);
            match tail {
                Ok(tb) => {
                    assert(acc + (chunk + tb) =~= (acc + chunk) + tb);
                },
                Err(_) => {},
            }
        }
        i = i + 1;
    }
    proof {
        assert(es.subrange(i as int, es.len() as int) =~= Seq::<(ValueModel, ValueModel)>::empty());
        let acc = out@.subrange(old(out)@.len() as int, out@.len() as int);
        assert(acc + Seq::<u8>::empty() =~= acc);
    }
    Ok(())
}

/// The signature text of a value.
fn signature_text(v: &Value) -> (t: Vec<u8>)
    ensures
        t@ == text(sig_of(v@)),
{
    let sig = v.value_signature();
    let mut t: Vec<u8> = Vec::new();
    sig.write_text(&mut t);
    assert(t@ =~= text(sig_of(v@)));
    t
}

/// Appends the encoding of a variant `v` holding `inner`.
#[verifier::rlimit(100)]
#[verifier::spinoff_prover]
fn push_variant(
    f: Format,
    e: Endian,
    v: &Value,
    inner: &Value,
    out: &mut Vec<u8>,
    base8: usize,
    base: Ghost<int>,
    d: ContainerDepths,
) -> (r: Result<(), Error>)
    requires
        base8 == base@ % 8,
        base@ >= 0,
        depths_ok(d),
        v@ == ValueModel::Variant(Box::new(inner@)),
        decreases_to!(*v => *inner),
    ensures
        match enc(f, e, v@, base@ + old(out)@.len(), d) {
            Ok(b) => r is Ok && final(out)@ == old(out)@ + b,
            Err(x) => r == Err::<(), Error>(x),
        },
    decreases v, 1int,
{
    let ghost pos = base@ + old(out)@.len();
    let d2 = match d.inc_variant() {
        Ok(d2) => d2,
        Err(x) => {
            return Err(x);
        },
    };
    let t = signature_text(inner);
    if t.len() > 255 {
        return Err(Error::OutOfRange);
    }
    if f == Format::DBus {
        out.push(t.len() as u8);
        push_all(out, t.as_slice());
        out.push(0);
        let ghost head = seq![t@.len() as u8] + t@ + seq![0u8];
        assert(out@ =~= old(out)@ + head);
        let r = enc_into(f, e, inner, out, base8, base, d2);
        proof {
            match enc(f, e, inner@, pos + head.len(), d2) {
                Ok(b) => {
                    assert(final(out)@ =~= old(out)@ + (head + b));
                },
                Err(_) => {},
            }
        }
        r
    } else {
        let r = enc_into(f, e, inner, out, base8, base, d2);
        if r.is_err() {
            return r;
        }
        out.push(0);
        push_all(out, t.as_slice());
        proof {
            let b = enc(f, e, inner@, pos, d2)->Ok_0;
            assert(out@ =~= old(out)@ + (b + seq![0u8] + t@));
        }
        Ok(())
    }
}

/// Appends the values of `elems` one after another, as `encs` gives them.
#[verifier::rlimit(100)]
#[verifier::spinoff_prover]
fn enc_list(
    f: Format,
    e: Endian,
    parent: &Value,
    elems: &Vec<Value>,
    out: &mut Vec<u8>,
    base8: usize,
    base: Ghost<int>,
    d: ContainerDepths,
    ends: &mut Vec<usize>,
    start_len: usize,
) -> (r: Result<(), Error>)
    requires
        base8 == base@ % 8,
        base@ >= 0,
        depths_ok(d),
        decreases_to!(*parent => *elems),
        start_len <= old(out)@.len(),
    ensures
        match encs(f, e, views(elems@), base@ + old(out)@.len(), d) {
            Ok(b) => r is Ok && final(out)@ == old(out)@ + b,
            Err(x) => r == Err::<(), Error>(x),
        },
        r is Ok ==> ints(final(ends)@) == ints(old(ends)@) + list_ends(
            f,
            e,
            views(elems@),
            base@ + old(out)@.len(),
            base@ + start_len,
            d,
        ),
    decreases parent, 0int,
{
    let ghost es = views(elems@);
    let ghost start = base@ + old(out)@.len();
    assert(ints(old(ends)@) + list_ends(f, e, es, start, base@ + start_len, d) =~= ints(old(ends)@)
        + list_ends(f, e, es, start, base@ + start_len, d));
    let mut i: usize = 0;
    assert(es.subrange(0, es.len() as int) =~= es);
    assert(old(out)@ + Seq::<u8>::empty() =~= old(out)@);
    while i < elems.len()
        invariant
            i <= elems.len(),
            es.len() == elems.len(),
            es == views(elems@),
            decreases_to!(*parent => *elems),
            base8 == base@ % 8,
            base@ >= 0,
            depths_ok(d),
            old(out)@.len() <= out@.len(),
            start == base@ + old(out)@.len(),
            encs(f, e, es, start, d) == prepend(
                out@.subrange(old(out)@.len() as int, out@.len() as int),
                encs(f, e, es.subrange(i as int, es.len() as int), base@ + out@.len(), d),
            ),
            out@ == old(out)@ + out@.subrange(old(out)@.len() as int, out@.len() as int),
            start_len <= old(out)@.len(),
            encs(f, e, es.subrange(i as int, es.len() as int), base@ + out@.len(), d) is Ok
                ==> ints(ends@) + list_ends(
                f,
                e,
                es.subrange(i as int, es.len() as int),
                base@ + out@.len(),
                base@ + start_len,
                d,
            ) == ints(old(ends)@) + list_ends(f, e, es, start, base@ + start_len, d),
        decreases elems.len() - i,
    {
        proof {
            vstd::std_specs::vec::axiom_vec_index_decreases(*elems, i as int);
        }
        let ghost before = out@;
        let ghost rest = es.subrange(i as int, es.len() as int);
        assert(rest[0] == elems[i as int]@);
        assert(rest.drop_first() =~= es.subrange(i + 1, es.len() as int));
        let r = enc_into(f, e, &elems[i], out, base8, base, d);
        if r.is_err() {
            return r;
        }
        let ghost old_ends = ends@;
        ends.push(out.len() - start_len);
        proof {
            let acc = before.subrange(old(out)@.len() as int, before.len() as int);
            let b0 = enc(f, e, rest[0], base@ + before.len(), d)->Ok_0;
            let tail = encs(f, e, rest.drop_first(), base@ + out@.len(), d);
            assert(ints(ends@) =~= ints(old_ends) + seq![base@ + out@.len() - (base@ + start_len)]);
            if tail is Ok {
                assert(list_ends(f, e, rest, base@ + before.len(), base@ + start_len, d) == seq![
                    base@ + out@.len() - (base@ + start_len),
                ] + list_ends(
                    f,
                    e,
                    rest.drop_first(),
                    base@ + out@.len(),
                    base@ + start_len,
                    d,
                ));
                assert(ints(ends@) + list_ends(
                    f,
                    e,
                    rest.drop_first(),
                    base@ + out@.len(),
                    base@ + start_len,
                    d,
                ) =~= ints(old_ends) + list_ends(f, e, rest, base@ + before.len(), base@ + start_len, d));
            }
            assert(out@.subrange(old(out)@.len() as int, out@.len() as int) =~= acc + b0);
            match tail {
                Ok(tb) => {
                    assert(acc + (b0 + tb) =~= (acc + b0) + tb);
                },
                Err(_) => {},
            }
        }
        i = i + 1;
    }
    proof {
        assert(es.subrange(i as int, es.len() as int) =~= Seq::<ValueModel>::empty());
        let acc = out@.subrange(old(out)@.len() as int, out@.len() as int);
        assert(acc + Seq::<u8>::empty() =~= acc);
        assert(ints(ends@) + Seq::<int>::empty() =~= ints(ends@));
    }
    Ok(())
}

/// Pads `out` to 4, reserves nothing, and says where an array body starts:
/// the padding from the length field to the element alignment, and the body
/// offset modulo 8.
fn frame_start(out: &Vec<u8>, base8: usize, base: Ghost<int>, align: usize) -> (r: (usize, usize))
    requires
        base8 == base@ % 8,
        base@ >= 0,
        align == 1 || align == 2 || align == 4 || align == 8,
    ensures
        ({
            let pos = base@ + out@.len();
            let p1 = pos + pad(pos, 4) + 4;
            &&& r.0 == pad(p1, align as int)
            &&& r.1 == (p1 + r.0) % 8
            &&& r.0 < 8
        }),
{
    let ghost pos = base@ + out@.len();
    let o = offset8(out, base8, base);
    let p0 = padding_for(o, 4);
    proof {
        lemma_pad_mod8(pos, 4);
    }
    let o1 = (o + p0 + 4) % 8;
    let ghost p1 = pos + pad(pos, 4) + 4;
    assert(o1 == p1 % 8) by (nonlinear_arith)
        requires
            o == pos % 8,
            p0 == pad(pos, 4),
            p1 == pos + p0 + 4,
            o1 == (o + p0 + 4) % 8,
            pos >= 0,
    ;
    let p2 = padding_for(o1, align);
    proof {
        lemma_pad_mod8(p1, align as int);
    }
    let o2 = (o1 + p2) % 8;
    assert(o2 == (p1 + p2) % 8) by (nonlinear_arith)
        requires
            o1 == p1 % 8,
            o2 == (o1 + p2) % 8,
            p1 >= 0,
    ;
    (p2, o2)
}

/// Writes an array frame around an encoded body (see `frame`).
fn frame_finish(
    e: Endian,
    out: &mut Vec<u8>,
    base8: usize,
    base: Ghost<int>,
    p2: usize,
    body: &mut Vec<u8>,
) -> (r: Result<(), Error>)
    requires
        base8 == base@ % 8,
        base@ >= 0,
    ensures
        match frame(e, base@ + old(out)@.len(), p2 as int, Ok(old(body)@)) {
            Ok(b) => r is Ok && final(out)@ == old(out)@ + b,
            Err(x) => r == Err::<(), Error>(x),
        },
{
    if body.len() > 0xffff_ffff {
        return Err(Error::OutOfRange);
    }
    let ghost b = body@;
    push_padding(out, base8, base, 4);
    push_u32(out, body.len() as u32, e);
    push_zeros(out, p2);
    out.append(body);
    proof {
        let pos = base@ + old(out)@.len();
        assert(out@ =~= old(out)@ + (aligned(pos, 4, u32_bytes(b.len() as u32, e)) + zeros(
            p2 as int,
        ) + b));
    }
    Ok(())
}

fn push_str(
    f: Format,
    e: Endian,
    s: &[u8],
    out: &mut Vec<u8>,
    base8: usize,
    base: Ghost<int>,
) -> (r: Result<(), Error>)
    requires
        base8 == base@ % 8,
        base@ >= 0,
    ensures
        match enc_str(f, e, s@, base@ + old(out)@.len()) {
            Ok(b) => r is Ok && final(out)@ == old(out)@ + b,
            Err(x) => r == Err::<(), Error>(x),
        },
{
    if f == Format::DBus {
        if s.len() > 0xffff_ffff {
            return Err(Error::OutOfRange);
        }
        push_padding(out, base8, base, 4);
        push_u32(out, s.len() as u32, e);
    }
    push_all(out, s);
    out.push(0);
    proof {
        let pos = base@ + old(out)@.len();
        if f == Format::DBus {
            assert(out@ =~= old(out)@ + (aligned(pos, 4, u32_bytes(s@.len() as u32, e)) + s@
                + seq![0u8]));
        } else {
            assert(out@ =~= old(out)@ + (s@ + seq![0u8]));
        }
    }
    Ok(())
}

fn push_sig(f: Format, t: &[u8], out: &mut Vec<u8>) -> (r: Result<(), Error>)
    ensures
        match enc_sig(f, t@) {
            Ok(b) => r is Ok && final(out)@ == old(out)@ + b,
            Err(x) => r == Err::<(), Error>(x),
        },
{
    if t.len() > 255 {
        return Err(Error::OutOfRange);
    }
    if f == Format::DBus {
        out.push(t.len() as u8);
    }
    push_all(out, t);
    out.push(0);
    proof {
        if f == Format::DBus {
            assert(out@ =~= old(out)@ + (seq![t@.len() as u8] + t@ + seq![0u8]));
        } else {
            assert(out@ =~= old(out)@ + (t@ + seq![0u8]));
        }
    }
    Ok(())
}

} // verus!
