use crate::alignment::{alignment, padding_alignment_of, lemma_pad_mod8, pad, padding_for};
use crate::bytes::{read_u16, read_u32, read_u64, u16_from, u32_from, u64_from};
use crate::context::{Context, Endian, Format};
use crate::depth::{depths_ok, enter_array, enter_structure, enter_variant, ContainerDepths};
use crate::encode::offset_width;
use crate::error::Error;
use crate::signature::{parse_text, SigType, Signature};
use crate::value::{entry_views, views, Array, Dict, Maybe, Structure, Value, ValueModel};
use vstd::prelude::*;
use vstd::string::StringSliceAdditionalSpecFns;
use vstd::utf8::{decode_utf8, valid_utf8};

verus! {

broadcast use vstd::seq::group_seq_axioms;

/// How many nesting levels remain before the total ceiling.
pub open spec fn depth_budget(d: ContainerDepths) -> int {
    64 - (d.array + d.structure + d.variant)
}

/// A fixed-size scalar type.
pub open spec fn is_fixed_type(t: SigType) -> bool {
    t is U8 || t is Bool || t is I16 || t is U16 || t is I32 || t is U32 || t is Fd || t is I64
        || t is U64 || t is F64
}

/// The encoded size of a fixed-size scalar type.
pub open spec fn fixed_size(f: Format, t: SigType) -> int {
    match t {
        SigType::U8 => 1,
        SigType::Bool => if f == Format::DBus {
            4
        } else {
            1
        },
        SigType::I16 | SigType::U16 => 2,
        SigType::I32 | SigType::U32 | SigType::Fd => 4,
        _ => 8,
    }
}

/// The scalar of type `t` that `bytes` (of its fixed size) hold; a boolean
/// other than 0 or 1 is invalid.
pub open spec fn fixed_value(f: Format, e: Endian, t: SigType, bytes: Seq<u8>) -> Result<
    ValueModel,
    Error,
> {
    match t {
        SigType::U8 => Ok(ValueModel::U8(bytes[0])),
        SigType::Bool => {
            let x = if f == Format::DBus {
                u32_from(bytes, e)
            } else {
                bytes[0] as u32
            };
            if x == 0 {
                Ok(ValueModel::Bool(false))
            } else if x == 1 {
                Ok(ValueModel::Bool(true))
            } else {
                Err(Error::InvalidData)
            }
        },
        SigType::I16 => Ok(ValueModel::I16(u16_from(bytes, e) as i16)),
        SigType::U16 => Ok(ValueModel::U16(u16_from(bytes, e))),
        SigType::I32 => Ok(ValueModel::I32(u32_from(bytes, e) as i32)),
        SigType::U32 => Ok(ValueModel::U32(u32_from(bytes, e))),
        SigType::Fd => Ok(ValueModel::Fd(u32_from(bytes, e))),
        SigType::I64 => Ok(ValueModel::I64(u64_from(bytes, e) as i64)),
        SigType::U64 => Ok(ValueModel::U64(u64_from(bytes, e))),
        _ => Ok(ValueModel::F64(u64_from(bytes, e))),
    }
}

/// A fixed-size scalar at index `i` of `b`, whose first byte stands at
/// offset `base`: padding, then its bytes, all before `end`.
pub open spec fn dec_fixed(
    f: Format,
    e: Endian,
    b: Seq<u8>,
    t: SigType,
    i: int,
    end: int,
    base: int,
) -> Result<(ValueModel, int), Error> {
    let n = fixed_size(f, t);
    let p = pad(base + i, n);
    if i + p + n > end {
        Err(Error::Truncated)
    } else {
        match fixed_value(f, e, t, b.subrange(i + p, i + p + n)) {
            Ok(v) => Ok((v, i + p + n)),
            Err(x) => Err(x),
        }
    }
}

/// The UTF-8 text of a string body, or invalid data.
pub open spec fn utf8_text(bytes: Seq<u8>) -> Result<Seq<char>, Error> {
    if valid_utf8(bytes) {
        Ok(decode_utf8(bytes))
    } else {
        Err(Error::InvalidData)
    }
}

/// The body of a string at index `i`: in the D-Bus format its bytes after a 4-byte
/// length and before a NUL; in the GVariant format the bytes from `i` to just before a
/// NUL that ends the span at `end`.
pub open spec fn dec_str_bytes(f: Format, e: Endian, b: Seq<u8>, i: int, end: int, base: int) -> Result<
    (Seq<u8>, int),
    Error,
> {
    if f == Format::DBus {
        let p = pad(base + i, 4);
        if i + p + 4 > end {
            Err(Error::Truncated)
        } else {
            let n = u32_from(b.subrange(i + p, i + p + 4), e) as int;
            let s = i + p + 4;
            if s + n + 1 > end {
                Err(Error::Truncated)
            } else if b[s + n] != 0 {
                Err(Error::InvalidData)
            } else {
                Ok((b.subrange(s, s + n), s + n + 1))
            }
        }
    } else {
        if i >= end || b[end - 1] != 0 {
            Err(Error::Truncated)
        } else {
            Ok((b.subrange(i, end - 1), end))
        }
    }
}

/// The text of a signature at index `i`: in the D-Bus format a 1-byte length, the
/// text and a NUL; in the GVariant format the span up to a NUL at `end`.
pub open spec fn dec_sig_bytes(f: Format, b: Seq<u8>, i: int, end: int) -> Result<
    (Seq<u8>, int),
    Error,
> {
    if f == Format::DBus {
        if i + 1 > end {
            Err(Error::Truncated)
        } else {
            let n = b[i] as int;
            if i + 1 + n + 1 > end {
                Err(Error::Truncated)
            } else if b[i + 1 + n] != 0 {
                Err(Error::InvalidData)
            } else {
                Ok((b.subrange(i + 1, i + 1 + n), i + n + 2))
            }
        }
    } else {
        if i >= end || b[end - 1] != 0 {
            Err(Error::Truncated)
        } else {
            Ok((b.subrange(i, end - 1), end))
        }
    }
}

/// The type that a signature text in the data denotes.
pub open spec fn sig_in_data(s: Seq<u8>) -> Result<SigType, Error> {
    match parse_text(s) {
        Some(t) => Ok(t),
        None => Err(Error::InvalidData),
    }
}

/// The index of the last NUL byte in `b[lo..hi]`.
pub open spec fn last_nul(b: Seq<u8>, lo: int, hi: int) -> Option<int>
    decreases hi - lo,
{
    if hi <= lo {
        None
    } else if b[hi - 1] == 0 {
        Some(hi - 1)
    } else {
        last_nul(b, lo, hi - 1)
    }
}

/// The value of type `t` at index `i` of `b`, read no further than `end`,
/// with the first byte of `b` at offset `base` and the depth counters `d`:
/// the value and the index just after it.
pub open spec fn dec(
    f: Format,
    e: Endian,
    b: Seq<u8>,
    t: SigType,
    i: int,
    end: int,
    base: int,
    d: ContainerDepths,
) -> Result<(ValueModel, int), Error>
    decreases depth_budget(d), t, 1int, 0int,
{
    if !(0 <= i <= end <= b.len()) {
        Err(Error::Truncated)
    } else if is_fixed_type(t) {
        dec_fixed(f, e, b, t, i, end, base)
    } else {
        match t {
            SigType::Str => match dec_str_bytes(f, e, b, i, end, base) {
                Ok((s, j)) => match utf8_text(s) {
                    Ok(c) => Ok((ValueModel::Str(c), j)),
                    Err(x) => Err(x),
                },
                Err(x) => Err(x),
            },
            SigType::ObjectPath => match dec_str_bytes(f, e, b, i, end, base) {
                Ok((s, j)) => match utf8_text(s) {
                    Ok(c) => Ok((ValueModel::ObjectPath(c), j)),
                    Err(x) => Err(x),
                },
                Err(x) => Err(x),
            },
            SigType::Signature => match dec_sig_bytes(f, b, i, end) {
                Ok((s, j)) => match sig_in_data(s) {
                    Ok(st) => Ok((ValueModel::Signature(st), j)),
                    Err(x) => Err(x),
                },
                Err(x) => Err(x),
            },
            SigType::Variant => match enter_variant(d) {
                Err(x) => Err(x),
                Ok(d2) => if depth_budget(d2) < depth_budget(d) && depth_budget(d2) >= 0 {
                    if f == Format::DBus {
                        match dec_sig_bytes(f, b, i, end) {
                            Ok((s, j)) => match sig_in_data(s) {
                                Ok(st) => match dec(f, e, b, st, j, end, base, d2) {
                                    Ok((v, k)) => Ok((ValueModel::Variant(Box::new(v)), k)),
                                    Err(x) => Err(x),
                                },
                                Err(x) => Err(x),
                            },
                            Err(x) => Err(x),
                        }
                    } else {
                        match last_nul(b, i, end) {
                            None => Err(Error::Truncated),
                            Some(z) => if z + 1 == end {
                                Err(Error::Truncated)
                            } else {
                                match sig_in_data(b.subrange(z + 1, end)) {
                                    Ok(st) => match dec(f, e, b, st, i, z, base, d2) {
                                        Ok((v, k)) => if k == z {
                                            Ok((ValueModel::Variant(Box::new(v)), end))
                                        } else {
                                            Err(Error::InvalidData)
                                        },
                                        Err(x) => Err(x),
                                    },
                                    Err(x) => Err(x),
                                }
                            },
                        }
                    }
                } else {
                    Err(Error::InvalidData)
                },
            },
            _ => if f == Format::GVariant {
                dec_gv_container(e, b, t, i, end, base, d)
            } else {
                dec_container(e, b, t, i, end, base, d)
            },
        }
    }
}

/// A framing offset read from `w` little-endian bytes.
pub open spec fn offset_from(s: Seq<u8>, w: int) -> int {
    if w == 1 {
        s[0] as int
    } else if w == 2 {
        u16_from(s, Endian::Little) as int
    } else if w == 4 {
        u32_from(s, Endian::Little) as int
    } else {
        u64_from(s, Endian::Little) as int
    }
}

/// How many fields of a structure carry a framing offset: those of
/// variable size, the last field apart.
pub open spec fn framed_count(fs: Seq<SigType>) -> nat
    decreases fs.len(),
{
    if fs.len() <= 1 {
        0
    } else {
        (if is_fixed_type(fs[0]) {
            0nat
        } else {
            1nat
        }) + framed_count(fs.drop_first())
    }
}

/// The offset table at the end of `b[i..end]`: where the elements end
/// (the first offset's position, counted from `i`), the offset width and
/// the number of offsets.
pub open spec fn gv_table(b: Seq<u8>, i: int, end: int) -> Result<(int, int, int), Error> {
    let s = end - i;
    let w = offset_width(s);
    if s < w {
        Err(Error::Truncated)
    } else {
        let l = offset_from(b.subrange(end - w, end), w);
        if l > s - w {
            Err(Error::Truncated)
        } else if (s - l) % w != 0 {
            Err(Error::InvalidData)
        } else {
            Ok((l, w, (s - l) / w))
        }
    }
}

/// An array, dictionary, structure or optional value in the GVariant format,
/// filling `b[i..end]`.
pub open spec fn dec_gv_container(
    e: Endian,
    b: Seq<u8>,
    t: SigType,
    i: int,
    end: int,
    base: int,
    d: ContainerDepths,
) -> Result<(ValueModel, int), Error>
    decreases depth_budget(d), t, 0int, 0int,
{
    let f = Format::GVariant;
    match t {
        SigType::Structure(fs) => match enter_structure(d) {
            Err(x) => Err(x),
            Ok(d2) => if depth_budget(d2) < depth_budget(d) && depth_budget(d2) >= 0 {
                let m = framed_count(fs);
                let w = offset_width(end - i);
                if m * w > end - i {
                    Err(Error::Truncated)
                } else {
                    match dec_gv_fields(e, b, fs, i, 0, i, end, end - m * w, w, base, d2) {
                        Ok(vs) => Ok((ValueModel::Structure(vs), end)),
                        Err(x) => Err(x),
                    }
                }
            } else {
                Err(Error::InvalidData)
            },
        },
        _ => match enter_array(d) {
            Err(x) => Err(x),
            Ok(d2) => if depth_budget(d2) < depth_budget(d) && depth_budget(d2) >= 0 {
                match t {
                    SigType::Maybe(el) => if i == end {
                        Ok((ValueModel::Maybe(*el, None), end))
                    } else if is_fixed_type(*el) {
                        match dec(f, e, b, *el, i, end, base, d2) {
                            Ok((v, j)) => if j == end {
                                Ok((ValueModel::Maybe(*el, Some(Box::new(v))), end))
                            } else {
                                Err(Error::InvalidData)
                            },
                            Err(x) => Err(x),
                        }
                    } else if b[end - 1] != 0 {
                        Err(Error::Truncated)
                    } else {
                        match dec(f, e, b, *el, i, end - 1, base, d2) {
                            Ok((v, j)) => if j == end - 1 {
                                Ok((ValueModel::Maybe(*el, Some(Box::new(v))), end))
                            } else {
                                Err(Error::InvalidData)
                            },
                            Err(x) => Err(x),
                        }
                    },
                    SigType::Array(el) => if is_fixed_type(*el) {
                        match dec_gv_seq(e, b, *el, i, end, base, d2) {
                            Ok(vs) => Ok((ValueModel::Array(*el, vs), end)),
                            Err(x) => Err(x),
                        }
                    } else if i == end {
                        Ok((ValueModel::Array(*el, Seq::empty()), end))
                    } else {
                        match gv_table(b, i, end) {
                            Ok((l, w, n)) => match dec_gv_items(e, b, *el, i, 0, n, i, l, w, base, d2) {
                                Ok(vs) => Ok((ValueModel::Array(*el, vs), end)),
                                Err(x) => Err(x),
                            },
                            Err(x) => Err(x),
                        }
                    },
                    SigType::Dict(k, v) => if i == end {
                        Ok((ValueModel::Dict(*k, *v, Seq::empty()), end))
                    } else {
                        match gv_table(b, i, end) {
                            Ok((l, w, n)) => match dec_gv_entry_items(e, b, t, i, 0, n, i, l, w, base, d2) {
                                Ok(es) => Ok((ValueModel::Dict(*k, *v, es), end)),
                                Err(x) => Err(x),
                            },
                            Err(x) => Err(x),
                        }
                    },
                    _ => Err(Error::SignatureMismatch),
                }
            } else {
                Err(Error::InvalidData)
            },
        },
    }
}

/// Scalars of type `t` one after another, filling `b[i..stop]` exactly.
pub open spec fn dec_gv_seq(
    e: Endian,
    b: Seq<u8>,
    t: SigType,
    i: int,
    stop: int,
    base: int,
    d: ContainerDepths,
) -> Result<Seq<ValueModel>, Error>
    decreases depth_budget(d), t, 2int, stop - i,
{
    if i >= stop {
        Ok(Seq::empty())
    } else {
        match dec(Format::GVariant, e, b, t, i, stop, base, d) {
            Ok((v, j)) => if i < j <= stop {
                match dec_gv_seq(e, b, t, j, stop, base, d) {
                    Ok(vs) => Ok(seq![v] + vs),
                    Err(x) => Err(x),
                }
            } else {
                Err(Error::InvalidData)
            },
            Err(x) => Err(x),
        }
    }
}

/// Array elements `k..n` of type `t`: element `k` runs from `cur` to the
/// end that offset `k` of the table at `i + l` gives.
pub open spec fn dec_gv_items(
    e: Endian,
    b: Seq<u8>,
    t: SigType,
    i: int,
    k: int,
    n: int,
    cur: int,
    l: int,
    w: int,
    base: int,
    d: ContainerDepths,
) -> Result<Seq<ValueModel>, Error>
    decreases depth_budget(d), t, 2int, n - k,
{
    if k >= n {
        Ok(Seq::empty())
    } else {
        let at = i + l + k * w;
        let off = offset_from(b.subrange(at, at + w), w);
        if off > l || i + off < cur {
            Err(Error::InvalidData)
        } else {
            match dec(Format::GVariant, e, b, t, cur, i + off, base, d) {
                Ok((v, j)) => if j != i + off {
                    Err(Error::InvalidData)
                } else {
                    match dec_gv_items(e, b, t, i, k + 1, n, i + off, l, w, base, d) {
                        Ok(vs) => Ok(seq![v] + vs),
                        Err(x) => Err(x),
                    }
                },
                Err(x) => Err(x),
            }
        }
    }
}

/// One dictionary entry of the dictionary type `t` filling `b[s..ee]`.
pub open spec fn dec_gv_entry(
    e: Endian,
    b: Seq<u8>,
    t: SigType,
    s: int,
    ee: int,
    base: int,
    d: ContainerDepths,
) -> Result<(ValueModel, ValueModel), Error>
    decreases depth_budget(d), t, 1int, 0int,
{
    let f = Format::GVariant;
    match t {
        SigType::Dict(kt, vt) => if is_fixed_type(*kt) {
            match dec(f, e, b, *kt, s, ee, base, d) {
                Ok((k, j)) => match dec(f, e, b, *vt, j, ee, base, d) {
                    Ok((v, j2)) => if j2 == ee {
                        Ok((k, v))
                    } else {
                        Err(Error::InvalidData)
                    },
                    Err(x) => Err(x),
                },
                Err(x) => Err(x),
            }
        } else {
            let sz = ee - s;
            let w = offset_width(sz);
            if sz < w {
                Err(Error::Truncated)
            } else {
                let ko = offset_from(b.subrange(ee - w, ee), w);
                if ko > sz - w {
                    Err(Error::Truncated)
                } else {
                    match dec(f, e, b, *kt, s, s + ko, base, d) {
                        Ok((k, j)) => if j != s + ko {
                            Err(Error::InvalidData)
                        } else {
                            match dec(f, e, b, *vt, s + ko, ee - w, base, d) {
                                Ok((v, j2)) => if j2 != ee - w {
                                    Err(Error::InvalidData)
                                } else {
                                    Ok((k, v))
                                },
                                Err(x) => Err(x),
                            }
                        },
                        Err(x) => Err(x),
                    }
                }
            }
        },
        _ => Err(Error::SignatureMismatch),
    }
}

/// Dictionary entries `k..n`, located as `dec_gv_items` locates elements.
pub open spec fn dec_gv_entry_items(
    e: Endian,
    b: Seq<u8>,
    t: SigType,
    i: int,
    k: int,
    n: int,
    cur: int,
    l: int,
    w: int,
    base: int,
    d: ContainerDepths,
) -> Result<Seq<(ValueModel, ValueModel)>, Error>
    decreases depth_budget(d), t, 2int, n - k,
{
    if k >= n {
        Ok(Seq::empty())
    } else {
        let at = i + l + k * w;
        let off = offset_from(b.subrange(at, at + w), w);
        if off > l || i + off < cur {
            Err(Error::InvalidData)
        } else {
            match dec_gv_entry(e, b, t, cur, i + off, base, d) {
                Ok(kv) => match dec_gv_entry_items(e, b, t, i, k + 1, n, i + off, l, w, base, d) {
                    Ok(es) => Ok(seq![kv] + es),
                    Err(x) => Err(x),
                },
                Err(x) => Err(x),
            }
        }
    }
}

/// Structure fields of types `fs` from `cur`, in a structure at `i..end`
/// whose fields end by `rend` and whose offsets of width `w` stand back to
/// front at its end; `idx` framed fields are already read.
pub open spec fn dec_gv_fields(
    e: Endian,
    b: Seq<u8>,
    fs: Seq<SigType>,
    cur: int,
    idx: int,
    i: int,
    end: int,
    rend: int,
    w: int,
    base: int,
    d: ContainerDepths,
) -> Result<Seq<ValueModel>, Error>
    decreases depth_budget(d), fs, 2int, 0int,
{
    let f = Format::GVariant;
    if fs.len() == 0 {
        if cur == rend {
            Ok(Seq::empty())
        } else {
            Err(Error::InvalidData)
        }
    } else if fs.len() == 1 {
        match dec(f, e, b, fs[0], cur, rend, base, d) {
            Ok((v, j)) => if j == rend {
                Ok(seq![v])
            } else {
                Err(Error::InvalidData)
            },
            Err(x) => Err(x),
        }
    } else if is_fixed_type(fs[0]) {
        match dec(f, e, b, fs[0], cur, rend, base, d) {
            Ok((v, j)) => match dec_gv_fields(e, b, fs.drop_first(), j, idx, i, end, rend, w, base, d) {
                Ok(vs) => Ok(seq![v] + vs),
                Err(x) => Err(x),
            },
            Err(x) => Err(x),
        }
    } else {
        let at = end - (idx + 1) * w;
        let fe = i + offset_from(b.subrange(at, at + w), w);
        if fe < cur || fe > rend {
            Err(Error::InvalidData)
        } else {
            match dec(f, e, b, fs[0], cur, fe, base, d) {
                Ok((v, j)) => if j != fe {
                    Err(Error::InvalidData)
                } else {
                    match dec_gv_fields(e, b, fs.drop_first(), fe, idx + 1, i, end, rend, w, base, d) {
                        Ok(vs) => Ok(seq![v] + vs),
                        Err(x) => Err(x),
                    }
                },
                Err(x) => Err(x),
            }
        }
    }
}

/// An array, dictionary, structure or optional value in the D-Bus format.
pub open spec fn dec_container(
    e: Endian,
    b: Seq<u8>,
    t: SigType,
    i: int,
    end: int,
    base: int,
    d: ContainerDepths,
) -> Result<(ValueModel, int), Error>
    decreases depth_budget(d), t, 0int, 0int,
{
    let f = Format::DBus;
    match t {
        SigType::Structure(fs) => match enter_structure(d) {
            Err(x) => Err(x),
            Ok(d2) => if depth_budget(d2) < depth_budget(d) && depth_budget(d2) >= 0 {
                let p = pad(base + i, 8);
                if i + p > end {
                    Err(Error::Truncated)
                } else {
                    match dec_fields(e, b, fs, i + p, end, base, d2) {
                        Ok((vs, k)) => Ok((ValueModel::Structure(vs), k)),
                        Err(x) => Err(x),
                    }
                }
            } else {
                Err(Error::InvalidData)
            },
        },
        _ => match enter_array(d) {
            Err(x) => Err(x),
            Ok(d2) => if depth_budget(d2) < depth_budget(d) && depth_budget(d2) >= 0 {
                let p = pad(base + i, 4);
                if i + p + 4 > end {
                    Err(Error::Truncated)
                } else {
                    let n = u32_from(b.subrange(i + p, i + p + 4), e) as int;
                    let a = match t {
                        SigType::Array(el) => alignment(f, *el),
                        SigType::Maybe(el) => alignment(f, *el),
                        _ => 8,
                    };
                    let s = i + p + 4 + pad(base + i + p + 4, a);
                    if s + n > end {
                        Err(Error::Truncated)
                    } else {
                        match t {
                            SigType::Dict(k, v) => match dec_entries(
                                e,
                                b,
                                t,
                                s,
                                s + n,
                                base,
                                d2,
                            ) {
                                Ok(es) => Ok((ValueModel::Dict(*k, *v, es), s + n)),
                                Err(x) => Err(x),
                            },
                            SigType::Array(el) => match dec_elems(e, b, *el, s, s + n, base, d2) {
                                Ok(vs) => Ok((ValueModel::Array(*el, vs), s + n)),
                                Err(x) => Err(x),
                            },
                            SigType::Maybe(el) => match dec_elems(e, b, *el, s, s + n, base, d2) {
                                Ok(vs) => if vs.len() == 0 {
                                    Ok((ValueModel::Maybe(*el, None), s + n))
                                } else if vs.len() == 1 {
                                    Ok((ValueModel::Maybe(*el, Some(Box::new(vs[0]))), s + n))
                                } else {
                                    Err(Error::InvalidData)
                                },
                                Err(x) => Err(x),
                            },
                            _ => Err(Error::SignatureMismatch),
                        }
                    }
                }
            } else {
                Err(Error::InvalidData)
            },
        },
    }
}

/// Array elements of type `t` from index `i` that fill `b[i..stop]` exactly.
pub open spec fn dec_elems(
    e: Endian,
    b: Seq<u8>,
    t: SigType,
    i: int,
    stop: int,
    base: int,
    d: ContainerDepths,
) -> Result<Seq<ValueModel>, Error>
    decreases depth_budget(d), t, 1int, stop - i,
{
    if i == stop {
        Ok(Seq::empty())
    } else if i > stop {
        Err(Error::InvalidData)
    } else {
        match dec(Format::DBus, e, b, t, i, stop, base, d) {
            Ok((v, j)) => if i < j <= stop {
                match dec_elems(e, b, t, j, stop, base, d) {
                    Ok(vs) => Ok(seq![v] + vs),
                    Err(x) => Err(x),
                }
            } else {
                Err(Error::InvalidData)
            },
            Err(x) => Err(x),
        }
    }
}

/// Dictionary entries of the dictionary type `t` from index `i` that fill
/// `b[i..stop]` exactly: each padded to 8, then key, then value.
pub open spec fn dec_entries(
    e: Endian,
    b: Seq<u8>,
    t: SigType,
    i: int,
    stop: int,
    base: int,
    d: ContainerDepths,
) -> Result<Seq<(ValueModel, ValueModel)>, Error>
    decreases depth_budget(d), t, 0int, stop - i,
{
    if i == stop {
        Ok(Seq::empty())
    } else if i > stop {
        Err(Error::InvalidData)
    } else {
        match t {
            SigType::Dict(kt, vt) => {
                let p = pad(base + i, 8);
                if i + p > stop {
                    Err(Error::Truncated)
                } else {
                    match dec(Format::DBus, e, b, *kt, i + p, stop, base, d) {
                        Ok((k, j)) => match dec(Format::DBus, e, b, *vt, j, stop, base, d) {
                            Ok((v, j2)) => if i < j2 <= stop {
                                match dec_entries(e, b, t, j2, stop, base, d) {
                                    Ok(es) => Ok(seq![(k, v)] + es),
                                    Err(x) => Err(x),
                                }
                            } else {
                                Err(Error::InvalidData)
                            },
                            Err(x) => Err(x),
                        },
                        Err(x) => Err(x),
                    }
                }
            },
            _ => Err(Error::SignatureMismatch),
        }
    }
}

/// Structure fields of types `fs`, one after another from index `i`.
pub open spec fn dec_fields(
    e: Endian,
    b: Seq<u8>,
    fs: Seq<SigType>,
    i: int,
    end: int,
    base: int,
    d: ContainerDepths,
) -> Result<(Seq<ValueModel>, int), Error>
    decreases depth_budget(d), fs, 0int, 0int,
{
    if fs.len() == 0 {
        Ok((Seq::empty(), i))
    } else {
        match dec(Format::DBus, e, b, fs[0], i, end, base, d) {
            Ok((v, j)) => match dec_fields(e, b, fs.drop_first(), j, end, base, d) {
                Ok((vs, k)) => Ok((seq![v] + vs, k)),
                Err(x) => Err(x),
            },
            Err(x) => Err(x),
        }
    }
}

/// What decoding a whole buffer as type `t` in a context gives: the value
/// and the number of bytes it takes.
pub open spec fn decoding(ctxt: Context, b: Seq<u8>, t: SigType) -> Result<(ValueModel, int), Error> {
    dec(
        ctxt.format,
        ctxt.endian,
        b,
        t,
        0,
        b.len() as int,
        ctxt.position as int,
        ContainerDepths { array: 0, structure: 0, variant: 0 },
    )
}

/// Decodes a value of type `t` from the start of `b` in a context: the value
/// and the number of bytes it takes, as `decoding` gives them, or its error.
pub fn from_slice(ctxt: Context, b: &[u8], t: &Signature) -> (r: Result<(Value, usize), Error>)
    ensures
        match decoding(ctxt, b@, t@) {
            Ok((v, n)) => r matches Ok((rv, rn)) && rv@ == v && rn == n,
            Err(x) => r == Err::<(Value, usize), Error>(x),
        },
{
    let d = ContainerDepths::new();
    dec_at(ctxt.format, ctxt.endian, b, t, 0, b.len(), ctxt.position % 8, Ghost(ctxt.position as int), d)
}

/// Relies on `std::str::from_utf8`: it accepts exactly the well-formed UTF-8
/// byte sequences, and the string it returns is made of those same bytes.
#[verifier::external_body]
fn str_from_utf8(b: &[u8]) -> (r: Option<&str>)
    ensures
        r is Some <==> valid_utf8(b@),
        r matches Some(s) ==> s.spec_bytes() == b@,
{
    std::str::from_utf8(b).ok()
}

/// The text of well-formed UTF-8 bytes, or invalid data.
fn text_of(b: &[u8]) -> (r: Result<String, Error>)
    ensures
        match utf8_text(b@) {
            Ok(c) => r matches Ok(s) && s@ == c,
            Err(x) => r == Err::<String, Error>(x),
        },
{
    match str_from_utf8(b) {
        Some(s) => {
            proof {
                vstd::utf8::encode_utf8_decode_utf8(s@);
            }
            Ok(s.to_owned())
        },
        None => Err(Error::InvalidData),
    }
}

/// The offset modulo 8 of index `i`.
fn offset8_of(i: usize, base8: usize, base: Ghost<int>) -> (r: usize)
    requires
        base8 == base@ % 8,
        base@ >= 0,
    ensures
        r == (base@ + i) % 8,
{
    let r = (base8 + i % 8) % 8;
    assert(r == (base@ + i) % 8) by (nonlinear_arith)
        requires
            base8 == base@ % 8,
            base@ >= 0,
            r == (base8 + i % 8) % 8,
    ;
    r
}

/// The padding at index `i` for an alignment.
fn pad_at(i: usize, base8: usize, base: Ghost<int>, align: usize) -> (r: usize)
    requires
        base8 == base@ % 8,
        base@ >= 0,
        align == 1 || align == 2 || align == 4 || align == 8,
    ensures
        r == pad(base@ + i, align as int),
        r < 8,
{
    let o = offset8_of(i, base8, base);
    proof {
        lemma_pad_mod8(base@ + i, align as int);
    }
    padding_for(o, align)
}

fn read_fixed(
    f: Format,
    e: Endian,
    b: &[u8],
    t: &Signature,
    i: usize,
    end: usize,
    base8: usize,
    base: Ghost<int>,
) -> (r: Result<(Value, usize), Error>)
    requires
        base8 == base@ % 8,
        base@ >= 0,
        i <= end <= b@.len(),
        is_fixed_type(t@),
    ensures
        match dec_fixed(f, e, b@, t@, i as int, end as int, base@) {
            Ok((v, j)) => r matches Ok((rv, rj)) && rv@ == v && rj == j,
            Err(x) => r == Err::<(Value, usize), Error>(x),
        },
        r matches Ok((_, rj)) ==> i <= rj <= end,
{
    let n: usize = match t {
        Signature::U8 => 1,
        Signature::Bool => if f == Format::DBus {
            4
        } else {
            1
        },
        Signature::I16 | Signature::U16 => 2,
        Signature::I32 | Signature::U32 | Signature::Fd => 4,
        _ => 8,
    };
    let p = pad_at(i, base8, base, n);
    if end - i < p + n {
        return Err(Error::Truncated);
    }
    let at = i + p;
    let ghost bytes = b@.subrange(at as int, at + n);
    let v = match t {
        Signature::U8 => Value::U8(b[at]),
        Signature::Bool => {
            let x: u32 = if f == Format::DBus {
                read_u32(b, at, e)
            } else {
                b[at] as u32
            };
            if x == 0 {
                Value::Bool(false)
            } else if x == 1 {
                Value::Bool(true)
            } else {
                return Err(Error::InvalidData);
            }
        },
        Signature::I16 => Value::I16(read_u16(b, at, e) as i16),
        Signature::U16 => Value::U16(read_u16(b, at, e)),
        Signature::I32 => Value::I32(read_u32(b, at, e) as i32),
        Signature::U32 => Value::U32(read_u32(b, at, e)),
        Signature::Fd => Value::Fd(read_u32(b, at, e)),
        Signature::I64 => Value::I64(read_u64(b, at, e) as i64),
        Signature::U64 => Value::U64(read_u64(b, at, e)),
        _ => Value::F64(read_u64(b, at, e)),
    };
    Ok((v, at + n))
}

/// Where a string body lies: its start, its length and the index after it.
fn read_str_bytes(
    f: Format,
    e: Endian,
    b: &[u8],
    i: usize,
    end: usize,
    base8: usize,
    base: Ghost<int>,
) -> (r: Result<(usize, usize, usize), Error>)
    requires
        base8 == base@ % 8,
        base@ >= 0,
        i <= end <= b@.len(),
    ensures
        match dec_str_bytes(f, e, b@, i as int, end as int, base@) {
            Ok((s, j)) => r matches Ok((st, n, rj)) && st + n <= b@.len() && b@.subrange(
                st as int,
                st + n,
            ) == s && rj == j,
            Err(x) => r == Err::<(usize, usize, usize), Error>(x),
        },
{
    if f == Format::DBus {
        let p = pad_at(i, base8, base, 4);
        if end - i < p + 4 {
            return Err(Error::Truncated);
        }
        let n = read_u32(b, i + p, e);
        let s = i + p + 4;
        if ((end - s) as u64) < (n as u64) + 1 {
            return Err(Error::Truncated);
        }
        let n = n as usize;
        if b[s + n] != 0 {
            return Err(Error::InvalidData);
        }
        Ok((s, n, s + n + 1))
    } else {
        if i >= end || b[end - 1] != 0 {
            return Err(Error::Truncated);
        }
        Ok((i, end - 1 - i, end))
    }
}

/// Where a signature text lies: its start, its length and the index after it.
fn read_sig_bytes(f: Format, b: &[u8], i: usize, end: usize) -> (r: Result<
    (usize, usize, usize),
    Error,
>)
    requires
        i <= end <= b@.len(),
    ensures
        match dec_sig_bytes(f, b@, i as int, end as int) {
            Ok((s, j)) => r matches Ok((st, n, rj)) && st + n <= b@.len() && b@.subrange(
                st as int,
                st + n,
            ) == s && rj == j,
            Err(x) => r == Err::<(usize, usize, usize), Error>(x),
        },
{
    if f == Format::DBus {
        if i >= end {
            return Err(Error::Truncated);
        }
        let n = b[i] as usize;
        if end - i < n + 2 {
            return Err(Error::Truncated);
        }
        if b[i + 1 + n] != 0 {
            return Err(Error::InvalidData);
        }
        Ok((i + 1, n, i + n + 2))
    } else {
        if i >= end || b[end - 1] != 0 {
            return Err(Error::Truncated);
        }
        Ok((i, end - 1 - i, end))
    }
}

/// The signature a text in the data denotes.
fn sig_from_data(b: &[u8], st: usize, n: usize) -> (r: Result<Signature, Error>)
    requires
        st + n <= b@.len(),
    ensures
        match sig_in_data(b@.subrange(st as int, st + n)) {
            Ok(t) => r matches Ok(s) && s@ == t,
            Err(x) => r == Err::<Signature, Error>(x),
        },
{
    let len = b.len();
    assert(st + n <= len);
    let txt = vstd::slice::slice_subrange(b, st, st + n);
    match Signature::from_bytes(txt) {
        Ok(s) => Ok(s),
        Err(_) => Err(Error::InvalidData),
    }
}

/// Reads the value of type `t` at index `i`, as `dec` describes.
#[verifier::spinoff_prover]
#[verifier::rlimit(100)]
fn dec_at(
    f: Format,
    e: Endian,
    b: &[u8],
    t: &Signature,
    i: usize,
    end: usize,
    base8: usize,
    base: Ghost<int>,
    d: ContainerDepths,
) -> (r: Result<(Value, usize), Error>)
    requires
        base8 == base@ % 8,
        base@ >= 0,
        end <= b@.len(),
        depths_ok(d),
    ensures
        match dec(f, e, b@, t@, i as int, end as int, base@, d) {
            Ok((v, j)) => r matches Ok((rv, rj)) && rv@ == v && rj == j,
            Err(x) => r == Err::<(Value, usize), Error>(x),
        },
        r matches Ok((_, rj)) ==> i <= rj <= end,
    decreases depth_budget(d), t@, 3int,
{
    if i > end {
        return Err(Error::Truncated);
    }
    match t {
        Signature::Str | Signature::ObjectPath => {
            let (st, n, j) = match read_str_bytes(f, e, b, i, end, base8, base) {
                Ok(x) => x,
                Err(x) => {
                    return Err(x);
                },
            };
            let len = b.len();
            assert(st + n <= len);
            let text = match text_of(vstd::slice::slice_subrange(b, st, st + n)) {
                Ok(x) => x,
                Err(x) => {
                    return Err(x);
                },
            };
            match t {
                Signature::Str => Ok((Value::Str(text), j)),
                _ => Ok((Value::ObjectPath(text), j)),
            }
        },
        Signature::Signature => {
            let (st, n, j) = match read_sig_bytes(f, b, i, end) {
                Ok(x) => x,
                Err(x) => {
                    return Err(x);
                },
            };
            match sig_from_data(b, st, n) {
                Ok(s) => Ok((Value::Signature(s), j)),
                Err(x) => Err(x),
            }
        },
        Signature::Variant => dec_variant_at(f, e, b, t, i, end, base8, base, d),
        Signature::Array(_) | Signature::Dict(_, _) | Signature::Structure(_) | Signature::Maybe(
            _,
        ) => {
            if f == Format::GVariant {
                return dec_gv_container_at(e, b, t, i, end, base8, base, d);
            }
            dec_container_at(e, b, t, i, end, base8, base, d)
        },
        _ => read_fixed(f, e, b, t, i, end, base8, base),
    }
}

/// Reads a variant at index `i`.
#[verifier::spinoff_prover]
#[verifier::rlimit(100)]
fn dec_variant_at(
    f: Format,
    e: Endian,
    b: &[u8],
    t: &Signature,
    i: usize,
    end: usize,
    base8: usize,
    base: Ghost<int>,
    d: ContainerDepths,
) -> (r: Result<(Value, usize), Error>)
    requires
        base8 == base@ % 8,
        base@ >= 0,
        i <= end <= b@.len(),
        depths_ok(d),
        t@ == SigType::Variant,
    ensures
        match dec(f, e, b@, t@, i as int, end as int, base@, d) {
            Ok((v, j)) => r matches Ok((rv, rj)) && rv@ == v && rj == j,
            Err(x) => r == Err::<(Value, usize), Error>(x),
        },
        r matches Ok((_, rj)) ==> i <= rj <= end,
    decreases depth_budget(d), t@, 2int,
{
    let d2 = match d.inc_variant() {
        Ok(d2) => d2,
        Err(x) => {
            return Err(x);
        },
    };
    if f == Format::DBus {
        let (st, n, j) = match read_sig_bytes(f, b, i, end) {
            Ok(x) => x,
            Err(x) => {
                return Err(x);
            },
        };
        let sig = match sig_from_data(b, st, n) {
            Ok(s) => s,
            Err(x) => {
                return Err(x);
            },
        };
        match dec_at(f, e, b, &sig, j, end, base8, base, d2) {
            Ok((v, k)) => Ok((Value::Value(Box::new(v)), k)),
            Err(x) => Err(x),
        }
    } else {
        let lo = i;
        let mut z: usize = end;
        while z > lo && b[z - 1] != 0
            invariant
                lo <= z <= end <= b@.len(),
                last_nul(b@, lo as int, end as int) == last_nul(b@, lo as int, z as int),
            decreases z,
        {
            z = z - 1;
        }
        if z == lo || z == end {
            return Err(Error::Truncated);
        }
        let z = z - 1;
        let sig = match sig_from_data(b, z + 1, end - (z + 1)) {
            Ok(s) => s,
            Err(x) => {
                return Err(x);
            },
        };
        match dec_at(f, e, b, &sig, lo, z, base8, base, d2) {
            Ok((v, k)) => {
                if k != z {
                    return Err(Error::InvalidData);
                }
                Ok((Value::Value(Box::new(v)), end))
            },
            Err(x) => Err(x),
        }
    }
}

fn dec_container_at(
    e: Endian,
    b: &[u8],
    t: &Signature,
    i: usize,
    end: usize,
    base8: usize,
    base: Ghost<int>,
    d: ContainerDepths,
) -> (r: Result<(Value, usize), Error>)
    requires
        base8 == base@ % 8,
        base@ >= 0,
        i <= end <= b@.len(),
        depths_ok(d),
        t@ is Array || t@ is Dict || t@ is Structure || t@ is Maybe,
    ensures
        match dec_container(e, b@, t@, i as int, end as int, base@, d) {
            Ok((v, j)) => r matches Ok((rv, rj)) && rv@ == v && rj == j,
            Err(x) => r == Err::<(Value, usize), Error>(x),
        },
        r matches Ok((_, rj)) ==> i <= rj <= end,
    decreases depth_budget(d), t@, 2int,
{
    match t {
        Signature::Structure(fs) => {
            let d2 = match d.inc_structure() {
                Ok(d2) => d2,
                Err(x) => {
                    return Err(x);
                },
            };
            let p = pad_at(i, base8, base, 8);
            if end - i < p {
                return Err(Error::Truncated);
            }
            match dec_fields_at(e, b, t, fs, i + p, end, base8, base, d2) {
                Ok((vs, k)) => {
                    let v = Value::Structure(Structure { fields: vs });
                    assert(v@->Structure_0 =~= views(vs@));
                    Ok((v, k))
                },
                Err(x) => Err(x),
            }
        },
        _ => dec_array_like_at(e, b, t, i, end, base8, base, d),
    }
}

/// Reads an array, dictionary or optional value in the D-Bus format.
#[verifier::spinoff_prover]
#[verifier::rlimit(100)]
fn dec_array_like_at(
    e: Endian,
    b: &[u8],
    t: &Signature,
    i: usize,
    end: usize,
    base8: usize,
    base: Ghost<int>,
    d: ContainerDepths,
) -> (r: Result<(Value, usize), Error>)
    requires
        base8 == base@ % 8,
        base@ >= 0,
        i <= end <= b@.len(),
        depths_ok(d),
        t@ is Array || t@ is Dict || t@ is Maybe,
    ensures
        match dec_container(e, b@, t@, i as int, end as int, base@, d) {
            Ok((v, j)) => r matches Ok((rv, rj)) && rv@ == v && rj == j,
            Err(x) => r == Err::<(Value, usize), Error>(x),
        },
        r matches Ok((_, rj)) ==> i <= rj <= end,
    decreases depth_budget(d), t@, 1int,
{
    let d2 = match d.inc_array() {
        Ok(d2) => d2,
        Err(x) => {
            return Err(x);
        },
    };
    let p = pad_at(i, base8, base, 4);
    if end - i < p + 4 {
        return Err(Error::Truncated);
    }
    let n = read_u32(b, i + p, e);
    let a: usize = match t {
        Signature::Array(el) => padding_alignment_of(Format::DBus, el),
        Signature::Maybe(el) => padding_alignment_of(Format::DBus, el),
        _ => 8,
    };
    let p2 = pad_at(i + p + 4, base8, base, a);
    if end - (i + p + 4) < p2 {
        return Err(Error::Truncated);
    }
    let s = i + p + 4 + p2;
    if ((end - s) as u64) < n as u64 {
        return Err(Error::Truncated);
    }
    let stop = s + n as usize;
    finish_array_like(e, b, t, s, stop, base8, base, d2)
}

/// Reads array elements of type `t` that fill `b[i..stop]` exactly.
/// Reads the body `b[s..stop]` of an array, dictionary or optional value in
/// the D-Bus format.
#[verifier::spinoff_prover]
#[verifier::rlimit(100)]
fn finish_array_like(
    e: Endian,
    b: &[u8],
    t: &Signature,
    s: usize,
    stop: usize,
    base8: usize,
    base: Ghost<int>,
    d2: ContainerDepths,
) -> (r: Result<(Value, usize), Error>)
    requires
        base8 == base@ % 8,
        base@ >= 0,
        s <= stop <= b@.len(),
        depths_ok(d2),
        t@ is Array || t@ is Dict || t@ is Maybe,
    ensures
        ({
            let want = match t@ {
                SigType::Dict(k, v) => match dec_entries(e, b@, t@, s as int, stop as int, base@, d2) {
                    Ok(es) => Ok((ValueModel::Dict(*k, *v, es), stop as int)),
                    Err(x) => Err(x),
                },
                SigType::Array(el) => match dec_elems(e, b@, *el, s as int, stop as int, base@, d2) {
                    Ok(vs) => Ok((ValueModel::Array(*el, vs), stop as int)),
                    Err(x) => Err(x),
                },
                SigType::Maybe(el) => match dec_elems(e, b@, *el, s as int, stop as int, base@, d2) {
                    Ok(vs) => if vs.len() == 0 {
                        Ok((ValueModel::Maybe(*el, None), stop as int))
                    } else if vs.len() == 1 {
                        Ok((ValueModel::Maybe(*el, Some(Box::new(vs[0]))), stop as int))
                    } else {
                        Err(Error::InvalidData)
                    },
                    Err(x) => Err(x),
                },
                _ => Err(Error::SignatureMismatch),
            };
            match want {
                Ok((v, j)) => r matches Ok((rv, rj)) && rv@ == v && rj == j,
                Err(x) => r == Err::<(Value, usize), Error>(x),
            }
        }),
    decreases depth_budget(d2), t@, 5int,
{
    match t {
        Signature::Array(el) => {
            let vs = match dec_elems_at(e, b, el, s, stop, base8, base, d2) {
                Ok(vs) => vs,
                Err(x) => {
                    return Err(x);
                },
            };
            let v = Value::Array(Array { elem: el.duplicate(), elems: vs });
            assert(v@->Array_1 =~= views(vs@));
            Ok((v, stop))
        },
        Signature::Maybe(el) => {
            let mut vs = match dec_elems_at(e, b, el, s, stop, base8, base, d2) {
                Ok(vs) => vs,
                Err(x) => {
                    return Err(x);
                },
            };
            if vs.len() > 1 {
                return Err(Error::InvalidData);
            }
            let inner = vs.pop();
            match inner {
                Some(x) => {
                    let v = Value::Maybe(Maybe { sig: el.duplicate(), inner: Some(Box::new(x)) });
                    Ok((v, stop))
                },
                None => Ok((Value::Maybe(Maybe { sig: el.duplicate(), inner: None }), stop)),
            }
        },
        _ => {
            let es = match dec_entries_at(e, b, t, s, stop, base8, base, d2) {
                Ok(es) => es,
                Err(x) => {
                    return Err(x);
                },
            };
            let (k, vt) = match t {
                Signature::Dict(k, vt) => (k.duplicate(), vt.duplicate()),
                _ => {
                    return Err(Error::SignatureMismatch);
                },
            };
            let v = Value::Dict(Dict { key: k, value: vt, entries: es });
            assert(v@->Dict_2 =~= entry_views(es@));
            Ok((v, stop))
        },
    }}

fn dec_elems_at(
    e: Endian,
    b: &[u8],
    t: &Signature,
    i: usize,
    stop: usize,
    base8: usize,
    base: Ghost<int>,
    d: ContainerDepths,
) -> (r: Result<Vec<Value>, Error>)
    requires
        base8 == base@ % 8,
        base@ >= 0,
        i <= stop <= b@.len(),
        depths_ok(d),
    ensures
        match dec_elems(e, b@, t@, i as int, stop as int, base@, d) {
            Ok(vs) => r matches Ok(rv) && views(rv@) == vs,
            Err(x) => r == Err::<Vec<Value>, Error>(x),
        },
    decreases depth_budget(d), t@, 4int,
{
    let mut out: Vec<Value> = Vec::new();
    let mut cur = i;
    while cur < stop
        invariant
            i <= cur <= stop <= b@.len(),
            base8 == base@ % 8,
            base@ >= 0,
            depths_ok(d),
            match dec_elems(e, b@, t@, i as int, stop as int, base@, d) {
                Ok(all) => match dec_elems(e, b@, t@, cur as int, stop as int, base@, d) {
                    Ok(rest) => all == views(out@) + rest,
                    Err(_) => false,
                },
                Err(x) => dec_elems(e, b@, t@, cur as int, stop as int, base@, d) == Err::<
                    Seq<ValueModel>,
                    Error,
                >(x),
            },
        decreases stop - cur,
    {
        let (v, j) = match dec_at(Format::DBus, e, b, t, cur, stop, base8, base, d) {
            Ok(x) => x,
            Err(x) => {
                return Err(x);
            },
        };
        if !(cur < j && j <= stop) {
            return Err(Error::InvalidData);
        }
        let ghost before = views(out@);
        let ghost vv = v@;
        out.push(v);
        proof {
            assert(views(out@) =~= before.push(vv));
            match dec_elems(e, b@, t@, j as int, stop as int, base@, d) {
                Ok(rest) => {
                    assert(before + (seq![vv] + rest) =~= views(out@) + rest);
                },
                Err(_) => {},
            }
        }
        cur = j;
    }
    assert(views(out@) + Seq::<ValueModel>::empty() =~= views(out@));
    Ok(out)
}

/// Reads dictionary entries of the dictionary type `t` that fill
/// `b[i..stop]` exactly.
fn dec_entries_at(
    e: Endian,
    b: &[u8],
    t: &Signature,
    i: usize,
    stop: usize,
    base8: usize,
    base: Ghost<int>,
    d: ContainerDepths,
) -> (r: Result<Vec<(Value, Value)>, Error>)
    requires
        base8 == base@ % 8,
        base@ >= 0,
        i <= stop <= b@.len(),
        depths_ok(d),
    ensures
        match dec_entries(e, b@, t@, i as int, stop as int, base@, d) {
            Ok(es) => r matches Ok(rv) && entry_views(rv@) == es,
            Err(x) => r == Err::<Vec<(Value, Value)>, Error>(x),
        },
    decreases depth_budget(d), t@, 4int,
{
    let (kt, vt) = match t {
        Signature::Dict(kt, vt) => (kt, vt),
        _ => {
            if i == stop {
                return Ok(Vec::new());
            }
            return Err(Error::SignatureMismatch);
        },
    };
    let mut out: Vec<(Value, Value)> = Vec::new();
    let mut cur = i;
    while cur < stop
        invariant
            i <= cur <= stop <= b@.len(),
            base8 == base@ % 8,
            base@ >= 0,
            depths_ok(d),
            t@ == SigType::Dict(Box::new(kt@), Box::new(vt@)),
            match dec_entries(e, b@, t@, i as int, stop as int, base@, d) {
                Ok(all) => match dec_entries(e, b@, t@, cur as int, stop as int, base@, d) {
                    Ok(rest) => all == entry_views(out@) + rest,
                    Err(_) => false,
                },
                Err(x) => dec_entries(e, b@, t@, cur as int, stop as int, base@, d) == Err::<
                    Seq<(ValueModel, ValueModel)>,
                    Error,
                >(x),
            },
        decreases stop - cur,
    {
        let p = pad_at(cur, base8, base, 8);
        if stop - cur < p {
            return Err(Error::Truncated);
        }
        let (k, j) = match dec_at(Format::DBus, e, b, kt, cur + p, stop, base8, base, d) {
            Ok(x) => x,
            Err(x) => {
                return Err(x);
            },
        };
        let (v, j2) = match dec_at(Format::DBus, e, b, vt, j, stop, base8, base, d) {
            Ok(x) => x,
            Err(x) => {
                return Err(x);
            },
        };
        if !(cur < j2 && j2 <= stop) {
            return Err(Error::InvalidData);
        }
        let ghost before = entry_views(out@);
        let ghost kv = (k@, v@);
        out.push((k, v));
        proof {
            assert(entry_views(out@) =~= before.push(kv));
            match dec_entries(e, b@, t@, j2 as int, stop as int, base@, d) {
                Ok(rest) => {
                    assert(before + (seq![kv] + rest) =~= entry_views(out@) + rest);
                },
                Err(_) => {},
            }
        }
        cur = j2;
    }
    assert(entry_views(out@) + Seq::<(ValueModel, ValueModel)>::empty() =~= entry_views(out@));
    Ok(out)
}

/// Reads the fields of the structure type `t`, whose field types are `fs`.
fn dec_fields_at(
    e: Endian,
    b: &[u8],
    t: &Signature,
    fs: &Vec<Signature>,
    i: usize,
    end: usize,
    base8: usize,
    base: Ghost<int>,
    d: ContainerDepths,
) -> (r: Result<(Vec<Value>, usize), Error>)
    requires
        base8 == base@ % 8,
        base@ >= 0,
        i <= end <= b@.len(),
        depths_ok(d),
        *t == Signature::Structure(*fs),
    ensures
        match dec_fields(e, b@, t@->Structure_0, i as int, end as int, base@, d) {
            Ok((vs, k)) => r matches Ok((rv, rk)) && views(rv@) == vs && rk == k,
            Err(x) => r == Err::<(Vec<Value>, usize), Error>(x),
        },
        r matches Ok((_, rk)) ==> i <= rk <= end,
    decreases depth_budget(d), t@, 4int,
{
    let ghost all = t@->Structure_0;
    let mut out: Vec<Value> = Vec::new();
    let mut cur = i;
    let mut n: usize = 0;
    assert(all.subrange(0, all.len() as int) =~= all);
    while n < fs.len()
        invariant
            n <= fs.len(),
            all.len() == fs.len(),
            all == t@->Structure_0,
            *t == Signature::Structure(*fs),
            forall|j: int| 0 <= j < fs.len() ==> #[trigger] all[j] == fs[j]@,
            i <= cur <= end <= b@.len(),
            base8 == base@ % 8,
            base@ >= 0,
            depths_ok(d),
            match dec_fields(e, b@, all, i as int, end as int, base@, d) {
                Ok((vs, k)) => match dec_fields(
                    e,
                    b@,
                    all.subrange(n as int, all.len() as int),
                    cur as int,
                    end as int,
                    base@,
                    d,
                ) {
                    Ok((rest, k2)) => vs == views(out@) + rest && k == k2,
                    Err(_) => false,
                },
                Err(x) => dec_fields(
                    e,
                    b@,
                    all.subrange(n as int, all.len() as int),
                    cur as int,
                    end as int,
                    base@,
                    d,
                ) == Err::<(Seq<ValueModel>, int), Error>(x),
            },
        decreases fs.len() - n,
    {
        let ghost rest = all.subrange(n as int, all.len() as int);
        assert(rest[0] == fs[n as int]@);
        assert(rest.drop_first() =~= all.subrange(n + 1, all.len() as int));
        let (v, j) = match dec_at(Format::DBus, e, b, &fs[n], cur, end, base8, base, d) {
            Ok(x) => x,
            Err(x) => {
                return Err(x);
            },
        };
        let ghost before = views(out@);
        let ghost vv = v@;
        out.push(v);
        proof {
            assert(views(out@) =~= before.push(vv));
            match dec_fields(e, b@, rest.drop_first(), j as int, end as int, base@, d) {
                Ok((r2, k2)) => {
                    assert(before + (seq![vv] + r2) =~= views(out@) + r2);
                },
                Err(_) => {},
            }
        }
        cur = j;
        n = n + 1;
    }
    assert(all.subrange(n as int, all.len() as int) =~= Seq::<SigType>::empty());
    assert(views(out@) + Seq::<ValueModel>::empty() =~= views(out@));
    Ok((out, cur))
}

/// Reads a framing offset of width `w` at `at`.
fn read_offset(b: &[u8], at: usize, w: usize) -> (r: u64)
    requires
        w == 1 || w == 2 || w == 4 || w == 8,
        at + w <= b@.len(),
    ensures
        r == offset_from(b@.subrange(at as int, at + w), w as int),
{
    if w == 1 {
        b[at] as u64
    } else if w == 2 {
        read_u16(b, at, Endian::Little) as u64
    } else if w == 4 {
        read_u32(b, at, Endian::Little) as u64
    } else {
        read_u64(b, at, Endian::Little)
    }
}

/// The offset width of a container of `size` bytes.
fn offset_width_exec(size: usize) -> (r: usize)
    ensures
        r == offset_width(size as int),
        r == 1 || r == 2 || r == 4 || r == 8,
{
    if size <= 0xff {
        1
    } else if size <= 0xffff {
        2
    } else if (size as u64) <= 0xffff_ffff {
        4
    } else {
        8
    }
}

/// Reads the offset table of `b[i..end]`, as `gv_table` describes.
fn read_table(b: &[u8], i: usize, end: usize) -> (r: Result<(usize, usize, usize), Error>)
    requires
        i <= end <= b@.len(),
    ensures
        match gv_table(b@, i as int, end as int) {
            Ok((l, w, n)) => r == Ok::<(usize, usize, usize), Error>((l as usize, w as usize, n as usize))
                && l + n * w == end - i && (w == 1 || w == 2 || w == 4 || w == 8),
            Err(x) => r == Err::<(usize, usize, usize), Error>(x),
        },
{
    let s = end - i;
    let w = offset_width_exec(s);
    if s < w {
        return Err(Error::Truncated);
    }
    let l = read_offset(b, end - w, w);
    if l > (s - w) as u64 {
        return Err(Error::Truncated);
    }
    let l = l as usize;
    if (s - l) % w != 0 {
        return Err(Error::InvalidData);
    }
    let n = (s - l) / w;
    assert(l + n * w == s) by (nonlinear_arith)
        requires
            (s - l) % (w as int) == 0,
            n == (s - l) / (w as int),
            w > 0,
            l <= s,
    ;
    Ok((l, w, n))
}

/// Reads a container in the GVariant format filling `b[i..end]`.
#[verifier::spinoff_prover]
#[verifier::rlimit(100)]
fn dec_gv_container_at(
    e: Endian,
    b: &[u8],
    t: &Signature,
    i: usize,
    end: usize,
    base8: usize,
    base: Ghost<int>,
    d: ContainerDepths,
) -> (r: Result<(Value, usize), Error>)
    requires
        base8 == base@ % 8,
        base@ >= 0,
        i <= end <= b@.len(),
        depths_ok(d),
        t@ is Array || t@ is Dict || t@ is Structure || t@ is Maybe,
    ensures
        match dec_gv_container(e, b@, t@, i as int, end as int, base@, d) {
            Ok((v, j)) => r matches Ok((rv, rj)) && rv@ == v && rj == j,
            Err(x) => r == Err::<(Value, usize), Error>(x),
        },
        r matches Ok((_, rj)) ==> i <= rj <= end,
    decreases depth_budget(d), t@, 2int,
{
    let f = Format::GVariant;
    match t {
        Signature::Structure(fs) => {
            let d2 = match d.inc_structure() {
                Ok(d2) => d2,
                Err(x) => {
                    return Err(x);
                },
            };
            let m = framed_count_exec(t, fs);
            let w = offset_width_exec(end - i);
            if m > (end - i) / w {
                assert(m * w > end - i) by (nonlinear_arith)
                    requires
                        m > (end - i) / (w as int),
                        w > 0,
                ;
                return Err(Error::Truncated);
            }
            assert(m * w <= end - i) by (nonlinear_arith)
                requires
                    m <= (end - i) / (w as int),
                    w > 0,
                    end >= i,
            ;
            let rend = end - m * w;
            assert(t@->Structure_0.subrange(0, fs.len() as int) =~= t@->Structure_0);
            match dec_gv_fields_at(e, b, t, fs, 0, i, 0, i, end, rend, w, m, base8, base, d2) {
                Ok(vs) => {
                    let v = Value::Structure(Structure { fields: vs });
                    assert(v@->Structure_0 =~= views(vs@));
                    Ok((v, end))
                },
                Err(x) => Err(x),
            }
        },
        _ => {
            let d2 = match d.inc_array() {
                Ok(d2) => d2,
                Err(x) => {
                    return Err(x);
                },
            };
            match t {
                Signature::Maybe(el) => dec_gv_maybe_at(e, b, el, i, end, base8, base, d2),
                Signature::Array(el) => {
                    let vs = if el.is_scalar() {
                        match dec_gv_seq_at(e, b, el, i, end, base8, base, d2) {
                            Ok(vs) => vs,
                            Err(x) => {
                                return Err(x);
                            },
                        }
                    } else if i == end {
                        let none: Vec<Value> = Vec::new();
                        assert(views(none@) =~= Seq::<ValueModel>::empty());
                        none
                    } else {
                        let (l, w, n) = match read_table(b, i, end) {
                            Ok(x) => x,
                            Err(x) => {
                                return Err(x);
                            },
                        };
                        match dec_gv_items_at(e, b, el, i, n, l, w, base8, base, d2) {
                            Ok(vs) => vs,
                            Err(x) => {
                                return Err(x);
                            },
                        }
                    };
                    let v = Value::Array(Array { elem: el.duplicate(), elems: vs });
                    assert(v@->Array_1 =~= views(vs@));
                    Ok((v, end))
                },
                Signature::Dict(kt, vt) => {
                    let es = if i == end {
                        let none: Vec<(Value, Value)> = Vec::new();
                        assert(entry_views(none@) =~= Seq::<(ValueModel, ValueModel)>::empty());
                        none
                    } else {
                        let (l, w, n) = match read_table(b, i, end) {
                            Ok(x) => x,
                            Err(x) => {
                                return Err(x);
                            },
                        };
                        match dec_gv_entry_items_at(e, b, t, i, n, l, w, base8, base, d2) {
                            Ok(es) => es,
                            Err(x) => {
                                return Err(x);
                            },
                        }
                    };
                    let v = Value::Dict(Dict { key: kt.duplicate(), value: vt.duplicate(), entries: es });
                    assert(v@->Dict_2 =~= entry_views(es@));
                    Ok((v, end))
                },
                _ => Err(Error::SignatureMismatch),
            }
        },
    }
}

/// Reads an optional value in the GVariant format filling `b[i..end]`.
#[verifier::spinoff_prover]
#[verifier::rlimit(100)]
fn dec_gv_maybe_at(
    e: Endian,
    b: &[u8],
    el: &Signature,
    i: usize,
    end: usize,
    base8: usize,
    base: Ghost<int>,
    d: ContainerDepths,
) -> (r: Result<(Value, usize), Error>)
    requires
        base8 == base@ % 8,
        base@ >= 0,
        i <= end <= b@.len(),
        depths_ok(d),
    ensures
        ({
            let f = Format::GVariant;
            let want = if i == end {
                Ok((ValueModel::Maybe(el@, None), end as int))
            } else if is_fixed_type(el@) {
                match dec(f, e, b@, el@, i as int, end as int, base@, d) {
                    Ok((v, j)) => if j == end {
                        Ok((ValueModel::Maybe(el@, Some(Box::new(v))), end as int))
                    } else {
                        Err(Error::InvalidData)
                    },
                    Err(x) => Err(x),
                }
            } else if b@[end - 1] != 0 {
                Err(Error::Truncated)
            } else {
                match dec(f, e, b@, el@, i as int, end - 1, base@, d) {
                    Ok((v, j)) => if j == end - 1 {
                        Ok((ValueModel::Maybe(el@, Some(Box::new(v))), end as int))
                    } else {
                        Err(Error::InvalidData)
                    },
                    Err(x) => Err(x),
                }
            };
            match want {
                Ok((v, j)) => r matches Ok((rv, rj)) && rv@ == v && rj == j,
                Err(x) => r == Err::<(Value, usize), Error>(x),
            }
        }),
        r matches Ok((_, rj)) ==> rj == end,
    decreases depth_budget(d), el@, 4int,
{
    let f = Format::GVariant;
    if i == end {
        return Ok((Value::Maybe(Maybe { sig: el.duplicate(), inner: None }), end));
    }
    let stop = if el.is_scalar() {
        end
    } else {
        if b[end - 1] != 0 {
            return Err(Error::Truncated);
        }
        end - 1
    };
    match dec_at(f, e, b, el, i, stop, base8, base, d) {
        Ok((v, j)) => {
            if j != stop {
                return Err(Error::InvalidData);
            }
            Ok((Value::Maybe(Maybe { sig: el.duplicate(), inner: Some(Box::new(v)) }), end))
        },
        Err(x) => Err(x),
    }
}

/// Reads scalars of type `t` filling `b[i..stop]`, as `dec_gv_seq` does.
fn dec_gv_seq_at(
    e: Endian,
    b: &[u8],
    t: &Signature,
    i: usize,
    stop: usize,
    base8: usize,
    base: Ghost<int>,
    d: ContainerDepths,
) -> (r: Result<Vec<Value>, Error>)
    requires
        base8 == base@ % 8,
        base@ >= 0,
        i <= stop <= b@.len(),
        depths_ok(d),
    ensures
        match dec_gv_seq(e, b@, t@, i as int, stop as int, base@, d) {
            Ok(vs) => r matches Ok(rv) && views(rv@) == vs,
            Err(x) => r == Err::<Vec<Value>, Error>(x),
        },
    decreases depth_budget(d), t@, 4int,
{
    let mut out: Vec<Value> = Vec::new();
    let mut cur = i;
    while cur < stop
        invariant
            i <= cur <= stop <= b@.len(),
            base8 == base@ % 8,
            base@ >= 0,
            depths_ok(d),
            match dec_gv_seq(e, b@, t@, i as int, stop as int, base@, d) {
                Ok(all) => match dec_gv_seq(e, b@, t@, cur as int, stop as int, base@, d) {
                    Ok(rest) => all == views(out@) + rest,
                    Err(_) => false,
                },
                Err(x) => dec_gv_seq(e, b@, t@, cur as int, stop as int, base@, d) == Err::<
                    Seq<ValueModel>,
                    Error,
                >(x),
            },
        decreases stop - cur,
    {
        let (v, j) = match dec_at(Format::GVariant, e, b, t, cur, stop, base8, base, d) {
            Ok(x) => x,
            Err(x) => {
                return Err(x);
            },
        };
        if !(cur < j && j <= stop) {
            return Err(Error::InvalidData);
        }
        let ghost before = views(out@);
        let ghost vv = v@;
        out.push(v);
        proof {
            assert(views(out@) =~= before.push(vv));
            match dec_gv_seq(e, b@, t@, j as int, stop as int, base@, d) {
                Ok(rest) => {
                    assert(before + (seq![vv] + rest) =~= views(out@) + rest);
                },
                Err(_) => {},
            }
        }
        cur = j;
    }
    assert(views(out@) + Seq::<ValueModel>::empty() =~= views(out@));
    Ok(out)
}

proof fn lemma_slot(k: int, n: int, w: int)
    requires
        0 <= k < n,
        w > 0,
    ensures
        k * w + w <= n * w,
        k * w >= 0,
{
    assert(k * w + w <= n * w) by (nonlinear_arith)
        requires
            0 <= k < n,
            w > 0,
    ;
    assert(k * w >= 0) by (nonlinear_arith)
        requires
            0 <= k,
            w > 0,
    ;
}

/// Reads the elements of an array of variable-size type `t` at `i` whose
/// offset table of `n` offsets of width `w` starts at `i + l`.
#[verifier::spinoff_prover]
#[verifier::rlimit(100)]
fn dec_gv_items_at(
    e: Endian,
    b: &[u8],
    t: &Signature,
    i: usize,
    n: usize,
    l: usize,
    w: usize,
    base8: usize,
    base: Ghost<int>,
    d: ContainerDepths,
) -> (r: Result<Vec<Value>, Error>)
    requires
        base8 == base@ % 8,
        base@ >= 0,
        depths_ok(d),
        w == 1 || w == 2 || w == 4 || w == 8,
        i + l + n * w <= b@.len(),
    ensures
        match dec_gv_items(e, b@, t@, i as int, 0, n as int, i as int, l as int, w as int, base@, d) {
            Ok(vs) => r matches Ok(rv) && views(rv@) == vs,
            Err(x) => r == Err::<Vec<Value>, Error>(x),
        },
    decreases depth_budget(d), t@, 4int,
{
    let mut out: Vec<Value> = Vec::new();
    let mut cur = i;
    let mut k: usize = 0;
    let ghost spec_all = dec_gv_items(e, b@, t@, i as int, 0, n as int, i as int, l as int, w as int, base@, d);
    while k < n
        invariant
            k <= n,
            i <= cur <= i + l,
            w == 1 || w == 2 || w == 4 || w == 8,
            i + l + n * w <= b@.len(),
            base8 == base@ % 8,
            base@ >= 0,
            depths_ok(d),
            spec_all == dec_gv_items(e, b@, t@, i as int, 0, n as int, i as int, l as int, w as int, base@, d),
            match spec_all {
                Ok(all) => match dec_gv_items(e, b@, t@, i as int, k as int, n as int, cur as int, l as int, w as int, base@, d) {
                    Ok(rest) => all == views(out@) + rest,
                    Err(_) => false,
                },
                Err(x) => dec_gv_items(e, b@, t@, i as int, k as int, n as int, cur as int, l as int, w as int, base@, d) == Err::<
                    Seq<ValueModel>,
                    Error,
                >(x),
            },
        decreases n - k,
    {
        proof {
            lemma_slot(k as int, n as int, w as int);
        }
        let blen = b.len();
        assert(i + l + k * w + w <= blen);
        let at = i + l + k * w;
        let off = read_offset(b, at, w);
        if off > l as u64 || ((i + off as usize) < cur) {
            return Err(Error::InvalidData);
        }
        let fe = i + off as usize;
        let (v, j) = match dec_at(Format::GVariant, e, b, t, cur, fe, base8, base, d) {
            Ok(x) => x,
            Err(x) => {
                return Err(x);
            },
        };
        if j != fe {
            return Err(Error::InvalidData);
        }
        let ghost before = views(out@);
        let ghost vv = v@;
        out.push(v);
        proof {
            assert(views(out@) =~= before.push(vv));
            match dec_gv_items(e, b@, t@, i as int, k + 1, n as int, fe as int, l as int, w as int, base@, d) {
                Ok(rest) => {
                    assert(before + (seq![vv] + rest) =~= views(out@) + rest);
                },
                Err(_) => {},
            }
        }
        cur = fe;
        k = k + 1;
    }
    assert(views(out@) + Seq::<ValueModel>::empty() =~= views(out@));
    Ok(out)
}

/// Reads one dictionary entry of the dictionary type `t` filling `b[s..ee]`.
#[verifier::spinoff_prover]
#[verifier::rlimit(100)]
fn dec_gv_entry_at(
    e: Endian,
    b: &[u8],
    t: &Signature,
    s: usize,
    ee: usize,
    base8: usize,
    base: Ghost<int>,
    d: ContainerDepths,
) -> (r: Result<(Value, Value), Error>)
    requires
        base8 == base@ % 8,
        base@ >= 0,
        s <= ee <= b@.len(),
        depths_ok(d),
    ensures
        match dec_gv_entry(e, b@, t@, s as int, ee as int, base@, d) {
            Ok(kv) => r matches Ok(rkv) && rkv.0@ == kv.0 && rkv.1@ == kv.1,
            Err(x) => r == Err::<(Value, Value), Error>(x),
        },
    decreases depth_budget(d), t@, 3int,
{
    let f = Format::GVariant;
    let (kt, vt) = match t {
        Signature::Dict(kt, vt) => (kt, vt),
        _ => {
            return Err(Error::SignatureMismatch);
        },
    };
    if kt.is_scalar() {
        let (k, j) = match dec_at(f, e, b, kt, s, ee, base8, base, d) {
            Ok(x) => x,
            Err(x) => {
                return Err(x);
            },
        };
        let (v, j2) = match dec_at(f, e, b, vt, j, ee, base8, base, d) {
            Ok(x) => x,
            Err(x) => {
                return Err(x);
            },
        };
        if j2 != ee {
            return Err(Error::InvalidData);
        }
        Ok((k, v))
    } else {
        let sz = ee - s;
        let w = offset_width_exec(sz);
        if sz < w {
            return Err(Error::Truncated);
        }
        let ko = read_offset(b, ee - w, w);
        if ko > (sz - w) as u64 {
            return Err(Error::Truncated);
        }
        let kend = s + ko as usize;
        let (k, j) = match dec_at(f, e, b, kt, s, kend, base8, base, d) {
            Ok(x) => x,
            Err(x) => {
                return Err(x);
            },
        };
        if j != kend {
            return Err(Error::InvalidData);
        }
        let (v, j2) = match dec_at(f, e, b, vt, kend, ee - w, base8, base, d) {
            Ok(x) => x,
            Err(x) => {
                return Err(x);
            },
        };
        if j2 != ee - w {
            return Err(Error::InvalidData);
        }
        Ok((k, v))
    }
}

/// Reads the entries of a dictionary of type `t` at `i` whose offset table
/// of `n` offsets of width `w` starts at `i + l`.
#[verifier::spinoff_prover]
#[verifier::rlimit(100)]
fn dec_gv_entry_items_at(
    e: Endian,
    b: &[u8],
    t: &Signature,
    i: usize,
    n: usize,
    l: usize,
    w: usize,
    base8: usize,
    base: Ghost<int>,
    d: ContainerDepths,
) -> (r: Result<Vec<(Value, Value)>, Error>)
    requires
        base8 == base@ % 8,
        base@ >= 0,
        depths_ok(d),
        w == 1 || w == 2 || w == 4 || w == 8,
        i + l + n * w <= b@.len(),
    ensures
        match dec_gv_entry_items(e, b@, t@, i as int, 0, n as int, i as int, l as int, w as int, base@, d) {
            Ok(es) => r matches Ok(rv) && entry_views(rv@) == es,
            Err(x) => r == Err::<Vec<(Value, Value)>, Error>(x),
        },
    decreases depth_budget(d), t@, 4int,
{
    let mut out: Vec<(Value, Value)> = Vec::new();
    let mut cur = i;
    let mut k: usize = 0;
    let ghost spec_all = dec_gv_entry_items(e, b@, t@, i as int, 0, n as int, i as int, l as int, w as int, base@, d);
    while k < n
        invariant
            k <= n,
            i <= cur <= i + l,
            w == 1 || w == 2 || w == 4 || w == 8,
            i + l + n * w <= b@.len(),
            base8 == base@ % 8,
            base@ >= 0,
            depths_ok(d),
            spec_all == dec_gv_entry_items(e, b@, t@, i as int, 0, n as int, i as int, l as int, w as int, base@, d),
            match spec_all {
                Ok(all) => match dec_gv_entry_items(e, b@, t@, i as int, k as int, n as int, cur as int, l as int, w as int, base@, d) {
                    Ok(rest) => all == entry_views(out@) + rest,
                    Err(_) => false,
                },
                Err(x) => dec_gv_entry_items(e, b@, t@, i as int, k as int, n as int, cur as int, l as int, w as int, base@, d) == Err::<
                    Seq<(ValueModel, ValueModel)>,
                    Error,
                >(x),
            },
        decreases n - k,
    {
        proof {
            lemma_slot(k as int, n as int, w as int);
        }
        let blen = b.len();
        assert(i + l + k * w + w <= blen);
        let at = i + l + k * w;
        let off = read_offset(b, at, w);
        if off > l as u64 || ((i + off as usize) < cur) {
            return Err(Error::InvalidData);
        }
        let fe = i + off as usize;
        let kv = match dec_gv_entry_at(e, b, t, cur, fe, base8, base, d) {
            Ok(x) => x,
            Err(x) => {
                return Err(x);
            },
        };
        let ghost before = entry_views(out@);
        let ghost pair = (kv.0@, kv.1@);
        out.push(kv);
        proof {
            assert(entry_views(out@) =~= before.push(pair));
            match dec_gv_entry_items(e, b@, t@, i as int, k + 1, n as int, fe as int, l as int, w as int, base@, d) {
                Ok(rest) => {
                    assert(before + (seq![pair] + rest) =~= entry_views(out@) + rest);
                },
                Err(_) => {},
            }
        }
        cur = fe;
        k = k + 1;
    }
    assert(entry_views(out@) + Seq::<(ValueModel, ValueModel)>::empty() =~= entry_views(out@));
    Ok(out)
}

/// How many fields of the structure type `t` carry a framing offset.
fn framed_count_exec(t: &Signature, fs: &Vec<Signature>) -> (r: usize)
    requires
        *t == Signature::Structure(*fs),
    ensures
        r == framed_count(t@->Structure_0),
        r <= fs.len(),
{
    let ghost all = t@->Structure_0;
    let n = fs.len();
    let mut k: usize = 0;
    let mut c: usize = 0;
    assert(all.subrange(0, all.len() as int) =~= all);
    while n > 0 && k < n - 1
        invariant
            k <= n == fs.len() == all.len(),
            all == t@->Structure_0,
            *t == Signature::Structure(*fs),
            c <= k,
            c + framed_count(all.subrange(k as int, n as int)) == framed_count(all),
        decreases n - k,
    {
        let ghost rest = all.subrange(k as int, n as int);
        assert(rest[0] == fs[k as int]@);
        assert(rest.drop_first() =~= all.subrange(k + 1, n as int));
        if !fs[k].is_scalar() {
            c = c + 1;
        }
        k = k + 1;
    }
    c
}

/// Reads fields `k..` of the structure type `t` from `cur`, as
/// `dec_gv_fields` describes, in a structure at `i..end` whose fields end by
/// `rend` and whose `m` offsets of width `w` stand back to front at `end`.
#[verifier::spinoff_prover]
#[verifier::rlimit(100)]
fn dec_gv_fields_at(
    e: Endian,
    b: &[u8],
    t: &Signature,
    fs: &Vec<Signature>,
    k: usize,
    cur: usize,
    idx: usize,
    i: usize,
    end: usize,
    rend: usize,
    w: usize,
    m: usize,
    base8: usize,
    base: Ghost<int>,
    d: ContainerDepths,
) -> (r: Result<Vec<Value>, Error>)
    requires
        base8 == base@ % 8,
        base@ >= 0,
        i <= cur <= rend <= end <= b@.len(),
        depths_ok(d),
        *t == Signature::Structure(*fs),
        k <= fs.len(),
        w == 1 || w == 2 || w == 4 || w == 8,
        idx + framed_count(t@->Structure_0.subrange(k as int, fs.len() as int)) == m,
        rend + m * w == end,
    ensures
        match dec_gv_fields(
            e,
            b@,
            t@->Structure_0.subrange(k as int, fs.len() as int),
            cur as int,
            idx as int,
            i as int,
            end as int,
            rend as int,
            w as int,
            base@,
            d,
        ) {
            Ok(vs) => r matches Ok(rv) && views(rv@) == vs,
            Err(x) => r == Err::<Vec<Value>, Error>(x),
        },
    decreases depth_budget(d), t@, 4int, fs.len() - k,
{
    let f = Format::GVariant;
    let n = fs.len();
    let ghost rest = t@->Structure_0.subrange(k as int, n as int);
    if k == n {
        if cur != rend {
            return Err(Error::InvalidData);
        }
        let none: Vec<Value> = Vec::new();
        assert(views(none@) =~= Seq::<ValueModel>::empty());
        return Ok(none);
    }
    assert(rest[0] == fs[k as int]@);
    assert(rest.drop_first() =~= t@->Structure_0.subrange(k + 1, n as int));
    if k + 1 == n {
        let (v, j) = match dec_at(f, e, b, &fs[k], cur, rend, base8, base, d) {
            Ok(x) => x,
            Err(x) => {
                return Err(x);
            },
        };
        if j != rend {
            return Err(Error::InvalidData);
        }
        let mut out: Vec<Value> = Vec::new();
        let ghost vv = v@;
        out.push(v);
        assert(views(out@) =~= seq![vv]);
        return Ok(out);
    }
    let (v, next, next_idx) = if fs[k].is_scalar() {
        let (v, j) = match dec_at(f, e, b, &fs[k], cur, rend, base8, base, d) {
            Ok(x) => x,
            Err(x) => {
                return Err(x);
            },
        };
        (v, j, idx)
    } else {
        assert(framed_count(rest) == 1 + framed_count(rest.drop_first()));
        assert((idx + 1) * w <= m * w) by (nonlinear_arith)
            requires
                idx + 1 <= m,
                w > 0,
        ;
        assert((idx + 1) * w == idx * w + w && idx * w >= 0) by (nonlinear_arith)
            requires
                w > 0,
                idx >= 0,
        ;
        let at = end - (idx + 1) * w;
        let off = read_offset(b, at, w);
        if off > (rend - i) as u64 {
            return Err(Error::InvalidData);
        }
        let fe = i + off as usize;
        if fe < cur {
            return Err(Error::InvalidData);
        }
        let (v, j) = match dec_at(f, e, b, &fs[k], cur, fe, base8, base, d) {
            Ok(x) => x,
            Err(x) => {
                return Err(x);
            },
        };
        if j != fe {
            return Err(Error::InvalidData);
        }
        (v, fe, idx + 1)
    };
    let ghost vv = v@;
    let tail = match dec_gv_fields_at(e, b, t, fs, k + 1, next, next_idx, i, end, rend, w, m, base8, base, d) {
        Ok(x) => x,
        Err(x) => {
            return Err(x);
        },
    };
    let mut out: Vec<Value> = Vec::new();
    out.push(v);
    let mut tail = tail;
    let ghost tv = views(tail@);
    out.append(&mut tail);
    assert(views(out@) =~= seq![vv] + tv);
    Ok(out)
}

} // verus!
