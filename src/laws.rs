//! Properties of the codec that relate several of its functions.
use crate::alignment::{alignment, pad, zeros};
use crate::bytes::{
    u32_from,
    lemma_u16_round_trip, lemma_u32_round_trip, lemma_u64_round_trip, u16_bytes, u32_bytes,
    u64_bytes,
};
use crate::context::{Context, Endian, Format};
use crate::decode::{decoding, fixed_size};
use crate::depth::ContainerDepths;
use crate::encode::{enc, encoding, is_fixed};
use crate::error::{Error, MaxDepthExceeded};
use crate::signature::{text, SigType};
use crate::value::{sig_of, ValueModel};
use vstd::prelude::*;

verus! {

/// Encoding a fixed-size scalar at any starting offset `k` takes exactly the
/// padding from `k` to the scalar's natural alignment plus its natural size.
pub proof fn lemma_scalar_encoding_size(ctxt: Context, v: ValueModel)
    requires
        is_fixed(v),
    ensures
        encoding(ctxt, v) is Ok,
        encoding(ctxt, v)->Ok_0.len() == pad(
            ctxt.position as int,
            alignment(ctxt.format, sig_of(v)),
        ) + fixed_size(ctxt.format, sig_of(v)),
{
    reveal(sig_of);
    let p = ctxt.position as int;
    let e = ctxt.endian;
    match v {
        ValueModel::I16(x) => {
            lemma_u16_round_trip(x as u16, e);
        },
        ValueModel::U16(x) => {
            lemma_u16_round_trip(x, e);
        },
        ValueModel::I32(x) => {
            lemma_u32_round_trip(x as u32, e);
        },
        ValueModel::U32(x) => {
            lemma_u32_round_trip(x, e);
        },
        ValueModel::Fd(x) => {
            lemma_u32_round_trip(x, e);
        },
        ValueModel::Bool(x) => {
            lemma_u32_round_trip(
                if x {
                    1
                } else {
                    0
                },
                e,
            );
        },
        ValueModel::I64(x) => {
            lemma_u64_round_trip(x as u64, e);
        },
        ValueModel::U64(x) => {
            lemma_u64_round_trip(x, e);
        },
        ValueModel::F64(x) => {
            lemma_u64_round_trip(x, e);
        },
        _ => {},
    }
}

/// A byte nested in `n` variants.
pub open spec fn nested_variants(n: nat) -> ValueModel
    decreases n,
{
    if n == 0 {
        ValueModel::U8(0)
    } else {
        ValueModel::Variant(Box::new(nested_variants((n - 1) as nat)))
    }
}

/// A byte nested in `n` one-element arrays.
pub open spec fn nested_arrays(n: nat) -> ValueModel
    decreases n,
{
    if n == 0 {
        ValueModel::U8(0)
    } else {
        let inner = nested_arrays((n - 1) as nat);
        ValueModel::Array(sig_of(inner), seq![inner])
    }
}

/// A byte nested in `n` one-field structures.
pub open spec fn nested_structures(n: nat) -> ValueModel
    decreases n,
{
    if n == 0 {
        ValueModel::U8(0)
    } else {
        ValueModel::Structure(seq![nested_structures((n - 1) as nat)])
    }
}

#[verifier::spinoff_prover]
#[verifier::rlimit(100)]
proof fn lemma_nested_variants_depth(f: Format, e: Endian, n: nat, pos: int, k: u8)
    requires
        k <= 64,
    ensures
        k + n <= 64 ==> enc(f, e, nested_variants(n), pos, ContainerDepths { array: 0, structure: 0, variant: k }) is Ok,
        k + n > 64 ==> enc(f, e, nested_variants(n), pos, ContainerDepths { array: 0, structure: 0, variant: k })
            == Err::<Seq<u8>, Error>(Error::MaxDepthExceeded(MaxDepthExceeded::Container)),
    decreases n,
{
    reveal(sig_of);
    reveal(text);
    if n > 0 {
        let inner = nested_variants((n - 1) as nat);
        if k < 64 {
            let k2 = (k + 1) as u8;
            assert(text(sig_of(inner)).len() == 1);
            assert(enc(f, e, nested_variants(n), pos, ContainerDepths { array: 0, structure: 0, variant: k })
                == crate::encode::enc_variant(f, e, inner, pos, ContainerDepths { array: 0, structure: 0, variant: k }));
            if f == Format::DBus {
                lemma_nested_variants_depth(f, e, (n - 1) as nat, pos + 3, k2);
            } else {
                lemma_nested_variants_depth(f, e, (n - 1) as nat, pos, k2);
            }
        }
    }
}

/// Nesting variants: a byte inside at most 64 variants encodes, in either
/// format; inside more, encoding fails on the total-depth ceiling.
pub proof fn lemma_variant_nesting_limit(ctxt: Context, n: nat)
    ensures
        n <= 64 ==> encoding(ctxt, nested_variants(n)) is Ok,
        n > 64 ==> encoding(ctxt, nested_variants(n)) == Err::<Seq<u8>, Error>(
            Error::MaxDepthExceeded(MaxDepthExceeded::Container),
        ),
{
    lemma_nested_variants_depth(ctxt.format, ctxt.endian, n, ctxt.position as int, 0);
}

#[verifier::spinoff_prover]
#[verifier::rlimit(100)]
proof fn lemma_nested_arrays_depth(e: Endian, n: nat, pos: int, k: u8)
    requires
        k <= 32,
        pos >= 0,
    ensures
        k + n <= 32 ==> enc(Format::DBus, e, nested_arrays(n), pos, ContainerDepths { array: k, structure: 0, variant: 0 }) is Ok
            && enc(Format::DBus, e, nested_arrays(n), pos, ContainerDepths { array: k, structure: 0, variant: 0 })->Ok_0.len() <= 16 * (n + 1),
        k + n > 32 ==> enc(Format::DBus, e, nested_arrays(n), pos, ContainerDepths { array: k, structure: 0, variant: 0 })
            == Err::<Seq<u8>, Error>(Error::MaxDepthExceeded(MaxDepthExceeded::Array)),
    decreases n,
{
    reveal(sig_of);
    let f = Format::DBus;
    if n > 0 {
        let inner = nested_arrays((n - 1) as nat);
        if k < 32 {
            let k2 = (k + 1) as u8;
            let d2 = ContainerDepths { array: k2, structure: 0, variant: 0 };
            let p1 = pos + pad(pos, 4) + 4;
            let p2 = pad(p1, alignment(f, sig_of(inner)));
            assert(0 <= pad(pos, 4) < 4) by {
                crate::alignment::lemma_pad_mod8(pos, 4);
            }
            assert(0 <= p2 < 8) by {
                let a = alignment(f, sig_of(inner));
                assert(a == 1 || a == 4);
                crate::alignment::lemma_pad_mod8(p1, a);
            }
            let d = ContainerDepths { array: k, structure: 0, variant: 0 };
            lemma_nested_arrays_depth(e, (n - 1) as nat, p1 + p2, k2);
            let es = seq![inner];
            assert(es.drop_first() =~= Seq::<ValueModel>::empty());
            assert(crate::depth::enter_array(d) == Ok::<ContainerDepths, Error>(d2));
            assert(nested_arrays(n) == ValueModel::Array(sig_of(inner), es));
            assert(enc(f, e, nested_arrays(n), pos, d) == crate::encode::frame(
                e,
                pos,
                p2,
                crate::encode::encs(f, e, es, p1 + p2, d2),
            ));
            if k2 + (n - 1) <= 32 {
                let b = enc(f, e, inner, p1 + p2, d2)->Ok_0;
                assert(b + Seq::<u8>::empty() =~= b);
                assert(es[0] == inner);
                assert(crate::encode::encs(f, e, es, p1 + p2, d2) == crate::encode::prepend(
                    b,
                    crate::encode::encs(f, e, es.drop_first(), p1 + p2 + b.len(), d2),
                ));
                assert(crate::encode::encs(f, e, es.drop_first(), p1 + p2 + b.len(), d2) == Ok::<
                    Seq<u8>,
                    Error,
                >(Seq::empty()));
                assert(crate::encode::encs(f, e, es, p1 + p2, d2) == Ok::<Seq<u8>, Error>(b));
                lemma_u32_round_trip(b.len() as u32, e);
            }
        }
    }
}

/// Nesting arrays in the D-Bus format: a byte inside at most 32 arrays encodes;
/// inside more, encoding fails on the array-depth ceiling.
pub proof fn lemma_array_nesting_limit(ctxt: Context, n: nat)
    requires
        ctxt.format == Format::DBus,
    ensures
        n <= 32 ==> encoding(ctxt, nested_arrays(n)) is Ok,
        n > 32 ==> encoding(ctxt, nested_arrays(n)) == Err::<Seq<u8>, Error>(
            Error::MaxDepthExceeded(MaxDepthExceeded::Array),
        ),
{
    lemma_nested_arrays_depth(ctxt.endian, n, ctxt.position as int, 0);
}

#[verifier::spinoff_prover]
#[verifier::rlimit(100)]
proof fn lemma_nested_structures_depth(e: Endian, n: nat, pos: int, k: u8)
    requires
        k <= 32,
    ensures
        k + n <= 32 ==> enc(Format::DBus, e, nested_structures(n), pos, ContainerDepths { array: 0, structure: k, variant: 0 }) is Ok,
        k + n > 32 ==> enc(Format::DBus, e, nested_structures(n), pos, ContainerDepths { array: 0, structure: k, variant: 0 })
            == Err::<Seq<u8>, Error>(Error::MaxDepthExceeded(MaxDepthExceeded::Structure)),
    decreases n,
{
    let f = Format::DBus;
    if n > 0 {
        let inner = nested_structures((n - 1) as nat);
        if k < 32 {
            let k2 = (k + 1) as u8;
            let d2 = ContainerDepths { array: 0, structure: k2, variant: 0 };
            let p = pad(pos, 8);
            let d = ContainerDepths { array: 0, structure: k, variant: 0 };
            lemma_nested_structures_depth(e, (n - 1) as nat, pos + p, k2);
            let es = seq![inner];
            assert(es.drop_first() =~= Seq::<ValueModel>::empty());
            assert(crate::depth::enter_structure(d) == Ok::<ContainerDepths, Error>(d2));
            assert(nested_structures(n) == ValueModel::Structure(es));
            assert(enc(f, e, nested_structures(n), pos, d) == crate::encode::prepend(
                zeros(p),
                crate::encode::encs(f, e, es, pos + p, d2),
            ));
            if k2 + (n - 1) <= 32 {
                let b = enc(f, e, inner, pos + p, d2)->Ok_0;
                assert(crate::encode::encs(f, e, es, pos + p, d2) == crate::encode::prepend(
                    b,
                    crate::encode::encs(f, e, es.drop_first(), pos + p + b.len(), d2),
                ));
            }
        }
    }
}

/// Nesting structures in the D-Bus format: a byte inside at most 32 structures
/// encodes; inside more, encoding fails on the structure-depth ceiling.
pub proof fn lemma_structure_nesting_limit(ctxt: Context, n: nat)
    requires
        ctxt.format == Format::DBus,
    ensures
        n <= 32 ==> encoding(ctxt, nested_structures(n)) is Ok,
        n > 32 ==> encoding(ctxt, nested_structures(n)) == Err::<Seq<u8>, Error>(
            Error::MaxDepthExceeded(MaxDepthExceeded::Structure),
        ),
{
    lemma_nested_structures_depth(ctxt.endian, n, ctxt.position as int, 0);
}


#[verifier::spinoff_prover]
#[verifier::rlimit(100)]
proof fn lemma_round_trip_fixed(ctxt: Context, v: ValueModel)
    requires
        is_fixed(v),
    ensures
        encoding(ctxt, v) matches Ok(b) ==> decoding(ctxt, b, sig_of(v)) == Ok::<
            (ValueModel, int),
            Error,
        >((v, b.len() as int)),
{
    reveal(sig_of);
    let f = ctxt.format;
    let e = ctxt.endian;
    let pos = ctxt.position as int;
    let d = ContainerDepths { array: 0, structure: 0, variant: 0 };
    if let Ok(b) = encoding(ctxt, v) {
        let t = sig_of(v);
            lemma_scalar_encoding_size(ctxt, v);
            let n = fixed_size(f, t);
            let p = pad(pos, n);
            assert(b == zeros(p) + b.subrange(p, p + n)) by {
                assert(b =~= zeros(p) + b.subrange(p, p + n));
            }
            let bytes = b.subrange(p, p + n);
            match v {
                ValueModel::I16(x) => {
                    lemma_u16_round_trip(x as u16, e);
                    crate::round_trip::lemma_signed_casts(x, 0, 0);
                    assert(bytes =~= u16_bytes(x as u16, e));
                },
                ValueModel::U16(x) => {
                    lemma_u16_round_trip(x, e);
                    assert(bytes =~= u16_bytes(x, e));
                },
                ValueModel::I32(x) => {
                    lemma_u32_round_trip(x as u32, e);
                    crate::round_trip::lemma_signed_casts(0, x, 0);
                    assert(bytes =~= u32_bytes(x as u32, e));
                },
                ValueModel::U32(x) => {
                    lemma_u32_round_trip(x, e);
                    assert(bytes =~= u32_bytes(x, e));
                },
                ValueModel::Fd(x) => {
                    lemma_u32_round_trip(x, e);
                    assert(bytes =~= u32_bytes(x, e));
                },
                ValueModel::Bool(x) => {
                    if f == Format::DBus {
                        let w: u32 = if x {
                            1
                        } else {
                            0
                        };
                        lemma_u32_round_trip(w, e);
                        assert(bytes =~= u32_bytes(w, e));
                    }
                },
                ValueModel::I64(x) => {
                    lemma_u64_round_trip(x as u64, e);
                    crate::round_trip::lemma_signed_casts(0, 0, x);
                    assert(bytes =~= u64_bytes(x as u64, e));
                },
                ValueModel::U64(x) => {
                    lemma_u64_round_trip(x, e);
                    assert(bytes =~= u64_bytes(x, e));
                },
                ValueModel::F64(x) => {
                    lemma_u64_round_trip(x, e);
                    assert(bytes =~= u64_bytes(x, e));
                },
                _ => {},
            }
    }
}

#[verifier::spinoff_prover]
#[verifier::rlimit(100)]
proof fn lemma_round_trip_text(ctxt: Context, v: ValueModel)
    requires
        v is Str || v is ObjectPath,
    ensures
        encoding(ctxt, v) matches Ok(b) ==> decoding(ctxt, b, sig_of(v)) == Ok::<
            (ValueModel, int),
            Error,
        >((v, b.len() as int)),
{
    reveal(sig_of);
    let f = ctxt.format;
    let e = ctxt.endian;
    let pos = ctxt.position as int;
    let d = ContainerDepths { array: 0, structure: 0, variant: 0 };
    if let Ok(b) = encoding(ctxt, v) {
        let t = sig_of(v);
            let c = if v is Str {
                v->Str_0
            } else {
                v->ObjectPath_0
            };
            let s = vstd::utf8::encode_utf8(c);
            vstd::utf8::encode_utf8_valid_utf8(c);
            vstd::utf8::encode_utf8_decode_utf8(c);
            if f == Format::DBus {
                let p = pad(pos, 4);
                crate::alignment::lemma_pad_mod8(pos, 4);
                lemma_u32_round_trip(s.len() as u32, e);
                assert(b.subrange(p, p + 4) =~= u32_bytes(s.len() as u32, e));
                assert(b.subrange(p + 4, p + 4 + s.len()) =~= s);
                assert(b[p + 4 + s.len()] == 0);
            } else {
                assert(b.subrange(0, b.len() - 1) =~= s);
            }
    }
}

#[verifier::spinoff_prover]
#[verifier::rlimit(100)]
proof fn lemma_round_trip_signature(ctxt: Context, v: ValueModel)
    requires
        v is Signature,
        crate::signature::wf(v->Signature_0),
    ensures
        encoding(ctxt, v) matches Ok(b) ==> decoding(ctxt, b, sig_of(v)) == Ok::<
            (ValueModel, int),
            Error,
        >((v, b.len() as int)),
{
    reveal(sig_of);
    if let Ok(b) = encoding(ctxt, v) {
        let t = v->Signature_0;
        let st = text(t);
        crate::signature::lemma_parse_text_round_trip(t);
        if ctxt.format == Format::DBus {
            assert(b.subrange(1, 1 + st.len() as int) =~= st);
        } else {
            assert(b.subrange(0, b.len() - 1) =~= st);
        }
    }
}

/// A fixed-size scalar, a string, an object path or a well-formed signature:
/// decoding its encoding with its own signature, in the same context
/// (format, byte order and starting offset), gives the value back and takes
/// every byte.
pub proof fn lemma_round_trip_basic(ctxt: Context, v: ValueModel)
    requires
        is_fixed(v) || v is Str || v is ObjectPath || (v is Signature && crate::signature::wf(
            v->Signature_0,
        )),
    ensures
        encoding(ctxt, v) matches Ok(b) ==> decoding(ctxt, b, sig_of(v)) == Ok::<
            (ValueModel, int),
            Error,
        >((v, b.len() as int)),
{
    if is_fixed(v) {
        lemma_round_trip_fixed(ctxt, v);
    } else if v is Signature {
        lemma_round_trip_signature(ctxt, v);
    } else {
        lemma_round_trip_text(ctxt, v);
    }
}

/// Cutting the encoding of a fixed-size scalar (in either format), or of a
/// string or object path in the D-Bus format, at any byte before its end makes
/// decoding fail with the truncated-data error.
#[verifier::spinoff_prover]
#[verifier::rlimit(100)]
pub proof fn lemma_truncation_basic(ctxt: Context, v: ValueModel, k: int)
    requires
        is_fixed(v) || ((v is Str || v is ObjectPath) && ctxt.format == Format::DBus),
        encoding(ctxt, v) is Ok,
        0 <= k < encoding(ctxt, v)->Ok_0.len(),
    ensures
        decoding(ctxt, encoding(ctxt, v)->Ok_0.subrange(0, k), sig_of(v)) == Err::<
            (ValueModel, int),
            Error,
        >(Error::Truncated),
{
    reveal(sig_of);
    let b = encoding(ctxt, v)->Ok_0;
    let cut = b.subrange(0, k);
    let e = ctxt.endian;
    let pos = ctxt.position as int;
    if is_fixed(v) {
        lemma_scalar_encoding_size(ctxt, v);
    } else {
        let c = if v is Str {
            v->Str_0
        } else {
            v->ObjectPath_0
        };
        let s = vstd::utf8::encode_utf8(c);
        let p = pad(pos, 4);
        crate::alignment::lemma_pad_mod8(pos, 4);
        lemma_u32_round_trip(s.len() as u32, e);
        if k >= p + 4 {
            assert(cut.subrange(p, p + 4) =~= u32_bytes(s.len() as u32, e));
        }
    }
}

/// The D-Bus bytes of a zero byte inside `n + 1` variants: `n` times the
/// signature "v", then the signature "y" and the byte.
pub open spec fn variant_chain(n: nat) -> Seq<u8>
    decreases n,
{
    if n == 0 {
        seq![1u8, 0x79u8, 0u8, 0u8]
    } else {
        seq![1u8, 0x76u8, 0u8] + variant_chain((n - 1) as nat)
    }
}

/// One variant of the chain: its signature text is "v" (or "y" at the end),
/// so decoding goes on three bytes later one level deeper.
#[verifier::spinoff_prover]
#[verifier::rlimit(100)]
proof fn lemma_decode_variant_step(e: Endian, b: Seq<u8>, i: int, base: int, k: u8, t: SigType, code: u8)
    requires
        k < 64,
        0 <= i,
        i + 3 <= b.len(),
        b[i] == 1,
        b[i + 1] == code,
        b[i + 2] == 0,
        text(t) == seq![code],
        crate::signature::wf(t),
    ensures
        crate::decode::dec(Format::DBus, e, b, SigType::Variant, i, b.len() as int, base, ContainerDepths { array: 0, structure: 0, variant: k })
            == match crate::decode::dec(Format::DBus, e, b, t, i + 3, b.len() as int, base, ContainerDepths { array: 0, structure: 0, variant: (k + 1) as u8 }) {
            Ok((v, j)) => Ok::<(ValueModel, int), Error>((ValueModel::Variant(Box::new(v)), j)),
            Err(x) => Err(x),
        },
{
    crate::signature::lemma_parse_text_round_trip(t);
    assert(b.subrange(i + 1, i + 2) =~= seq![code]);
    assert(crate::decode::dec_sig_bytes(Format::DBus, b, i, b.len() as int) == Ok::<(Seq<u8>, int), Error>((b.subrange(i + 1, i + 2), i + 3)));
    assert(crate::decode::sig_in_data(b.subrange(i + 1, i + 2)) == Ok::<SigType, Error>(t));
}

proof fn lemma_text_codes()
    ensures
        text(SigType::U8) == seq![0x79u8],
        text(SigType::Variant) == seq![0x76u8],
{
    reveal(text);
}

#[verifier::spinoff_prover]
proof fn lemma_decode_variant_full(e: Endian, b: Seq<u8>, i: int, base: int)
    requires
        0 <= i <= b.len(),
    ensures
        crate::decode::dec(Format::DBus, e, b, SigType::Variant, i, b.len() as int, base, ContainerDepths { array: 0, structure: 0, variant: 64 })
            == Err::<(ValueModel, int), Error>(Error::MaxDepthExceeded(MaxDepthExceeded::Container)),
{
    assert(crate::depth::enter_variant(ContainerDepths { array: 0, structure: 0, variant: 64 }) == Err::<ContainerDepths, Error>(Error::MaxDepthExceeded(MaxDepthExceeded::Container)));
}

#[verifier::spinoff_prover]
proof fn lemma_decode_zero_byte(e: Endian, b: Seq<u8>, i: int, base: int, d: ContainerDepths)
    requires
        0 <= i,
        i + 1 == b.len(),
        b[i] == 0,
    ensures
        crate::decode::dec(Format::DBus, e, b, SigType::U8, i, b.len() as int, base, d)
            == Ok::<(ValueModel, int), Error>((ValueModel::U8(0), b.len() as int)),
{
    assert(b.subrange(i, i + 1)[0] == b[i]);
}

#[verifier::spinoff_prover]
#[verifier::rlimit(100)]
proof fn lemma_decode_variant_chain(e: Endian, b: Seq<u8>, n: nat, i: int, base: int, k: u8)
    requires
        k <= 64,
        0 <= i,
        i + variant_chain(n).len() == b.len(),
        b.subrange(i, b.len() as int) == variant_chain(n),
    ensures
        k + n + 1 <= 64 ==> crate::decode::dec(Format::DBus, e, b, SigType::Variant, i, b.len() as int, base, ContainerDepths { array: 0, structure: 0, variant: k })
            == Ok::<(ValueModel, int), Error>((nested_variants(n + 1), b.len() as int)),
        k + n + 1 > 64 ==> crate::decode::dec(Format::DBus, e, b, SigType::Variant, i, b.len() as int, base, ContainerDepths { array: 0, structure: 0, variant: k })
            == Err::<(ValueModel, int), Error>(Error::MaxDepthExceeded(MaxDepthExceeded::Container)),
    decreases n,
{
    let c = variant_chain(n);
    assert(b[i] == c[0] && b[i + 1] == c[1] && b[i + 2] == c[2]) by {
        assert(b.subrange(i, b.len() as int)[0] == b[i]);
        assert(b.subrange(i, b.len() as int)[1] == b[i + 1]);
        assert(b.subrange(i, b.len() as int)[2] == b[i + 2]);
    }
    lemma_text_codes();
    if k == 64 {
        lemma_decode_variant_full(e, b, i, base);
    } else {
        let k2 = (k + 1) as u8;
        if n == 0 {
            lemma_decode_variant_step(e, b, i, base, k, SigType::U8, 0x79);
            assert(b[i + 3] == c[3]) by {
                assert(b.subrange(i, b.len() as int)[3] == b[i + 3]);
            }
            lemma_decode_zero_byte(e, b, i + 3, base, ContainerDepths { array: 0, structure: 0, variant: k2 });
            assert(nested_variants(1) == ValueModel::Variant(Box::new(ValueModel::U8(0))));
        } else {
            lemma_decode_variant_step(e, b, i, base, k, SigType::Variant, 0x76);
            let rest = variant_chain((n - 1) as nat);
            assert(c.subrange(3, 3 + rest.len() as int) =~= rest);
            crate::signature::lemma_piece(b, i, c, 3, rest);
            lemma_decode_variant_chain(e, b, (n - 1) as nat, i + 3, base, k2);
            assert(nested_variants(n + 1) == ValueModel::Variant(Box::new(nested_variants(n))));
        }
    }
}

/// Nesting depth on decoding: a byte inside `n` variants, as D-Bus bytes,
/// decodes when `n <= 64`; with more variants decoding fails on the
/// total-depth ceiling.
pub proof fn lemma_decode_variant_nesting_limit(ctxt: Context, n: nat)
    requires
        ctxt.format == Format::DBus,
        n >= 1,
    ensures
        n <= 64 ==> decoding(ctxt, variant_chain((n - 1) as nat), SigType::Variant) == Ok::<
            (ValueModel, int),
            Error,
        >((nested_variants(n), variant_chain((n - 1) as nat).len() as int)),
        n > 64 ==> decoding(ctxt, variant_chain((n - 1) as nat), SigType::Variant) == Err::<
            (ValueModel, int),
            Error,
        >(Error::MaxDepthExceeded(MaxDepthExceeded::Container)),
{
    let b = variant_chain((n - 1) as nat);
    assert(b.subrange(0, b.len() as int) =~= b);
    lemma_decode_variant_chain(ctxt.endian, b, (n - 1) as nat, 0, ctxt.position as int, 0);
}

/// The signature of a byte nested in `n` one-field structures.
pub open spec fn nested_structure_sig(n: nat) -> SigType
    decreases n,
{
    if n == 0 {
        SigType::U8
    } else {
        SigType::Structure(seq![nested_structure_sig((n - 1) as nat)])
    }
}

#[verifier::spinoff_prover]
#[verifier::rlimit(100)]
proof fn lemma_decode_structure_step(e: Endian, b: Seq<u8>, i: int, base: int, k: u8, t: SigType)
    requires
        k < 32,
        0 <= i < b.len(),
        (base + i) % 8 == 0,
    ensures
        crate::decode::dec(Format::DBus, e, b, SigType::Structure(seq![t]), i, b.len() as int, base, ContainerDepths { array: 0, structure: k, variant: 0 })
            == match crate::decode::dec(Format::DBus, e, b, t, i, b.len() as int, base, ContainerDepths { array: 0, structure: (k + 1) as u8, variant: 0 }) {
            Ok((v, j)) => Ok::<(ValueModel, int), Error>((ValueModel::Structure(seq![v]), j)),
            Err(x) => Err(x),
        },
{
    let d = ContainerDepths { array: 0, structure: k, variant: 0 };
    let d2 = ContainerDepths { array: 0, structure: (k + 1) as u8, variant: 0 };
    let fs = seq![t];
    let t2 = SigType::Structure(fs);
    assert(crate::depth::enter_structure(d) == Ok::<ContainerDepths, Error>(d2));
    assert(crate::decode::depth_budget(d2) < crate::decode::depth_budget(d));
    assert(crate::decode::dec(Format::DBus, e, b, t2, i, b.len() as int, base, d) == crate::decode::dec_container(e, b, t2, i, b.len() as int, base, d));
    assert(fs[0] == t);
    assert(fs.drop_first() =~= Seq::<SigType>::empty());
    assert(pad(base + i, 8) == 0);
    match crate::decode::dec(Format::DBus, e, b, t, i, b.len() as int, base, d2) {
        Ok((v, j)) => {
            assert(crate::decode::dec_fields(e, b, fs.drop_first(), j, b.len() as int, base, d2) == Ok::<(Seq<ValueModel>, int), Error>((Seq::empty(), j)));
            assert(seq![v] + Seq::<ValueModel>::empty() =~= seq![v]);
        },
        Err(_) => {},
    }
}

#[verifier::spinoff_prover]
proof fn lemma_decode_structure_full(e: Endian, b: Seq<u8>, t: SigType, i: int, base: int)
    requires
        0 <= i <= b.len(),
    ensures
        crate::decode::dec(Format::DBus, e, b, SigType::Structure(seq![t]), i, b.len() as int, base, ContainerDepths { array: 0, structure: 32, variant: 0 })
            == Err::<(ValueModel, int), Error>(Error::MaxDepthExceeded(MaxDepthExceeded::Structure)),
{
    let d = ContainerDepths { array: 0, structure: 32, variant: 0 };
    let t2 = SigType::Structure(seq![t]);
    assert(crate::depth::enter_structure(d) == Err::<ContainerDepths, Error>(Error::MaxDepthExceeded(MaxDepthExceeded::Structure)));
    assert(crate::decode::dec(Format::DBus, e, b, t2, i, b.len() as int, base, d) == crate::decode::dec_container(e, b, t2, i, b.len() as int, base, d));
}

#[verifier::spinoff_prover]
#[verifier::rlimit(100)]
proof fn lemma_decode_structure_chain(e: Endian, b: Seq<u8>, n: nat, i: int, base: int, k: u8)
    requires
        k <= 32,
        0 <= i,
        i + 1 == b.len(),
        b[i] == 0,
        (base + i) % 8 == 0,
    ensures
        k + n <= 32 ==> crate::decode::dec(Format::DBus, e, b, nested_structure_sig(n), i, b.len() as int, base, ContainerDepths { array: 0, structure: k, variant: 0 })
            == Ok::<(ValueModel, int), Error>((nested_structures(n), b.len() as int)),
        k + n > 32 ==> crate::decode::dec(Format::DBus, e, b, nested_structure_sig(n), i, b.len() as int, base, ContainerDepths { array: 0, structure: k, variant: 0 })
            == Err::<(ValueModel, int), Error>(Error::MaxDepthExceeded(MaxDepthExceeded::Structure)),
    decreases n,
{
    if n == 0 {
        lemma_decode_zero_byte(e, b, i, base, ContainerDepths { array: 0, structure: k, variant: 0 });
    } else {
        let inner = nested_structure_sig((n - 1) as nat);
        if k == 32 {
            lemma_decode_structure_full(e, b, inner, i, base);
        } else {
            lemma_decode_structure_step(e, b, i, base, k, inner);
            lemma_decode_structure_chain(e, b, (n - 1) as nat, i, base, (k + 1) as u8);
        }
    }
}

/// Nesting depth on decoding: the byte 0 read as a byte inside `n` one-field
/// structures (D-Bus bytes, starting at an 8-aligned offset) decodes when
/// `n <= 32`; with more structures decoding fails on the structure ceiling.
pub proof fn lemma_decode_structure_nesting_limit(ctxt: Context, n: nat)
    requires
        ctxt.format == Format::DBus,
        ctxt.position % 8 == 0,
    ensures
        n <= 32 ==> decoding(ctxt, seq![0u8], nested_structure_sig(n)) == Ok::<
            (ValueModel, int),
            Error,
        >((nested_structures(n), 1)),
        n > 32 ==> decoding(ctxt, seq![0u8], nested_structure_sig(n)) == Err::<
            (ValueModel, int),
            Error,
        >(Error::MaxDepthExceeded(MaxDepthExceeded::Structure)),
{
    lemma_decode_structure_chain(ctxt.endian, seq![0u8], n, 0, ctxt.position as int, 0);
}

/// The signature of a byte nested in `n` arrays.
pub open spec fn nested_array_sig(n: nat) -> SigType
    decreases n,
{
    if n == 0 {
        SigType::U8
    } else {
        SigType::Array(Box::new(nested_array_sig((n - 1) as nat)))
    }
}

/// The D-Bus bytes of the byte 0 inside `n` one-element arrays (starting at
/// a 4-aligned offset): each level is the length of what follows, then it.
pub open spec fn array_chain(n: nat) -> Seq<u8>
    decreases n,
{
    if n == 0 {
        seq![0u8]
    } else {
        u32_bytes(array_chain((n - 1) as nat).len() as u32, Endian::Little) + array_chain(
            (n - 1) as nat,
        )
    }
}

proof fn lemma_nested_arrays_sig(n: nat)
    ensures
        sig_of(nested_arrays(n)) == nested_array_sig(n),
        array_chain(n).len() == 4 * n + 1,
    decreases n,
{
    reveal(sig_of);
    if n > 0 {
        lemma_nested_arrays_sig((n - 1) as nat);
        lemma_u32_round_trip(array_chain((n - 1) as nat).len() as u32, Endian::Little);
    }
}

#[verifier::spinoff_prover]
#[verifier::rlimit(100)]
proof fn lemma_decode_array_step(b: Seq<u8>, i: int, base: int, k: u8, t: SigType, v: ValueModel)
    requires
        k < 32,
        0 <= i,
        i + 5 <= b.len(),
        (base + i) % 4 == 0,
        base >= 0,
        t is U8 || t is Array,
        u32_from(b.subrange(i, i + 4), Endian::Little) as int == b.len() - i - 4,
        crate::decode::dec(Format::DBus, Endian::Little, b, t, i + 4, b.len() as int, base, ContainerDepths { array: (k + 1) as u8, structure: 0, variant: 0 })
            == Ok::<(ValueModel, int), Error>((v, b.len() as int)),
    ensures
        crate::decode::dec(Format::DBus, Endian::Little, b, SigType::Array(Box::new(t)), i, b.len() as int, base, ContainerDepths { array: k, structure: 0, variant: 0 })
            == Ok::<(ValueModel, int), Error>((ValueModel::Array(t, seq![v]), b.len() as int)),
{
    let e = Endian::Little;
    let d = ContainerDepths { array: k, structure: 0, variant: 0 };
    let d2 = ContainerDepths { array: (k + 1) as u8, structure: 0, variant: 0 };
    let t2 = SigType::Array(Box::new(t));
    let end = b.len() as int;
    assert(crate::depth::enter_array(d) == Ok::<ContainerDepths, Error>(d2));
    assert(crate::decode::depth_budget(d2) < crate::decode::depth_budget(d));
    assert(crate::decode::dec(Format::DBus, e, b, t2, i, end, base, d) == crate::decode::dec_container(e, b, t2, i, end, base, d));
    assert(pad(base + i, 4) == 0);
    let a = alignment(Format::DBus, t);
    assert(a == 1 || a == 4);
    assert(pad(base + i + 4, a) == 0) by {
        crate::alignment::lemma_pad_mod8(base + i + 4, a);
        assert((base + i + 4) % a == 0) by (nonlinear_arith)
            requires
                (base + i) % 4 == 0,
                a == 1 || a == 4,
                base + i >= 0,
        ;
    }
    assert(crate::decode::dec_elems(e, b, t, end, end, base, d2) == Ok::<Seq<ValueModel>, Error>(Seq::empty()));
    assert(seq![v] + Seq::<ValueModel>::empty() =~= seq![v]);
    assert(crate::decode::dec_elems(e, b, t, i + 4, end, base, d2) == Ok::<Seq<ValueModel>, Error>(seq![v]));
}

#[verifier::spinoff_prover]
#[verifier::rlimit(100)]
proof fn lemma_decode_array_step_err(b: Seq<u8>, i: int, base: int, k: u8, t: SigType, x: Error)
    requires
        k < 32,
        0 <= i,
        i + 5 <= b.len(),
        (base + i) % 4 == 0,
        base >= 0,
        t is U8 || t is Array,
        u32_from(b.subrange(i, i + 4), Endian::Little) as int == b.len() - i - 4,
        crate::decode::dec(Format::DBus, Endian::Little, b, t, i + 4, b.len() as int, base, ContainerDepths { array: (k + 1) as u8, structure: 0, variant: 0 })
            == Err::<(ValueModel, int), Error>(x),
    ensures
        crate::decode::dec(Format::DBus, Endian::Little, b, SigType::Array(Box::new(t)), i, b.len() as int, base, ContainerDepths { array: k, structure: 0, variant: 0 })
            == Err::<(ValueModel, int), Error>(x),
{
    let e = Endian::Little;
    let d = ContainerDepths { array: k, structure: 0, variant: 0 };
    let d2 = ContainerDepths { array: (k + 1) as u8, structure: 0, variant: 0 };
    let t2 = SigType::Array(Box::new(t));
    let end = b.len() as int;
    assert(crate::depth::enter_array(d) == Ok::<ContainerDepths, Error>(d2));
    assert(crate::decode::depth_budget(d2) < crate::decode::depth_budget(d));
    assert(crate::decode::dec(Format::DBus, e, b, t2, i, end, base, d) == crate::decode::dec_container(e, b, t2, i, end, base, d));
    assert(pad(base + i, 4) == 0);
    let a = alignment(Format::DBus, t);
    assert(a == 1 || a == 4);
    assert(pad(base + i + 4, a) == 0) by {
        crate::alignment::lemma_pad_mod8(base + i + 4, a);
        assert((base + i + 4) % a == 0) by (nonlinear_arith)
            requires
                (base + i) % 4 == 0,
                a == 1 || a == 4,
                base + i >= 0,
        ;
    }
    assert(crate::decode::dec_elems(e, b, t, i + 4, end, base, d2) == Err::<Seq<ValueModel>, Error>(x));
}

#[verifier::spinoff_prover]
proof fn lemma_decode_array_full(b: Seq<u8>, t: SigType, i: int, base: int)
    requires
        0 <= i <= b.len(),
    ensures
        crate::decode::dec(Format::DBus, Endian::Little, b, SigType::Array(Box::new(t)), i, b.len() as int, base, ContainerDepths { array: 32, structure: 0, variant: 0 })
            == Err::<(ValueModel, int), Error>(Error::MaxDepthExceeded(MaxDepthExceeded::Array)),
{
    let d = ContainerDepths { array: 32, structure: 0, variant: 0 };
    let t2 = SigType::Array(Box::new(t));
    assert(crate::depth::enter_array(d) == Err::<ContainerDepths, Error>(Error::MaxDepthExceeded(MaxDepthExceeded::Array)));
    assert(crate::decode::dec(Format::DBus, Endian::Little, b, t2, i, b.len() as int, base, d) == crate::decode::dec_container(Endian::Little, b, t2, i, b.len() as int, base, d));
}

#[verifier::spinoff_prover]
#[verifier::rlimit(100)]
proof fn lemma_decode_array_chain(b: Seq<u8>, n: nat, i: int, base: int, k: u8)
    requires
        4 * n + 1 <= u32::MAX,
        k <= 32,
        0 <= i,
        base >= 0,
        (base + i) % 4 == 0,
        i + array_chain(n).len() == b.len(),
        b.subrange(i, b.len() as int) == array_chain(n),
    ensures
        k + n <= 32 ==> crate::decode::dec(Format::DBus, Endian::Little, b, nested_array_sig(n), i, b.len() as int, base, ContainerDepths { array: k, structure: 0, variant: 0 })
            == Ok::<(ValueModel, int), Error>((nested_arrays(n), b.len() as int)),
        k + n > 32 ==> crate::decode::dec(Format::DBus, Endian::Little, b, nested_array_sig(n), i, b.len() as int, base, ContainerDepths { array: k, structure: 0, variant: 0 })
            == Err::<(ValueModel, int), Error>(Error::MaxDepthExceeded(MaxDepthExceeded::Array)),
    decreases n,
{
    lemma_nested_arrays_sig(n);
    if n == 0 {
        assert(b[i] == 0) by {
            assert(b.subrange(i, b.len() as int)[0] == b[i]);
        }
        lemma_decode_zero_byte(Endian::Little, b, i, base, ContainerDepths { array: k, structure: 0, variant: 0 });
    } else {
        let inner = nested_array_sig((n - 1) as nat);
        if k == 32 {
            lemma_decode_array_full(b, inner, i, base);
        } else {
            let c = array_chain(n);
            let rest = array_chain((n - 1) as nat);
            lemma_nested_arrays_sig((n - 1) as nat);
            lemma_u32_round_trip(rest.len() as u32, Endian::Little);
            assert(c.subrange(0, 4) =~= u32_bytes(rest.len() as u32, Endian::Little));
            crate::signature::lemma_piece(b, i, c, 0, u32_bytes(rest.len() as u32, Endian::Little));
            assert(c.subrange(4, 4 + rest.len() as int) =~= rest);
            crate::signature::lemma_piece(b, i, c, 4, rest);
            assert((base + i + 4) % 4 == 0);
            lemma_decode_array_chain(b, (n - 1) as nat, i + 4, base, (k + 1) as u8);
            assert(u32_from(b.subrange(i, i + 4), Endian::Little) as int == rest.len());
            assert(inner is U8 || inner is Array);
            if k + n <= 32 {
                let v = nested_arrays((n - 1) as nat);
                lemma_decode_array_step(b, i, base, k, inner, v);
                assert(nested_arrays(n) == ValueModel::Array(inner, seq![v]));
            } else {
                lemma_decode_array_step_err(b, i, base, k, inner, Error::MaxDepthExceeded(MaxDepthExceeded::Array));
            }
        }
    }
}

/// Nesting depth on decoding: the D-Bus bytes of the byte 0 inside `n`
/// one-element arrays (little-endian, at a 4-aligned offset, with lengths
/// that fit their 32-bit fields) decode when `n <= 32`; with more arrays
/// decoding fails on the array ceiling.
pub proof fn lemma_decode_array_nesting_limit(ctxt: Context, n: nat)
    requires
        4 * n + 1 <= u32::MAX,
        ctxt.format == Format::DBus,
        ctxt.endian == Endian::Little,
        ctxt.position % 4 == 0,
    ensures
        n <= 32 ==> decoding(ctxt, array_chain(n), nested_array_sig(n)) == Ok::<
            (ValueModel, int),
            Error,
        >((nested_arrays(n), array_chain(n).len() as int)),
        n > 32 ==> decoding(ctxt, array_chain(n), nested_array_sig(n)) == Err::<
            (ValueModel, int),
            Error,
        >(Error::MaxDepthExceeded(MaxDepthExceeded::Array)),
{
    let b = array_chain(n);
    assert(b.subrange(0, b.len() as int) =~= b);
    lemma_decode_array_chain(b, n, 0, ctxt.position as int, 0);
}

} // verus!
