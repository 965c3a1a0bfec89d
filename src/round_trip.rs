//! In the D-Bus format, decoding what the encoder wrote gives the value back,
//! and decoding any cut-short encoding reports truncated data.
use crate::alignment::{alignment, lemma_pad_mod8, pad, zeros};
use crate::bytes::{
    lemma_u16_round_trip, lemma_u32_round_trip, lemma_u64_round_trip, u16_bytes, u32_bytes,
    u32_from, u64_bytes,
};
use crate::context::{Context, Endian, Format};
use crate::decode::{
    dec, dec_elems, dec_entries, dec_fields, decoding, fixed_size, fixed_value, is_fixed_type,
};
use crate::depth::{depths_ok, ContainerDepths};
use crate::encode::{enc, enc_entries, enc_entry, enc_fixed, encoding, encs, is_fixed};
use crate::error::Error;
use crate::signature::{lemma_piece, lemma_parse_text_round_trip, lemma_wf_all, text, wf, SigType};
use crate::value::{
    all_typed, all_typed_as, entries_typed_as, lemma_all_typed, sig_of, typed, ValueModel,
};
use vstd::prelude::*;

verus! {

broadcast use vstd::seq::group_seq_axioms;

/// The signature of a typed value is well formed.
proof fn lemma_typed_sig_wf(v: ValueModel)
    requires
        typed(v),
    ensures
        wf(sig_of(v)),
    decreases v,
{
    reveal(sig_of);
    match v {
        ValueModel::Structure(fs) => {
            let sigs = sig_of(v)->Structure_0;
            lemma_all_typed(fs);
            assert forall|i: int| 0 <= i < sigs.len() implies #[trigger] wf(sigs[i]) by {
                lemma_typed_sig_wf(fs[i]);
            }
            lemma_wf_all(sigs);
        },
        _ => {},
    }
}


pub(crate) proof fn lemma_signed_casts(a: i16, b: i32, c: i64)
    ensures
        (a as u16) as i16 == a,
        (b as u32) as i32 == b,
        (c as u64) as i64 == c,
{
    assert((a as u16) as i16 == a) by (bit_vector);
    assert((b as u32) as i32 == b) by (bit_vector);
    assert((c as u64) as i64 == c) by (bit_vector);
}

/// The bytes of a fixed-size scalar, after its padding, read back as it.
#[verifier::spinoff_prover]
#[verifier::rlimit(100)]
proof fn lemma_fixed_bytes(f: Format, e: Endian, v: ValueModel, pos: int)
    requires
        is_fixed(v),
    ensures
        ({
            let n = fixed_size(f, sig_of(v));
            let p = pad(pos, n);
            let x = enc_fixed(f, e, v, pos);
            &&& x.len() == p + n
            &&& x.subrange(0, p) == zeros(p)
            &&& fixed_value(f, e, sig_of(v), x.subrange(p, p + n)) == Ok::<ValueModel, Error>(v)
            &&& is_fixed_type(sig_of(v))
            &&& n == alignment(f, sig_of(v))
        }),
{
    reveal(sig_of);
    let t = sig_of(v);
    let n = fixed_size(f, t);
    let p = pad(pos, n);
    let x = enc_fixed(f, e, v, pos);
    match v {
        ValueModel::I16(y) => {
            lemma_u16_round_trip(y as u16, e);
            lemma_signed_casts(y, 0, 0);
            assert(x.subrange(p, p + n) =~= u16_bytes(y as u16, e));
        },
        ValueModel::U16(y) => {
            lemma_u16_round_trip(y, e);
            assert(x.subrange(p, p + n) =~= u16_bytes(y, e));
        },
        ValueModel::I32(y) => {
            lemma_u32_round_trip(y as u32, e);
            lemma_signed_casts(0, y, 0);
            assert(x.subrange(p, p + n) =~= u32_bytes(y as u32, e));
        },
        ValueModel::U32(y) => {
            lemma_u32_round_trip(y, e);
            assert(x.subrange(p, p + n) =~= u32_bytes(y, e));
        },
        ValueModel::Fd(y) => {
            lemma_u32_round_trip(y, e);
            assert(x.subrange(p, p + n) =~= u32_bytes(y, e));
        },
        ValueModel::Bool(y) => {
            if f == Format::DBus {
                let w: u32 = if y {
                    1
                } else {
                    0
                };
                lemma_u32_round_trip(w, e);
                assert(x.subrange(p, p + n) =~= u32_bytes(w, e));
            } else {
                assert(x.subrange(p, p + n) =~= x);
            }
        },
        ValueModel::I64(y) => {
            lemma_u64_round_trip(y as u64, e);
            lemma_signed_casts(0, 0, y);
            assert(x.subrange(p, p + n) =~= u64_bytes(y as u64, e));
        },
        ValueModel::U64(y) => {
            lemma_u64_round_trip(y, e);
            assert(x.subrange(p, p + n) =~= u64_bytes(y, e));
        },
        ValueModel::F64(y) => {
            lemma_u64_round_trip(y, e);
            assert(x.subrange(p, p + n) =~= u64_bytes(y, e));
        },
        _ => {
            assert(x.subrange(p, p + n) =~= x);
        },
    }
    assert(x.subrange(0, p) =~= zeros(p));
}

/// The format-A encoding of `v` at offset `base + i` is what `b` holds from
/// index `i`, and it ends no later than `end`.
pub open spec fn placed(
    e: Endian,
    v: ValueModel,
    b: Seq<u8>,
    i: int,
    end: int,
    base: int,
    d: ContainerDepths,
) -> bool {
    let r = enc(Format::DBus, e, v, base + i, d);
    &&& r is Ok
    &&& 0 <= i
    &&& i + r->Ok_0.len() <= end <= b.len()
    &&& b.subrange(i, i + r->Ok_0.len()) == r->Ok_0
}

/// Reading `v`'s signature at `i` gives `v` and stops where its encoding ends.
pub open spec fn reads_back(
    e: Endian,
    v: ValueModel,
    b: Seq<u8>,
    i: int,
    end: int,
    base: int,
    d: ContainerDepths,
) -> bool {
    let x = enc(Format::DBus, e, v, base + i, d)->Ok_0;
    &&& dec(Format::DBus, e, b, sig_of(v), i, end, base, d) == Ok::<(ValueModel, int), Error>(
        (v, i + x.len()),
    )
    &&& x.len() > 0
}

/// The signatures of a list of values.
pub open spec fn sig_list(fs: Seq<ValueModel>) -> Seq<SigType> {
    Seq::new(fs.len(), |k: int| sig_of(fs[k]))
}

proof fn lemma_rt(e: Endian, v: ValueModel, b: Seq<u8>, i: int, end: int, base: int, d: ContainerDepths)
    requires
        typed(v),
        depths_ok(d),
        base >= 0,
        placed(e, v, b, i, end, base, d),
    ensures
        reads_back(e, v, b, i, end, base, d),
    decreases v, 2int,
{
    if is_fixed(v) {
        lemma_rt_fixed(e, v, b, i, end, base, d);
    } else {
        match v {
            ValueModel::Str(_) => lemma_rt_text(e, v, b, i, end, base, d),
            ValueModel::ObjectPath(_) => lemma_rt_text(e, v, b, i, end, base, d),
            ValueModel::Signature(_) => lemma_rt_sig(e, v, b, i, end, base, d),
            ValueModel::Variant(_) => lemma_rt_variant(e, v, b, i, end, base, d),
            ValueModel::Array(_, _) => lemma_rt_array(e, v, b, i, end, base, d),
            ValueModel::Dict(_, _, _) => lemma_rt_dict(e, v, b, i, end, base, d),
            ValueModel::Structure(_) => lemma_rt_structure(e, v, b, i, end, base, d),
            ValueModel::Maybe(_, _) => lemma_rt_maybe(e, v, b, i, end, base, d),
            _ => {},
        }
    }
}

#[verifier::spinoff_prover]
#[verifier::rlimit(100)]
proof fn lemma_rt_fixed(
    e: Endian,
    v: ValueModel,
    b: Seq<u8>,
    i: int,
    end: int,
    base: int,
    d: ContainerDepths,
)
    requires
        is_fixed(v),
        placed(e, v, b, i, end, base, d),
    ensures
        reads_back(e, v, b, i, end, base, d),
{
    let f = Format::DBus;
    let pos = base + i;
    lemma_fixed_bytes(f, e, v, pos);
    let x = enc(f, e, v, pos, d)->Ok_0;
    assert(x == enc_fixed(f, e, v, pos));
    let t = sig_of(v);
    let n = fixed_size(f, t);
    let p = pad(pos, n);
    lemma_piece(b, i, x, p, x.subrange(p, p + n));
    assert(n > 0);
}

#[verifier::spinoff_prover]
#[verifier::rlimit(100)]
proof fn lemma_rt_text(
    e: Endian,
    v: ValueModel,
    b: Seq<u8>,
    i: int,
    end: int,
    base: int,
    d: ContainerDepths,
)
    requires
        v is Str || v is ObjectPath,
        base >= 0,
        placed(e, v, b, i, end, base, d),
    ensures
        reads_back(e, v, b, i, end, base, d),
{
    reveal(sig_of);
    let f = Format::DBus;
    let pos = base + i;
    let x = enc(f, e, v, pos, d)->Ok_0;
    let c = if v is Str {
        v->Str_0
    } else {
        v->ObjectPath_0
    };
    let s = vstd::utf8::encode_utf8(c);
    vstd::utf8::encode_utf8_valid_utf8(c);
    vstd::utf8::encode_utf8_decode_utf8(c);
    let p = pad(pos, 4);
    lemma_pad_mod8(pos, 4);
    lemma_u32_round_trip(s.len() as u32, e);
    assert(x.subrange(p, p + 4) =~= u32_bytes(s.len() as u32, e));
    lemma_piece(b, i, x, p, u32_bytes(s.len() as u32, e));
    assert(x.subrange(p + 4, p + 4 + s.len()) =~= s);
    lemma_piece(b, i, x, p + 4, s);
    assert(b.subrange(i, i + x.len())[p + 4 + s.len()] == b[i + p + 4 + s.len()]);
}

#[verifier::spinoff_prover]
#[verifier::rlimit(100)]
proof fn lemma_rt_sig(
    e: Endian,
    v: ValueModel,
    b: Seq<u8>,
    i: int,
    end: int,
    base: int,
    d: ContainerDepths,
)
    requires
        v is Signature,
        typed(v),
        placed(e, v, b, i, end, base, d),
    ensures
        reads_back(e, v, b, i, end, base, d),
{
    reveal(sig_of);
    let f = Format::DBus;
    let pos = base + i;
    let x = enc(f, e, v, pos, d)->Ok_0;
    let t = v->Signature_0;
    let st = text(t);
    lemma_parse_text_round_trip(t);
    assert(b.subrange(i, i + x.len())[0] == b[i]);
    assert(x.subrange(1, 1 + st.len() as int) =~= st);
    lemma_piece(b, i, x, 1, st);
    assert(b.subrange(i, i + x.len())[1 + st.len() as int] == b[i + 1 + st.len()]);
}

#[verifier::spinoff_prover]
#[verifier::rlimit(100)]
proof fn lemma_rt_variant(
    e: Endian,
    v: ValueModel,
    b: Seq<u8>,
    i: int,
    end: int,
    base: int,
    d: ContainerDepths,
)
    requires
        v is Variant,
        typed(v),
        depths_ok(d),
        base >= 0,
        placed(e, v, b, i, end, base, d),
    ensures
        reads_back(e, v, b, i, end, base, d),
    decreases v, 1int,
{
    reveal(sig_of);
    let f = Format::DBus;
    let pos = base + i;
    let x = enc(f, e, v, pos, d)->Ok_0;
    let inner = *v->Variant_0;
    let d2 = crate::depth::enter_variant(d)->Ok_0;
    let st = text(sig_of(inner));
    let head = seq![st.len() as u8] + st + seq![0u8];
    let y = enc(f, e, inner, pos + head.len(), d2)->Ok_0;
    assert(x == head + y);
    lemma_typed_sig_wf(inner);
    lemma_parse_text_round_trip(sig_of(inner));
    assert(b.subrange(i, i + x.len())[0] == b[i]);
    assert(x.subrange(1, 1 + st.len() as int) =~= st);
    lemma_piece(b, i, x, 1, st);
    assert(b.subrange(i, i + x.len())[1 + st.len() as int] == b[i + 1 + st.len()]);
    assert(x.subrange(head.len() as int, head.len() + y.len() as int) =~= y);
    lemma_piece(b, i, x, head.len() as int, y);
    lemma_rt(e, inner, b, i + head.len(), end, base, d2);
}

#[verifier::spinoff_prover]
#[verifier::rlimit(100)]
proof fn lemma_rt_array(
    e: Endian,
    v: ValueModel,
    b: Seq<u8>,
    i: int,
    end: int,
    base: int,
    d: ContainerDepths,
)
    requires
        v is Array,
        typed(v),
        depths_ok(d),
        base >= 0,
        placed(e, v, b, i, end, base, d),
    ensures
        reads_back(e, v, b, i, end, base, d),
    decreases v, 1int,
{
    reveal(sig_of);
    let f = Format::DBus;
    let pos = base + i;
    let x = enc(f, e, v, pos, d)->Ok_0;
    let t = v->Array_0;
    let es = v->Array_1;
    let d2 = crate::depth::enter_array(d)->Ok_0;
    let p = pad(pos, 4);
    lemma_pad_mod8(pos, 4);
    let p1 = pos + p + 4;
    let p2 = pad(p1, alignment(f, t));
    lemma_pad_mod8(p1, alignment(f, t));
    assert(crate::depth::enter_array(d) is Ok);
    assert(encs(f, e, es, p1 + p2, d2) is Ok);
    let body = encs(f, e, es, p1 + p2, d2)->Ok_0;
    assert(body.len() <= u32::MAX);
    assert(x == zeros(p) + u32_bytes(body.len() as u32, e) + zeros(p2) + body);
    lemma_u32_round_trip(body.len() as u32, e);
    assert(x.subrange(p, p + 4) =~= u32_bytes(body.len() as u32, e));
    lemma_piece(b, i, x, p, u32_bytes(body.len() as u32, e));
    let s = i + p + 4 + p2;
    assert(x.subrange(p + 4 + p2, x.len() as int) =~= body);
    lemma_piece(b, i, x, p + 4 + p2, body);
    lemma_rt_elems(e, es, t, b, s, base, d2);
    assert(u32_from(b.subrange(i + p, i + p + 4), e) as int == body.len());
    assert(crate::decode::dec_container(e, b, sig_of(v), i, end, base, d) == Ok::<
        (ValueModel, int),
        Error,
    >((v, s + body.len())));
}

#[verifier::spinoff_prover]
#[verifier::rlimit(100)]
proof fn lemma_rt_elems(
    e: Endian,
    es: Seq<ValueModel>,
    t: SigType,
    b: Seq<u8>,
    s: int,
    base: int,
    d: ContainerDepths,
)
    requires
        all_typed_as(es, t),
        depths_ok(d),
        base >= 0,
        0 <= s,
        encs(Format::DBus, e, es, base + s, d) is Ok,
        s + encs(Format::DBus, e, es, base + s, d)->Ok_0.len() <= b.len(),
        b.subrange(s, s + encs(Format::DBus, e, es, base + s, d)->Ok_0.len()) == encs(
            Format::DBus,
            e,
            es,
            base + s,
            d,
        )->Ok_0,
    ensures
        dec_elems(e, b, t, s, s + encs(Format::DBus, e, es, base + s, d)->Ok_0.len(), base, d)
            == Ok::<Seq<ValueModel>, Error>(es),
    decreases es, 0int,
{
    let f = Format::DBus;
    let body = encs(f, e, es, base + s, d)->Ok_0;
    let stop = s + body.len();
    if es.len() == 0 {
        assert(es =~= Seq::<ValueModel>::empty());
        assert(body.len() == 0);
    } else {
        let v = es[0];
        let rest = es.drop_first();
        assert(typed(v) && sig_of(v) == t && all_typed_as(rest, t));
        let b0 = enc(f, e, v, base + s, d)->Ok_0;
        let s2 = s + b0.len();
        let r = encs(f, e, rest, base + s2, d)->Ok_0;
        assert(body == b0 + r);
        assert(body.subrange(0, b0.len() as int) =~= b0);
        lemma_piece(b, s, body, 0, b0);
        lemma_rt(e, v, b, s, stop, base, d);
        assert(dec(f, e, b, t, s, stop, base, d) == Ok::<(ValueModel, int), Error>((v, s2)));
        assert(body.subrange(b0.len() as int, body.len() as int) =~= r);
        lemma_piece(b, s, body, b0.len() as int, r);
        lemma_rt_elems(e, rest, t, b, s2, base, d);
        assert(s2 + r.len() == stop);
        assert(dec_elems(e, b, t, s2, stop, base, d) == Ok::<Seq<ValueModel>, Error>(rest));
        assert(s < s2 <= stop);
        assert(seq![v] + rest =~= es);
    }
}

#[verifier::spinoff_prover]
#[verifier::rlimit(100)]
proof fn lemma_rt_dict(
    e: Endian,
    v: ValueModel,
    b: Seq<u8>,
    i: int,
    end: int,
    base: int,
    d: ContainerDepths,
)
    requires
        v is Dict,
        typed(v),
        depths_ok(d),
        base >= 0,
        placed(e, v, b, i, end, base, d),
    ensures
        reads_back(e, v, b, i, end, base, d),
    decreases v, 1int,
{
    reveal(sig_of);
    let f = Format::DBus;
    let pos = base + i;
    let x = enc(f, e, v, pos, d)->Ok_0;
    let es = v->Dict_2;
    let d2 = crate::depth::enter_array(d)->Ok_0;
    let p = pad(pos, 4);
    lemma_pad_mod8(pos, 4);
    let p1 = pos + p + 4;
    let p2 = pad(p1, 8);
    lemma_pad_mod8(p1, 8);
    assert(crate::depth::enter_array(d) is Ok);
    assert(enc_entries(f, e, es, p1 + p2, d2) is Ok);
    let body = enc_entries(f, e, es, p1 + p2, d2)->Ok_0;
    assert(body.len() <= u32::MAX);
    assert(x == zeros(p) + u32_bytes(body.len() as u32, e) + zeros(p2) + body);
    lemma_u32_round_trip(body.len() as u32, e);
    assert(x.subrange(p, p + 4) =~= u32_bytes(body.len() as u32, e));
    lemma_piece(b, i, x, p, u32_bytes(body.len() as u32, e));
    let s = i + p + 4 + p2;
    assert(x.subrange(p + 4 + p2, x.len() as int) =~= body);
    lemma_piece(b, i, x, p + 4 + p2, body);
    lemma_rt_entries(e, es, sig_of(v), b, s, base, d2);
    assert(u32_from(b.subrange(i + p, i + p + 4), e) as int == body.len());
    assert(crate::decode::dec_container(e, b, sig_of(v), i, end, base, d) == Ok::<
        (ValueModel, int),
        Error,
    >((v, s + body.len())));
}

/// One dictionary entry, where its encoding stands, reads back as its key
/// and its value.
#[verifier::spinoff_prover]
#[verifier::rlimit(100)]
proof fn lemma_rt_entry(
    e: Endian,
    kv: (ValueModel, ValueModel),
    kt: SigType,
    vt: SigType,
    b: Seq<u8>,
    s: int,
    stop: int,
    base: int,
    d: ContainerDepths,
)
    requires
        typed(kv.0) && typed(kv.1) && sig_of(kv.0) == kt && sig_of(kv.1) == vt,
        depths_ok(d),
        base >= 0,
        0 <= s,
        enc_entry(Format::DBus, e, kv, base + s, d) is Ok,
        s + enc_entry(Format::DBus, e, kv, base + s, d)->Ok_0.len() <= stop <= b.len(),
        b.subrange(s, s + enc_entry(Format::DBus, e, kv, base + s, d)->Ok_0.len()) == enc_entry(
            Format::DBus,
            e,
            kv,
            base + s,
            d,
        )->Ok_0,
    ensures
        ({
            let c = enc_entry(Format::DBus, e, kv, base + s, d)->Ok_0;
            let p = pad(base + s, 8);
            &&& c.len() > 0
            &&& s + p <= stop
            &&& dec(Format::DBus, e, b, kt, s + p, stop, base, d) matches Ok((k, j)) && k == kv.0
                && dec(Format::DBus, e, b, vt, j, stop, base, d) == Ok::<(ValueModel, int), Error>(
                (kv.1, s + c.len()),
            )
        }),
    decreases kv, 1int,
{
    let f = Format::DBus;
    let c = enc_entry(f, e, kv, base + s, d)->Ok_0;
    let p = pad(base + s, 8);
    lemma_pad_mod8(base + s, 8);
    let kb = enc(f, e, kv.0, base + s + p, d)->Ok_0;
    let vb = enc(f, e, kv.1, base + s + p + kb.len(), d)->Ok_0;
    assert(c == zeros(p) + kb + vb);
    assert(c.subrange(p, p + kb.len()) =~= kb);
    lemma_piece(b, s, c, p, kb);
    lemma_rt(e, kv.0, b, s + p, stop, base, d);
    assert(c.subrange(p + kb.len(), p + kb.len() + vb.len()) =~= vb);
    lemma_piece(b, s, c, p + kb.len(), vb);
    lemma_rt(e, kv.1, b, s + p + kb.len(), stop, base, d);
}

#[verifier::spinoff_prover]
#[verifier::rlimit(100)]
proof fn lemma_rt_entries(
    e: Endian,
    es: Seq<(ValueModel, ValueModel)>,
    t: SigType,
    b: Seq<u8>,
    s: int,
    base: int,
    d: ContainerDepths,
)
    requires
        t is Dict,
        entries_typed_as(es, *t->Dict_0, *t->Dict_1),
        depths_ok(d),
        base >= 0,
        0 <= s,
        enc_entries(Format::DBus, e, es, base + s, d) is Ok,
        s + enc_entries(Format::DBus, e, es, base + s, d)->Ok_0.len() <= b.len(),
        b.subrange(s, s + enc_entries(Format::DBus, e, es, base + s, d)->Ok_0.len())
            == enc_entries(Format::DBus, e, es, base + s, d)->Ok_0,
    ensures
        dec_entries(
            e,
            b,
            t,
            s,
            s + enc_entries(Format::DBus, e, es, base + s, d)->Ok_0.len(),
            base,
            d,
        ) == Ok::<Seq<(ValueModel, ValueModel)>, Error>(es),
    decreases es, 0int,
{
    let f = Format::DBus;
    let body = enc_entries(f, e, es, base + s, d)->Ok_0;
    let stop = s + body.len();
    let kt = *t->Dict_0;
    let vt = *t->Dict_1;
    if es.len() == 0 {
        assert(es =~= Seq::<(ValueModel, ValueModel)>::empty());
        assert(body.len() == 0);
    } else {
        let kv = es[0];
        let rest = es.drop_first();
        assert(typed(kv.0) && typed(kv.1) && sig_of(kv.0) == kt && sig_of(kv.1) == vt
            && entries_typed_as(rest, kt, vt));
        let c = enc_entry(f, e, kv, base + s, d)->Ok_0;
        let s2 = s + c.len();
        let r = enc_entries(f, e, rest, base + s2, d)->Ok_0;
        assert(body == c + r);
        assert(body.subrange(0, c.len() as int) =~= c);
        lemma_piece(b, s, body, 0, c);
        lemma_rt_entry(e, kv, kt, vt, b, s, stop, base, d);
        assert(body.subrange(c.len() as int, body.len() as int) =~= r);
        lemma_piece(b, s, body, c.len() as int, r);
        lemma_rt_entries(e, rest, t, b, s2, base, d);
        assert(s2 + r.len() == stop);
        assert(s < s2 <= stop);
        assert(seq![kv] + rest =~= es);
    }
}

#[verifier::spinoff_prover]
#[verifier::rlimit(100)]
proof fn lemma_rt_structure(
    e: Endian,
    v: ValueModel,
    b: Seq<u8>,
    i: int,
    end: int,
    base: int,
    d: ContainerDepths,
)
    requires
        v is Structure,
        typed(v),
        depths_ok(d),
        base >= 0,
        placed(e, v, b, i, end, base, d),
    ensures
        reads_back(e, v, b, i, end, base, d),
    decreases v, 1int,
{
    reveal(sig_of);
    let f = Format::DBus;
    let pos = base + i;
    let x = enc(f, e, v, pos, d)->Ok_0;
    let fs = v->Structure_0;
    let d2 = crate::depth::enter_structure(d)->Ok_0;
    let p = pad(pos, 8);
    lemma_pad_mod8(pos, 8);
    assert(crate::depth::enter_structure(d) is Ok);
    assert(encs(f, e, fs, pos + p, d2) is Ok);
    let body = encs(f, e, fs, pos + p, d2)->Ok_0;
    assert(x == zeros(p) + body);
    assert(x.subrange(p, x.len() as int) =~= body);
    lemma_piece(b, i, x, p, body);
    assert(sig_of(v) == SigType::Structure(sig_list(fs))) by {
        assert(sig_of(v)->Structure_0 =~= sig_list(fs));
    }
    lemma_rt_fields(e, fs, b, i + p, end, base, d2);
    assert(crate::decode::dec_container(e, b, sig_of(v), i, end, base, d) == Ok::<
        (ValueModel, int),
        Error,
    >((v, i + p + body.len())));
}

#[verifier::spinoff_prover]
#[verifier::rlimit(100)]
proof fn lemma_rt_fields(
    e: Endian,
    fs: Seq<ValueModel>,
    b: Seq<u8>,
    s: int,
    end: int,
    base: int,
    d: ContainerDepths,
)
    requires
        all_typed(fs),
        depths_ok(d),
        base >= 0,
        0 <= s,
        encs(Format::DBus, e, fs, base + s, d) is Ok,
        s + encs(Format::DBus, e, fs, base + s, d)->Ok_0.len() <= end <= b.len(),
        b.subrange(s, s + encs(Format::DBus, e, fs, base + s, d)->Ok_0.len()) == encs(
            Format::DBus,
            e,
            fs,
            base + s,
            d,
        )->Ok_0,
    ensures
        dec_fields(e, b, sig_list(fs), s, end, base, d) == Ok::<(Seq<ValueModel>, int), Error>(
            (fs, s + encs(Format::DBus, e, fs, base + s, d)->Ok_0.len()),
        ),
        fs.len() > 0 ==> encs(Format::DBus, e, fs, base + s, d)->Ok_0.len() > 0,
    decreases fs, 0int,
{
    let f = Format::DBus;
    let body = encs(f, e, fs, base + s, d)->Ok_0;
    if fs.len() == 0 {
        assert(sig_list(fs) =~= Seq::<SigType>::empty());
        assert(fs =~= Seq::<ValueModel>::empty());
        assert(body.len() == 0);
    } else {
        let v = fs[0];
        let rest = fs.drop_first();
        assert(typed(v) && all_typed(rest));
        let b0 = enc(f, e, v, base + s, d)->Ok_0;
        let s2 = s + b0.len();
        let r = encs(f, e, rest, base + s2, d)->Ok_0;
        assert(body == b0 + r);
        assert(body.subrange(0, b0.len() as int) =~= b0);
        lemma_piece(b, s, body, 0, b0);
        lemma_rt(e, v, b, s, end, base, d);
        assert(body.subrange(b0.len() as int, body.len() as int) =~= r);
        lemma_piece(b, s, body, b0.len() as int, r);
        lemma_rt_fields(e, rest, b, s2, end, base, d);
        let sl = sig_list(fs);
        assert(sl.drop_first() =~= sig_list(rest));
        assert(sl[0] == sig_of(v));
        assert(dec(f, e, b, sl[0], s, end, base, d) == Ok::<(ValueModel, int), Error>((v, s2)));
        assert(seq![v] + rest =~= fs);
    }
}

proof fn lemma_rt_maybe(
    e: Endian,
    v: ValueModel,
    b: Seq<u8>,
    i: int,
    end: int,
    base: int,
    d: ContainerDepths,
)
    requires
        v is Maybe,
        typed(v),
        depths_ok(d),
        base >= 0,
        placed(e, v, b, i, end, base, d),
    ensures
        reads_back(e, v, b, i, end, base, d),
    decreases v, 1int,
{
    if v->Maybe_1 is Some {
        lemma_rt_maybe_some(e, v, b, i, end, base, d);
    } else {
        lemma_rt_maybe_none(e, v, b, i, end, base, d);
    }
}

#[verifier::spinoff_prover]
#[verifier::rlimit(100)]
proof fn lemma_rt_maybe_some(
    e: Endian,
    v: ValueModel,
    b: Seq<u8>,
    i: int,
    end: int,
    base: int,
    d: ContainerDepths,
)
    requires
        v is Maybe,
        v->Maybe_1 is Some,
        typed(v),
        depths_ok(d),
        base >= 0,
        placed(e, v, b, i, end, base, d),
    ensures
        reads_back(e, v, b, i, end, base, d),
    decreases v, 0int,
{
    reveal(sig_of);
    let f = Format::DBus;
    let pos = base + i;
    let x = enc(f, e, v, pos, d)->Ok_0;
    assert(dec(f, e, b, sig_of(v), i, end, base, d) == crate::decode::dec_container(e, b, sig_of(v), i, end, base, d));
    let t = v->Maybe_0;
    let d2 = crate::depth::enter_array(d)->Ok_0;
    let p = pad(pos, 4);
    lemma_pad_mod8(pos, 4);
    let p1 = pos + p + 4;
    let p2 = pad(p1, alignment(f, t));
    assert(crate::depth::enter_array(d) is Ok);
    lemma_pad_mod8(p1, alignment(f, t));
    let y = *v->Maybe_1->Some_0;
    assert(enc(f, e, v, pos, d) == crate::encode::enc_maybe(f, e, t, y, pos, d));
    let body = enc(f, e, y, p1 + p2, d2)->Ok_0;
    assert(body.len() <= u32::MAX);
    assert(x == zeros(p) + u32_bytes(body.len() as u32, e) + zeros(p2) + body);
    lemma_u32_round_trip(body.len() as u32, e);
    assert(x.subrange(p, p + 4) =~= u32_bytes(body.len() as u32, e));
    lemma_piece(b, i, x, p, u32_bytes(body.len() as u32, e));
    let s = i + p + 4 + p2;
    assert(x.subrange(p + 4 + p2, x.len() as int) =~= body);
    lemma_piece(b, i, x, p + 4 + p2, body);
    assert(u32_from(b.subrange(i + p, i + p + 4), e) as int == body.len());
    let stop = s + body.len();
    lemma_rt(e, y, b, s, stop, base, d2);
    assert(dec(f, e, b, t, s, stop, base, d2) == Ok::<(ValueModel, int), Error>((y, stop)));
    assert(crate::decode::dec_elems(e, b, t, stop, stop, base, d2) == Ok::<Seq<ValueModel>, Error>(
        Seq::empty(),
    ));
    assert(seq![y] + Seq::<ValueModel>::empty() =~= seq![y]);
    assert(crate::decode::dec_elems(e, b, t, s, stop, base, d2) == Ok::<Seq<ValueModel>, Error>(
        seq![y],
    ));
    assert(seq![y][0] == y);
    assert(crate::decode::dec_container(e, b, sig_of(v), i, end, base, d) == Ok::<
        (ValueModel, int),
        Error,
    >((v, stop)));
}

#[verifier::spinoff_prover]
#[verifier::rlimit(100)]
proof fn lemma_rt_maybe_none(
    e: Endian,
    v: ValueModel,
    b: Seq<u8>,
    i: int,
    end: int,
    base: int,
    d: ContainerDepths,
)
    requires
        v is Maybe,
        v->Maybe_1 is None,
        typed(v),
        depths_ok(d),
        base >= 0,
        placed(e, v, b, i, end, base, d),
    ensures
        reads_back(e, v, b, i, end, base, d),
{
    reveal(sig_of);
    let f = Format::DBus;
    let pos = base + i;
    let x = enc(f, e, v, pos, d)->Ok_0;
    let t = v->Maybe_0;
    let d2 = crate::depth::enter_array(d)->Ok_0;
    let p = pad(pos, 4);
    lemma_pad_mod8(pos, 4);
    let p1 = pos + p + 4;
    let p2 = pad(p1, alignment(f, t));
    assert(crate::depth::enter_array(d) is Ok);
    lemma_pad_mod8(p1, alignment(f, t));
    let body = Seq::<u8>::empty();
    assert(enc(f, e, v, pos, d) == crate::encode::frame(e, pos, p2, Ok::<Seq<u8>, Error>(body)));
    assert(body.len() <= u32::MAX);
    assert(x == zeros(p) + u32_bytes(body.len() as u32, e) + zeros(p2) + body);
    lemma_u32_round_trip(body.len() as u32, e);
    assert(x.subrange(p, p + 4) =~= u32_bytes(body.len() as u32, e));
    lemma_piece(b, i, x, p, u32_bytes(body.len() as u32, e));
    let s = i + p + 4 + p2;
    assert(x.subrange(p + 4 + p2, x.len() as int) =~= body);
    lemma_piece(b, i, x, p + 4 + p2, body);
    assert(u32_from(b.subrange(i + p, i + p + 4), e) as int == body.len());
    let stop = s + body.len();
    assert(crate::decode::dec_elems(e, b, t, s, stop, base, d2) == Ok::<Seq<ValueModel>, Error>(
        Seq::empty(),
    ));
    assert(crate::decode::dec_container(e, b, sig_of(v), i, end, base, d) == Ok::<
        (ValueModel, int),
        Error,
    >((v, stop)));
}

/// Round trip in the D-Bus format: for every typed value, decoding its encoding with
/// its own signature, in the same context (byte order and starting offset),
/// gives the value back and takes every byte.
pub proof fn lemma_round_trip(ctxt: Context, v: ValueModel)
    requires
        typed(v),
        ctxt.format == Format::DBus,
    ensures
        encoding(ctxt, v) matches Ok(b) ==> decoding(ctxt, b, sig_of(v)) == Ok::<
            (ValueModel, int),
            Error,
        >((v, b.len() as int)),
{
    if let Ok(b) = encoding(ctxt, v) {
        let d = ContainerDepths { array: 0, structure: 0, variant: 0 };
        assert(b.subrange(0, b.len() as int) =~= b);
        lemma_rt(ctxt.endian, v, b, 0, b.len() as int, ctxt.position as int, d);
    }
}

/// `b` holds, from index `i` up to `end`, a proper prefix of the format-A
/// encoding of `v` at offset `base + i`.
pub open spec fn cut_placed(
    e: Endian,
    v: ValueModel,
    b: Seq<u8>,
    i: int,
    end: int,
    base: int,
    d: ContainerDepths,
) -> bool {
    let r = enc(Format::DBus, e, v, base + i, d);
    &&& r is Ok
    &&& 0 <= i <= end < i + r->Ok_0.len()
    &&& end <= b.len()
    &&& b.subrange(i, end) == r->Ok_0.subrange(0, end - i)
}

/// A piece of an encoding that lies before the cut is in `b`.
proof fn lemma_cut_piece(b: Seq<u8>, i: int, end: int, x: Seq<u8>, off: int, part: Seq<u8>)
    requires
        0 <= i <= end <= b.len(),
        end - i <= x.len(),
        b.subrange(i, end) == x.subrange(0, end - i),
        0 <= off,
        off + part.len() <= end - i,
        x.subrange(off, off + part.len()) == part,
    ensures
        b.subrange(i + off, i + off + part.len()) == part,
{
    let w = x.subrange(0, end - i);
    assert(w.subrange(off, off + part.len()) =~= part);
    lemma_piece(b, i, w, off, part);
}

/// The part of `b` before the cut that lies within a later piece of the
/// encoding is a prefix of that piece.
proof fn lemma_cut_suffix(b: Seq<u8>, i: int, end: int, x: Seq<u8>, off: int, y: Seq<u8>)
    requires
        0 <= i <= end <= b.len(),
        end - i <= x.len(),
        b.subrange(i, end) == x.subrange(0, end - i),
        0 <= off <= end - i,
        end - i - off <= y.len(),
        off + y.len() <= x.len(),
        x.subrange(off, off + y.len()) == y,
    ensures
        b.subrange(i + off, end) == y.subrange(0, end - i - off),
{
    assert forall|k: int| 0 <= k < end - i - off implies #[trigger] b.subrange(i + off, end)[k]
        == y.subrange(0, end - i - off)[k] by {
        assert(b.subrange(i + off, end)[k] == b[i + off + k]);
        assert(b.subrange(i, end)[off + k] == b[i + off + k]);
        assert(b.subrange(i, end)[off + k] == x.subrange(0, end - i)[off + k]);
        assert(x.subrange(0, end - i)[off + k] == x[off + k]);
        assert(x.subrange(off, off + y.len())[k] == x[off + k]);
        assert(y[k] == x[off + k]);
        assert(y.subrange(0, end - i - off)[k] == y[k]);
    }
    assert(b.subrange(i + off, end) =~= y.subrange(0, end - i - off));
}

proof fn lemma_cut(e: Endian, v: ValueModel, b: Seq<u8>, i: int, end: int, base: int, d: ContainerDepths)
    requires
        typed(v),
        depths_ok(d),
        base >= 0,
        cut_placed(e, v, b, i, end, base, d),
    ensures
        dec(Format::DBus, e, b, sig_of(v), i, end, base, d) == Err::<(ValueModel, int), Error>(
            Error::Truncated,
        ),
    decreases v, 2int,
{
    if is_fixed(v) {
        lemma_fixed_bytes(Format::DBus, e, v, base + i);
    } else {
        match v {
            ValueModel::Str(_) => lemma_cut_text(e, v, b, i, end, base, d),
            ValueModel::ObjectPath(_) => lemma_cut_text(e, v, b, i, end, base, d),
            ValueModel::Signature(_) => lemma_cut_sig(e, v, b, i, end, base, d),
            ValueModel::Variant(_) => lemma_cut_variant(e, v, b, i, end, base, d),
            ValueModel::Structure(_) => lemma_cut_structure(e, v, b, i, end, base, d),
            _ => lemma_cut_framed(e, v, b, i, end, base, d),
        }
    }
}

#[verifier::spinoff_prover]
#[verifier::rlimit(100)]
proof fn lemma_cut_text(
    e: Endian,
    v: ValueModel,
    b: Seq<u8>,
    i: int,
    end: int,
    base: int,
    d: ContainerDepths,
)
    requires
        v is Str || v is ObjectPath,
        base >= 0,
        cut_placed(e, v, b, i, end, base, d),
    ensures
        dec(Format::DBus, e, b, sig_of(v), i, end, base, d) == Err::<(ValueModel, int), Error>(
            Error::Truncated,
        ),
{
    reveal(sig_of);
    let f = Format::DBus;
    let pos = base + i;
    let x = enc(f, e, v, pos, d)->Ok_0;
    let c = if v is Str {
        v->Str_0
    } else {
        v->ObjectPath_0
    };
    let s = vstd::utf8::encode_utf8(c);
    let p = pad(pos, 4);
    lemma_pad_mod8(pos, 4);
    if end >= i + p + 4 {
        lemma_u32_round_trip(s.len() as u32, e);
        assert(x.subrange(p, p + 4) =~= u32_bytes(s.len() as u32, e));
        lemma_cut_piece(b, i, end, x, p, u32_bytes(s.len() as u32, e));
    }
}

#[verifier::spinoff_prover]
#[verifier::rlimit(100)]
proof fn lemma_cut_sig(
    e: Endian,
    v: ValueModel,
    b: Seq<u8>,
    i: int,
    end: int,
    base: int,
    d: ContainerDepths,
)
    requires
        v is Signature,
        cut_placed(e, v, b, i, end, base, d),
    ensures
        dec(Format::DBus, e, b, sig_of(v), i, end, base, d) == Err::<(ValueModel, int), Error>(
            Error::Truncated,
        ),
{
    reveal(sig_of);
    let x = enc(Format::DBus, e, v, base + i, d)->Ok_0;
    if end > i {
        assert(b.subrange(i, end)[0] == b[i]);
        assert(x.subrange(0, end - i)[0] == x[0]);
    }
}

#[verifier::spinoff_prover]
#[verifier::rlimit(100)]
proof fn lemma_cut_variant(
    e: Endian,
    v: ValueModel,
    b: Seq<u8>,
    i: int,
    end: int,
    base: int,
    d: ContainerDepths,
)
    requires
        v is Variant,
        typed(v),
        depths_ok(d),
        base >= 0,
        cut_placed(e, v, b, i, end, base, d),
    ensures
        dec(Format::DBus, e, b, sig_of(v), i, end, base, d) == Err::<(ValueModel, int), Error>(
            Error::Truncated,
        ),
    decreases v, 1int,
{
    reveal(sig_of);
    let f = Format::DBus;
    let pos = base + i;
    let x = enc(f, e, v, pos, d)->Ok_0;
    let inner = *v->Variant_0;
    let d2 = crate::depth::enter_variant(d)->Ok_0;
    let st = text(sig_of(inner));
    let head = seq![st.len() as u8] + st + seq![0u8];
    let y = enc(f, e, inner, pos + head.len(), d2)->Ok_0;
    assert(x == head + y);
    if end > i {
        assert(b.subrange(i, end)[0] == b[i]);
        assert(x.subrange(0, end - i)[0] == x[0]);
    }
    if end >= i + head.len() {
        lemma_typed_sig_wf(inner);
        lemma_parse_text_round_trip(sig_of(inner));
        assert(x.subrange(1, 1 + st.len() as int) =~= st);
        lemma_cut_piece(b, i, end, x, 1, st);
        assert(b.subrange(i, end)[1 + st.len() as int] == b[i + 1 + st.len()]);
        assert(x.subrange(0, end - i)[1 + st.len() as int] == x[1 + st.len() as int]);
        let j = i + head.len();
        assert(b.subrange(j, end) =~= y.subrange(0, end - j)) by {
            assert forall|k: int| 0 <= k < end - j implies b.subrange(j, end)[k] == y.subrange(
                0,
                end - j,
            )[k] by {
                assert(b.subrange(i, end)[head.len() + k] == x.subrange(0, end - i)[head.len()
                    + k]);
            }
        }
        lemma_cut(e, inner, b, j, end, base, d2);
    }
}

proof fn lemma_cut_framed(
    e: Endian,
    v: ValueModel,
    b: Seq<u8>,
    i: int,
    end: int,
    base: int,
    d: ContainerDepths,
)
    requires
        v is Array || v is Dict || v is Maybe,
        typed(v),
        depths_ok(d),
        base >= 0,
        cut_placed(e, v, b, i, end, base, d),
    ensures
        dec(Format::DBus, e, b, sig_of(v), i, end, base, d) == Err::<(ValueModel, int), Error>(
            Error::Truncated,
        ),
{
    if v is Array {
        lemma_cut_framed_array(e, v, b, i, end, base, d);
    } else if v is Dict {
        lemma_cut_framed_dict(e, v, b, i, end, base, d);
    } else {
        lemma_cut_framed_maybe(e, v, b, i, end, base, d);
    }
}

#[verifier::spinoff_prover]
#[verifier::rlimit(100)]
proof fn lemma_cut_framed_array(
    e: Endian,
    v: ValueModel,
    b: Seq<u8>,
    i: int,
    end: int,
    base: int,
    d: ContainerDepths,
)
    requires
        v is Array,
        typed(v),
        depths_ok(d),
        base >= 0,
        cut_placed(e, v, b, i, end, base, d),
    ensures
        dec(Format::DBus, e, b, sig_of(v), i, end, base, d) == Err::<(ValueModel, int), Error>(
            Error::Truncated,
        ),
{
    reveal(sig_of);
    let f = Format::DBus;
    let pos = base + i;
    let x = enc(f, e, v, pos, d)->Ok_0;
    assert(dec(f, e, b, sig_of(v), i, end, base, d) == crate::decode::dec_container(e, b, sig_of(v), i, end, base, d));
    let d2 = crate::depth::enter_array(d)->Ok_0;
    assert(crate::depth::enter_array(d) is Ok);
    let p = pad(pos, 4);
    lemma_pad_mod8(pos, 4);
    let p1 = pos + p + 4;
    let a = match v {
        ValueModel::Array(t, _) => alignment(f, t),
        ValueModel::Maybe(t, _) => alignment(f, t),
        _ => 8,
    };
    let p2 = pad(p1, a);
    lemma_pad_mod8(p1, a);
    let body = match v {
        ValueModel::Array(t, es) => encs(f, e, es, p1 + p2, d2)->Ok_0,
        ValueModel::Dict(_, _, es) => enc_entries(f, e, es, p1 + p2, d2)->Ok_0,
        _ => match v->Maybe_1 {
            Some(y) => enc(f, e, *y, p1 + p2, d2)->Ok_0,
            None => Seq::<u8>::empty(),
        },
    };
    match v {
        ValueModel::Array(t, es) => {
            assert(enc(f, e, v, pos, d) == crate::encode::frame(e, pos, p2, encs(f, e, es, p1 + p2, d2)));
        },
        ValueModel::Dict(_, _, es) => {
            assert(enc(f, e, v, pos, d) == crate::encode::frame(e, pos, p2, enc_entries(f, e, es, p1 + p2, d2)));
        },
        ValueModel::Maybe(t, o) => match o {
            Some(y) => {
                assert(enc(f, e, v, pos, d) == crate::encode::enc_maybe(f, e, t, *y, pos, d));
            },
            None => {
                assert(enc(f, e, v, pos, d) == crate::encode::frame(e, pos, p2, Ok::<Seq<u8>, Error>(Seq::empty())));
            },
        },
        _ => {},
    }
    assert(body.len() <= u32::MAX);
    assert(x == zeros(p) + u32_bytes(body.len() as u32, e) + zeros(p2) + body);
    if end >= i + p + 4 {
        lemma_u32_round_trip(body.len() as u32, e);
        assert(x.subrange(p, p + 4) =~= u32_bytes(body.len() as u32, e));
        lemma_cut_piece(b, i, end, x, p, u32_bytes(body.len() as u32, e));
        assert(u32_from(b.subrange(i + p, i + p + 4), e) as int == body.len());
    }
    assert(crate::decode::dec_container(e, b, sig_of(v), i, end, base, d) == Err::<
        (ValueModel, int),
        Error,
    >(Error::Truncated));
}

#[verifier::spinoff_prover]
#[verifier::rlimit(100)]
proof fn lemma_cut_framed_dict(
    e: Endian,
    v: ValueModel,
    b: Seq<u8>,
    i: int,
    end: int,
    base: int,
    d: ContainerDepths,
)
    requires
        v is Dict,
        typed(v),
        depths_ok(d),
        base >= 0,
        cut_placed(e, v, b, i, end, base, d),
    ensures
        dec(Format::DBus, e, b, sig_of(v), i, end, base, d) == Err::<(ValueModel, int), Error>(
            Error::Truncated,
        ),
{
    reveal(sig_of);
    let f = Format::DBus;
    let pos = base + i;
    let x = enc(f, e, v, pos, d)->Ok_0;
    assert(dec(f, e, b, sig_of(v), i, end, base, d) == crate::decode::dec_container(e, b, sig_of(v), i, end, base, d));
    let d2 = crate::depth::enter_array(d)->Ok_0;
    assert(crate::depth::enter_array(d) is Ok);
    let p = pad(pos, 4);
    lemma_pad_mod8(pos, 4);
    let p1 = pos + p + 4;
    let a = match v {
        ValueModel::Array(t, _) => alignment(f, t),
        ValueModel::Maybe(t, _) => alignment(f, t),
        _ => 8,
    };
    let p2 = pad(p1, a);
    lemma_pad_mod8(p1, a);
    let body = match v {
        ValueModel::Array(t, es) => encs(f, e, es, p1 + p2, d2)->Ok_0,
        ValueModel::Dict(_, _, es) => enc_entries(f, e, es, p1 + p2, d2)->Ok_0,
        _ => match v->Maybe_1 {
            Some(y) => enc(f, e, *y, p1 + p2, d2)->Ok_0,
            None => Seq::<u8>::empty(),
        },
    };
    match v {
        ValueModel::Array(t, es) => {
            assert(enc(f, e, v, pos, d) == crate::encode::frame(e, pos, p2, encs(f, e, es, p1 + p2, d2)));
        },
        ValueModel::Dict(_, _, es) => {
            assert(enc(f, e, v, pos, d) == crate::encode::frame(e, pos, p2, enc_entries(f, e, es, p1 + p2, d2)));
        },
        ValueModel::Maybe(t, o) => match o {
            Some(y) => {
                assert(enc(f, e, v, pos, d) == crate::encode::enc_maybe(f, e, t, *y, pos, d));
            },
            None => {
                assert(enc(f, e, v, pos, d) == crate::encode::frame(e, pos, p2, Ok::<Seq<u8>, Error>(Seq::empty())));
            },
        },
        _ => {},
    }
    assert(body.len() <= u32::MAX);
    assert(x == zeros(p) + u32_bytes(body.len() as u32, e) + zeros(p2) + body);
    if end >= i + p + 4 {
        lemma_u32_round_trip(body.len() as u32, e);
        assert(x.subrange(p, p + 4) =~= u32_bytes(body.len() as u32, e));
        lemma_cut_piece(b, i, end, x, p, u32_bytes(body.len() as u32, e));
        assert(u32_from(b.subrange(i + p, i + p + 4), e) as int == body.len());
    }
    assert(crate::decode::dec_container(e, b, sig_of(v), i, end, base, d) == Err::<
        (ValueModel, int),
        Error,
    >(Error::Truncated));
}

#[verifier::spinoff_prover]
#[verifier::rlimit(100)]
proof fn lemma_cut_framed_maybe(
    e: Endian,
    v: ValueModel,
    b: Seq<u8>,
    i: int,
    end: int,
    base: int,
    d: ContainerDepths,
)
    requires
        v is Maybe,
        typed(v),
        depths_ok(d),
        base >= 0,
        cut_placed(e, v, b, i, end, base, d),
    ensures
        dec(Format::DBus, e, b, sig_of(v), i, end, base, d) == Err::<(ValueModel, int), Error>(
            Error::Truncated,
        ),
{
    reveal(sig_of);
    let f = Format::DBus;
    let pos = base + i;
    let x = enc(f, e, v, pos, d)->Ok_0;
    assert(dec(f, e, b, sig_of(v), i, end, base, d) == crate::decode::dec_container(e, b, sig_of(v), i, end, base, d));
    let d2 = crate::depth::enter_array(d)->Ok_0;
    assert(crate::depth::enter_array(d) is Ok);
    let p = pad(pos, 4);
    lemma_pad_mod8(pos, 4);
    let p1 = pos + p + 4;
    let a = match v {
        ValueModel::Array(t, _) => alignment(f, t),
        ValueModel::Maybe(t, _) => alignment(f, t),
        _ => 8,
    };
    let p2 = pad(p1, a);
    lemma_pad_mod8(p1, a);
    let body = match v {
        ValueModel::Array(t, es) => encs(f, e, es, p1 + p2, d2)->Ok_0,
        ValueModel::Dict(_, _, es) => enc_entries(f, e, es, p1 + p2, d2)->Ok_0,
        _ => match v->Maybe_1 {
            Some(y) => enc(f, e, *y, p1 + p2, d2)->Ok_0,
            None => Seq::<u8>::empty(),
        },
    };
    match v {
        ValueModel::Array(t, es) => {
            assert(enc(f, e, v, pos, d) == crate::encode::frame(e, pos, p2, encs(f, e, es, p1 + p2, d2)));
        },
        ValueModel::Dict(_, _, es) => {
            assert(enc(f, e, v, pos, d) == crate::encode::frame(e, pos, p2, enc_entries(f, e, es, p1 + p2, d2)));
        },
        ValueModel::Maybe(t, o) => match o {
            Some(y) => {
                assert(enc(f, e, v, pos, d) == crate::encode::enc_maybe(f, e, t, *y, pos, d));
            },
            None => {
                assert(enc(f, e, v, pos, d) == crate::encode::frame(e, pos, p2, Ok::<Seq<u8>, Error>(Seq::empty())));
            },
        },
        _ => {},
    }
    assert(body.len() <= u32::MAX);
    assert(x == zeros(p) + u32_bytes(body.len() as u32, e) + zeros(p2) + body);
    if end >= i + p + 4 {
        lemma_u32_round_trip(body.len() as u32, e);
        assert(x.subrange(p, p + 4) =~= u32_bytes(body.len() as u32, e));
        lemma_cut_piece(b, i, end, x, p, u32_bytes(body.len() as u32, e));
        assert(u32_from(b.subrange(i + p, i + p + 4), e) as int == body.len());
    }
    assert(crate::decode::dec_container(e, b, sig_of(v), i, end, base, d) == Err::<
        (ValueModel, int),
        Error,
    >(Error::Truncated));
}


#[verifier::spinoff_prover]
#[verifier::rlimit(100)]
proof fn lemma_cut_structure(
    e: Endian,
    v: ValueModel,
    b: Seq<u8>,
    i: int,
    end: int,
    base: int,
    d: ContainerDepths,
)
    requires
        v is Structure,
        typed(v),
        depths_ok(d),
        base >= 0,
        cut_placed(e, v, b, i, end, base, d),
    ensures
        dec(Format::DBus, e, b, sig_of(v), i, end, base, d) == Err::<(ValueModel, int), Error>(
            Error::Truncated,
        ),
    decreases v, 1int,
{
    reveal(sig_of);
    let f = Format::DBus;
    let pos = base + i;
    let x = enc(f, e, v, pos, d)->Ok_0;
    let fs = v->Structure_0;
    let d2 = crate::depth::enter_structure(d)->Ok_0;
    let p = pad(pos, 8);
    lemma_pad_mod8(pos, 8);
    assert(crate::depth::enter_structure(d) is Ok);
    let body = encs(f, e, fs, pos + p, d2)->Ok_0;
    assert(x == zeros(p) + body);
    assert(sig_of(v) == SigType::Structure(sig_list(fs))) by {
        assert(sig_of(v)->Structure_0 =~= sig_list(fs));
    }
    if end >= i + p {
        let s = i + p;
        assert(x.subrange(p, p + body.len()) =~= body);
        lemma_cut_suffix(b, i, end, x, p, body);
        lemma_cut_fields(e, fs, b, s, end, base, d2);
    }
    assert(crate::decode::dec_container(e, b, sig_of(v), i, end, base, d) == Err::<
        (ValueModel, int),
        Error,
    >(Error::Truncated));
}

#[verifier::spinoff_prover]
#[verifier::rlimit(100)]
proof fn lemma_cut_fields(
    e: Endian,
    fs: Seq<ValueModel>,
    b: Seq<u8>,
    s: int,
    end: int,
    base: int,
    d: ContainerDepths,
)
    requires
        all_typed(fs),
        depths_ok(d),
        base >= 0,
        encs(Format::DBus, e, fs, base + s, d) is Ok,
        0 <= s <= end < s + encs(Format::DBus, e, fs, base + s, d)->Ok_0.len(),
        end <= b.len(),
        b.subrange(s, end) == encs(Format::DBus, e, fs, base + s, d)->Ok_0.subrange(0, end - s),
    ensures
        dec_fields(e, b, sig_list(fs), s, end, base, d) == Err::<(Seq<ValueModel>, int), Error>(
            Error::Truncated,
        ),
    decreases fs, 0int,
{
    let f = Format::DBus;
    let body = encs(f, e, fs, base + s, d)->Ok_0;
    if fs.len() > 0 {
        let v = fs[0];
        let rest = fs.drop_first();
        assert(typed(v) && all_typed(rest));
        let b0 = enc(f, e, v, base + s, d)->Ok_0;
        let s2 = s + b0.len();
        let r = encs(f, e, rest, base + s2, d)->Ok_0;
        assert(body == b0 + r);
        let sl = sig_list(fs);
        assert(sl.drop_first() =~= sig_list(rest));
        assert(sl[0] == sig_of(v));
        if end < s2 {
            assert(b.subrange(s, end) =~= b0.subrange(0, end - s)) by {
                assert forall|k: int| 0 <= k < end - s implies b.subrange(s, end)[k]
                    == b0.subrange(0, end - s)[k] by {
                    assert(body.subrange(0, end - s)[k] == body[k]);
                }
            }
            lemma_cut(e, v, b, s, end, base, d);
        } else {
            assert(body.subrange(0, b0.len() as int) =~= b0);
            lemma_cut_piece(b, s, end, body, 0, b0);
            lemma_rt(e, v, b, s, end, base, d);
            assert(body.subrange(b0.len() as int, b0.len() + r.len() as int) =~= r);
            lemma_cut_suffix(b, s, end, body, b0.len() as int, r);
            lemma_cut_fields(e, rest, b, s2, end, base, d);
        }
    }
}

/// Truncation in the D-Bus format: cutting the encoding of any typed value at any
/// byte before its end makes decoding fail with the truncated-data error.
pub proof fn lemma_truncation(ctxt: Context, v: ValueModel, k: int)
    requires
        typed(v),
        ctxt.format == Format::DBus,
        encoding(ctxt, v) is Ok,
        0 <= k < encoding(ctxt, v)->Ok_0.len(),
    ensures
        decoding(ctxt, encoding(ctxt, v)->Ok_0.subrange(0, k), sig_of(v)) == Err::<
            (ValueModel, int),
            Error,
        >(Error::Truncated),
{
    let b = encoding(ctxt, v)->Ok_0;
    let cut = b.subrange(0, k);
    let d = ContainerDepths { array: 0, structure: 0, variant: 0 };
    assert(cut.subrange(0, k) =~= b.subrange(0, k));
    lemma_cut(ctxt.endian, v, cut, 0, k, ctxt.position as int, d);
}

} // verus!
