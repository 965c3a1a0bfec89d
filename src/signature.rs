use crate::error::Error;
use vstd::prelude::*;
use vstd::string::StringSliceAdditionalSpecFns;

verus! {

broadcast use vstd::std_specs::vec::group_vec_axioms, vstd::seq::group_seq_axioms;

/// The longest signature text the wire allows, in bytes.
pub const MAX_SIGNATURE_LEN: usize = 255;

/// The mathematical shape of a type signature.
pub enum SigType {
    U8,
    Bool,
    I16,
    U16,
    I32,
    U32,
    I64,
    U64,
    F64,
    Fd,
    Str,
    ObjectPath,
    Signature,
    Variant,
    Array(Box<SigType>),
    Dict(Box<SigType>, Box<SigType>),
    Structure(Seq<SigType>),
    Maybe(Box<SigType>),
}

/// A type with no inner types, usable as a dictionary key.
pub open spec fn is_basic(t: SigType) -> bool {
    !(t is Variant || t is Array || t is Dict || t is Structure || t is Maybe)
}

/// The type code of a basic type.
pub open spec fn basic_code(t: SigType) -> u8 {
    match t {
        SigType::U8 => 0x79,  // y
        SigType::Bool => 0x62,  // b
        SigType::I16 => 0x6e,  // n
        SigType::U16 => 0x71,  // q
        SigType::I32 => 0x69,  // i
        SigType::U32 => 0x75,  // u
        SigType::I64 => 0x78,  // x
        SigType::U64 => 0x74,  // t
        SigType::F64 => 0x64,  // d
        SigType::Fd => 0x68,  // h
        SigType::Str => 0x73,  // s
        SigType::ObjectPath => 0x6f,  // o
        SigType::Signature => 0x67,  // g
        _ => 0x76,  // v
    }
}

/// The basic type that a code names, if any.
pub open spec fn basic_of_code(c: u8) -> Option<SigType> {
    if c == 0x79 {
        Some(SigType::U8)
    } else if c == 0x62 {
        Some(SigType::Bool)
    } else if c == 0x6e {
        Some(SigType::I16)
    } else if c == 0x71 {
        Some(SigType::U16)
    } else if c == 0x69 {
        Some(SigType::I32)
    } else if c == 0x75 {
        Some(SigType::U32)
    } else if c == 0x78 {
        Some(SigType::I64)
    } else if c == 0x74 {
        Some(SigType::U64)
    } else if c == 0x64 {
        Some(SigType::F64)
    } else if c == 0x68 {
        Some(SigType::Fd)
    } else if c == 0x73 {
        Some(SigType::Str)
    } else if c == 0x6f {
        Some(SigType::ObjectPath)
    } else if c == 0x67 {
        Some(SigType::Signature)
    } else {
        None
    }
}

/// The text of a single complete type.
#[verifier::opaque]
pub open spec fn text(t: SigType) -> Seq<u8>
    decreases t,
{
    match t {
        SigType::Variant => seq![0x76u8],
        SigType::Array(e) => seq![0x61u8] + text(*e),
        SigType::Dict(k, v) => seq![0x61u8, 0x7bu8] + text(*k) + text(*v) + seq![0x7du8],
        SigType::Structure(fs) => seq![0x28u8] + texts(fs) + seq![0x29u8],
        SigType::Maybe(e) => seq![0x6du8] + text(*e),
        _ => seq![basic_code(t)],
    }
}

/// The texts of a list of complete types, one after another.
pub open spec fn texts(fs: Seq<SigType>) -> Seq<u8>
    decreases fs,
{
    if fs.len() == 0 {
        Seq::empty()
    } else {
        text(fs[0]) + texts(fs.drop_first())
    }
}

/// A well-formed type: dictionary keys are basic and structures have fields.
pub open spec fn wf(t: SigType) -> bool
    decreases t,
{
    match t {
        SigType::Array(e) => wf(*e),
        SigType::Dict(k, v) => is_basic(*k) && wf(*v),
        SigType::Structure(fs) => fs.len() > 0 && wf_all(fs),
        SigType::Maybe(e) => wf(*e),
        _ => true,
    }
}

/// Every type of the list is well formed.
pub open spec fn wf_all(fs: Seq<SigType>) -> bool
    decreases fs,
{
    fs.len() == 0 || (wf(fs[0]) && wf_all(fs.drop_first()))
}

/// `wf_all` holds exactly when each element is well formed.
pub proof fn lemma_wf_all(fs: Seq<SigType>)
    ensures
        wf_all(fs) <==> forall|i: int| 0 <= i < fs.len() ==> #[trigger] wf(fs[i]),
    decreases fs.len(),
{
    if fs.len() > 0 {
        let rest = fs.drop_first();
        lemma_wf_all(rest);
        assert(wf_all(fs) == (wf(fs[0]) && wf_all(rest)));
        if wf_all(fs) {
            assert forall|i: int| 0 <= i < fs.len() implies #[trigger] wf(fs[i]) by {
                if i > 0 {
                    assert(fs[i] == rest[i - 1]);
                    assert(wf(rest[i - 1]));
                }
            }
        }
        if forall|i: int| 0 <= i < fs.len() ==> #[trigger] wf(fs[i]) {
            assert(wf(fs[0]));
            assert forall|i: int| 0 <= i < rest.len() implies #[trigger] wf(rest[i]) by {
                assert(rest[i] == fs[i + 1]);
                assert(wf(fs[i + 1]));
            }
        }
    }
}

/// The grammar of one complete type starting at `pos`: the type read and the
/// position just after it, or `None` where no complete type starts there.
pub open spec fn parse_at(b: Seq<u8>, pos: int) -> Option<(SigType, int)>
    decreases b.len() - pos, 0int,
{
    if pos < 0 || pos >= b.len() {
        None
    } else {
        let c = b[pos];
        if basic_of_code(c) is Some {
            Some((basic_of_code(c)->0, pos + 1))
        } else if c == 0x76 {
            Some((SigType::Variant, pos + 1))
        } else if c == 0x61 && pos + 1 < b.len() && b[pos + 1] == 0x7b {
            match parse_at(b, pos + 2) {
                Some((k, p1)) => if is_basic(k) && pos < p1 <= b.len() {
                    match parse_at(b, p1) {
                        Some((v, p2)) => if 0 <= p2 < b.len() && b[p2] == 0x7d {
                            Some((SigType::Dict(Box::new(k), Box::new(v)), p2 + 1))
                        } else {
                            None
                        },
                        None => None,
                    }
                } else {
                    None
                },
                None => None,
            }
        } else if c == 0x61 {
            match parse_at(b, pos + 1) {
                Some((e, p)) => Some((SigType::Array(Box::new(e)), p)),
                None => None,
            }
        } else if c == 0x6d {
            match parse_at(b, pos + 1) {
                Some((e, p)) => Some((SigType::Maybe(Box::new(e)), p)),
                None => None,
            }
        } else if c == 0x28 {
            match parse_fields(b, pos + 1) {
                Some((fs, p)) => if fs.len() > 0 {
                    Some((SigType::Structure(fs), p))
                } else {
                    None
                },
                None => None,
            }
        } else {
            None
        }
    }
}

/// The grammar of a structure's fields up to and including its `)`.
pub open spec fn parse_fields(b: Seq<u8>, pos: int) -> Option<(Seq<SigType>, int)>
    decreases b.len() - pos, 1int,
{
    if pos < 0 || pos >= b.len() {
        None
    } else if b[pos] == 0x29 {
        Some((Seq::empty(), pos + 1))
    } else {
        match parse_at(b, pos) {
            Some((f, p)) => if pos < p <= b.len() {
                match parse_fields(b, p) {
                    Some((fs, q)) => Some((seq![f] + fs, q)),
                    None => None,
                }
            } else {
                None
            },
            None => None,
        }
    }
}

/// The grammar of a sequence of complete types that runs to the end of `b`.
pub open spec fn parse_list(b: Seq<u8>, pos: int) -> Option<Seq<SigType>>
    decreases b.len() - pos,
{
    if pos < 0 || pos > b.len() {
        None
    } else if pos == b.len() {
        Some(Seq::empty())
    } else {
        match parse_at(b, pos) {
            Some((f, p)) => if pos < p <= b.len() {
                match parse_list(b, p) {
                    Some(fs) => Some(seq![f] + fs),
                    None => None,
                }
            } else {
                None
            },
            None => None,
        }
    }
}

/// What a whole signature text denotes: one complete type, or a structure
/// of several written without brackets; `None` for a text that is empty,
/// malformed or longer than 255 bytes.
pub open spec fn parse_text(b: Seq<u8>) -> Option<SigType> {
    if b.len() > 255 {
        None
    } else {
        match parse_list(b, 0) {
            Some(fs) => if fs.len() == 0 {
                None
            } else if fs.len() == 1 {
                Some(fs[0])
            } else {
                Some(SigType::Structure(fs))
            },
            None => None,
        }
    }
}

/// No type's text begins with a closing bracket or an opening brace.
proof fn lemma_text_first(t: SigType)
    ensures
        text(t).len() > 0,
        text(t)[0] != 0x29 && text(t)[0] != 0x7b && text(t)[0] != 0x7d,
{
    reveal(text);
}

/// A piece of a piece of `b` is a piece of `b`.
pub(crate) proof fn lemma_piece(b: Seq<u8>, pos: int, whole: Seq<u8>, off: int, part: Seq<u8>)
    requires
        0 <= pos,
        pos + whole.len() <= b.len(),
        b.subrange(pos, pos + whole.len()) == whole,
        0 <= off,
        off + part.len() <= whole.len(),
        whole.subrange(off, off + part.len()) == part,
    ensures
        b.subrange(pos + off, pos + off + part.len()) == part,
{
    assert forall|j: int| 0 <= j < part.len() implies b.subrange(
        pos + off,
        pos + off + part.len(),
    )[j] == part[j] by {
        assert(b.subrange(pos, pos + whole.len())[off + j] == b[pos + off + j]);
        assert(whole.subrange(off, off + part.len())[j] == whole[off + j]);
    }
    assert(b.subrange(pos + off, pos + off + part.len()) =~= part);
}

/// Parsing where the text of a well-formed type stands reads that type and
/// stops right after its text.
proof fn lemma_parse_at_text(t: SigType, b: Seq<u8>, pos: int)
    requires
        wf(t),
        0 <= pos,
        pos + text(t).len() <= b.len(),
        b.subrange(pos, pos + text(t).len()) == text(t),
    ensures
        parse_at(b, pos) == Some((t, pos + text(t).len())),
    decreases t, 0int,
{
    reveal(text);
    let tx = text(t);
    assert(b[pos] == tx[0]);
    match t {
        SigType::Array(e) => {
            lemma_text_first(*e);
            assert(tx.subrange(1, 1 + text(*e).len() as int) =~= text(*e));
            lemma_piece(b, pos, tx, 1, text(*e));
            assert(b.subrange(pos + 1, pos + 1 + text(*e).len())[0] == b[pos + 1]);
            lemma_parse_at_text(*e, b, pos + 1);
        },
        SigType::Maybe(e) => {
            assert(tx.subrange(1, 1 + text(*e).len() as int) =~= text(*e));
            lemma_piece(b, pos, tx, 1, text(*e));
            lemma_parse_at_text(*e, b, pos + 1);
        },
        SigType::Dict(k, v) => {
            let kl = text(*k).len() as int;
            let vl = text(*v).len() as int;
            assert(b.subrange(pos, pos + tx.len())[1] == b[pos + 1]);
            assert(b[pos + 1] == 0x7b);
            assert(tx.subrange(2, 2 + kl) =~= text(*k));
            assert(tx.subrange(2 + kl, 2 + kl + vl) =~= text(*v));
            lemma_piece(b, pos, tx, 2, text(*k));
            lemma_piece(b, pos, tx, 2 + kl, text(*v));
            assert(b.subrange(pos, pos + tx.len())[2 + kl + vl] == b[pos + 2 + kl + vl]);
            assert(b[pos + 2 + kl + vl] == 0x7d);
            lemma_parse_at_text(*k, b, pos + 2);
            lemma_parse_at_text(*v, b, pos + 2 + kl);
        },
        SigType::Structure(fs) => {
            assert(tx.subrange(1, 1 + texts(fs).len() as int) =~= texts(fs));
            lemma_piece(b, pos, tx, 1, texts(fs));
            assert(b.subrange(pos, pos + tx.len())[1 + texts(fs).len() as int] == b[pos + 1
                + texts(fs).len()]);
            assert(b[pos + 1 + texts(fs).len()] == 0x29);
            lemma_parse_fields_texts(fs, b, pos + 1);
        },
        _ => {},
    }
}

/// Parsing fields where the texts of well-formed types stand, followed by a
/// closing bracket, reads those types.
proof fn lemma_parse_fields_texts(fs: Seq<SigType>, b: Seq<u8>, pos: int)
    requires
        wf_all(fs),
        0 <= pos,
        pos + texts(fs).len() < b.len(),
        b.subrange(pos, pos + texts(fs).len()) == texts(fs),
        b[pos + texts(fs).len()] == 0x29,
    ensures
        parse_fields(b, pos) == Some((fs, pos + texts(fs).len() + 1)),
    decreases fs, 0int,
{
    reveal(text);
    if fs.len() == 0 {
    } else {
        let f = fs[0];
        let rest = fs.drop_first();
        let fl = text(f).len() as int;
        assert(texts(fs) == text(f) + texts(rest));
        let whole = texts(fs);
        lemma_text_first(f);
        assert(b.subrange(pos, pos + whole.len())[0] == b[pos]);
        assert(b[pos] == text(f)[0]);
        assert(whole.subrange(0, fl) =~= text(f));
        lemma_piece(b, pos, whole, 0, text(f));
        lemma_parse_at_text(f, b, pos);
        assert(whole.subrange(fl, fl + texts(rest).len() as int) =~= texts(rest));
        lemma_piece(b, pos, whole, fl, texts(rest));
        lemma_parse_fields_texts(rest, b, pos + fl);
        assert(seq![f] + rest =~= fs);
    }
}

/// Reading back the text of a well-formed signature of at most 255 bytes
/// gives the same signature.
pub proof fn lemma_parse_text_round_trip(t: SigType)
    requires
        wf(t),
        text(t).len() <= 255,
    ensures
        parse_text(text(t)) == Some(t),
{
    let b = text(t);
    assert(b.subrange(0, b.len() as int) =~= b);
    lemma_parse_at_text(t, b, 0);
    assert(parse_list(b, b.len() as int) == Some(Seq::<SigType>::empty()));
    assert(parse_list(b, 0) == Some(seq![t] + Seq::<SigType>::empty()));
    assert(seq![t] + Seq::<SigType>::empty() =~= seq![t]);
}

/// A parsed type signature: one complete type, as a tree.
#[derive(Debug)]
pub enum Signature {
    U8,
    Bool,
    I16,
    U16,
    I32,
    U32,
    I64,
    U64,
    F64,
    Fd,
    Str,
    ObjectPath,
    Signature,
    Variant,
    Array(Box<Signature>),
    Dict(Box<Signature>, Box<Signature>),
    Structure(Vec<Signature>),
    Maybe(Box<Signature>),
}

impl View for Signature {
    type V = SigType;

    open spec fn view(&self) -> SigType
        decreases self,
    {
        match self {
            Signature::U8 => SigType::U8,
            Signature::Bool => SigType::Bool,
            Signature::I16 => SigType::I16,
            Signature::U16 => SigType::U16,
            Signature::I32 => SigType::I32,
            Signature::U32 => SigType::U32,
            Signature::I64 => SigType::I64,
            Signature::U64 => SigType::U64,
            Signature::F64 => SigType::F64,
            Signature::Fd => SigType::Fd,
            Signature::Str => SigType::Str,
            Signature::ObjectPath => SigType::ObjectPath,
            Signature::Signature => SigType::Signature,
            Signature::Variant => SigType::Variant,
            Signature::Array(e) => SigType::Array(Box::new((**e).view())),
            Signature::Dict(k, v) => SigType::Dict(Box::new((**k).view()), Box::new((**v).view())),
            Signature::Structure(fs) => SigType::Structure(
                Seq::new(
                    fs.len() as nat,
                    |i: int|
                        if 0 <= i < fs.len() {
                            fs[i].view()
                        } else {
                            SigType::Variant
                        },
                ),
            ),
            Signature::Maybe(e) => SigType::Maybe(Box::new((**e).view())),
        }
    }
}

fn basic_from_code(c: u8) -> (r: Option<Signature>)
    ensures
        match r {
            Some(s) => basic_of_code(c) == Some(s@),
            None => basic_of_code(c) is None,
        },
{
    if c == 0x79 {
        Some(Signature::U8)
    } else if c == 0x62 {
        Some(Signature::Bool)
    } else if c == 0x6e {
        Some(Signature::I16)
    } else if c == 0x71 {
        Some(Signature::U16)
    } else if c == 0x69 {
        Some(Signature::I32)
    } else if c == 0x75 {
        Some(Signature::U32)
    } else if c == 0x78 {
        Some(Signature::I64)
    } else if c == 0x74 {
        Some(Signature::U64)
    } else if c == 0x64 {
        Some(Signature::F64)
    } else if c == 0x68 {
        Some(Signature::Fd)
    } else if c == 0x73 {
        Some(Signature::Str)
    } else if c == 0x6f {
        Some(Signature::ObjectPath)
    } else if c == 0x67 {
        Some(Signature::Signature)
    } else {
        None
    }
}

impl Clone for Signature {
    fn clone(&self) -> (r: Signature)
        ensures
            r@ == self@,
    {
        self.duplicate()
    }
}

impl Signature {
    /// A deep copy of the signature.
    pub fn duplicate(&self) -> (r: Signature)
        ensures
            r@ == self@,
        decreases self,
    {
        match self {
            Signature::U8 => Signature::U8,
            Signature::Bool => Signature::Bool,
            Signature::I16 => Signature::I16,
            Signature::U16 => Signature::U16,
            Signature::I32 => Signature::I32,
            Signature::U32 => Signature::U32,
            Signature::I64 => Signature::I64,
            Signature::U64 => Signature::U64,
            Signature::F64 => Signature::F64,
            Signature::Fd => Signature::Fd,
            Signature::Str => Signature::Str,
            Signature::ObjectPath => Signature::ObjectPath,
            Signature::Signature => Signature::Signature,
            Signature::Variant => Signature::Variant,
            Signature::Array(e) => Signature::Array(Box::new((**e).duplicate())),
            Signature::Dict(k, v) => Signature::Dict(
                Box::new((**k).duplicate()),
                Box::new((**v).duplicate()),
            ),
            Signature::Structure(items) => {
                assert(decreases_to!(*self => *items));
                let mut out: Vec<Signature> = Vec::new();
                let mut i: usize = 0;
                while i < items.len()
                    invariant
                        i <= items.len(),
                        out.len() == i,
                        *self == Signature::Structure(*items),
                        decreases_to!(*self => *items),
                        forall|j: int| 0 <= j < i ==> #[trigger] out[j]@ == items[j]@,
                    decreases items.len() - i,
                {
                    proof {
                        vstd::std_specs::vec::axiom_vec_index_decreases(*items, i as int);
                    }
                    let c = items[i].duplicate();
                    out.push(c);
                    i = i + 1;
                }
                let r = Signature::Structure(out);
                assert forall|j: int| 0 <= j < items.len() implies r@->Structure_0[j]
                    == self@->Structure_0[j] by {
                    assert(out[j]@ == items[j]@);
                }
                assert(r@->Structure_0 =~= self@->Structure_0);
                r
            },
            Signature::Maybe(e) => Signature::Maybe(Box::new((**e).duplicate())),
        }
    }
}

impl Signature {
    /// Whether two signatures denote the same type.
    pub fn equals(&self, other: &Signature) -> (r: bool)
        ensures
            r == (self@ == other@),
        decreases self,
    {
        match (self, other) {
            (Signature::U8, Signature::U8) => true,
            (Signature::Bool, Signature::Bool) => true,
            (Signature::I16, Signature::I16) => true,
            (Signature::U16, Signature::U16) => true,
            (Signature::I32, Signature::I32) => true,
            (Signature::U32, Signature::U32) => true,
            (Signature::I64, Signature::I64) => true,
            (Signature::U64, Signature::U64) => true,
            (Signature::F64, Signature::F64) => true,
            (Signature::Fd, Signature::Fd) => true,
            (Signature::Str, Signature::Str) => true,
            (Signature::ObjectPath, Signature::ObjectPath) => true,
            (Signature::Signature, Signature::Signature) => true,
            (Signature::Variant, Signature::Variant) => true,
            (Signature::Array(a), Signature::Array(b)) => (**a).equals(&**b),
            (Signature::Maybe(a), Signature::Maybe(b)) => (**a).equals(&**b),
            (Signature::Dict(k1, v1), Signature::Dict(k2, v2)) => (**k1).equals(&**k2) && (
            **v1).equals(&**v2),
            (Signature::Structure(x), Signature::Structure(y)) => {
                if x.len() != y.len() {
                    assert(self@->Structure_0.len() != other@->Structure_0.len());
                    return false;
                }
                let mut i: usize = 0;
                while i < x.len()
                    invariant
                        i <= x.len() == y.len(),
                        *self == Signature::Structure(*x),
                        *other == Signature::Structure(*y),
                        forall|j: int| 0 <= j < i ==> #[trigger] x[j]@ == y[j]@,
                    decreases x.len() - i,
                {
                    proof {
                        vstd::std_specs::vec::axiom_vec_index_decreases(*x, i as int);
                    }
                    assert(decreases_to!(*self => *x));
                    if !x[i].equals(&y[i]) {
                        assert(self@->Structure_0[i as int] == x[i as int]@);
                        assert(self@->Structure_0[i as int] != other@->Structure_0[i as int]);
                        return false;
                    }
                    i += 1;
                }
                assert forall|j: int| 0 <= j < x.len() implies self@->Structure_0[j]
                    == other@->Structure_0[j] by {
                    assert(x[j]@ == y[j]@);
                }
                assert(self@->Structure_0 =~= other@->Structure_0);
                true
            },
            _ => false,
        }
    }

    /// Whether the signature is well formed (see `wf`).
    pub fn is_well_formed(&self) -> (r: bool)
        ensures
            r == wf(self@),
        decreases self,
    {
        match self {
            Signature::Array(e) => (**e).is_well_formed(),
            Signature::Maybe(e) => (**e).is_well_formed(),
            Signature::Dict(k, v) => (**k).is_basic() && (**v).is_well_formed(),
            Signature::Structure(items) => {
                if items.len() == 0 {
                    return false;
                }
                let mut i: usize = 0;
                while i < items.len()
                    invariant
                        i <= items.len(),
                        *self == Signature::Structure(*items),
                        self@ == SigType::Structure(self@->Structure_0),
                        self@->Structure_0.len() == items.len(),
                        forall|j: int|
                            0 <= j < items.len() ==> #[trigger] self@->Structure_0[j] == items[j]@,
                        forall|j: int| 0 <= j < i ==> wf(#[trigger] items[j]@),
                    decreases items.len() - i,
                {
                    proof {
                        vstd::std_specs::vec::axiom_vec_index_decreases(*items, i as int);
                    }
                    if !items[i].is_well_formed() {
                        assert(self@->Structure_0[i as int] == items[i as int]@);
                        assert(!wf(self@->Structure_0[i as int]));
                        proof {
                            lemma_wf_all(self@->Structure_0);
                        }
                        return false;
                    }
                    i += 1;
                }
                assert forall|j: int| 0 <= j < self@->Structure_0.len() implies wf(
                    #[trigger] self@->Structure_0[j],
                ) by {
                    assert(self@->Structure_0[j] == items[j]@);
                }
                proof {
                    lemma_wf_all(self@->Structure_0);
                }
                true
            },
            _ => true,
        }
    }

    /// Parses a signature text: one complete type, or several that together
    /// form a structure written without brackets.
    pub fn from_bytes(b: &[u8]) -> (r: Result<Signature, Error>)
        ensures
            match r {
                Ok(s) => parse_text(b@) == Some(s@),
                Err(e) => parse_text(b@) is None && e is SignatureParse,
            },
    {
        if b.len() > MAX_SIGNATURE_LEN {
            return Err(Error::SignatureParse(MAX_SIGNATURE_LEN));
        }
        let mut items: Vec<Signature> = Vec::new();
        let mut cur: usize = 0;
        while cur < b.len()
            invariant
                cur <= b.len() <= 255,
                match parse_list(b@, 0) {
                    Some(fs) => match parse_list(b@, cur as int) {
                        Some(rest) => fs == items@.map_values(|f: Signature| f@) + rest,
                        None => false,
                    },
                    None => parse_list(b@, cur as int) is None,
                },
            decreases b.len() - cur,
        {
            match parse_one(b, cur) {
                Some((f, p)) => {
                    if !(cur < p && p <= b.len()) {
                        return Err(Error::SignatureParse(cur));
                    }
                    let ghost old_items = items@.map_values(|f: Signature| f@);
                    let ghost fv = f@;
                    items.push(f);
                    proof {
                        let ni = items@.map_values(|f: Signature| f@);
                        assert(ni =~= old_items.push(fv));
                        match parse_list(b@, p as int) {
                            Some(rest) => {
                                assert(old_items + (seq![fv] + rest) =~= ni + rest);
                            },
                            None => {},
                        }
                    }
                    cur = p;
                },
                None => {
                    return Err(Error::SignatureParse(cur));
                },
            }
        }
        let ghost fs = items@.map_values(|f: Signature| f@);
        assert(parse_list(b@, cur as int) == Some(Seq::<SigType>::empty()));
        assert(fs + Seq::<SigType>::empty() =~= fs);
        if items.len() == 0 {
            Err(Error::SignatureParse(0))
        } else if items.len() == 1 {
            let s = items.pop().unwrap();
            assert(s@ == fs[0]);
            Ok(s)
        } else {
            let s = Signature::Structure(items);
            assert(s@->Structure_0 =~= fs);
            Ok(s)
        }
    }

    /// Parses a signature given as a string; see `from_bytes`.
    pub fn from_str(text: &str) -> (r: Result<Signature, Error>)
        ensures
            match r {
                Ok(s) => parse_text(text.spec_bytes()) == Some(s@),
                Err(e) => parse_text(text.spec_bytes()) is None && e is SignatureParse,
            },
    {
        Signature::from_bytes(text.as_bytes())
    }

    /// Appends the text of this signature to `out`.
    pub fn write_text(&self, out: &mut Vec<u8>)
        ensures
            final(out)@ == old(out)@ + text(self@),
        decreases self,
    {
        reveal(text);
        match self {
            Signature::Variant => out.push(0x76),
            Signature::Array(e) => {
                out.push(0x61);
                e.write_text(out);
            },
            Signature::Dict(k, v) => {
                out.push(0x61);
                out.push(0x7b);
                k.write_text(out);
                v.write_text(out);
                out.push(0x7d);
            },
            Signature::Structure(fs) => {
                out.push(0x28);
                let ghost start = out@;
                let ghost all = self@->Structure_0;
                assert(all.subrange(0, all.len() as int) =~= all);
                let mut i: usize = 0;
                while i < fs.len()
                    invariant
                        i <= fs.len(),
                        all == self@->Structure_0,
                        *self == Signature::Structure(*fs),
                        all.len() == fs.len(),
                        out@ + texts(all.subrange(i as int, all.len() as int)) == start + texts(all),
                    decreases fs.len() - i,
                {
                    let ghost before = out@;
                    proof {
                        vstd::std_specs::vec::axiom_vec_index_decreases(*fs, i as int);
                        let tail = all.subrange(i as int, all.len() as int);
                        assert(tail[0] == fs[i as int]@);
                        assert(tail.drop_first() =~= all.subrange(i + 1, all.len() as int));
                    }
                    fs[i].write_text(out);
                    proof {
                        reveal(text);
                        let t2 = all.subrange(i + 1, all.len() as int);
                        assert(out@ + texts(t2) =~= before + (text(fs[i as int]@) + texts(t2)));
                    }
                    i = i + 1;
                }
                assert(all.subrange(fs.len() as int, all.len() as int) =~= Seq::<SigType>::empty());
                out.push(0x29);
            },
            Signature::Maybe(e) => {
                out.push(0x6d);
                e.write_text(out);
            },
            _ => out.push(self.basic_code()),
        }
        proof {
            assert(final(out)@ =~= old(out)@ + text(self@));
        }
    }

    fn basic_code(&self) -> (r: u8)
        requires
            is_basic(self@),
        ensures
            r == basic_code(self@),
    {
        match self {
            Signature::U8 => 0x79,
            Signature::Bool => 0x62,
            Signature::I16 => 0x6e,
            Signature::U16 => 0x71,
            Signature::I32 => 0x69,
            Signature::U32 => 0x75,
            Signature::I64 => 0x78,
            Signature::U64 => 0x74,
            Signature::F64 => 0x64,
            Signature::Fd => 0x68,
            Signature::Str => 0x73,
            Signature::ObjectPath => 0x6f,
            Signature::Signature => 0x67,
            _ => 0x76,
        }
    }

    /// Whether this is a fixed-size scalar type.
    pub fn is_scalar(&self) -> (r: bool)
        ensures
            r == (self@ is U8 || self@ is Bool || self@ is I16 || self@ is U16 || self@ is I32
                || self@ is U32 || self@ is Fd || self@ is I64 || self@ is U64 || self@ is F64),
    {
        match self {
            Signature::U8 | Signature::Bool | Signature::I16 | Signature::U16 | Signature::I32
            | Signature::U32 | Signature::Fd | Signature::I64 | Signature::U64 | Signature::F64 => true,
            _ => false,
        }
    }

    /// Whether this is a basic type (one that may key a dictionary).
    pub fn is_basic(&self) -> (r: bool)
        ensures
            r == is_basic(self@),
    {
        match self {
            Signature::Variant | Signature::Array(_) | Signature::Dict(_, _) | Signature::Structure(
                _,
            ) | Signature::Maybe(_) => false,
            _ => true,
        }
    }
}

/// Reads one complete type at `pos`, as `parse_at` describes.
fn parse_one(b: &[u8], pos: usize) -> (r: Option<(Signature, usize)>)
    ensures
        match r {
            Some((s, p)) => parse_at(b@, pos as int) == Some((s@, p as int)),
            None => parse_at(b@, pos as int) is None,
        },
    decreases b.len() - pos,
{
    if pos >= b.len() {
        return None;
    }
    let c = b[pos];
    match basic_from_code(c) {
        Some(s) => {
            return Some((s, pos + 1));
        },
        None => {},
    }
    if c == 0x76 {
        Some((Signature::Variant, pos + 1))
    } else if c == 0x61 && pos + 1 < b.len() && b[pos + 1] == 0x7b {
        match parse_one(b, pos + 2) {
            Some((k, p1)) => {
                if k.is_basic() && pos < p1 && p1 <= b.len() {
                    match parse_one(b, p1) {
                        Some((v, p2)) => {
                            if p2 < b.len() && b[p2] == 0x7d {
                                Some((Signature::Dict(Box::new(k), Box::new(v)), p2 + 1))
                            } else {
                                None
                            }
                        },
                        None => None,
                    }
                } else {
                    None
                }
            },
            None => None,
        }
    } else if c == 0x61 {
        match parse_one(b, pos + 1) {
            Some((e, p)) => Some((Signature::Array(Box::new(e)), p)),
            None => None,
        }
    } else if c == 0x6d {
        match parse_one(b, pos + 1) {
            Some((e, p)) => Some((Signature::Maybe(Box::new(e)), p)),
            None => None,
        }
    } else if c == 0x28 {
        let mut fields: Vec<Signature> = Vec::new();
        let mut cur: usize = pos + 1;
        let ghost start = pos + 1;
        loop
            invariant
                pos < start <= cur <= b.len(),
                start == pos + 1,
                b@[pos as int] == 0x28,
                match parse_fields(b@, start as int) {
                    Some((fs, q)) => match parse_fields(b@, cur as int) {
                        Some((rest, q2)) => fs == fields@.map_values(|f: Signature| f@) + rest && q
                            == q2,
                        None => false,
                    },
                    None => parse_fields(b@, cur as int) is None,
                },
            decreases b.len() - cur,
        {
            if cur >= b.len() {
                assert(parse_fields(b@, cur as int) is None);
                assert(parse_fields(b@, pos + 1) is None);
                return None;
            }
            if b[cur] == 0x29 {
                let ghost fs = fields@.map_values(|f: Signature| f@);
                assert(parse_fields(b@, cur as int) == Some((Seq::<SigType>::empty(), cur + 1)));
                if fields.len() == 0 {
                    assert(fs =~= Seq::<SigType>::empty());
                    assert(parse_fields(b@, pos + 1) == Some((Seq::<SigType>::empty(), cur + 1)));
                    return None;
                }
                let r = Signature::Structure(fields);
                assert(r@->Structure_0 =~= fs) by {
                    assert(fs + Seq::<SigType>::empty() =~= fs);
                }
                return Some((r, cur + 1));
            }
            match parse_one(b, cur) {
                Some((f, p)) => {
                    if !(cur < p && p <= b.len()) {
                        return None;
                    }
                    let ghost old_fields = fields@.map_values(|f: Signature| f@);
                    let ghost fv = f@;
                    fields.push(f);
                    proof {
                        let nf = fields@.map_values(|f: Signature| f@);
                        assert(nf =~= old_fields.push(fv));
                        match parse_fields(b@, p as int) {
                            Some((rest, q2)) => {
                                assert(old_fields + (seq![fv] + rest) =~= nf + rest);
                            },
                            None => {},
                        }
                    }
                    cur = p;
                },
                None => {
                    assert(parse_fields(b@, cur as int) is None);
                    assert(parse_fields(b@, pos + 1) is None);
                    return None;
                },
            }
        }
    } else {
        None
    }
}

} // verus!
