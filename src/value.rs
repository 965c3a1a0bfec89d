use crate::error::Error;
use crate::signature::{is_basic, wf, SigType, Signature};
use vstd::prelude::*;

verus! {

broadcast use vstd::std_specs::vec::group_vec_axioms, vstd::seq::group_seq_axioms;


/// The mathematical content of a value.
pub enum ValueModel {
    U8(u8),
    Bool(bool),
    I16(i16),
    U16(u16),
    I32(i32),
    U32(u32),
    I64(i64),
    U64(u64),
    /// A double, held as its IEEE-754 bit pattern.
    F64(u64),
    /// An index into the message's side table of file descriptors.
    Fd(u32),
    Str(Seq<char>),
    ObjectPath(Seq<char>),
    Signature(SigType),
    Variant(Box<ValueModel>),
    Array(SigType, Seq<ValueModel>),
    Dict(SigType, SigType, Seq<(ValueModel, ValueModel)>),
    Structure(Seq<ValueModel>),
    Maybe(SigType, Option<Box<ValueModel>>),
}

/// The signature a value carries.
#[verifier::opaque]
pub open spec fn sig_of(v: ValueModel) -> SigType
    decreases v,
{
    match v {
        ValueModel::U8(_) => SigType::U8,
        ValueModel::Bool(_) => SigType::Bool,
        ValueModel::I16(_) => SigType::I16,
        ValueModel::U16(_) => SigType::U16,
        ValueModel::I32(_) => SigType::I32,
        ValueModel::U32(_) => SigType::U32,
        ValueModel::I64(_) => SigType::I64,
        ValueModel::U64(_) => SigType::U64,
        ValueModel::F64(_) => SigType::F64,
        ValueModel::Fd(_) => SigType::Fd,
        ValueModel::Str(_) => SigType::Str,
        ValueModel::ObjectPath(_) => SigType::ObjectPath,
        ValueModel::Signature(_) => SigType::Signature,
        ValueModel::Variant(_) => SigType::Variant,
        ValueModel::Array(e, _) => SigType::Array(Box::new(e)),
        ValueModel::Dict(k, t, _) => SigType::Dict(Box::new(k), Box::new(t)),
        ValueModel::Structure(fs) => SigType::Structure(
            Seq::new(
                fs.len(),
                |i: int|
                    if 0 <= i < fs.len() {
                        sig_of(fs[i])
                    } else {
                        SigType::Variant
                    },
            ),
        ),
        ValueModel::Maybe(t, _) => SigType::Maybe(Box::new(t)),
    }
}

/// A value whose every part agrees with the signature it declares: array
/// elements with the element type, dictionary entries with the key and value
/// types, a maybe's content with its type; structures have fields, and every
/// declared signature is well formed.
pub open spec fn typed(v: ValueModel) -> bool
    decreases v,
{
    match v {
        ValueModel::Signature(t) => wf(t),
        ValueModel::Variant(inner) => typed(*inner),
        ValueModel::Array(e, es) => wf(e) && all_typed_as(es, e),
        ValueModel::Dict(k, t, es) => is_basic(k) && wf(t) && entries_typed_as(es, k, t),
        ValueModel::Structure(fs) => fs.len() > 0 && all_typed(fs),
        ValueModel::Maybe(t, inner) => wf(t) && match inner {
            Some(x) => typed(*x) && sig_of(*x) == t,
            None => true,
        },
        _ => true,
    }
}

/// Every value of the list is typed and has signature `e`.
pub open spec fn all_typed_as(es: Seq<ValueModel>, e: SigType) -> bool
    decreases es,
{
    es.len() == 0 || (typed(es[0]) && sig_of(es[0]) == e && all_typed_as(es.drop_first(), e))
}

/// Every entry is typed, with key signature `k` and value signature `t`.
pub open spec fn entries_typed_as(es: Seq<(ValueModel, ValueModel)>, k: SigType, t: SigType) -> bool
    decreases es,
{
    es.len() == 0 || (typed(es[0].0) && typed(es[0].1) && sig_of(es[0].0) == k && sig_of(es[0].1)
        == t && entries_typed_as(es.drop_first(), k, t))
}

/// Every value of the list is typed.
pub open spec fn all_typed(es: Seq<ValueModel>) -> bool
    decreases es,
{
    es.len() == 0 || (typed(es[0]) && all_typed(es.drop_first()))
}

/// `all_typed` holds exactly when each element is typed.
pub proof fn lemma_all_typed(fs: Seq<ValueModel>)
    ensures
        all_typed(fs) <==> forall|i: int| 0 <= i < fs.len() ==> #[trigger] typed(fs[i]),
    decreases fs.len(),
{
    if fs.len() > 0 {
        let rest = fs.drop_first();
        lemma_all_typed(rest);
        if all_typed(fs) {
            assert forall|i: int| 0 <= i < fs.len() implies #[trigger] typed(fs[i]) by {
                if i > 0 {
                    assert(fs[i] == rest[i - 1]);
                }
            }
        }
        if forall|i: int| 0 <= i < fs.len() ==> #[trigger] typed(fs[i]) {
            assert(typed(fs[0]));
            assert forall|i: int| 0 <= i < rest.len() implies #[trigger] typed(rest[i]) by {
                assert(rest[i] == fs[i + 1]);
            }
        }
    }
}

/// `all_typed_as` holds exactly when each element is typed with signature `e`.
pub proof fn lemma_all_typed_as(es: Seq<ValueModel>, e: SigType)
    ensures
        all_typed_as(es, e) <==> forall|i: int|
            0 <= i < es.len() ==> typed(#[trigger] es[i]) && sig_of(es[i]) == e,
    decreases es.len(),
{
    if es.len() > 0 {
        let rest = es.drop_first();
        lemma_all_typed_as(rest, e);
        if all_typed_as(es, e) {
            assert forall|i: int| 0 <= i < es.len() implies typed(#[trigger] es[i]) && sig_of(es[i])
                == e by {
                if i > 0 {
                    assert(es[i] == rest[i - 1]);
                }
            }
        }
        if forall|i: int| 0 <= i < es.len() ==> typed(#[trigger] es[i]) && sig_of(es[i]) == e {
            assert(typed(es[0]));
            assert forall|i: int| 0 <= i < rest.len() implies typed(#[trigger] rest[i]) && sig_of(
                rest[i],
            ) == e by {
                assert(rest[i] == es[i + 1]);
            }
        }
    }
}

/// `entries_typed_as` holds exactly when each entry is typed with key
/// signature `k` and value signature `t`.
pub proof fn lemma_entries_typed_as(es: Seq<(ValueModel, ValueModel)>, k: SigType, t: SigType)
    ensures
        entries_typed_as(es, k, t) <==> forall|i: int|
            0 <= i < es.len() ==> typed(#[trigger] es[i].0) && typed(es[i].1) && sig_of(es[i].0)
                == k && sig_of(es[i].1) == t,
    decreases es.len(),
{
    if es.len() > 0 {
        let rest = es.drop_first();
        lemma_entries_typed_as(rest, k, t);
        if entries_typed_as(es, k, t) {
            assert forall|i: int| 0 <= i < es.len() implies typed(#[trigger] es[i].0) && typed(
                es[i].1,
            ) && sig_of(es[i].0) == k && sig_of(es[i].1) == t by {
                if i > 0 {
                    assert(es[i] == rest[i - 1]);
                }
            }
        }
        if forall|i: int|
            0 <= i < es.len() ==> typed(#[trigger] es[i].0) && typed(es[i].1) && sig_of(es[i].0)
                == k && sig_of(es[i].1) == t {
            assert(typed(es[0].0));
            assert forall|i: int| 0 <= i < rest.len() implies typed(#[trigger] rest[i].0) && typed(
                rest[i].1,
            ) && sig_of(rest[i].0) == k && sig_of(rest[i].1) == t by {
                assert(rest[i] == es[i + 1]);
            }
        }
    }
}

/// A dynamically typed value: any value the wire format can carry.
#[derive(Debug)]
pub enum Value {
    U8(u8),
    Bool(bool),
    I16(i16),
    U16(u16),
    I32(i32),
    U32(u32),
    I64(i64),
    U64(u64),
    /// A double, held as its IEEE-754 bit pattern.
    F64(u64),
    /// An index into the message's side table of file descriptors.
    Fd(u32),
    Str(String),
    ObjectPath(String),
    Signature(Signature),
    Value(Box<Value>),
    Array(Array),
    Dict(Dict),
    Structure(Structure),
    Maybe(Maybe),
}

/// A homogeneous sequence of values of one element signature.
#[derive(Debug)]
pub struct Array {
    pub elem: Signature,
    pub elems: Vec<Value>,
}

/// A sequence of key/value entries with fixed key and value signatures.
#[derive(Debug)]
pub struct Dict {
    pub key: Signature,
    pub value: Signature,
    pub entries: Vec<(Value, Value)>,
}

/// An ordered, non-empty list of fields of any types.
#[derive(Debug)]
pub struct Structure {
    pub fields: Vec<Value>,
}

/// An optional value of a declared type.
#[derive(Debug)]
pub struct Maybe {
    pub sig: Signature,
    pub inner: Option<Box<Value>>,
}

pub open spec fn model_of(v: &Value) -> ValueModel
    decreases v,
{
    match v {
        Value::U8(x) => ValueModel::U8(*x),
        Value::Bool(x) => ValueModel::Bool(*x),
        Value::I16(x) => ValueModel::I16(*x),
        Value::U16(x) => ValueModel::U16(*x),
        Value::I32(x) => ValueModel::I32(*x),
        Value::U32(x) => ValueModel::U32(*x),
        Value::I64(x) => ValueModel::I64(*x),
        Value::U64(x) => ValueModel::U64(*x),
        Value::F64(x) => ValueModel::F64(*x),
        Value::Fd(x) => ValueModel::Fd(*x),
        Value::Str(s) => ValueModel::Str(s@),
        Value::ObjectPath(s) => ValueModel::ObjectPath(s@),
        Value::Signature(s) => ValueModel::Signature(s@),
        Value::Value(inner) => ValueModel::Variant(Box::new(model_of(&**inner))),
        Value::Array(a) => ValueModel::Array(
            a.elem@,
            Seq::new(
                a.elems.len() as nat,
                |i: int|
                    if 0 <= i < a.elems.len() {
                        model_of(&a.elems[i])
                    } else {
                        ValueModel::U8(0)
                    },
            ),
        ),
        Value::Dict(d) => ValueModel::Dict(
            d.key@,
            d.value@,
            Seq::new(
                d.entries.len() as nat,
                |i: int|
                    if 0 <= i < d.entries.len() {
                        (model_of(&d.entries[i].0), model_of(&d.entries[i].1))
                    } else {
                        (ValueModel::U8(0), ValueModel::U8(0))
                    },
            ),
        ),
        Value::Structure(s) => ValueModel::Structure(
            Seq::new(
                s.fields.len() as nat,
                |i: int|
                    if 0 <= i < s.fields.len() {
                        model_of(&s.fields[i])
                    } else {
                        ValueModel::U8(0)
                    },
            ),
        ),
        Value::Maybe(m) => ValueModel::Maybe(
            m.sig@,
            match &m.inner {
                Some(x) => Some(Box::new(model_of(&**x))),
                None => None,
            },
        ),
    }
}

impl View for Value {
    type V = ValueModel;

    open spec fn view(&self) -> ValueModel {
        model_of(self)
    }
}

/// The views of a list of values.
pub open spec fn views(vs: Seq<Value>) -> Seq<ValueModel> {
    vs.map_values(|x: Value| x@)
}

/// The views of a list of entries.
pub open spec fn entry_views(es: Seq<(Value, Value)>) -> Seq<(ValueModel, ValueModel)> {
    es.map_values(|x: (Value, Value)| (x.0@, x.1@))
}

/// The file-descriptor indices a value holds, in the order the encoder
/// writes them.
pub open spec fn fds_of(v: ValueModel) -> Seq<u32>
    decreases v, 1int,
{
    match v {
        ValueModel::Fd(x) => seq![x],
        ValueModel::Variant(x) => fds_of(*x),
        ValueModel::Array(_, es) => fds_list(es),
        ValueModel::Structure(fs) => fds_list(fs),
        ValueModel::Dict(_, _, es) => fds_entries(es),
        ValueModel::Maybe(_, o) => match o {
            Some(x) => fds_of(*x),
            None => Seq::empty(),
        },
        _ => Seq::empty(),
    }
}

/// The file-descriptor indices of a list of values, in order.
pub open spec fn fds_list(es: Seq<ValueModel>) -> Seq<u32>
    decreases es, 0int,
{
    if es.len() == 0 {
        Seq::empty()
    } else {
        fds_of(es[0]) + fds_list(es.drop_first())
    }
}

/// The file-descriptor indices of a list of entries, keys before values.
pub open spec fn fds_entries(es: Seq<(ValueModel, ValueModel)>) -> Seq<u32>
    decreases es, 0int,
{
    if es.len() == 0 {
        Seq::empty()
    } else {
        fds_of(es[0].0) + fds_of(es[0].1) + fds_entries(es.drop_first())
    }
}

/// The number an integer value holds, if it is one.
pub open spec fn int_value(v: ValueModel) -> Option<int> {
    match v {
        ValueModel::U8(x) => Some(x as int),
        ValueModel::I16(x) => Some(x as int),
        ValueModel::U16(x) => Some(x as int),
        ValueModel::I32(x) => Some(x as int),
        ValueModel::U32(x) => Some(x as int),
        ValueModel::I64(x) => Some(x as int),
        ValueModel::U64(x) => Some(x as int),
        _ => None,
    }
}

/// The result of converting a value to an integer type with bounds `lo..=hi`:
/// the number if it fits, out of range if it does not, and an incorrect type
/// for a value that holds no integer.
pub open spec fn int_conversion(v: ValueModel, lo: int, hi: int) -> Result<int, Error> {
    match int_value(v) {
        None => Err(Error::IncorrectType),
        Some(x) => if lo <= x <= hi {
            Ok(x)
        } else {
            Err(Error::OutOfRange)
        },
    }
}

impl Value {
    fn int_of(&self) -> (r: Option<i128>)
        ensures
            match int_value(self@) {
                Some(x) => r == Some(x as i128),
                None => r is None,
            },
    {
        match self {
            Value::U8(x) => Some(*x as i128),
            Value::I16(x) => Some(*x as i128),
            Value::U16(x) => Some(*x as i128),
            Value::I32(x) => Some(*x as i128),
            Value::U32(x) => Some(*x as i128),
            Value::I64(x) => Some(*x as i128),
            Value::U64(x) => Some(*x as i128),
            _ => None,
        }
    }

    /// The value as a `u8`.
    pub fn to_u8(&self) -> (r: Result<u8, Error>)
        ensures
            match int_conversion(self@, 0, u8::MAX as int) {
                Ok(x) => r == Ok::<u8, Error>(x as u8),
                Err(e) => r == Err::<u8, Error>(e),
            },
    {
        match self.int_of() {
            None => Err(Error::IncorrectType),
            Some(x) => if 0 <= x && x <= u8::MAX as i128 {
                Ok(x as u8)
            } else {
                Err(Error::OutOfRange)
            },
        }
    }

    /// The value as a `u16`.
    pub fn to_u16(&self) -> (r: Result<u16, Error>)
        ensures
            match int_conversion(self@, 0, u16::MAX as int) {
                Ok(x) => r == Ok::<u16, Error>(x as u16),
                Err(e) => r == Err::<u16, Error>(e),
            },
    {
        match self.int_of() {
            None => Err(Error::IncorrectType),
            Some(x) => if 0 <= x && x <= u16::MAX as i128 {
                Ok(x as u16)
            } else {
                Err(Error::OutOfRange)
            },
        }
    }

    /// The value as a `u32`.
    pub fn to_u32(&self) -> (r: Result<u32, Error>)
        ensures
            match int_conversion(self@, 0, u32::MAX as int) {
                Ok(x) => r == Ok::<u32, Error>(x as u32),
                Err(e) => r == Err::<u32, Error>(e),
            },
    {
        match self.int_of() {
            None => Err(Error::IncorrectType),
            Some(x) => if 0 <= x && x <= u32::MAX as i128 {
                Ok(x as u32)
            } else {
                Err(Error::OutOfRange)
            },
        }
    }

    /// The value as a `u64`.
    pub fn to_u64(&self) -> (r: Result<u64, Error>)
        ensures
            match int_conversion(self@, 0, u64::MAX as int) {
                Ok(x) => r == Ok::<u64, Error>(x as u64),
                Err(e) => r == Err::<u64, Error>(e),
            },
    {
        match self.int_of() {
            None => Err(Error::IncorrectType),
            Some(x) => if 0 <= x && x <= u64::MAX as i128 {
                Ok(x as u64)
            } else {
                Err(Error::OutOfRange)
            },
        }
    }

    /// The value as an `i16`.
    pub fn to_i16(&self) -> (r: Result<i16, Error>)
        ensures
            match int_conversion(self@, i16::MIN as int, i16::MAX as int) {
                Ok(x) => r == Ok::<i16, Error>(x as i16),
                Err(e) => r == Err::<i16, Error>(e),
            },
    {
        match self.int_of() {
            None => Err(Error::IncorrectType),
            Some(x) => if i16::MIN as i128 <= x && x <= i16::MAX as i128 {
                Ok(x as i16)
            } else {
                Err(Error::OutOfRange)
            },
        }
    }

    /// The value as an `i32`.
    pub fn to_i32(&self) -> (r: Result<i32, Error>)
        ensures
            match int_conversion(self@, i32::MIN as int, i32::MAX as int) {
                Ok(x) => r == Ok::<i32, Error>(x as i32),
                Err(e) => r == Err::<i32, Error>(e),
            },
    {
        match self.int_of() {
            None => Err(Error::IncorrectType),
            Some(x) => if i32::MIN as i128 <= x && x <= i32::MAX as i128 {
                Ok(x as i32)
            } else {
                Err(Error::OutOfRange)
            },
        }
    }

    /// The value as an `i64`.
    pub fn to_i64(&self) -> (r: Result<i64, Error>)
        ensures
            match int_conversion(self@, i64::MIN as int, i64::MAX as int) {
                Ok(x) => r == Ok::<i64, Error>(x as i64),
                Err(e) => r == Err::<i64, Error>(e),
            },
    {
        match self.int_of() {
            None => Err(Error::IncorrectType),
            Some(x) => if i64::MIN as i128 <= x && x <= i64::MAX as i128 {
                Ok(x as i64)
            } else {
                Err(Error::OutOfRange)
            },
        }
    }

    /// The value as a boolean.
    pub fn to_bool(&self) -> (r: Result<bool, Error>)
        ensures
            match self@ {
                ValueModel::Bool(x) => r == Ok::<bool, Error>(x),
                _ => r == Err::<bool, Error>(Error::IncorrectType),
            },
    {
        match self {
            Value::Bool(x) => Ok(*x),
            _ => Err(Error::IncorrectType),
        }
    }

    /// The value as a string (a string or an object path).
    pub fn to_str(&self) -> (r: Result<&str, Error>)
        ensures
            match self@ {
                ValueModel::Str(s) => r matches Ok(t) && t@ == s,
                ValueModel::ObjectPath(s) => r matches Ok(t) && t@ == s,
                _ => r == Err::<&str, Error>(Error::IncorrectType),
            },
    {
        match self {
            Value::Str(s) => Ok(s.as_str()),
            Value::ObjectPath(s) => Ok(s.as_str()),
            _ => Err(Error::IncorrectType),
        }
    }

    /// An array of the given element type holding `elems`; fails with a
    /// signature mismatch unless the element type is well formed and every
    /// element has it.
    pub fn new_array(elem: Signature, elems: Vec<Value>) -> (r: Result<Value, Error>)
        ensures
            r is Ok <==> (wf(elem@) && forall|i: int|
                0 <= i < elems.len() ==> sig_of(#[trigger] elems[i]@) == elem@),
            r matches Ok(v) ==> v@ == ValueModel::Array(elem@, views(elems@)),
            r matches Ok(v) ==> ((forall|i: int| 0 <= i < elems.len() ==> typed(#[trigger] elems[i]@))
                ==> typed(v@)),
            r is Err ==> r == Err::<Value, Error>(Error::SignatureMismatch),
    {
        if !elem.is_well_formed() {
            return Err(Error::SignatureMismatch);
        }
        let mut i: usize = 0;
        while i < elems.len()
            invariant
                i <= elems.len(),
                forall|j: int| 0 <= j < i ==> sig_of(#[trigger] elems[j]@) == elem@,
            decreases elems.len() - i,
        {
            let s = elems[i].value_signature();
            if !s.equals(&elem) {
                return Err(Error::SignatureMismatch);
            }
            i = i + 1;
        }
        let v = Value::Array(Array { elem, elems });
        assert(v@->Array_1 =~= views(elems@));
        proof {
            lemma_all_typed_as(v@->Array_1, v@->Array_0);
        }
        Ok(v)
    }

    /// A dictionary with the given key and value types holding `entries`;
    /// fails with a signature mismatch unless the key type is basic, the
    /// value type well formed, and every entry has those types.
    pub fn new_dict(key: Signature, value: Signature, entries: Vec<(Value, Value)>) -> (r: Result<
        Value,
        Error,
    >)
        ensures
            r is Ok <==> (is_basic(key@) && wf(value@) && forall|i: int|
                0 <= i < entries.len() ==> sig_of(#[trigger] entries[i].0@) == key@ && sig_of(
                    entries[i].1@,
                ) == value@),
            r matches Ok(v) ==> v@ == ValueModel::Dict(key@, value@, entry_views(entries@)),
            r matches Ok(v) ==> ((forall|i: int|
                0 <= i < entries.len() ==> typed(#[trigger] entries[i].0@) && typed(entries[i].1@))
                ==> typed(v@)),
            r is Err ==> r == Err::<Value, Error>(Error::SignatureMismatch),
    {
        if !key.is_basic() || !value.is_well_formed() {
            return Err(Error::SignatureMismatch);
        }
        let mut i: usize = 0;
        while i < entries.len()
            invariant
                i <= entries.len(),
                forall|j: int|
                    0 <= j < i ==> sig_of(#[trigger] entries[j].0@) == key@ && sig_of(
                        entries[j].1@,
                    ) == value@,
            decreases entries.len() - i,
        {
            let ks = entries[i].0.value_signature();
            let vs = entries[i].1.value_signature();
            if !ks.equals(&key) || !vs.equals(&value) {
                return Err(Error::SignatureMismatch);
            }
            i = i + 1;
        }
        let v = Value::Dict(Dict { key, value, entries });
        assert(v@->Dict_2 =~= entry_views(entries@));
        proof {
            lemma_entries_typed_as(v@->Dict_2, v@->Dict_0, v@->Dict_1);
        }
        Ok(v)
    }

    /// A structure of the given fields; fails with a signature mismatch when
    /// there are none.
    pub fn new_structure(fields: Vec<Value>) -> (r: Result<Value, Error>)
        ensures
            r is Ok <==> fields.len() > 0,
            r matches Ok(v) ==> v@ == ValueModel::Structure(views(fields@)),
            r matches Ok(v) ==> ((forall|i: int| 0 <= i < fields.len() ==> typed(#[trigger] fields[i]@))
                ==> typed(v@)),
            r is Err ==> r == Err::<Value, Error>(Error::SignatureMismatch),
    {
        if fields.len() == 0 {
            return Err(Error::SignatureMismatch);
        }
        let v = Value::Structure(Structure { fields });
        assert(v@->Structure_0 =~= views(fields@));
        proof {
            lemma_all_typed(v@->Structure_0);
        }
        Ok(v)
    }

    /// An optional value of the given type; fails with a signature mismatch
    /// unless the type is well formed and a present value has it.
    pub fn new_maybe(sig: Signature, inner: Option<Value>) -> (r: Result<Value, Error>)
        ensures
            r is Ok <==> (wf(sig@) && match inner {
                Some(x) => sig_of(x@) == sig@,
                None => true,
            }),
            r matches Ok(v) ==> v@ == ValueModel::Maybe(
                sig@,
                match inner {
                    Some(x) => Some(Box::new(x@)),
                    None => None,
                },
            ),
            r is Err ==> r == Err::<Value, Error>(Error::SignatureMismatch),
    {
        if !sig.is_well_formed() {
            return Err(Error::SignatureMismatch);
        }
        match inner {
            Some(x) => {
                let s = x.value_signature();
                if !s.equals(&sig) {
                    return Err(Error::SignatureMismatch);
                }
                Ok(Value::Maybe(Maybe { sig, inner: Some(Box::new(x)) }))
            },
            None => Ok(Value::Maybe(Maybe { sig, inner: None })),
        }
    }

    /// The signature of this value's current shape.
    pub fn value_signature(&self) -> (r: Signature)
        ensures
            r@ == sig_of(self@),
        decreases self,
    {
        reveal(sig_of);
        match self {
            Value::U8(_) => Signature::U8,
            Value::Bool(_) => Signature::Bool,
            Value::I16(_) => Signature::I16,
            Value::U16(_) => Signature::U16,
            Value::I32(_) => Signature::I32,
            Value::U32(_) => Signature::U32,
            Value::I64(_) => Signature::I64,
            Value::U64(_) => Signature::U64,
            Value::F64(_) => Signature::F64,
            Value::Fd(_) => Signature::Fd,
            Value::Str(_) => Signature::Str,
            Value::ObjectPath(_) => Signature::ObjectPath,
            Value::Signature(_) => Signature::Signature,
            Value::Value(_) => Signature::Variant,
            Value::Array(a) => Signature::Array(Box::new(a.elem.duplicate())),
            Value::Dict(d) => Signature::Dict(
                Box::new(d.key.duplicate()),
                Box::new(d.value.duplicate()),
            ),
            Value::Structure(st) => {
                let fields = &st.fields;
                let mut out: Vec<Signature> = Vec::new();
                let mut i: usize = 0;
                while i < fields.len()
                    invariant
                        i <= fields.len(),
                        out.len() == i,
                        decreases_to!(*self => *fields),
                        self@ == model_of(self),
                        *self == Value::Structure(*st),
                        *fields == st.fields,
                        forall|j: int| 0 <= j < i ==> #[trigger] out[j]@ == sig_of(fields[j]@),
                    decreases fields.len() - i,
                {
                    proof {
                        vstd::std_specs::vec::axiom_vec_index_decreases(*fields, i as int);
                    }
                    let c = fields[i].value_signature();
                    out.push(c);
                    i = i + 1;
                }
                let r = Signature::Structure(out);
                let ghost fs = self@->Structure_0;
                assert forall|j: int| 0 <= j < fields.len() implies r@->Structure_0[j] == sig_of(
                    self@,
                )->Structure_0[j] by {
                    assert(out[j]@ == sig_of(fields[j]@));
                    assert(fs[j] == model_of(&fields[j]));
                }
                assert(r@->Structure_0 =~= sig_of(self@)->Structure_0);
                r
            },
            Value::Maybe(m) => Signature::Maybe(Box::new(m.sig.duplicate())),
        }
    }
}

impl Value {
    /// The file-descriptor indices this value holds, in encoding order.
    pub fn fd_indices(&self) -> (r: Vec<u32>)
        ensures
            r@ == fds_of(self@),
    {
        let mut out: Vec<u32> = Vec::new();
        self.collect_fds(&mut out);
        assert(out@ =~= fds_of(self@));
        out
    }

    fn collect_fds(&self, out: &mut Vec<u32>)
        ensures
            final(out)@ == old(out)@ + fds_of(self@),
        decreases self, 2int,
    {
        match self {
            Value::Fd(x) => {
                out.push(*x);
            },
            Value::Value(x) => {
                (**x).collect_fds(out);
            },
            Value::Array(a) => {
                assert(self@->Array_1 =~= views(a.elems@));
                collect_list_fds(self, &a.elems, out);
            },
            Value::Structure(st) => {
                assert(self@->Structure_0 =~= views(st.fields@));
                collect_list_fds(self, &st.fields, out);
            },
            Value::Dict(d) => {
                assert(self@->Dict_2 =~= entry_views(d.entries@));
                collect_entry_fds(self, &d.entries, out);
            },
            Value::Maybe(m) => match &m.inner {
                Some(x) => {
                    (**x).collect_fds(out);
                },
                None => {},
            },
            _ => {},
        }
        assert(final(out)@ =~= old(out)@ + fds_of(self@));
    }
}

fn collect_list_fds(parent: &Value, elems: &Vec<Value>, out: &mut Vec<u32>)
    requires
        decreases_to!(*parent => *elems),
    ensures
        final(out)@ == old(out)@ + fds_list(views(elems@)),
    decreases parent, 1int,
{
    let ghost all = views(elems@);
    let mut i: usize = 0;
    assert(all.subrange(0, all.len() as int) =~= all);
    while i < elems.len()
        invariant
            i <= elems.len() == all.len(),
            all == views(elems@),
            decreases_to!(*parent => *elems),
            out@ + fds_list(all.subrange(i as int, all.len() as int)) == old(out)@ + fds_list(all),
        decreases elems.len() - i,
    {
        proof {
            vstd::std_specs::vec::axiom_vec_index_decreases(*elems, i as int);
        }
        let ghost before = out@;
        let ghost rest = all.subrange(i as int, all.len() as int);
        assert(rest[0] == elems[i as int]@);
        assert(rest.drop_first() =~= all.subrange(i + 1, all.len() as int));
        elems[i].collect_fds(out);
        assert(out@ + fds_list(rest.drop_first()) =~= before + fds_list(rest));
        i = i + 1;
    }
    assert(all.subrange(i as int, all.len() as int) =~= Seq::<ValueModel>::empty());
    assert(out@ + Seq::<u32>::empty() =~= out@);
}

fn collect_entry_fds(parent: &Value, entries: &Vec<(Value, Value)>, out: &mut Vec<u32>)
    requires
        decreases_to!(*parent => *entries),
    ensures
        final(out)@ == old(out)@ + fds_entries(entry_views(entries@)),
    decreases parent, 1int,
{
    let ghost all = entry_views(entries@);
    let mut i: usize = 0;
    assert(all.subrange(0, all.len() as int) =~= all);
    while i < entries.len()
        invariant
            i <= entries.len() == all.len(),
            all == entry_views(entries@),
            decreases_to!(*parent => *entries),
            out@ + fds_entries(all.subrange(i as int, all.len() as int)) == old(out)@ + fds_entries(all),
        decreases entries.len() - i,
    {
        proof {
            vstd::std_specs::vec::axiom_vec_index_decreases(*entries, i as int);
        }
        let ghost before = out@;
        let ghost rest = all.subrange(i as int, all.len() as int);
        assert(rest[0] == (entries[i as int].0@, entries[i as int].1@));
        assert(rest.drop_first() =~= all.subrange(i + 1, all.len() as int));
        entries[i].0.collect_fds(out);
        entries[i].1.collect_fds(out);
        assert(out@ + fds_entries(rest.drop_first()) =~= before + fds_entries(rest));
        i = i + 1;
    }
    assert(all.subrange(i as int, all.len() as int) =~= Seq::<(ValueModel, ValueModel)>::empty());
    assert(out@ + Seq::<u32>::empty() =~= out@);
}

} // verus!
