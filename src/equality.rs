use crate::signature::SigType;
use crate::value::{entry_views, views, Value, ValueModel};
use vstd::multiset::Multiset;
use vstd::prelude::*;

verus! {

broadcast use vstd::std_specs::vec::group_vec_axioms, vstd::seq::group_seq_axioms,
    vstd::multiset::group_multiset_axioms;

/// The canonical form of a value: a dictionary becomes the multiset of
/// its entries' canonical forms, so that the order of its entries is lost at
/// every depth; everything else keeps its shape.
pub enum Canon {
    Leaf(ValueModel),
    Variant(Box<Canon>),
    Array(SigType, Seq<Canon>),
    Dict(SigType, SigType, Multiset<(Canon, Canon)>),
    Structure(Seq<Canon>),
    Maybe(SigType, Option<Box<Canon>>),
}

/// The canonical form of a value.
pub open spec fn canon(v: ValueModel) -> Canon
    decreases v, 1int,
{
    match v {
        ValueModel::Variant(x) => Canon::Variant(Box::new(canon(*x))),
        ValueModel::Array(t, es) => Canon::Array(t, canons(es)),
        ValueModel::Dict(k, t, es) => Canon::Dict(k, t, canon_entries(es).to_multiset()),
        ValueModel::Structure(fs) => Canon::Structure(canons(fs)),
        ValueModel::Maybe(t, o) => Canon::Maybe(
            t,
            match o {
                Some(x) => Some(Box::new(canon(*x))),
                None => None,
            },
        ),
        _ => Canon::Leaf(v),
    }
}

/// The canonical forms of a list of values.
pub open spec fn canons(vs: Seq<ValueModel>) -> Seq<Canon>
    decreases vs, 0int,
{
    Seq::new(
        vs.len(),
        |i: int|
            if 0 <= i < vs.len() {
                canon(vs[i])
            } else {
                Canon::Leaf(ValueModel::U8(0))
            },
    )
}

/// The canonical forms of a list of entries.
pub open spec fn canon_entries(es: Seq<(ValueModel, ValueModel)>) -> Seq<(Canon, Canon)>
    decreases es, 0int,
{
    Seq::new(
        es.len(),
        |i: int|
            if 0 <= i < es.len() {
                (canon(es[i].0), canon(es[i].1))
            } else {
                (Canon::Leaf(ValueModel::U8(0)), Canon::Leaf(ValueModel::U8(0)))
            },
    )
}

/// Equality of values: equal canonical forms. Two dictionaries are equal
/// when their key and value types agree and their entries are pairwise equal
/// after some reordering, and this holds for dictionaries at any depth.
pub open spec fn value_eq(a: ValueModel, b: ValueModel) -> bool {
    canon(a) == canon(b)
}

/// Mapping the entries of two lists that hold the same entries gives two
/// lists that hold the same images.
proof fn lemma_canon_entries_multiset(e1: Seq<(ValueModel, ValueModel)>, e2: Seq<(ValueModel, ValueModel)>)
    requires
        e1.to_multiset() == e2.to_multiset(),
    ensures
        canon_entries(e1).to_multiset() == canon_entries(e2).to_multiset(),
    decreases e1.len(),
{
    vstd::seq_lib::to_multiset_len(e1);
    vstd::seq_lib::to_multiset_len(e2);
    if e1.len() == 0 {
        assert(canon_entries(e1) =~= canon_entries(e2));
    } else {
        let x = e1[0];
        vstd::seq_lib::to_multiset_contains(e1, x);
        assert(e1.contains(x));
        vstd::seq_lib::to_multiset_contains(e2, x);
        let j = choose|j: int| 0 <= j < e2.len() && e2[j] == x;
        vstd::seq_lib::to_multiset_remove(e1, 0);
        vstd::seq_lib::to_multiset_remove(e2, j);
        assert(e1.remove(0) =~= e1.drop_first());
        lemma_canon_entries_multiset(e1.drop_first(), e2.remove(j));
        let c1 = canon_entries(e1);
        let c2 = canon_entries(e2);
        assert(c1.remove(0) =~= canon_entries(e1.drop_first()));
        assert(c2.remove(j) =~= canon_entries(e2.remove(j)));
        vstd::seq_lib::to_multiset_remove(c1, 0);
        vstd::seq_lib::to_multiset_remove(c2, j);
        vstd::seq_lib::to_multiset_contains(c1, c1[0]);
        assert(c1.contains(c1[0]));
        vstd::seq_lib::to_multiset_contains(c2, c2[j]);
        assert(c2.contains(c2[j]));
        assert(c1[0] == c2[j]);
        lemma_remove_both(c1[0], c1.to_multiset(), c2.to_multiset());
    }
}

/// Dictionaries built from the same entries in any order are equal; since
/// equality goes through canonical forms, the same holds wherever such
/// dictionaries stand inside other values.
pub proof fn lemma_dict_order_independent(
    k: SigType,
    v: SigType,
    e1: Seq<(ValueModel, ValueModel)>,
    e2: Seq<(ValueModel, ValueModel)>,
)
    requires
        e1.to_multiset() == e2.to_multiset(),
    ensures
        value_eq(ValueModel::Dict(k, v, e1), ValueModel::Dict(k, v, e2)),
{
    lemma_canon_entries_multiset(e1, e2);
}

/// Equality is unchanged by wrapping both values in a variant, so equal
/// dictionaries stay equal inside variants (and likewise inside arrays,
/// structures and optional values, whose canonical forms are built the same
/// way from their parts).
pub proof fn lemma_variant_congruent(a: ValueModel, b: ValueModel)
    requires
        value_eq(a, b),
    ensures
        value_eq(ValueModel::Variant(Box::new(a)), ValueModel::Variant(Box::new(b))),
{
}

impl Value {
    /// Whether two values are equal (`value_eq`): dictionaries, at any depth,
    /// compare by their entries whatever their order.
    pub fn equiv(&self, other: &Value) -> (r: bool)
        ensures
            r == value_eq(self@, other@),
        decreases self,
    {
        match (self, other) {
            (Value::Value(a), Value::Value(b)) => (**a).equiv(&**b),
            (Value::Array(a), Value::Array(b)) => {
                assert(self@->Array_1 =~= views(a.elems@));
                assert(other@->Array_1 =~= views(b.elems@));
                if !a.elem.equals(&b.elem) {
                    return false;
                }
                equiv_list(self, &a.elems, &b.elems)
            },
            (Value::Structure(a), Value::Structure(b)) => {
                assert(self@->Structure_0 =~= views(a.fields@));
                assert(other@->Structure_0 =~= views(b.fields@));
                equiv_list(self, &a.fields, &b.fields)
            },
            (Value::Dict(a), Value::Dict(b)) => {
                assert(self@->Dict_2 =~= entry_views(a.entries@));
                assert(other@->Dict_2 =~= entry_views(b.entries@));
                if !a.key.equals(&b.key) || !a.value.equals(&b.value) {
                    return false;
                }
                equiv_entries(self, &a.entries, &b.entries)
            },
            (Value::Maybe(a), Value::Maybe(b)) => {
                if !a.sig.equals(&b.sig) {
                    return false;
                }
                match (&a.inner, &b.inner) {
                    (Some(x), Some(y)) => (**x).equiv(&**y),
                    (None, None) => true,
                    _ => false,
                }
            },
            (Value::Value(_), _) | (Value::Array(_), _) | (Value::Structure(_), _) | (
                Value::Dict(_),
                _,
            ) | (Value::Maybe(_), _) | (_, Value::Value(_)) | (_, Value::Array(_)) | (
                _,
                Value::Structure(_),
            ) | (_, Value::Dict(_)) | (_, Value::Maybe(_)) => false,
            _ => self.same(other),
        }
    }

    /// Whether two values have the same content, entry order included.
    pub fn same(&self, other: &Value) -> (r: bool)
        ensures
            r == (self@ == other@),
        decreases self,
    {
        match (self, other) {
            (Value::U8(a), Value::U8(b)) => *a == *b,
            (Value::Bool(a), Value::Bool(b)) => *a == *b,
            (Value::I16(a), Value::I16(b)) => *a == *b,
            (Value::U16(a), Value::U16(b)) => *a == *b,
            (Value::I32(a), Value::I32(b)) => *a == *b,
            (Value::U32(a), Value::U32(b)) => *a == *b,
            (Value::I64(a), Value::I64(b)) => *a == *b,
            (Value::U64(a), Value::U64(b)) => *a == *b,
            (Value::F64(a), Value::F64(b)) => *a == *b,
            (Value::Fd(a), Value::Fd(b)) => *a == *b,
            (Value::Str(a), Value::Str(b)) => *a == *b,
            (Value::ObjectPath(a), Value::ObjectPath(b)) => *a == *b,
            (Value::Signature(a), Value::Signature(b)) => a.equals(b),
            (Value::Value(a), Value::Value(b)) => (**a).same(&**b),
            (Value::Array(a), Value::Array(b)) => {
                if !a.elem.equals(&b.elem) {
                    return false;
                }
                let r = same_list(self, &a.elems, &b.elems);
                assert(self@->Array_1 =~= views(a.elems@));
                assert(other@->Array_1 =~= views(b.elems@));
                r
            },
            (Value::Structure(a), Value::Structure(b)) => {
                let r = same_list(self, &a.fields, &b.fields);
                assert(self@->Structure_0 =~= views(a.fields@));
                assert(other@->Structure_0 =~= views(b.fields@));
                r
            },
            (Value::Dict(a), Value::Dict(b)) => {
                if !a.key.equals(&b.key) || !a.value.equals(&b.value) {
                    return false;
                }
                let r = same_entries(self, &a.entries, &b.entries);
                assert(self@->Dict_2 =~= entry_views(a.entries@));
                assert(other@->Dict_2 =~= entry_views(b.entries@));
                r
            },
            (Value::Maybe(a), Value::Maybe(b)) => {
                if !a.sig.equals(&b.sig) {
                    return false;
                }
                match (&a.inner, &b.inner) {
                    (Some(x), Some(y)) => (**x).same(&**y),
                    (None, None) => true,
                    _ => false,
                }
            },
            _ => false,
        }
    }
}

fn equiv_list(parent: &Value, a: &Vec<Value>, b: &Vec<Value>) -> (r: bool)
    requires
        decreases_to!(*parent => *a),
    ensures
        r == (canons(views(a@)) == canons(views(b@))),
    decreases parent, 0int,
{
    if a.len() != b.len() {
        assert(canons(views(a@)).len() != canons(views(b@)).len());
        return false;
    }
    let mut i: usize = 0;
    while i < a.len()
        invariant
            i <= a.len() == b.len(),
            decreases_to!(*parent => *a),
            forall|j: int| 0 <= j < i ==> #[trigger] canon(a[j]@) == canon(b[j]@),
        decreases a.len() - i,
    {
        proof {
            vstd::std_specs::vec::axiom_vec_index_decreases(*a, i as int);
        }
        if !a[i].equiv(&b[i]) {
            assert(canons(views(a@))[i as int] != canons(views(b@))[i as int]);
            return false;
        }
        i = i + 1;
    }
    assert forall|j: int| 0 <= j < a.len() implies canons(views(a@))[j] == canons(views(b@))[j] by {
        assert(views(a@)[j] == a[j]@);
        assert(views(b@)[j] == b[j]@);
        assert(canon(a[j]@) == canon(b[j]@));
    }
    assert(canons(views(a@)) =~= canons(views(b@)));
    true
}

fn same_list(parent: &Value, a: &Vec<Value>, b: &Vec<Value>) -> (r: bool)
    requires
        decreases_to!(*parent => *a),
    ensures
        r == (views(a@) == views(b@)),
    decreases parent, 0int,
{
    if a.len() != b.len() {
        assert(views(a@).len() != views(b@).len());
        return false;
    }
    let mut i: usize = 0;
    while i < a.len()
        invariant
            i <= a.len() == b.len(),
            decreases_to!(*parent => *a),
            forall|j: int| 0 <= j < i ==> #[trigger] a[j]@ == b[j]@,
        decreases a.len() - i,
    {
        proof {
            vstd::std_specs::vec::axiom_vec_index_decreases(*a, i as int);
        }
        if !a[i].same(&b[i]) {
            assert(views(a@)[i as int] != views(b@)[i as int]);
            return false;
        }
        i = i + 1;
    }
    assert(views(a@) =~= views(b@));
    true
}

fn same_entries(parent: &Value, a: &Vec<(Value, Value)>, b: &Vec<(Value, Value)>) -> (r: bool)
    requires
        decreases_to!(*parent => *a),
    ensures
        r == (entry_views(a@) == entry_views(b@)),
    decreases parent, 0int,
{
    if a.len() != b.len() {
        assert(entry_views(a@).len() != entry_views(b@).len());
        return false;
    }
    let mut i: usize = 0;
    while i < a.len()
        invariant
            i <= a.len() == b.len(),
            decreases_to!(*parent => *a),
            forall|j: int|
                0 <= j < i ==> (#[trigger] a@[j]).0@ == b@[j].0@ && a@[j].1@ == b@[j].1@,
        decreases a.len() - i,
    {
        proof {
            vstd::std_specs::vec::axiom_vec_index_decreases(*a, i as int);
        }
        let k_same = a[i].0.same(&b[i].0);
        let v_same = a[i].1.same(&b[i].1);
        if !k_same || !v_same {
            assert(entry_views(a@)[i as int] != entry_views(b@)[i as int]);
            return false;
        }
        i = i + 1;
    }
    assert(entry_views(a@) =~= entry_views(b@));
    true
}

/// The entries of `b` at the indices `rem`, in that order.
pub open spec fn picked<A>(b: Seq<A>, rem: Seq<usize>) -> Seq<A> {
    Seq::new(rem.len(), |k: int| b[rem[k] as int])
}

proof fn lemma_remove_both<A>(x: A, a: Multiset<A>, b: Multiset<A>)
    requires
        a.count(x) > 0,
        b.count(x) > 0,
    ensures
        (a == b) <==> (a.remove(x) == b.remove(x)),
{
    if a.remove(x) == b.remove(x) {
        assert forall|y: A| a.count(y) == b.count(y) by {
            assert(a.remove(x).count(y) == b.remove(x).count(y));
        }
        assert(a =~= b);
    }
}

/// Whether two lists of entries hold equal entries, in any order.
fn equiv_entries(parent: &Value, a: &Vec<(Value, Value)>, b: &Vec<(Value, Value)>) -> (r: bool)
    requires
        decreases_to!(*parent => *a),
    ensures
        r == (canon_entries(entry_views(a@)).to_multiset() == canon_entries(entry_views(b@)).to_multiset()),
    decreases parent, 0int,
{
    let ghost ea = canon_entries(entry_views(a@));
    let ghost eb = canon_entries(entry_views(b@));
    let mut rem: Vec<usize> = Vec::new();
    let mut k: usize = 0;
    while k < b.len()
        invariant
            k <= b.len(),
            rem.len() == k,
            forall|m: int| 0 <= m < k ==> #[trigger] rem[m] == m,
        decreases b.len() - k,
    {
        rem.push(k);
        k = k + 1;
    }
    assert(picked(eb, rem@) =~= eb);
    assert(ea.subrange(0, ea.len() as int) =~= ea);
    let mut i: usize = 0;
    while i < a.len()
        invariant
            i <= a.len(),
            ea == canon_entries(entry_views(a@)),
            eb == canon_entries(entry_views(b@)),
            decreases_to!(*parent => *a),
            forall|m: int| 0 <= m < rem.len() ==> #[trigger] rem[m] < b.len(),
            (ea.to_multiset() == eb.to_multiset()) == (ea.subrange(i as int, ea.len() as int).to_multiset()
                == picked(eb, rem@).to_multiset()),
        decreases a.len() - i,
    {
        let ghost x = ea[i as int];
        let ghost tail = ea.subrange(i as int, ea.len() as int);
        let ghost pk = picked(eb, rem@);
        let mut j: usize = 0;
        let mut found = false;
        while j < rem.len()
            invariant
                j <= rem.len(),
                i < a.len(),
                x == ea[i as int],
                ea == canon_entries(entry_views(a@)),
                eb == canon_entries(entry_views(b@)),
                decreases_to!(*parent => *a),
                pk == picked(eb, rem@),
                forall|m: int| 0 <= m < rem.len() ==> #[trigger] rem[m] < b.len(),
                !found ==> forall|m: int| 0 <= m < j ==> #[trigger] pk[m] != x,
                found ==> j < rem.len() && pk[j as int] == x,
            ensures
                found ==> j < rem.len() && pk[j as int] == x,
                !found ==> j == rem.len() && forall|m: int| 0 <= m < j ==> #[trigger] pk[m] != x,
            decreases rem.len() - j,
        {
            let bi = rem[j];
            proof {
                vstd::std_specs::vec::axiom_vec_index_decreases(*a, i as int);
            }
            let k_same = a[i].0.equiv(&b[bi].0);
            let v_same = a[i].1.equiv(&b[bi].1);
            if k_same && v_same {
                found = true;
                break;
            }
            j = j + 1;
        }
        if !found {
            proof {
                assert(tail[0] == x);
                assert(tail.to_multiset().count(x) > 0) by {
                    vstd::seq_lib::to_multiset_contains(tail, x);
                    assert(tail.contains(x));
                }
                assert(!pk.contains(x)) by {
                    if pk.contains(x) {
                        let m = choose|m: int| 0 <= m < pk.len() && pk[m] == x;
                        assert(pk[m] != x);
                    }
                }
                assert(pk.to_multiset().count(x) == 0) by {
                    vstd::seq_lib::to_multiset_contains(pk, x);
                }
            }
            return false;
        }
        proof {
            assert(tail[0] == x);
            vstd::seq_lib::to_multiset_contains(tail, x);
            assert(tail.contains(x));
            vstd::seq_lib::to_multiset_contains(pk, x);
            assert(pk.contains(x)) by {
                assert(pk[j as int] == x);
            }
            vstd::seq_lib::to_multiset_remove(tail, 0);
            vstd::seq_lib::to_multiset_remove(pk, j as int);
            assert(tail.remove(0) =~= ea.subrange(i + 1, ea.len() as int));
            lemma_remove_both(x, tail.to_multiset(), pk.to_multiset());
        }
        rem.remove(j);
        proof {
            assert(picked(eb, rem@) =~= pk.remove(j as int));
        }
        i = i + 1;
    }
    proof {
        assert(ea.subrange(i as int, ea.len() as int) =~= Seq::<(Canon, Canon)>::empty());
        let pk = picked(eb, rem@);
        let none = Seq::<(Canon, Canon)>::empty();
        vstd::seq_lib::to_multiset_len(pk);
        vstd::seq_lib::to_multiset_len(none);
        if pk.len() == 0 {
            assert(pk =~= none);
        }
    }
    rem.len() == 0
}

impl PartialEq for Value {
    fn eq(&self, other: &Value) -> (r: bool) {
        self.equiv(other)
    }
}

impl vstd::std_specs::cmp::PartialEqSpecImpl for Value {
    open spec fn obeys_eq_spec() -> bool {
        true
    }

    open spec fn eq_spec(&self, other: &Value) -> bool {
        value_eq(self@, other@)
    }
}

} // verus!
