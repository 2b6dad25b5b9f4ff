//! The dynamic value type carried by messages and envelopes.
//!
//! Wire payloads are open-ended: a value may be null, a boolean, an
//! integer, a floating-point number (held as its IEEE-754 bit pattern),
//! text, raw bytes, a sequence, or an insertion-ordered string-keyed
//! mapping. `DynValue` is the executable form; `ValModel` is its
//! mathematical abstraction used in contracts.

use vstd::prelude::*;

verus! {

broadcast use vstd::std_specs::vec::group_vec_axioms, vstd::seq::group_seq_axioms;

/// Mathematical model of a dynamic value.
///
/// Floating-point numbers are modelled by their IEEE-754 binary64 bit
/// pattern, so equality of models is bit-equality of the numbers.
/// Mappings are insertion-ordered sequences of key/value pairs.
pub enum ValModel {
    Null,
    Bool(bool),
    Int(i64),
    Float(u64),
    Text(Seq<char>),
    Bin(Seq<u8>),
    List(Seq<ValModel>),
    Object(Seq<(Seq<char>, ValModel)>),
}

/// A dynamic value: the unit of payload data in messages and envelopes.
///
/// The `Float` variant stores the IEEE-754 binary64 bit pattern of the
/// number (`f64::to_bits`), which keeps equality and round-trips exact.
#[derive(Debug, PartialEq)]
pub enum DynValue {
    Null,
    Bool(bool),
    Int(i64),
    Float(u64),
    Text(String),
    Bin(Vec<u8>),
    List(Vec<DynValue>),
    Object(Vec<(String, DynValue)>),
}

/// The model of a dynamic value: each child is modelled in place, text
/// becomes its character sequence, and byte payloads their byte sequence.
pub open spec fn view_value(v: DynValue) -> ValModel
    decreases v,
    via view_value_decreases
{
    match v {
        DynValue::Null => ValModel::Null,
        DynValue::Bool(b) => ValModel::Bool(b),
        DynValue::Int(i) => ValModel::Int(i),
        DynValue::Float(bits) => ValModel::Float(bits),
        DynValue::Text(s) => ValModel::Text(s@),
        DynValue::Bin(b) => ValModel::Bin(b@),
        DynValue::List(items) => ValModel::List(view_items(items@)),
        DynValue::Object(fields) => ValModel::Object(view_fields(fields@)),
    }
}

/// The models of a sequence of values, element by element.
pub open spec fn view_items(items: Seq<DynValue>) -> Seq<ValModel>
    decreases items,
    via view_items_decreases
{
    if items.len() == 0 {
        Seq::empty()
    } else {
        view_items(items.drop_last()).push(view_value(items.last()))
    }
}

/// The models of a sequence of key/value pairs, element by element.
pub open spec fn view_fields(fields: Seq<(String, DynValue)>) -> Seq<(Seq<char>, ValModel)>
    decreases fields,
    via view_fields_decreases
{
    if fields.len() == 0 {
        Seq::empty()
    } else {
        view_fields(fields.drop_last()).push((fields.last().0@, view_value(fields.last().1)))
    }
}

#[via_fn]
proof fn view_value_decreases(v: DynValue) {
    match v {
        DynValue::List(items) => {
            assert(decreases_to!(v => v->List_0));
            assert(decreases_to!(v->List_0 => (v->List_0)@));
        },
        DynValue::Object(fields) => {
            assert(decreases_to!(v => v->Object_0));
            assert(decreases_to!(v->Object_0 => (v->Object_0)@));
        },
        _ => {},
    }
}

#[via_fn]
proof fn view_items_decreases(items: Seq<DynValue>) {
    if items.len() > 0 {
        assert(items.drop_last() == items.subrange(0, items.len() - 1));
        assert(decreases_to!(items => items.subrange(0, items.len() - 1)));
        assert(decreases_to!(items => items[items.len() - 1]));
    }
}

#[via_fn]
proof fn view_fields_decreases(fields: Seq<(String, DynValue)>) {
    if fields.len() > 0 {
        assert(fields.drop_last() == fields.subrange(0, fields.len() - 1));
        assert(decreases_to!(fields => fields.subrange(0, fields.len() - 1)));
        assert(decreases_to!(fields => fields[fields.len() - 1]));
        assert(decreases_to!(fields[fields.len() - 1] => fields[fields.len() - 1].1));
    }
}

/// `view_items` maps the sequence element by element.
pub broadcast proof fn lemma_view_items(items: Seq<DynValue>)
    ensures
        #[trigger] view_items(items).len() == items.len(),
        forall|i: int| 0 <= i < items.len()
            ==> view_items(items)[i] == view_value(items[i]),
    decreases items.len(),
{
    if items.len() > 0 {
        lemma_view_items(items.drop_last());
    }
}

/// `view_fields` maps the sequence element by element.
pub broadcast proof fn lemma_view_fields(fields: Seq<(String, DynValue)>)
    ensures
        #[trigger] view_fields(fields).len() == fields.len(),
        forall|i: int| 0 <= i < fields.len()
            ==> view_fields(fields)[i] == (fields[i].0@, view_value(fields[i].1)),
    decreases fields.len(),
{
    if fields.len() > 0 {
        lemma_view_fields(fields.drop_last());
    }
}

impl DeepView for DynValue {
    type V = ValModel;

    open spec fn deep_view(&self) -> ValModel {
        view_value(*self)
    }
}

impl Clone for DynValue {
    /// A clone has the same model as the original.
    fn clone(&self) -> (r: Self)
        ensures
            r.deep_view() == self.deep_view(),
        decreases *self,
    {
        match self {
            DynValue::Null => DynValue::Null,
            DynValue::Bool(b) => DynValue::Bool(*b),
            DynValue::Int(i) => DynValue::Int(*i),
            DynValue::Float(bits) => DynValue::Float(*bits),
            DynValue::Text(s) => DynValue::Text(s.clone()),
            DynValue::Bin(b) => {
                let out = b.clone();
                proof {
                    assert forall|j: int| 0 <= j < b@.len() implies out@[j] == b@[j] by {
                        assert(cloned::<u8>(b@[j], out@[j]));
                    }
                    assert(out@ =~= b@);
                }
                DynValue::Bin(out)
            },
            DynValue::List(items) => {
                let mut out: Vec<DynValue> = Vec::new();
                let mut i: usize = 0;
                while i < items.len()
                    invariant
                        i <= items@.len(),
                        out@.len() == i as int,
                        *self == DynValue::List(*items),
                        forall|j: int| 0 <= j < i as int
                            ==> #[trigger] view_value(out@[j]) == view_value(items@[j]),
                    decreases items@.len() - i,
                {
                    let elem = &items[i];
                    proof {
                        assert(decreases_to!(*self => self->List_0));
                        assert(decreases_to!(self->List_0 => (self->List_0)@));
                        assert(decreases_to!((self->List_0)@ => (self->List_0)@[i as int]));
                        assert(decreases_to!(*self => *elem));
                    }
                    out.push(elem.clone());
                    i = i + 1;
                }
                proof {
                    lemma_view_items(out@);
                    lemma_view_items(items@);
                    assert(view_items(out@) =~= view_items(items@));
                }
                DynValue::List(out)
            },
            DynValue::Object(fields) => {
                let mut out: Vec<(String, DynValue)> = Vec::new();
                let mut i: usize = 0;
                while i < fields.len()
                    invariant
                        i <= fields@.len(),
                        out@.len() == i as int,
                        *self == DynValue::Object(*fields),
                        forall|j: int| 0 <= j < i as int
                            ==> #[trigger] out@[j].0@ == fields@[j].0@
                                && view_value(out@[j].1) == view_value(fields@[j].1),
                    decreases fields@.len() - i,
                {
                    let (k, v) = &fields[i];
                    proof {
                        assert(decreases_to!(*self => self->Object_0));
                        assert(decreases_to!(self->Object_0 => (self->Object_0)@));
                        assert(decreases_to!((self->Object_0)@ => (self->Object_0)@[i as int]));
                        assert(decreases_to!((self->Object_0)@[i as int]
                            => (self->Object_0)@[i as int].1));
                        assert(decreases_to!(*self => *v));
                    }
                    out.push((k.clone(), v.clone()));
                    i = i + 1;
                }
                proof {
                    lemma_view_fields(out@);
                    lemma_view_fields(fields@);
                    assert(view_fields(out@) =~= view_fields(fields@));
                }
                DynValue::Object(out)
            },
        }
    }
}

} // verus!

verus! {

/// Relies on str's PartialEq: two string slices are equal exactly when
/// their character sequences are equal.
#[verifier::external_body]
pub(crate) fn str_eq(a: &str, b: &str) -> (r: bool)
    ensures
        r == (a@ == b@),
{
    a == b
}

/// Index of the first pair whose key is `key`, or -1 when there is none.
pub open spec fn key_index<T>(fields: Seq<(Seq<char>, T)>, key: Seq<char>) -> int
    decreases fields.len(),
{
    if fields.len() == 0 {
        -1
    } else if fields.first().0 == key {
        0
    } else {
        let r = key_index(fields.drop_first(), key);
        if r < 0 {
            -1
        } else {
            r + 1
        }
    }
}

/// Index of the first pair whose key is `key`, or -1 when there is none.
pub open spec fn field_index(fields: Seq<(Seq<char>, ValModel)>, key: Seq<char>) -> int {
    key_index(fields, key)
}

/// The value under `key`, taking the first occurrence, if any.
pub open spec fn field_of(fields: Seq<(Seq<char>, ValModel)>, key: Seq<char>) -> Option<ValModel> {
    if field_index(fields, key) >= 0 {
        Some(fields[field_index(fields, key)].1)
    } else {
        None
    }
}

/// `field_index` finds the first pair carrying `key`, and -1 exactly
/// when no pair carries it.
pub proof fn lemma_key_index<T>(fields: Seq<(Seq<char>, T)>, key: Seq<char>)
    ensures
        key_index(fields, key) < 0
            ==> forall|j: int| 0 <= j < fields.len() ==> (#[trigger] fields[j]).0 != key,
        key_index(fields, key) >= 0
            ==> key_index(fields, key) < fields.len()
                && fields[key_index(fields, key)].0 == key
                && (forall|j: int| 0 <= j < key_index(fields, key)
                    ==> (#[trigger] fields[j]).0 != key),
    decreases fields.len(),
{
    if fields.len() == 0 {
    } else if fields.first().0 == key {
    } else {
        let tail = fields.drop_first();
        lemma_key_index(tail, key);
        assert(forall|j: int| 0 <= j < tail.len() ==> #[trigger] tail[j] == fields[j + 1]);
        let r = key_index(tail, key);
        if r < 0 {
            assert forall|j: int| 0 <= j < fields.len()
                implies (#[trigger] fields[j]).0 != key by {
                if j >= 1 {
                    assert(tail[j - 1] == fields[j]);
                    assert(tail[j - 1].0 != key);
                }
            }
        } else {
            assert(fields[r + 1] == tail[r]);
            assert forall|j: int| 0 <= j < r + 1
                implies (#[trigger] fields[j]).0 != key by {
                if j >= 1 {
                    assert(tail[j - 1] == fields[j]);
                    assert(tail[j - 1].0 != key);
                }
            }
        }
    }
}

/// The mapping after setting `key` to `value`: an existing first
/// occurrence is overwritten in place, otherwise the pair is appended.
pub open spec fn upsert_field(
    fields: Seq<(Seq<char>, ValModel)>,
    key: Seq<char>,
    value: ValModel,
) -> Seq<(Seq<char>, ValModel)> {
    if field_index(fields, key) >= 0 {
        fields.update(field_index(fields, key), (key, value))
    } else {
        fields.push((key, value))
    }
}

/// Looks `key` up in an insertion-ordered mapping, first occurrence.
pub fn find_field<'a>(fields: &'a Vec<(String, DynValue)>, key: &str)
    -> (r: Option<&'a DynValue>)
    ensures
        match r {
            Some(v) => field_of(view_fields(fields@), key@) == Some(v.deep_view()),
            None => field_of(view_fields(fields@), key@) is None,
        },
{
    let ghost m = view_fields(fields@);
    proof {
        lemma_view_fields(fields@);
        lemma_key_index(m, key@);
    }
    let mut i: usize = 0;
    while i < fields.len()
        invariant
            i <= fields@.len(),
            m == view_fields(fields@),
            m.len() == fields@.len(),
            forall|j: int| 0 <= j < fields@.len()
                ==> m[j] == (fields@[j].0@, view_value(fields@[j].1)),
            forall|j: int| 0 <= j < i as int ==> (#[trigger] m[j]).0 != key@,
        decreases fields@.len() - i,
    {
        let kv = &fields[i];
        if str_eq(kv.0.as_str(), key) {
            proof {
                assert(field_index(m, key@) == i as int) by {
                    lemma_key_index(m, key@);
                    if field_index(m, key@) < 0 {
                        assert(m[i as int].0 != key@);
                        assert(false);
                    } else if field_index(m, key@) < i as int {
                        assert(m[field_index(m, key@)].0 == key@);
                        assert(m[field_index(m, key@)].0 != key@);
                        assert(false);
                    } else if field_index(m, key@) > i as int {
                        assert(m[i as int].0 != key@);
                        assert(m[i as int].0 == key@);
                        assert(false);
                    }
                }
            }
            return Some(&kv.1);
        }
        i = i + 1;
    }
    proof {
        lemma_key_index(m, key@);
        if field_index(m, key@) >= 0 {
            assert(m[field_index(m, key@)].0 == key@);
        }
    }
    None
}

/// Sets `key` to `value` in an insertion-ordered mapping: the first
/// occurrence is overwritten, otherwise the pair is appended.
pub fn upsert(fields: &mut Vec<(String, DynValue)>, key: String, value: DynValue)
    ensures
        view_fields(final(fields)@) == upsert_field(view_fields(old(fields)@), key@,
            value.deep_view()),
{
    let ghost m = view_fields(old(fields)@);
    proof {
        lemma_view_fields(old(fields)@);
        lemma_key_index(m, key@);
    }
    let mut i: usize = 0;
    while i < fields.len()
        invariant
            i <= old(fields)@.len(),
            fields@ == old(fields)@,
            m == view_fields(old(fields)@),
            m.len() == old(fields)@.len(),
            forall|j: int| 0 <= j < old(fields)@.len()
                ==> m[j] == (old(fields)@[j].0@, view_value(old(fields)@[j].1)),
            forall|j: int| 0 <= j < i as int ==> (#[trigger] m[j]).0 != key@,
        decreases old(fields)@.len() - i,
    {
        let hit = str_eq(fields[i].0.as_str(), key.as_str());
        if hit {
            proof {
                assert(field_index(m, key@) == i as int) by {
                    lemma_key_index(m, key@);
                    if field_index(m, key@) < 0 {
                        assert(m[i as int].0 != key@);
                        assert(false);
                    } else if field_index(m, key@) < i as int {
                        assert(m[field_index(m, key@)].0 == key@);
                        assert(m[field_index(m, key@)].0 != key@);
                        assert(false);
                    } else if field_index(m, key@) > i as int {
                        assert(m[i as int].0 != key@);
                        assert(m[i as int].0 == key@);
                        assert(false);
                    }
                }
            }
            fields.set(i, (key, value));
            proof {
                lemma_view_fields(fields@);
                assert(view_fields(fields@) =~= m.update(i as int, (key@, value.deep_view())));
            }
            return;
        }
        i = i + 1;
    }
    proof {
        lemma_key_index(m, key@);
        if field_index(m, key@) >= 0 {
            assert(m[field_index(m, key@)].0 == key@);
        }
    }
    fields.push((key, value));
    proof {
        lemma_view_fields(fields@);
        lemma_view_fields(old(fields)@);
        assert(view_fields(fields@) =~= m.push((key@, value.deep_view())));
    }
}

} // verus!

verus! {

/// Clones a sequence of values, preserving the model.
pub fn clone_values(items: &Vec<DynValue>) -> (r: Vec<DynValue>)
    ensures
        view_items(r@) == view_items(items@),
{
    let mut out: Vec<DynValue> = Vec::new();
    let mut i: usize = 0;
    while i < items.len()
        invariant
            i <= items@.len(),
            out@.len() == i as int,
            forall|j: int| 0 <= j < i as int
                ==> #[trigger] view_value(out@[j]) == view_value(items@[j]),
        decreases items@.len() - i,
    {
        out.push(items[i].clone());
        i = i + 1;
    }
    proof {
        lemma_view_items(out@);
        lemma_view_items(items@);
        assert(view_items(out@) =~= view_items(items@));
    }
    out
}

/// Clones a sequence of key/value pairs, preserving the model.
pub fn clone_fields(fields: &Vec<(String, DynValue)>) -> (r: Vec<(String, DynValue)>)
    ensures
        view_fields(r@) == view_fields(fields@),
{
    let mut out: Vec<(String, DynValue)> = Vec::new();
    let mut i: usize = 0;
    while i < fields.len()
        invariant
            i <= fields@.len(),
            out@.len() == i as int,
            forall|j: int| 0 <= j < i as int
                ==> #[trigger] out@[j].0@ == fields@[j].0@
                    && view_value(out@[j].1) == view_value(fields@[j].1),
        decreases fields@.len() - i,
    {
        let (k, v) = &fields[i];
        out.push((k.clone(), v.clone()));
        i = i + 1;
    }
    proof {
        lemma_view_fields(out@);
        lemma_view_fields(fields@);
        assert(view_fields(out@) =~= view_fields(fields@));
    }
    out
}

} // verus!
