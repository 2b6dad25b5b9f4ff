//! Mappings between the typed messages and their wire-level records.
//!
//! Each message type is laid out as a string-keyed record of dynamic
//! values: required fields first, optional fields only when present.
//! Reading tolerates any field order, fills absent fields with their
//! defaults, ignores unknown keys, and rejects a field of the wrong
//! kind. Writing then reading a message yields it back: the round-trip
//! lemmas state that law.

use vstd::prelude::*;

use crate::error::VmpError;
use crate::value::{DynValue, ValModel, view_value, view_items, view_fields, field_of,
    key_index, lemma_key_index, lemma_view_items, lemma_view_fields, find_field};

verus! {

broadcast use vstd::std_specs::vec::group_vec_axioms, vstd::seq::group_seq_axioms;

/// Appends the pair when it is present.
pub open spec fn opt_push(
    s: Seq<(Seq<char>, ValModel)>,
    o: Option<(Seq<char>, ValModel)>,
) -> Seq<(Seq<char>, ValModel)> {
    match o {
        Some(x) => s.push(x),
        None => s,
    }
}

/// An integer field: absent means the default; a value of another kind
/// is a type error.
pub open spec fn int_field_ok(fields: Seq<(Seq<char>, ValModel)>, key: Seq<char>) -> bool {
    match field_of(fields, key) {
        None => true,
        Some(v) => v is Int,
    }
}

/// The integer under `key`, or the default when absent.
pub open spec fn int_field(fields: Seq<(Seq<char>, ValModel)>, key: Seq<char>, default: i64)
    -> i64 {
    match field_of(fields, key) {
        Some(ValModel::Int(i)) => i,
        _ => default,
    }
}

/// A required text field: absent means empty.
pub open spec fn text_field_ok(fields: Seq<(Seq<char>, ValModel)>, key: Seq<char>) -> bool {
    match field_of(fields, key) {
        None => true,
        Some(v) => v is Text,
    }
}

/// The text under `key`, or empty when absent.
pub open spec fn text_field(fields: Seq<(Seq<char>, ValModel)>, key: Seq<char>) -> Seq<char> {
    match field_of(fields, key) {
        Some(ValModel::Text(s)) => s,
        _ => Seq::empty(),
    }
}

/// An optional text field.
pub open spec fn opt_text_field(fields: Seq<(Seq<char>, ValModel)>, key: Seq<char>)
    -> Option<Seq<char>> {
    match field_of(fields, key) {
        Some(ValModel::Text(s)) => Some(s),
        _ => None,
    }
}

/// An optional list field.
pub open spec fn opt_list_field(fields: Seq<(Seq<char>, ValModel)>, key: Seq<char>)
    -> Option<Seq<ValModel>> {
    match field_of(fields, key) {
        Some(ValModel::List(a)) => Some(a),
        _ => None,
    }
}

/// An optional record field.
pub open spec fn opt_obj_field(fields: Seq<(Seq<char>, ValModel)>, key: Seq<char>)
    -> Option<Seq<(Seq<char>, ValModel)>> {
    match field_of(fields, key) {
        Some(ValModel::Object(f)) => Some(f),
        _ => None,
    }
}

/// An optional boolean field.
pub open spec fn opt_bool_field(fields: Seq<(Seq<char>, ValModel)>, key: Seq<char>)
    -> Option<bool> {
    match field_of(fields, key) {
        Some(ValModel::Bool(b)) => Some(b),
        _ => None,
    }
}

/// An optional field of any kind.
pub open spec fn opt_any_field(fields: Seq<(Seq<char>, ValModel)>, key: Seq<char>)
    -> Option<ValModel> {
    field_of(fields, key)
}

/// An optional field is well-kinded when absent or of the stated kind.
pub open spec fn opt_text_field_ok(fields: Seq<(Seq<char>, ValModel)>, key: Seq<char>) -> bool {
    match field_of(fields, key) {
        None => true,
        Some(v) => v is Text,
    }
}

/// See `opt_text_field_ok`.
pub open spec fn opt_list_field_ok(fields: Seq<(Seq<char>, ValModel)>, key: Seq<char>) -> bool {
    match field_of(fields, key) {
        None => true,
        Some(v) => v is List,
    }
}

/// See `opt_text_field_ok`.
pub open spec fn opt_obj_field_ok(fields: Seq<(Seq<char>, ValModel)>, key: Seq<char>) -> bool {
    match field_of(fields, key) {
        None => true,
        Some(v) => v is Object,
    }
}

/// See `opt_text_field_ok`.
pub open spec fn opt_bool_field_ok(fields: Seq<(Seq<char>, ValModel)>, key: Seq<char>) -> bool {
    match field_of(fields, key) {
        None => true,
        Some(v) => v is Bool,
    }
}

/// The wrong-kind error for a record field.
fn kind_err(key: &str) -> (r: VmpError)
    ensures
        r is Deserialization,
{
    let mut m = "field has the wrong kind: ".to_owned();
    m.append(key);
    VmpError::Deserialization(m)
}

/// Reads an integer field, defaulting when absent.
pub fn get_int_field(fields: &Vec<(String, DynValue)>, key: &str, default: i64)
    -> (r: Result<i64, VmpError>)
    ensures
        match r {
            Ok(i) => int_field_ok(view_fields(fields@), key@)
                && i == int_field(view_fields(fields@), key@, default),
            Err(e) => !int_field_ok(view_fields(fields@), key@) && e is Deserialization,
        },
{
    match find_field(fields, key) {
        None => Ok(default),
        Some(v) => match v {
            DynValue::Int(i) => Ok(*i),
            _ => Err(kind_err(key)),
        },
    }
}

/// Reads a required text field, defaulting to empty when absent.
pub fn get_text_field(fields: &Vec<(String, DynValue)>, key: &str)
    -> (r: Result<String, VmpError>)
    ensures
        match r {
            Ok(s) => text_field_ok(view_fields(fields@), key@)
                && s@ == text_field(view_fields(fields@), key@),
            Err(e) => !text_field_ok(view_fields(fields@), key@) && e is Deserialization,
        },
{
    match find_field(fields, key) {
        None => Ok(String::new()),
        Some(v) => match v {
            DynValue::Text(s) => Ok(s.clone()),
            _ => Err(kind_err(key)),
        },
    }
}

/// Reads an optional text field.
pub fn get_opt_text_field(fields: &Vec<(String, DynValue)>, key: &str)
    -> (r: Result<Option<String>, VmpError>)
    ensures
        match r {
            Ok(o) => opt_text_field_ok(view_fields(fields@), key@)
                && (match o {
                    Some(s) => opt_text_field(view_fields(fields@), key@) == Some(s@),
                    None => opt_text_field(view_fields(fields@), key@) is None,
                }),
            Err(e) => !opt_text_field_ok(view_fields(fields@), key@) && e is Deserialization,
        },
{
    match find_field(fields, key) {
        None => Ok(None),
        Some(v) => match v {
            DynValue::Text(s) => Ok(Some(s.clone())),
            _ => Err(kind_err(key)),
        },
    }
}

/// Reads an optional list field.
pub fn get_opt_list_field(fields: &Vec<(String, DynValue)>, key: &str)
    -> (r: Result<Option<Vec<DynValue>>, VmpError>)
    ensures
        match r {
            Ok(o) => opt_list_field_ok(view_fields(fields@), key@)
                && (match o {
                    Some(a) => opt_list_field(view_fields(fields@), key@)
                        == Some(view_items(a@)),
                    None => opt_list_field(view_fields(fields@), key@) is None,
                }),
            Err(e) => !opt_list_field_ok(view_fields(fields@), key@) && e is Deserialization,
        },
{
    match find_field(fields, key) {
        None => Ok(None),
        Some(v) => match v {
            DynValue::List(items) => Ok(Some(crate::value::clone_values(items))),
            _ => Err(kind_err(key)),
        },
    }
}

/// Reads an optional record field.
pub fn get_opt_obj_field(fields: &Vec<(String, DynValue)>, key: &str)
    -> (r: Result<Option<Vec<(String, DynValue)>>, VmpError>)
    ensures
        match r {
            Ok(o) => opt_obj_field_ok(view_fields(fields@), key@)
                && (match o {
                    Some(f) => opt_obj_field(view_fields(fields@), key@)
                        == Some(view_fields(f@)),
                    None => opt_obj_field(view_fields(fields@), key@) is None,
                }),
            Err(e) => !opt_obj_field_ok(view_fields(fields@), key@) && e is Deserialization,
        },
{
    match find_field(fields, key) {
        None => Ok(None),
        Some(v) => match v {
            DynValue::Object(f) => Ok(Some(crate::value::clone_fields(f))),
            _ => Err(kind_err(key)),
        },
    }
}

/// Reads an optional boolean field.
pub fn get_opt_bool_field(fields: &Vec<(String, DynValue)>, key: &str)
    -> (r: Result<Option<bool>, VmpError>)
    ensures
        match r {
            Ok(o) => opt_bool_field_ok(view_fields(fields@), key@)
                && o == opt_bool_field(view_fields(fields@), key@),
            Err(e) => !opt_bool_field_ok(view_fields(fields@), key@) && e is Deserialization,
        },
{
    match find_field(fields, key) {
        None => Ok(None),
        Some(v) => match v {
            DynValue::Bool(b) => Ok(Some(*b)),
            _ => Err(kind_err(key)),
        },
    }
}

/// Reads an optional field of any kind.
pub fn get_opt_any_field(fields: &Vec<(String, DynValue)>, key: &str)
    -> (r: Option<DynValue>)
    ensures
        match r {
            Some(v) => opt_any_field(view_fields(fields@), key@) == Some(v.deep_view()),
            None => opt_any_field(view_fields(fields@), key@) is None,
        },
{
    match find_field(fields, key) {
        None => None,
        Some(v) => Some(v.clone()),
    }
}

/// Looking up a key that no pair carries yields nothing.
pub proof fn lemma_field_of_absent(fields: Seq<(Seq<char>, ValModel)>, key: Seq<char>)
    requires
        forall|j: int| 0 <= j < fields.len() ==> (#[trigger] fields[j]).0 != key,
    ensures
        field_of(fields, key) is None,
{
    lemma_key_index(fields, key);
    if key_index(fields, key) >= 0 {
        assert(fields[key_index(fields, key)].0 == key);
    }
}

} // verus!

verus! {

/// Looking a key up after appending a pair: an earlier occurrence wins,
/// else the appended pair answers, else nothing.
pub broadcast proof fn lemma_field_of_push(
    s: Seq<(Seq<char>, ValModel)>,
    x: (Seq<char>, ValModel),
    k: Seq<char>,
)
    ensures
        #[trigger] field_of(s.push(x), k) == if field_of(s, k) is Some {
            field_of(s, k)
        } else if x.0 == k {
            Some(x.1)
        } else {
            None::<ValModel>
        },
{
    crate::type_registry::lemma_key_index_push(s, x, k);
    lemma_key_index(s, k);
    lemma_key_index(s.push(x), k);
    if key_index(s, k) >= 0 {
        assert(s.push(x)[key_index(s, k)] == s[key_index(s, k)]);
    }
}

/// The wire record of a message: `ts` and `etype` always, then each
/// optional field only when present.
pub open spec fn msg_fields(m: crate::types::MessageModel) -> Seq<(Seq<char>, ValModel)> {
    opt_push(opt_push(opt_push(opt_push(opt_push(
        Seq::empty()
            .push(("ts"@, ValModel::Int(m.ts)))
            .push(("etype"@, ValModel::Text(m.etype))),
        match m.rtype {
            Some(r) => Some(("rtype"@, ValModel::Text(r))),
            None => None,
        }),
        match m.args {
            Some(a) => Some(("args"@, ValModel::List(a))),
            None => None,
        }),
        match m.kwargs {
            Some(k) => Some(("kwargs"@, ValModel::Object(k))),
            None => None,
        }),
        match m.data {
            Some(d) => Some(("data"@, d)),
            None => None,
        }),
        match m.value {
            Some(v) => Some(("value"@, v)),
            None => None,
        })
}

/// The wire value of a message.
pub open spec fn msg_val(m: crate::types::MessageModel) -> ValModel {
    ValModel::Object(msg_fields(m))
}

/// The message a wire value denotes: the value must be a record, each
/// known field must be of its kind, absent fields take their defaults,
/// and unknown keys are ignored.
pub open spec fn msg_of_val(v: ValModel) -> Option<crate::types::MessageModel> {
    match v {
        ValModel::Object(fields) => if int_field_ok(fields, "ts"@)
            && text_field_ok(fields, "etype"@)
            && opt_text_field_ok(fields, "rtype"@)
            && opt_list_field_ok(fields, "args"@)
            && opt_obj_field_ok(fields, "kwargs"@) {
            Some(crate::types::MessageModel {
                ts: int_field(fields, "ts"@, 0),
                etype: text_field(fields, "etype"@),
                rtype: opt_text_field(fields, "rtype"@),
                args: opt_list_field(fields, "args"@),
                kwargs: opt_obj_field(fields, "kwargs"@),
                data: opt_any_field(fields, "data"@),
                value: opt_any_field(fields, "value"@),
            })
        } else {
            None
        },
        _ => None,
    }
}

/// Appends one field to a record under construction.
fn push_field(fields: &mut Vec<(String, DynValue)>, key: &str, value: DynValue)
    ensures
        view_fields(final(fields)@)
            == view_fields(old(fields)@).push((key@, value.deep_view())),
{
    fields.push((key.to_owned(), value));
    proof {
        assert(fields@.drop_last() =~= old(fields)@);
        assert(view_fields(fields@)
            =~= view_fields(old(fields)@).push((key@, value.deep_view())));
    }
}

/// Lays a message out as its wire record.
pub fn message_to_value(m: &crate::types::Message) -> (r: DynValue)
    ensures
        r.deep_view() == msg_val(m.deep_view()),
{
    let mut fields: Vec<(String, DynValue)> = Vec::new();
    proof {
        assert(view_fields(fields@) =~= Seq::<(Seq<char>, ValModel)>::empty());
    }
    push_field(&mut fields, "ts", DynValue::Int(m.ts));
    push_field(&mut fields, "etype", DynValue::Text(m.etype.clone()));
    match &m.rtype {
        Some(r) => push_field(&mut fields, "rtype", DynValue::Text(r.clone())),
        None => {},
    }
    match &m.args {
        Some(a) => push_field(&mut fields, "args",
            DynValue::List(crate::value::clone_values(a))),
        None => {},
    }
    match &m.kwargs {
        Some(k) => push_field(&mut fields, "kwargs",
            DynValue::Object(crate::value::clone_fields(k))),
        None => {},
    }
    match &m.data {
        Some(d) => push_field(&mut fields, "data", d.clone()),
        None => {},
    }
    match &m.value {
        Some(v) => push_field(&mut fields, "value", v.clone()),
        None => {},
    }
    DynValue::Object(fields)
}

/// Reads a message back from its wire value.
pub fn value_to_message(v: &DynValue) -> (r: Result<crate::types::Message, VmpError>)
    ensures
        match r {
            Ok(m) => msg_of_val(v.deep_view()) == Some(m.deep_view()),
            Err(e) => msg_of_val(v.deep_view()) is None && e is Deserialization,
        },
{
    match v {
        DynValue::Object(fields) => {
            let ts = match get_int_field(fields, "ts", 0) {
                Ok(x) => x,
                Err(e) => { return Err(e); },
            };
            let etype = match get_text_field(fields, "etype") {
                Ok(x) => x,
                Err(e) => { return Err(e); },
            };
            let rtype = match get_opt_text_field(fields, "rtype") {
                Ok(x) => x,
                Err(e) => { return Err(e); },
            };
            let args = match get_opt_list_field(fields, "args") {
                Ok(x) => x,
                Err(e) => { return Err(e); },
            };
            let kwargs = match get_opt_obj_field(fields, "kwargs") {
                Ok(x) => x,
                Err(e) => { return Err(e); },
            };
            let data = get_opt_any_field(fields, "data");
            let value = get_opt_any_field(fields, "value");
            Ok(crate::types::Message { ts, etype, rtype, args, kwargs, data, value })
        },
        _ => Err(VmpError::Deserialization(
            "a message must be a string-keyed record".to_owned(),
        )),
    }
}

/// Round-trip law of the message layout: reading a message's wire value
/// back yields the message, whatever its fields hold.
pub proof fn lemma_message_round_trip(m: crate::types::MessageModel)
    ensures
        msg_of_val(msg_val(m)) == Some(m),
{
    broadcast use lemma_field_of_push;

    reveal_strlit("ts");
    reveal_strlit("etype");
    reveal_strlit("rtype");
    reveal_strlit("args");
    reveal_strlit("kwargs");
    reveal_strlit("data");
    reveal_strlit("value");
    let fields = msg_fields(m);
    let base = Seq::<(Seq<char>, ValModel)>::empty()
        .push(("ts"@, ValModel::Int(m.ts)))
        .push(("etype"@, ValModel::Text(m.etype)));
    assert(field_of(Seq::<(Seq<char>, ValModel)>::empty(), "ts"@) is None);
    assert(field_of(Seq::<(Seq<char>, ValModel)>::empty(), "etype"@) is None);
    assert(field_of(Seq::<(Seq<char>, ValModel)>::empty(), "rtype"@) is None);
    assert(field_of(Seq::<(Seq<char>, ValModel)>::empty(), "args"@) is None);
    assert(field_of(Seq::<(Seq<char>, ValModel)>::empty(), "kwargs"@) is None);
    assert(field_of(Seq::<(Seq<char>, ValModel)>::empty(), "data"@) is None);
    assert(field_of(Seq::<(Seq<char>, ValModel)>::empty(), "value"@) is None);
    assert("ts"@.len() == 2 && "etype"@.len() == 5 && "rtype"@.len() == 5
        && "args"@.len() == 4 && "kwargs"@.len() == 6 && "data"@.len() == 4
        && "value"@.len() == 5);
    assert("etype"@[0] == 'e' && "rtype"@[0] == 'r' && "value"@[0] == 'v');
    assert("args"@[0] == 'a' && "data"@[0] == 'd');
    assert(field_of(fields, "ts"@) == Some(ValModel::Int(m.ts)));
    assert(field_of(fields, "etype"@) == Some(ValModel::Text(m.etype)));
    assert(field_of(fields, "rtype"@) == match m.rtype {
        Some(r) => Some(ValModel::Text(r)),
        None => None::<ValModel>,
    });
    assert(field_of(fields, "args"@) == match m.args {
        Some(a) => Some(ValModel::List(a)),
        None => None::<ValModel>,
    });
    assert(field_of(fields, "kwargs"@) == match m.kwargs {
        Some(k) => Some(ValModel::Object(k)),
        None => None::<ValModel>,
    });
    assert(field_of(fields, "data"@) == m.data);
    assert(field_of(fields, "value"@) == m.value);
}

} // verus!

verus! {

/// A field of any kind whose absence means null.
pub open spec fn any_field(fields: Seq<(Seq<char>, ValModel)>, key: Seq<char>) -> ValModel {
    match field_of(fields, key) {
        Some(v) => v,
        None => ValModel::Null,
    }
}

/// Reads a field of any kind, defaulting to null when absent.
pub fn get_any_field(fields: &Vec<(String, DynValue)>, key: &str) -> (r: DynValue)
    ensures
        r.deep_view() == any_field(view_fields(fields@), key@),
{
    match find_field(fields, key) {
        None => DynValue::Null,
        Some(v) => v.clone(),
    }
}

/// The wire record of an RPC request: `ts`, `etype` and `rtype` always,
/// the argument fields only when present.
pub open spec fn req_fields(m: crate::types::RpcRequestModel) -> Seq<(Seq<char>, ValModel)> {
    opt_push(opt_push(
        Seq::empty()
            .push(("ts"@, ValModel::Int(m.ts)))
            .push(("etype"@, ValModel::Text(m.etype)))
            .push(("rtype"@, ValModel::Text(m.rtype))),
        match m.args {
            Some(a) => Some(("args"@, ValModel::List(a))),
            None => None,
        }),
        match m.kwargs {
            Some(k) => Some(("kwargs"@, ValModel::Object(k))),
            None => None,
        })
}

/// The wire value of an RPC request.
pub open spec fn req_val(m: crate::types::RpcRequestModel) -> ValModel {
    ValModel::Object(req_fields(m))
}

/// The RPC request a wire value denotes.
pub open spec fn req_of_val(v: ValModel) -> Option<crate::types::RpcRequestModel> {
    match v {
        ValModel::Object(fields) => if int_field_ok(fields, "ts"@)
            && text_field_ok(fields, "etype"@)
            && text_field_ok(fields, "rtype"@)
            && opt_list_field_ok(fields, "args"@)
            && opt_obj_field_ok(fields, "kwargs"@) {
            Some(crate::types::RpcRequestModel {
                ts: int_field(fields, "ts"@, 0),
                etype: text_field(fields, "etype"@),
                rtype: text_field(fields, "rtype"@),
                args: opt_list_field(fields, "args"@),
                kwargs: opt_obj_field(fields, "kwargs"@),
            })
        } else {
            None
        },
        _ => None,
    }
}

/// Lays an RPC request out as its wire record.
pub fn rpc_request_to_value(m: &crate::types::RpcRequest) -> (r: DynValue)
    ensures
        r.deep_view() == req_val(m.deep_view()),
{
    let mut fields: Vec<(String, DynValue)> = Vec::new();
    proof {
        assert(view_fields(fields@) =~= Seq::<(Seq<char>, ValModel)>::empty());
    }
    push_field(&mut fields, "ts", DynValue::Int(m.ts));
    push_field(&mut fields, "etype", DynValue::Text(m.etype.clone()));
    push_field(&mut fields, "rtype", DynValue::Text(m.rtype.clone()));
    match &m.args {
        Some(a) => push_field(&mut fields, "args",
            DynValue::List(crate::value::clone_values(a))),
        None => {},
    }
    match &m.kwargs {
        Some(k) => push_field(&mut fields, "kwargs",
            DynValue::Object(crate::value::clone_fields(k))),
        None => {},
    }
    DynValue::Object(fields)
}

/// Reads an RPC request back from its wire value.
pub fn value_to_rpc_request(v: &DynValue) -> (r: Result<crate::types::RpcRequest, VmpError>)
    ensures
        match r {
            Ok(m) => req_of_val(v.deep_view()) == Some(m.deep_view()),
            Err(e) => req_of_val(v.deep_view()) is None && e is Deserialization,
        },
{
    match v {
        DynValue::Object(fields) => {
            let ts = match get_int_field(fields, "ts", 0) {
                Ok(x) => x,
                Err(e) => { return Err(e); },
            };
            let etype = match get_text_field(fields, "etype") {
                Ok(x) => x,
                Err(e) => { return Err(e); },
            };
            let rtype = match get_text_field(fields, "rtype") {
                Ok(x) => x,
                Err(e) => { return Err(e); },
            };
            let args = match get_opt_list_field(fields, "args") {
                Ok(x) => x,
                Err(e) => { return Err(e); },
            };
            let kwargs = match get_opt_obj_field(fields, "kwargs") {
                Ok(x) => x,
                Err(e) => { return Err(e); },
            };
            Ok(crate::types::RpcRequest { ts, etype, rtype, args, kwargs })
        },
        _ => Err(VmpError::Deserialization(
            "an RPC request must be a string-keyed record".to_owned(),
        )),
    }
}

/// Round-trip law of the RPC request layout.
pub proof fn lemma_rpc_request_round_trip(m: crate::types::RpcRequestModel)
    ensures
        req_of_val(req_val(m)) == Some(m),
{
    broadcast use lemma_field_of_push;

    reveal_strlit("ts");
    reveal_strlit("etype");
    reveal_strlit("rtype");
    reveal_strlit("args");
    reveal_strlit("kwargs");
    let fields = req_fields(m);
    assert(field_of(Seq::<(Seq<char>, ValModel)>::empty(), "ts"@) is None);
    assert(field_of(Seq::<(Seq<char>, ValModel)>::empty(), "etype"@) is None);
    assert(field_of(Seq::<(Seq<char>, ValModel)>::empty(), "rtype"@) is None);
    assert(field_of(Seq::<(Seq<char>, ValModel)>::empty(), "args"@) is None);
    assert(field_of(Seq::<(Seq<char>, ValModel)>::empty(), "kwargs"@) is None);
    assert("ts"@.len() == 2 && "etype"@.len() == 5 && "rtype"@.len() == 5
        && "args"@.len() == 4 && "kwargs"@.len() == 6);
    assert("etype"@[0] == 'e' && "rtype"@[0] == 'r');
    assert(field_of(fields, "ts"@) == Some(ValModel::Int(m.ts)));
    assert(field_of(fields, "etype"@) == Some(ValModel::Text(m.etype)));
    assert(field_of(fields, "rtype"@) == Some(ValModel::Text(m.rtype)));
    assert(field_of(fields, "args"@) == match m.args {
        Some(a) => Some(ValModel::List(a)),
        None => None::<ValModel>,
    });
    assert(field_of(fields, "kwargs"@) == match m.kwargs {
        Some(k) => Some(ValModel::Object(k)),
        None => None::<ValModel>,
    });
}

/// The wire record of an RPC response.
pub open spec fn resp_fields(m: crate::types::RpcResponseModel) -> Seq<(Seq<char>, ValModel)> {
    opt_push(opt_push(opt_push(opt_push(
        Seq::empty()
            .push(("ts"@, ValModel::Int(m.ts)))
            .push(("etype"@, ValModel::Text(m.etype))),
        match m.data {
            Some(d) => Some(("data"@, d)),
            None => None,
        }),
        match m.value {
            Some(v) => Some(("value"@, v)),
            None => None,
        }),
        match m.ok {
            Some(b) => Some(("ok"@, ValModel::Bool(b))),
            None => None,
        }),
        match m.error {
            Some(e) => Some(("error"@, ValModel::Text(e))),
            None => None,
        })
}

/// The wire value of an RPC response.
pub open spec fn resp_val(m: crate::types::RpcResponseModel) -> ValModel {
    ValModel::Object(resp_fields(m))
}

/// The RPC response a wire value denotes.
pub open spec fn resp_of_val(v: ValModel) -> Option<crate::types::RpcResponseModel> {
    match v {
        ValModel::Object(fields) => if int_field_ok(fields, "ts"@)
            && text_field_ok(fields, "etype"@)
            && opt_bool_field_ok(fields, "ok"@)
            && opt_text_field_ok(fields, "error"@) {
            Some(crate::types::RpcResponseModel {
                ts: int_field(fields, "ts"@, 0),
                etype: text_field(fields, "etype"@),
                data: opt_any_field(fields, "data"@),
                value: opt_any_field(fields, "value"@),
                ok: opt_bool_field(fields, "ok"@),
                error: opt_text_field(fields, "error"@),
            })
        } else {
            None
        },
        _ => None,
    }
}

/// Lays an RPC response out as its wire record.
pub fn rpc_response_to_value(m: &crate::types::RpcResponse) -> (r: DynValue)
    ensures
        r.deep_view() == resp_val(m.deep_view()),
{
    let mut fields: Vec<(String, DynValue)> = Vec::new();
    proof {
        assert(view_fields(fields@) =~= Seq::<(Seq<char>, ValModel)>::empty());
    }
    push_field(&mut fields, "ts", DynValue::Int(m.ts));
    push_field(&mut fields, "etype", DynValue::Text(m.etype.clone()));
    match &m.data {
        Some(d) => push_field(&mut fields, "data", d.clone()),
        None => {},
    }
    match &m.value {
        Some(v) => push_field(&mut fields, "value", v.clone()),
        None => {},
    }
    match &m.ok {
        Some(b) => push_field(&mut fields, "ok", DynValue::Bool(*b)),
        None => {},
    }
    match &m.error {
        Some(e) => push_field(&mut fields, "error", DynValue::Text(e.clone())),
        None => {},
    }
    DynValue::Object(fields)
}

/// Reads an RPC response back from its wire value.
pub fn value_to_rpc_response(v: &DynValue) -> (r: Result<crate::types::RpcResponse, VmpError>)
    ensures
        match r {
            Ok(m) => resp_of_val(v.deep_view()) == Some(m.deep_view()),
            Err(e) => resp_of_val(v.deep_view()) is None && e is Deserialization,
        },
{
    match v {
        DynValue::Object(fields) => {
            let ts = match get_int_field(fields, "ts", 0) {
                Ok(x) => x,
                Err(e) => { return Err(e); },
            };
            let etype = match get_text_field(fields, "etype") {
                Ok(x) => x,
                Err(e) => { return Err(e); },
            };
            let ok = match get_opt_bool_field(fields, "ok") {
                Ok(x) => x,
                Err(e) => { return Err(e); },
            };
            let error = match get_opt_text_field(fields, "error") {
                Ok(x) => x,
                Err(e) => { return Err(e); },
            };
            let data = get_opt_any_field(fields, "data");
            let value = get_opt_any_field(fields, "value");
            Ok(crate::types::RpcResponse { ts, etype, data, value, ok, error })
        },
        _ => Err(VmpError::Deserialization(
            "an RPC response must be a string-keyed record".to_owned(),
        )),
    }
}

/// Round-trip law of the RPC response layout.
pub proof fn lemma_rpc_response_round_trip(m: crate::types::RpcResponseModel)
    ensures
        resp_of_val(resp_val(m)) == Some(m),
{
    broadcast use lemma_field_of_push;

    reveal_strlit("ts");
    reveal_strlit("etype");
    reveal_strlit("data");
    reveal_strlit("value");
    reveal_strlit("ok");
    reveal_strlit("error");
    let fields = resp_fields(m);
    assert(field_of(Seq::<(Seq<char>, ValModel)>::empty(), "ts"@) is None);
    assert(field_of(Seq::<(Seq<char>, ValModel)>::empty(), "etype"@) is None);
    assert(field_of(Seq::<(Seq<char>, ValModel)>::empty(), "data"@) is None);
    assert(field_of(Seq::<(Seq<char>, ValModel)>::empty(), "value"@) is None);
    assert(field_of(Seq::<(Seq<char>, ValModel)>::empty(), "ok"@) is None);
    assert(field_of(Seq::<(Seq<char>, ValModel)>::empty(), "error"@) is None);
    assert("ts"@.len() == 2 && "etype"@.len() == 5 && "data"@.len() == 4
        && "value"@.len() == 5 && "ok"@.len() == 2 && "error"@.len() == 5);
    assert("ts"@[0] == 't' && "ok"@[0] == 'o');
    assert("etype"@[0] == 'e' && "value"@[0] == 'v' && "error"@[0] == 'e');
    assert("etype"@[1] == 't' && "error"@[1] == 'r');
    assert(field_of(fields, "ts"@) == Some(ValModel::Int(m.ts)));
    assert(field_of(fields, "etype"@) == Some(ValModel::Text(m.etype)));
    assert(field_of(fields, "data"@) == m.data);
    assert(field_of(fields, "value"@) == m.value);
    assert(field_of(fields, "ok"@) == match m.ok {
        Some(b) => Some(ValModel::Bool(b)),
        None => None::<ValModel>,
    });
    assert(field_of(fields, "error"@) == match m.error {
        Some(e) => Some(ValModel::Text(e)),
        None => None::<ValModel>,
    });
}

} // verus!

verus! {

/// The wire record of a client event: `value` always travels, even when
/// null.
pub open spec fn ce_fields(m: crate::types::ClientEventModel) -> Seq<(Seq<char>, ValModel)> {
    opt_push(
        Seq::empty()
            .push(("ts"@, ValModel::Int(m.ts)))
            .push(("etype"@, ValModel::Text(m.etype))),
        match m.rtype {
            Some(r) => Some(("rtype"@, ValModel::Text(r))),
            None => None,
        }).push(("value"@, m.value))
}

/// The wire value of a client event.
pub open spec fn ce_val(m: crate::types::ClientEventModel) -> ValModel {
    ValModel::Object(ce_fields(m))
}

/// The client event a wire value denotes; an absent payload reads as
/// null.
pub open spec fn ce_of_val(v: ValModel) -> Option<crate::types::ClientEventModel> {
    match v {
        ValModel::Object(fields) => if int_field_ok(fields, "ts"@)
            && text_field_ok(fields, "etype"@)
            && opt_text_field_ok(fields, "rtype"@) {
            Some(crate::types::ClientEventModel {
                ts: int_field(fields, "ts"@, 0),
                etype: text_field(fields, "etype"@),
                rtype: opt_text_field(fields, "rtype"@),
                value: any_field(fields, "value"@),
            })
        } else {
            None
        },
        _ => None,
    }
}

/// Lays a client event out as its wire record.
pub fn client_event_to_value(m: &crate::types::ClientEvent) -> (r: DynValue)
    ensures
        r.deep_view() == ce_val(m.deep_view()),
{
    let mut fields: Vec<(String, DynValue)> = Vec::new();
    proof {
        assert(view_fields(fields@) =~= Seq::<(Seq<char>, ValModel)>::empty());
    }
    push_field(&mut fields, "ts", DynValue::Int(m.ts));
    push_field(&mut fields, "etype", DynValue::Text(m.etype.clone()));
    match &m.rtype {
        Some(r) => push_field(&mut fields, "rtype", DynValue::Text(r.clone())),
        None => {},
    }
    push_field(&mut fields, "value", m.value.clone());
    DynValue::Object(fields)
}

/// Reads a client event back from its wire value.
pub fn value_to_client_event(v: &DynValue) -> (r: Result<crate::types::ClientEvent, VmpError>)
    ensures
        match r {
            Ok(m) => ce_of_val(v.deep_view()) == Some(m.deep_view()),
            Err(e) => ce_of_val(v.deep_view()) is None && e is Deserialization,
        },
{
    match v {
        DynValue::Object(fields) => {
            let ts = match get_int_field(fields, "ts", 0) {
                Ok(x) => x,
                Err(e) => { return Err(e); },
            };
            let etype = match get_text_field(fields, "etype") {
                Ok(x) => x,
                Err(e) => { return Err(e); },
            };
            let rtype = match get_opt_text_field(fields, "rtype") {
                Ok(x) => x,
                Err(e) => { return Err(e); },
            };
            let value = get_any_field(fields, "value");
            Ok(crate::types::ClientEvent { ts, etype, rtype, value })
        },
        _ => Err(VmpError::Deserialization(
            "a client event must be a string-keyed record".to_owned(),
        )),
    }
}

/// Round-trip law of the client event layout.
pub proof fn lemma_client_event_round_trip(m: crate::types::ClientEventModel)
    ensures
        ce_of_val(ce_val(m)) == Some(m),
{
    broadcast use lemma_field_of_push;

    reveal_strlit("ts");
    reveal_strlit("etype");
    reveal_strlit("rtype");
    reveal_strlit("value");
    let fields = ce_fields(m);
    assert(field_of(Seq::<(Seq<char>, ValModel)>::empty(), "ts"@) is None);
    assert(field_of(Seq::<(Seq<char>, ValModel)>::empty(), "etype"@) is None);
    assert(field_of(Seq::<(Seq<char>, ValModel)>::empty(), "rtype"@) is None);
    assert(field_of(Seq::<(Seq<char>, ValModel)>::empty(), "value"@) is None);
    assert("ts"@.len() == 2 && "etype"@.len() == 5 && "rtype"@.len() == 5
        && "value"@.len() == 5);
    assert("etype"@[0] == 'e' && "rtype"@[0] == 'r' && "value"@[0] == 'v');
    assert(field_of(fields, "ts"@) == Some(ValModel::Int(m.ts)));
    assert(field_of(fields, "etype"@) == Some(ValModel::Text(m.etype)));
    assert(field_of(fields, "rtype"@) == match m.rtype {
        Some(r) => Some(ValModel::Text(r)),
        None => None::<ValModel>,
    });
    assert(field_of(fields, "value"@) == Some(m.value));
}

/// The wire record of a server event: `data` always travels, even when
/// null.
pub open spec fn se_fields(m: crate::types::ServerEventModel) -> Seq<(Seq<char>, ValModel)> {
    Seq::empty()
        .push(("ts"@, ValModel::Int(m.ts)))
        .push(("etype"@, ValModel::Text(m.etype)))
        .push(("data"@, m.data))
}

/// The wire value of a server event.
pub open spec fn se_val(m: crate::types::ServerEventModel) -> ValModel {
    ValModel::Object(se_fields(m))
}

/// The server event a wire value denotes; an absent payload reads as
/// null.
pub open spec fn se_of_val(v: ValModel) -> Option<crate::types::ServerEventModel> {
    match v {
        ValModel::Object(fields) => if int_field_ok(fields, "ts"@)
            && text_field_ok(fields, "etype"@) {
            Some(crate::types::ServerEventModel {
                ts: int_field(fields, "ts"@, 0),
                etype: text_field(fields, "etype"@),
                data: any_field(fields, "data"@),
            })
        } else {
            None
        },
        _ => None,
    }
}

/// Lays a server event out as its wire record.
pub fn server_event_to_value(m: &crate::types::ServerEvent) -> (r: DynValue)
    ensures
        r.deep_view() == se_val(m.deep_view()),
{
    let mut fields: Vec<(String, DynValue)> = Vec::new();
    proof {
        assert(view_fields(fields@) =~= Seq::<(Seq<char>, ValModel)>::empty());
    }
    push_field(&mut fields, "ts", DynValue::Int(m.ts));
    push_field(&mut fields, "etype", DynValue::Text(m.etype.clone()));
    push_field(&mut fields, "data", m.data.clone());
    DynValue::Object(fields)
}

/// Reads a server event back from its wire value.
pub fn value_to_server_event(v: &DynValue) -> (r: Result<crate::types::ServerEvent, VmpError>)
    ensures
        match r {
            Ok(m) => se_of_val(v.deep_view()) == Some(m.deep_view()),
            Err(e) => se_of_val(v.deep_view()) is None && e is Deserialization,
        },
{
    match v {
        DynValue::Object(fields) => {
            let ts = match get_int_field(fields, "ts", 0) {
                Ok(x) => x,
                Err(e) => { return Err(e); },
            };
            let etype = match get_text_field(fields, "etype") {
                Ok(x) => x,
                Err(e) => { return Err(e); },
            };
            let data = get_any_field(fields, "data");
            Ok(crate::types::ServerEvent { ts, etype, data })
        },
        _ => Err(VmpError::Deserialization(
            "a server event must be a string-keyed record".to_owned(),
        )),
    }
}

/// Round-trip law of the server event layout.
pub proof fn lemma_server_event_round_trip(m: crate::types::ServerEventModel)
    ensures
        se_of_val(se_val(m)) == Some(m),
{
    broadcast use lemma_field_of_push;

    reveal_strlit("ts");
    reveal_strlit("etype");
    reveal_strlit("data");
    let fields = se_fields(m);
    assert(field_of(Seq::<(Seq<char>, ValModel)>::empty(), "ts"@) is None);
    assert(field_of(Seq::<(Seq<char>, ValModel)>::empty(), "etype"@) is None);
    assert(field_of(Seq::<(Seq<char>, ValModel)>::empty(), "data"@) is None);
    assert("ts"@.len() == 2 && "etype"@.len() == 5 && "data"@.len() == 4);
    assert(field_of(fields, "ts"@) == Some(ValModel::Int(m.ts)));
    assert(field_of(fields, "etype"@) == Some(ValModel::Text(m.etype)));
    assert(field_of(fields, "data"@) == Some(m.data));
}

} // verus!

verus! {

/// The keys the envelope itself uses; every other key is a free-form
/// extra field.
pub open spec fn reserved_key(k: Seq<char>) -> bool {
    k == "ztype"@ || k == "b"@ || k == "dtype"@ || k == "shape"@
}

/// The wire form of a shape: each dimension as an integer.
pub open spec fn shape_vals(shape: Seq<usize>) -> Seq<ValModel>
    decreases shape.len(),
{
    if shape.len() == 0 {
        Seq::empty()
    } else {
        shape_vals(shape.drop_last()).push(ValModel::Int(shape.last() as i64))
    }
}

/// The shape a wire list denotes: every element must be a non-negative
/// integer that fits a machine size.
pub open spec fn vals_shape(items: Seq<ValModel>) -> Option<Seq<usize>>
    decreases items.len(),
{
    if items.len() == 0 {
        Some(Seq::empty())
    } else {
        match vals_shape(items.drop_last()) {
            Some(s) => match items.last() {
                ValModel::Int(i) => if 0 <= i && i as u64 <= usize::MAX as u64 {
                    Some(s.push(i as usize))
                } else {
                    None
                },
                _ => None,
            },
            None => None,
        }
    }
}

/// The extra fields of a record: everything under a non-reserved key,
/// in order.
pub open spec fn strip_reserved(fields: Seq<(Seq<char>, ValModel)>)
    -> Seq<(Seq<char>, ValModel)>
    decreases fields.len(),
{
    if fields.len() == 0 {
        Seq::empty()
    } else {
        let r = strip_reserved(fields.drop_last());
        if reserved_key(fields.last().0) {
            r
        } else {
            r.push(fields.last())
        }
    }
}

/// The wire record of an envelope: the tag, the optional payload and
/// metadata, then the extra fields.
pub open spec fn zdata_fields(z: crate::zdata::ZDataModel) -> Seq<(Seq<char>, ValModel)> {
    opt_push(opt_push(opt_push(
        Seq::empty().push(("ztype"@, ValModel::Text(z.ztype))),
        match z.b {
            Some(bb) => Some(("b"@, ValModel::Bin(bb))),
            None => None,
        }),
        match z.dtype {
            Some(d) => Some(("dtype"@, ValModel::Text(d))),
            None => None,
        }),
        match z.shape {
            Some(s) => Some(("shape"@, ValModel::List(shape_vals(s)))),
            None => None,
        }) + z.extra
}

/// The wire value of an envelope.
pub open spec fn zdata_val(z: crate::zdata::ZDataModel) -> ValModel {
    ValModel::Object(zdata_fields(z))
}

/// The envelope a wire value denotes: the record must carry a text
/// `ztype`; payload and metadata must be of their kinds when present;
/// everything else becomes an extra field.
pub open spec fn zdata_of_val(v: ValModel) -> Option<crate::zdata::ZDataModel> {
    match v {
        ValModel::Object(fields) => match field_of(fields, "ztype"@) {
            Some(ValModel::Text(tag)) => {
                let b_ok = match field_of(fields, "b"@) {
                    None => true,
                    Some(w) => w is Bin,
                };
                let dtype_ok = match field_of(fields, "dtype"@) {
                    None => true,
                    Some(w) => w is Text,
                };
                let shape_ok = match field_of(fields, "shape"@) {
                    None => true,
                    Some(w) => w matches ValModel::List(items) && vals_shape(items) is Some,
                };
                if b_ok && dtype_ok && shape_ok {
                    Some(crate::zdata::ZDataModel {
                        ztype: tag,
                        b: match field_of(fields, "b"@) {
                            Some(ValModel::Bin(bb)) => Some(bb),
                            _ => None,
                        },
                        dtype: match field_of(fields, "dtype"@) {
                            Some(ValModel::Text(d)) => Some(d),
                            _ => None,
                        },
                        shape: match field_of(fields, "shape"@) {
                            Some(ValModel::List(items)) => vals_shape(items),
                            _ => None,
                        },
                        extra: strip_reserved(fields),
                    })
                } else {
                    None
                }
            },
            _ => None,
        },
        _ => None,
    }
}

/// An envelope round-trips when its extra fields avoid the reserved keys
/// and its shape dimensions fit the signed wire integer.
pub open spec fn zdata_wf(z: crate::zdata::ZDataModel) -> bool {
    &&& forall|i: int| 0 <= i < z.extra.len()
        ==> !reserved_key((#[trigger] z.extra[i]).0)
    &&& match z.shape {
        Some(s) => forall|i: int| 0 <= i < s.len() ==> (#[trigger] s[i]) as u64 <= i64::MAX as u64,
        None => true,
    }
}

/// `shape_vals` maps the shape element by element.
pub proof fn lemma_shape_vals(shape: Seq<usize>)
    ensures
        shape_vals(shape).len() == shape.len(),
        forall|i: int| 0 <= i < shape.len()
            ==> shape_vals(shape)[i] == ValModel::Int(shape[i] as i64),
    decreases shape.len(),
{
    if shape.len() > 0 {
        lemma_shape_vals(shape.drop_last());
    }
}

/// Lays an envelope out as its wire record.
pub fn zdata_to_value(z: &crate::zdata::ZData) -> (r: DynValue)
    ensures
        r.deep_view() == zdata_val(z.deep_view()),
{
    let mut fields: Vec<(String, DynValue)> = Vec::new();
    proof {
        assert(view_fields(fields@) =~= Seq::<(Seq<char>, ValModel)>::empty());
    }
    push_field(&mut fields, "ztype", DynValue::Text(z.ztype.clone()));
    match &z.b {
        Some(bb) => {
            let mut out: Vec<u8> = Vec::new();
            out.extend_from_slice(bb.as_slice());
            proof {
                assert forall|j: int| 0 <= j < bb@.len() implies out@[j] == bb@[j] by {
                    assert(cloned::<u8>(bb@[j], out@[j]));
                }
                assert(out@ =~= bb@);
            }
            push_field(&mut fields, "b", DynValue::Bin(out));
        },
        None => {},
    }
    match &z.dtype {
        Some(d) => push_field(&mut fields, "dtype", DynValue::Text(d.clone())),
        None => {},
    }
    match &z.shape {
        Some(s) => {
            let mut dims: Vec<DynValue> = Vec::new();
            let mut i: usize = 0;
            while i < s.len()
                invariant
                    i <= s@.len(),
                    dims@.len() == i as int,
                    forall|j: int| 0 <= j < i as int
                        ==> #[trigger] view_value(dims@[j]) == ValModel::Int(s@[j] as i64),
                decreases s@.len() - i,
            {
                dims.push(DynValue::Int(#[verifier::truncate] (s[i] as i64)));
                i = i + 1;
            }
            proof {
                lemma_view_items(dims@);
                lemma_shape_vals(s@);
                assert(view_items(dims@) =~= shape_vals(s@));
            }
            push_field(&mut fields, "shape", DynValue::List(dims));
        },
        None => {},
    }
    let ghost head = view_fields(fields@);
    proof {
        lemma_view_fields(z.extra@);
        assert(head + view_fields(z.extra@).subrange(0, 0) =~= head);
    }
    let mut i: usize = 0;
    while i < z.extra.len()
        invariant
            i <= z.extra@.len(),
            view_fields(fields@) == head + view_fields(z.extra@).subrange(0, i as int),
            view_fields(z.extra@).len() == z.extra@.len(),
            forall|j: int| 0 <= j < z.extra@.len()
                ==> #[trigger] view_fields(z.extra@)[j]
                    == (z.extra@[j].0@, view_value(z.extra@[j].1)),
        decreases z.extra@.len() - i,
    {
        let ghost before = view_fields(fields@);
        let (k, v) = &z.extra[i];
        push_field(&mut fields, k.as_str(), v.clone());
        proof {
            assert(view_fields(z.extra@).subrange(0, i as int + 1)
                =~= view_fields(z.extra@).subrange(0, i as int)
                    .push((z.extra@[i as int].0@, view_value(z.extra@[i as int].1))));
            assert(view_fields(fields@)
                =~= head + view_fields(z.extra@).subrange(0, i as int + 1));
        }
        i = i + 1;
    }
    proof {
        assert(view_fields(z.extra@).subrange(0, z.extra@.len() as int)
            =~= view_fields(z.extra@));
    }
    DynValue::Object(fields)
}

} // verus!

verus! {

/// Whether the key is one the envelope layout reserves.
fn is_reserved(k: &str) -> (r: bool)
    ensures
        r == reserved_key(k@),
{
    crate::value::str_eq(k, "ztype") || crate::value::str_eq(k, "b")
        || crate::value::str_eq(k, "dtype") || crate::value::str_eq(k, "shape")
}

/// Reads an optional byte-string field.
pub fn get_opt_bin_field(fields: &Vec<(String, DynValue)>, key: &str)
    -> (r: Result<Option<Vec<u8>>, VmpError>)
    ensures
        match r {
            Ok(o) => (match field_of(view_fields(fields@), key@) {
                None => o is None,
                Some(w) => w is Bin && (o matches Some(bb) && w == ValModel::Bin(bb@)),
            }),
            Err(e) => (match field_of(view_fields(fields@), key@) {
                None => false,
                Some(w) => !(w is Bin),
            }) && e is Deserialization,
        },
{
    match find_field(fields, key) {
        None => Ok(None),
        Some(v) => match v {
            DynValue::Bin(bb) => {
                let mut out: Vec<u8> = Vec::new();
                out.extend_from_slice(bb.as_slice());
                proof {
                    assert forall|j: int| 0 <= j < bb@.len() implies out@[j] == bb@[j] by {
                        assert(cloned::<u8>(bb@[j], out@[j]));
                    }
                    assert(out@ =~= bb@);
                }
                Ok(Some(out))
            },
            _ => Err(kind_err(key)),
        },
    }
}

/// Reads a shape list: every element must be a non-negative integer
/// that fits a machine size.
fn parse_shape(items: &Vec<DynValue>) -> (r: Result<Vec<usize>, VmpError>)
    ensures
        match r {
            Ok(s) => vals_shape(view_items(items@)) == Some(s@),
            Err(e) => vals_shape(view_items(items@)) is None && e is Deserialization,
        },
{
    let ghost m = view_items(items@);
    proof {
        lemma_view_items(items@);
        assert(m.subrange(0, 0) =~= Seq::<ValModel>::empty());
    }
    let mut out: Vec<usize> = Vec::new();
    let mut i: usize = 0;
    while i < items.len()
        invariant
            i <= items@.len(),
            m == view_items(items@),
            m.len() == items@.len(),
            forall|j: int| 0 <= j < items@.len() ==> m[j] == view_value(#[trigger] items@[j]),
            vals_shape(m.subrange(0, i as int)) == Some(out@),
        decreases items@.len() - i,
    {
        let dim: usize = match &items[i] {
            DynValue::Int(d) => {
                if *d >= 0 && (*d as u64) <= (usize::MAX as u64) {
                    #[verifier::truncate] (*d as usize)
                } else {
                    proof {
                        assert(m.subrange(0, i as int + 1).drop_last()
                            =~= m.subrange(0, i as int));
                        lemma_vals_shape_bad(m, i as int);
                    }
                    return Err(VmpError::Deserialization(
                        "shape dimension is out of range".to_owned(),
                    ));
                }
            },
            _ => {
                proof {
                    lemma_vals_shape_bad(m, i as int);
                }
                return Err(VmpError::Deserialization(
                    "shape dimension must be an integer".to_owned(),
                ));
            },
        };
        out.push(dim);
        proof {
            assert(m.subrange(0, i as int + 1).drop_last() =~= m.subrange(0, i as int));
            assert(m.subrange(0, i as int + 1).last() == m[i as int]);
        }
        i = i + 1;
    }
    proof {
        assert(m.subrange(0, m.len() as int) =~= m);
    }
    Ok(out)
}

/// A shape list with a bad element at `i` denotes no shape, whatever
/// comes after.
proof fn lemma_vals_shape_bad(m: Seq<ValModel>, i: int)
    requires
        0 <= i < m.len(),
        match m[i] {
            ValModel::Int(d) => !(0 <= d && d as u64 <= usize::MAX as u64),
            _ => true,
        },
    ensures
        vals_shape(m) is None,
    decreases m.len(),
{
    if m.len() > 0 {
        if i == m.len() - 1 {
            assert(m.last() == m[i]);
        } else {
            lemma_vals_shape_bad(m.drop_last(), i);
        }
    }
}

/// Reading back the wire form of a shape yields the shape, provided
/// each dimension fits the signed wire integer.
proof fn lemma_vals_shape_roundtrip(s: Seq<usize>)
    requires
        forall|i: int| 0 <= i < s.len() ==> (#[trigger] s[i]) as u64 <= i64::MAX as u64,
    ensures
        vals_shape(shape_vals(s)) == Some(s),
    decreases s.len(),
{
    if s.len() > 0 {
        assert(forall|i: int| 0 <= i < s.drop_last().len()
            ==> #[trigger] s.drop_last()[i] == s[i]);
        lemma_vals_shape_roundtrip(s.drop_last());
        lemma_shape_vals(s);
        lemma_shape_vals(s.drop_last());
        assert(shape_vals(s).drop_last() =~= shape_vals(s.drop_last()));
        assert(shape_vals(s).last() == ValModel::Int(s.last() as i64));
        assert(s.drop_last().push(s.last()) =~= s);
    }
}

/// Looking a key up in a concatenation: the left side wins when it
/// carries the key.
pub proof fn lemma_field_of_concat(
    s: Seq<(Seq<char>, ValModel)>,
    t: Seq<(Seq<char>, ValModel)>,
    k: Seq<char>,
)
    ensures
        field_of(s + t, k) == if field_of(s, k) is Some {
            field_of(s, k)
        } else {
            field_of(t, k)
        },
    decreases t.len(),
{
    if t.len() == 0 {
        assert(s + t =~= s);
    } else {
        assert(s + t =~= (s + t.drop_last()).push(t.last()));
        lemma_field_of_push(s + t.drop_last(), t.last(), k);
        lemma_field_of_concat(s, t.drop_last(), k);
        assert(t =~= t.drop_last().push(t.last()));
        lemma_field_of_push(t.drop_last(), t.last(), k);
    }
}

/// Stripping reserved keys distributes over concatenation.
proof fn lemma_strip_concat(s: Seq<(Seq<char>, ValModel)>, t: Seq<(Seq<char>, ValModel)>)
    ensures
        strip_reserved(s + t) == strip_reserved(s) + strip_reserved(t),
    decreases t.len(),
{
    if t.len() == 0 {
        assert(s + t =~= s);
        assert(strip_reserved(s) + strip_reserved(t) =~= strip_reserved(s));
    } else {
        assert(s + t =~= (s + t.drop_last()).push(t.last()));
        assert((s + t).drop_last() =~= s + t.drop_last());
        assert((s + t).last() == t.last());
        lemma_strip_concat(s, t.drop_last());
        assert(t.drop_last() =~= t.drop_last());
        if reserved_key(t.last().0) {
            assert(strip_reserved(t) == strip_reserved(t.drop_last()));
        } else {
            assert(strip_reserved(t) == strip_reserved(t.drop_last()).push(t.last()));
            assert(strip_reserved(s) + strip_reserved(t)
                =~= (strip_reserved(s) + strip_reserved(t.drop_last())).push(t.last()));
        }
    }
}

/// A record whose keys are all free of reservation strips to itself.
proof fn lemma_strip_none_reserved(s: Seq<(Seq<char>, ValModel)>)
    requires
        forall|i: int| 0 <= i < s.len() ==> !reserved_key((#[trigger] s[i]).0),
    ensures
        strip_reserved(s) == s,
    decreases s.len(),
{
    if s.len() > 0 {
        assert(forall|i: int| 0 <= i < s.drop_last().len()
            ==> #[trigger] s.drop_last()[i] == s[i]);
        lemma_strip_none_reserved(s.drop_last());
        assert(!reserved_key(s.last().0));
        assert(s.drop_last().push(s.last()) =~= s);
    }
}

} // verus!

verus! {

/// Reads an envelope back from its wire value.
pub fn value_to_zdata(v: &DynValue) -> (r: Result<crate::zdata::ZData, VmpError>)
    ensures
        match r {
            Ok(z) => zdata_of_val(v.deep_view()) == Some(z.deep_view()),
            Err(e) => zdata_of_val(v.deep_view()) is None && e is Deserialization,
        },
{
    match v {
        DynValue::Object(fields) => {
            let ztype = match find_field(fields, "ztype") {
                Some(w) => match w {
                    DynValue::Text(s) => s.clone(),
                    _ => { return Err(kind_err("ztype")); },
                },
                None => {
                    return Err(VmpError::Deserialization(
                        "an envelope must carry a ztype field".to_owned(),
                    ));
                },
            };
            let b = match get_opt_bin_field(fields, "b") {
                Ok(x) => x,
                Err(e) => { return Err(e); },
            };
            let dtype = match get_opt_text_field(fields, "dtype") {
                Ok(x) => x,
                Err(e) => { return Err(e); },
            };
            let shape = match find_field(fields, "shape") {
                None => None,
                Some(w) => match w {
                    DynValue::List(items) => match parse_shape(items) {
                        Ok(s) => Some(s),
                        Err(e) => { return Err(e); },
                    },
                    _ => { return Err(kind_err("shape")); },
                },
            };
            let ghost m = view_fields(fields@);
            proof {
                lemma_view_fields(fields@);
                assert(strip_reserved(m.subrange(0, 0)) =~= Seq::<(Seq<char>, ValModel)>::empty());
            }
            let mut extra: Vec<(String, DynValue)> = Vec::new();
            let mut i: usize = 0;
            while i < fields.len()
                invariant
                    i <= fields@.len(),
                    m == view_fields(fields@),
                    m.len() == fields@.len(),
                    forall|j: int| 0 <= j < fields@.len()
                        ==> m[j] == (#[trigger] fields@[j].0@, view_value(fields@[j].1)),
                    view_fields(extra@) == strip_reserved(m.subrange(0, i as int)),
                decreases fields@.len() - i,
            {
                let (k, w) = &fields[i];
                let ghost before = view_fields(extra@);
                let ghost prevv = extra@;
                if !is_reserved(k.as_str()) {
                    extra.push((k.clone(), w.clone()));
                    proof {
                        assert(extra@.drop_last() =~= prevv);
                        assert(view_fields(extra@)
                            =~= before.push((k@, view_value(*w))));
                    }
                }
                proof {
                    assert(m.subrange(0, i as int + 1).drop_last() =~= m.subrange(0, i as int));
                    assert(m.subrange(0, i as int + 1).last() == m[i as int]);
                }
                i = i + 1;
            }
            proof {
                assert(m.subrange(0, m.len() as int) =~= m);
            }
            Ok(crate::zdata::ZData { ztype, b, dtype, shape, extra })
        },
        _ => Err(VmpError::Deserialization(
            "an envelope must be a string-keyed record".to_owned(),
        )),
    }
}

/// Round-trip law of the envelope layout: reading an envelope's wire
/// value back yields the envelope, provided its extra fields avoid the
/// reserved keys and its shape dimensions fit the signed wire integer.
pub proof fn lemma_zdata_round_trip(z: crate::zdata::ZDataModel)
    requires
        zdata_wf(z),
    ensures
        zdata_of_val(zdata_val(z)) == Some(z),
{
    broadcast use lemma_field_of_push;

    reveal_strlit("ztype");
    reveal_strlit("b");
    reveal_strlit("dtype");
    reveal_strlit("shape");
    let head = opt_push(opt_push(opt_push(
        Seq::<(Seq<char>, ValModel)>::empty().push(("ztype"@, ValModel::Text(z.ztype))),
        match z.b {
            Some(bb) => Some(("b"@, ValModel::Bin(bb))),
            None => None,
        }),
        match z.dtype {
            Some(d) => Some(("dtype"@, ValModel::Text(d))),
            None => None,
        }),
        match z.shape {
            Some(s) => Some(("shape"@, ValModel::List(shape_vals(s)))),
            None => None,
        });
    let fields = zdata_fields(z);
    assert(fields == head + z.extra);
    assert("ztype"@.len() == 5 && "b"@.len() == 1 && "dtype"@.len() == 5
        && "shape"@.len() == 5);
    assert("ztype"@[0] == 'z' && "dtype"@[0] == 'd' && "shape"@[0] == 's');
    assert(field_of(Seq::<(Seq<char>, ValModel)>::empty(), "ztype"@) is None);
    assert(field_of(Seq::<(Seq<char>, ValModel)>::empty(), "b"@) is None);
    assert(field_of(Seq::<(Seq<char>, ValModel)>::empty(), "dtype"@) is None);
    assert(field_of(Seq::<(Seq<char>, ValModel)>::empty(), "shape"@) is None);
    assert(reserved_key("ztype"@) && reserved_key("b"@) && reserved_key("dtype"@)
        && reserved_key("shape"@));
    assert(forall|i: int| 0 <= i < z.extra.len()
        ==> ((#[trigger] z.extra[i]).0 != "ztype"@ && z.extra[i].0 != "b"@
            && z.extra[i].0 != "dtype"@ && z.extra[i].0 != "shape"@));
    lemma_field_of_absent(z.extra, "ztype"@);
    lemma_field_of_absent(z.extra, "b"@);
    lemma_field_of_absent(z.extra, "dtype"@);
    lemma_field_of_absent(z.extra, "shape"@);
    lemma_field_of_concat(head, z.extra, "ztype"@);
    lemma_field_of_concat(head, z.extra, "b"@);
    lemma_field_of_concat(head, z.extra, "dtype"@);
    lemma_field_of_concat(head, z.extra, "shape"@);
    assert(field_of(fields, "ztype"@) == Some(ValModel::Text(z.ztype)));
    assert(field_of(fields, "b"@) == match z.b {
        Some(bb) => Some(ValModel::Bin(bb)),
        None => None::<ValModel>,
    });
    assert(field_of(fields, "dtype"@) == match z.dtype {
        Some(d) => Some(ValModel::Text(d)),
        None => None::<ValModel>,
    });
    assert(field_of(fields, "shape"@) == match z.shape {
        Some(s) => Some(ValModel::List(shape_vals(s))),
        None => None::<ValModel>,
    });
    match z.shape {
        Some(s) => {
            lemma_vals_shape_roundtrip(s);
        },
        None => {},
    }
    lemma_strip_concat(head, z.extra);
    lemma_strip_none_reserved(z.extra);
    assert(strip_reserved(head) =~= Seq::<(Seq<char>, ValModel)>::empty()) by {
        let empty = Seq::<(Seq<char>, ValModel)>::empty();
        assert(strip_reserved(empty) == empty);
        let base = empty.push(("ztype"@, ValModel::Text(z.ztype)));
        assert(base.drop_last() =~= empty);
        assert(base.last().0 == "ztype"@);
        assert(strip_reserved(base) == empty);
        let b2 = opt_push(base, match z.b {
            Some(bb) => Some(("b"@, ValModel::Bin(bb))),
            None => None,
        });
        match z.b {
            Some(bb) => {
                assert(b2 == base.push(("b"@, ValModel::Bin(bb))));
                assert(b2.drop_last() =~= base);
                assert(b2.last().0 == "b"@);
                assert(strip_reserved(b2) == empty);
            },
            None => {
                assert(b2 == base);
            },
        }
        assert(strip_reserved(b2) == empty);
        let b3 = opt_push(b2, match z.dtype {
            Some(d) => Some(("dtype"@, ValModel::Text(d))),
            None => None,
        });
        match z.dtype {
            Some(d) => {
                assert(b3 == b2.push(("dtype"@, ValModel::Text(d))));
                assert(b3.drop_last() =~= b2);
                assert(b3.last().0 == "dtype"@);
                assert(strip_reserved(b3) == empty);
            },
            None => {
                assert(b3 == b2);
            },
        }
        assert(strip_reserved(b3) == empty);
        match z.shape {
            Some(sh) => {
                assert(head == b3.push(("shape"@, ValModel::List(shape_vals(sh)))));
                assert(head.drop_last() =~= b3);
                assert(head.last().0 == "shape"@);
                assert(strip_reserved(head) == empty);
            },
            None => {
                assert(head == b3);
            },
        }
    }
    assert(strip_reserved(fields) =~= z.extra);
}

} // verus!

verus! {

/// The keys the component layout itself uses.
pub open spec fn comp_reserved(k: Seq<char>) -> bool {
    k == "tag"@ || k == "children"@
}

/// The properties of a record: everything but the component's own keys.
pub open spec fn strip_comp(fields: Seq<(Seq<char>, ValModel)>)
    -> Seq<(Seq<char>, ValModel)>
    decreases fields.len(),
{
    if fields.len() == 0 {
        Seq::empty()
    } else {
        let r = strip_comp(fields.drop_last());
        if comp_reserved(fields.last().0) {
            r
        } else {
            r.push(fields.last())
        }
    }
}

/// The wire record of a component: the tag, the children when present,
/// then the properties at top level.
pub open spec fn comp_fields(c: crate::types::CompModel) -> Seq<(Seq<char>, ValModel)>
    decreases c, 0int,
    via comp_fields_decreases
{
    match c {
        crate::types::CompModel::Node { tag, children, props } => opt_push(
            Seq::empty().push(("tag"@, ValModel::Text(tag))),
            match children {
                Some(ch) => Some(("children"@, ValModel::List(comp_vals(ch)))),
                None => None,
            }) + props,
    }
}

/// The wire value of a component.
pub open spec fn comp_val(c: crate::types::CompModel) -> ValModel
    decreases c, 1int,
{
    ValModel::Object(comp_fields(c))
}

/// The wire values of a sequence of components.
pub open spec fn comp_vals(cs: Seq<crate::types::CompModel>) -> Seq<ValModel>
    decreases cs, 1int,
    via comp_vals_decreases
{
    if cs.len() == 0 {
        Seq::empty()
    } else {
        comp_vals(cs.drop_last()).push(comp_val(cs.last()))
    }
}

#[via_fn]
proof fn comp_fields_decreases(c: crate::types::CompModel) {
    match c {
        crate::types::CompModel::Node { tag, children, props } => {
            match children {
                Some(ch) => {
                    assert(decreases_to!(c => c->Node_children));
                    assert(decreases_to!(c->Node_children => c->Node_children->0));
                },
                None => {},
            }
        },
    }
}

#[via_fn]
proof fn comp_vals_decreases(cs: Seq<crate::types::CompModel>) {
    if cs.len() > 0 {
        assert(cs.drop_last() == cs.subrange(0, cs.len() - 1));
        assert(decreases_to!(cs => cs.subrange(0, cs.len() - 1)));
        assert(decreases_to!(cs => cs[cs.len() - 1]));
    }
}

/// `comp_vals` maps the sequence element by element.
pub proof fn lemma_comp_vals(cs: Seq<crate::types::CompModel>)
    ensures
        comp_vals(cs).len() == cs.len(),
        forall|i: int| 0 <= i < cs.len() ==> comp_vals(cs)[i] == comp_val(cs[i]),
    decreases cs.len(),
{
    if cs.len() > 0 {
        lemma_comp_vals(cs.drop_last());
    }
}

/// The component a wire value denotes.
pub open spec fn comp_of_val(v: ValModel) -> Option<crate::types::CompModel>
    decreases v, 0int,
    via comp_of_val_decreases
{
    match v {
        ValModel::Object(fields) => if !text_field_ok(fields, "tag"@) {
            None
        } else {
            match field_of(fields, "children"@) {
                None => Some(crate::types::CompModel::Node {
                    tag: text_field(fields, "tag"@),
                    children: None,
                    props: strip_comp(fields),
                }),
                Some(ValModel::List(items)) => match comps_of_vals(items) {
                    Some(ch) => Some(crate::types::CompModel::Node {
                        tag: text_field(fields, "tag"@),
                        children: Some(ch),
                        props: strip_comp(fields),
                    }),
                    None => None,
                },
                Some(_) => None,
            }
        },
        _ => None,
    }
}

/// The components a wire list denotes, or nothing when an element is
/// not a component.
pub open spec fn comps_of_vals(items: Seq<ValModel>)
    -> Option<Seq<crate::types::CompModel>>
    decreases items, 1int,
    via comps_of_vals_decreases
{
    if items.len() == 0 {
        Some(Seq::empty())
    } else {
        match comps_of_vals(items.drop_last()) {
            Some(cs) => match comp_of_val(items.last()) {
                Some(c) => Some(cs.push(c)),
                None => None,
            },
            None => None,
        }
    }
}

#[via_fn]
proof fn comp_of_val_decreases(v: ValModel) {
    match v {
        ValModel::Object(fields) => {
            assert(decreases_to!(v => v->Object_0));
            match field_of(fields, "children"@) {
                Some(w) => {
                    lemma_key_index(fields, "children"@);
                    if key_index(fields, "children"@) >= 0 {
                        let idx = key_index(fields, "children"@);
                        assert(decreases_to!(fields => fields[idx]));
                        assert(decreases_to!(fields[idx] => fields[idx].1));
                        assert(fields[idx].1 == w);
                        match w {
                            ValModel::List(items) => {
                                assert(decreases_to!(fields[idx].1
                                    => fields[idx].1->List_0));
                            },
                            _ => {},
                        }
                    }
                },
                None => {},
            }
        },
        _ => {},
    }
}

#[via_fn]
proof fn comps_of_vals_decreases(items: Seq<ValModel>) {
    if items.len() > 0 {
        assert(items.drop_last() == items.subrange(0, items.len() - 1));
        assert(decreases_to!(items => items.subrange(0, items.len() - 1)));
        assert(decreases_to!(items => items[items.len() - 1]));
    }
}

} // verus!

verus! {

/// Position of the first pair with this key.
pub fn find_index(fields: &Vec<(String, DynValue)>, key: &str) -> (r: Option<usize>)
    ensures
        match r {
            Some(i) => i as int == key_index(view_fields(fields@), key@)
                && (i as int) < view_fields(fields@).len()
                && view_fields(fields@).len() == fields@.len(),
            None => key_index(view_fields(fields@), key@) < 0,
        },
{
    let ghost m = view_fields(fields@);
    proof {
        lemma_view_fields(fields@);
    }
    let mut i: usize = 0;
    while i < fields.len()
        invariant
            i <= fields@.len(),
            m == view_fields(fields@),
            m.len() == fields@.len(),
            forall|j: int| 0 <= j < fields@.len()
                ==> m[j] == (#[trigger] fields@[j].0@, view_value(fields@[j].1)),
            forall|j: int| 0 <= j < i as int ==> (#[trigger] m[j]).0 != key@,
        decreases fields@.len() - i,
    {
        if crate::value::str_eq(fields[i].0.as_str(), key) {
            proof {
                assert(key_index(m, key@) == i as int) by {
                    lemma_key_index(m, key@);
                    if key_index(m, key@) < 0 {
                        assert(m[i as int].0 != key@);
                        assert(false);
                    } else if key_index(m, key@) < i as int {
                        assert(m[key_index(m, key@)].0 == key@);
                        assert(m[key_index(m, key@)].0 != key@);
                        assert(false);
                    } else if key_index(m, key@) > i as int {
                        assert(m[i as int].0 != key@);
                        assert(m[i as int].0 == key@);
                        assert(false);
                    }
                }
            }
            return Some(i);
        }
        i = i + 1;
    }
    proof {
        lemma_key_index(m, key@);
        if key_index(m, key@) >= 0 {
            assert(m[key_index(m, key@)].0 == key@);
        }
    }
    None
}

/// Whether the key is one the component layout reserves.
fn is_comp_reserved(k: &str) -> (r: bool)
    ensures
        r == comp_reserved(k@),
{
    crate::value::str_eq(k, "tag") || crate::value::str_eq(k, "children")
}

/// Lays a component out as its wire record: the tag, the children when
/// present, then the properties at top level.
pub fn component_to_value(c: &crate::types::VuerComponent) -> (r: DynValue)
    ensures
        r.deep_view() == comp_val(c.deep_view()),
    decreases *c,
{
    let mut fields: Vec<(String, DynValue)> = Vec::new();
    proof {
        assert(view_fields(fields@) =~= Seq::<(Seq<char>, ValModel)>::empty());
    }
    push_field(&mut fields, "tag", DynValue::Text(c.tag.clone()));
    match &c.children {
        Some(ch) => {
            let ghost chm = crate::types::view_comps(ch@);
            proof {
                crate::types::lemma_view_comps(ch@);
            }
            let mut items: Vec<DynValue> = Vec::new();
            let mut i: usize = 0;
            while i < ch.len()
                invariant
                    i <= ch@.len(),
                    items@.len() == i as int,
                    *c == (crate::types::VuerComponent {
                        children: Some(*ch), ..*c
                    }),
                    chm == crate::types::view_comps(ch@),
                    chm.len() == ch@.len(),
                    forall|j: int| 0 <= j < ch@.len()
                        ==> chm[j] == crate::types::view_comp(#[trigger] ch@[j]),
                    forall|j: int| 0 <= j < i as int
                        ==> view_value(#[trigger] items@[j]) == comp_val(chm[j]),
                decreases ch@.len() - i,
            {
                let child = &ch[i];
                proof {
                    assert(decreases_to!(*c => c.children));
                    assert(decreases_to!(c.children => c.children->0));
                    assert(decreases_to!(c.children->0 => (c.children->0)@));
                    assert(decreases_to!((c.children->0)@ => (c.children->0)@[i as int]));
                    assert(decreases_to!(*c => *child));
                }
                items.push(component_to_value(child));
                i = i + 1;
            }
            proof {
                lemma_view_items(items@);
                lemma_comp_vals(chm);
                assert(view_items(items@) =~= comp_vals(chm));
            }
            push_field(&mut fields, "children", DynValue::List(items));
        },
        None => {},
    }
    let ghost head = view_fields(fields@);
    proof {
        lemma_view_fields(c.props@);
        assert(head + view_fields(c.props@).subrange(0, 0) =~= head);
    }
    let mut i: usize = 0;
    while i < c.props.len()
        invariant
            i <= c.props@.len(),
            view_fields(fields@) == head + view_fields(c.props@).subrange(0, i as int),
            view_fields(c.props@).len() == c.props@.len(),
            forall|j: int| 0 <= j < c.props@.len()
                ==> #[trigger] view_fields(c.props@)[j]
                    == (c.props@[j].0@, view_value(c.props@[j].1)),
        decreases c.props@.len() - i,
    {
        let (k, v) = &c.props[i];
        push_field(&mut fields, k.as_str(), v.clone());
        proof {
            assert(view_fields(c.props@).subrange(0, i as int + 1)
                =~= view_fields(c.props@).subrange(0, i as int)
                    .push((c.props@[i as int].0@, view_value(c.props@[i as int].1))));
            assert(view_fields(fields@)
                =~= head + view_fields(c.props@).subrange(0, i as int + 1));
        }
        i = i + 1;
    }
    proof {
        assert(view_fields(c.props@).subrange(0, c.props@.len() as int)
            =~= view_fields(c.props@));
    }
    DynValue::Object(fields)
}

/// Reads a component back from its wire value.
pub fn value_to_component(v: &DynValue) -> (r: Result<crate::types::VuerComponent, VmpError>)
    ensures
        match r {
            Ok(c) => comp_of_val(v.deep_view()) == Some(c.deep_view()),
            Err(e) => comp_of_val(v.deep_view()) is None && e is Deserialization,
        },
    decreases *v,
{
    match v {
        DynValue::Object(fields) => {
            let ghost m = view_fields(fields@);
            proof {
                lemma_view_fields(fields@);
            }
            let tag = match get_text_field(fields, "tag") {
                Ok(x) => x,
                Err(e) => { return Err(e); },
            };
            let children: Option<Vec<crate::types::VuerComponent>> =
                match find_index(fields, "children") {
                Some(ci) => {
                    proof {
                        lemma_key_index(m, "children"@);
                        assert(m[ci as int].1 == view_value(fields@[ci as int].1));
                        assert(field_of(m, "children"@) == Some(m[ci as int].1));
                    }
                    let entry = &fields[ci].1;
                    match entry {
                        DynValue::List(items) => {
                            let ghost im = view_items(items@);
                            proof {
                                lemma_view_items(items@);
                                assert(im.subrange(0, 0) =~= Seq::<ValModel>::empty());
                            }
                            let mut out: Vec<crate::types::VuerComponent> = Vec::new();
                            let mut i: usize = 0;
                            while i < items.len()
                                invariant
                                    i <= items@.len(),
                                    out@.len() == i as int,
                                    *v == DynValue::Object(*fields),
                                    (ci as int) < fields@.len(),
                                    fields@[ci as int].1 == DynValue::List(*items),
                                    m == view_fields(fields@),
                                    m.len() == fields@.len(),
                                    field_of(m, "children"@) == Some(ValModel::List(im)),
                                    im == view_items(items@),
                                    im.len() == items@.len(),
                                    forall|j: int| 0 <= j < items@.len()
                                        ==> im[j] == view_value(#[trigger] items@[j]),
                                    comps_of_vals(im.subrange(0, i as int))
                                        == Some(crate::types::view_comps(out@)),
                                decreases items@.len() - i,
                            {
                                let item = &items[i];
                                proof {
                                    assert(decreases_to!(*v => v->Object_0));
                                    assert(decreases_to!(v->Object_0 => (v->Object_0)@));
                                    assert(decreases_to!((v->Object_0)@
                                        => (v->Object_0)@[ci as int]));
                                    assert(decreases_to!((v->Object_0)@[ci as int]
                                        => (v->Object_0)@[ci as int].1));
                                    assert(decreases_to!((v->Object_0)@[ci as int].1
                                        => ((v->Object_0)@[ci as int].1)->List_0));
                                    assert(decreases_to!(((v->Object_0)@[ci as int].1)->List_0
                                        => (((v->Object_0)@[ci as int].1)->List_0)@));
                                    assert(decreases_to!((((v->Object_0)@[ci as int].1)->List_0)@
                                        => (((v->Object_0)@[ci as int].1)->List_0)@[i as int]));
                                    assert(decreases_to!(*v => *item));
                                }
                                let child = match value_to_component(item) {
                                    Ok(x) => x,
                                    Err(e) => {
                                        proof {
                                            lemma_comps_of_vals_bad(im, i as int);
                                        }
                                        return Err(e);
                                    },
                                };
                                let ghost outm = crate::types::view_comps(out@);
                                let ghost prevout = out@;
                                out.push(child);
                                proof {
                                    assert(im.subrange(0, i as int + 1).drop_last()
                                        =~= im.subrange(0, i as int));
                                    assert(im.subrange(0, i as int + 1).last() == im[i as int]);
                                    assert(out@.drop_last() =~= prevout);
                                    assert(crate::types::view_comps(out@)
                                        =~= outm.push(child.deep_view()));
                                }
                                i = i + 1;
                            }
                            proof {
                                assert(im.subrange(0, im.len() as int) =~= im);
                            }
                            Some(out)
                        },
                        _ => { return Err(kind_err("children")); },
                    }
                },
                None => {
                    proof {
                        lemma_key_index(m, "children"@);
                        assert(field_of(m, "children"@) is None);
                    }
                    None
                },
            };
            proof {
                assert(strip_comp(m.subrange(0, 0)) =~= Seq::<(Seq<char>, ValModel)>::empty());
            }
            let mut props: Vec<(String, DynValue)> = Vec::new();
            let mut i: usize = 0;
            while i < fields.len()
                invariant
                    i <= fields@.len(),
                    m == view_fields(fields@),
                    m.len() == fields@.len(),
                    forall|j: int| 0 <= j < fields@.len()
                        ==> m[j] == (#[trigger] fields@[j].0@, view_value(fields@[j].1)),
                    view_fields(props@) == strip_comp(m.subrange(0, i as int)),
                decreases fields@.len() - i,
            {
                let (k, w) = &fields[i];
                let ghost before = view_fields(props@);
                let ghost prevv = props@;
                if !is_comp_reserved(k.as_str()) {
                    props.push((k.clone(), w.clone()));
                    proof {
                        assert(props@.drop_last() =~= prevv);
                        assert(view_fields(props@) =~= before.push((k@, view_value(*w))));
                    }
                }
                proof {
                    assert(m.subrange(0, i as int + 1).drop_last() =~= m.subrange(0, i as int));
                    assert(m.subrange(0, i as int + 1).last() == m[i as int]);
                }
                i = i + 1;
            }
            proof {
                assert(m.subrange(0, m.len() as int) =~= m);
            }
            Ok(crate::types::VuerComponent { tag, children, props })
        },
        _ => Err(VmpError::Deserialization(
            "a component must be a string-keyed record".to_owned(),
        )),
    }
}

/// A list with an element at `i` that is not a component denotes no
/// component list.
proof fn lemma_comps_of_vals_bad(m: Seq<ValModel>, i: int)
    requires
        0 <= i < m.len(),
        comp_of_val(m[i]) is None,
    ensures
        comps_of_vals(m) is None,
    decreases m.len(),
{
    if m.len() > 0 {
        if i == m.len() - 1 {
            assert(m.last() == m[i]);
        } else {
            lemma_comps_of_vals_bad(m.drop_last(), i);
        }
    }
}

} // verus!

verus! {

/// A component round-trips when its properties avoid the layout's own
/// keys, recursively through its children.
pub open spec fn comp_wf(c: crate::types::CompModel) -> bool
    decreases c, 0int,
    via comp_wf_decreases
{
    match c {
        crate::types::CompModel::Node { tag, children, props } => {
            &&& forall|i: int| 0 <= i < props.len()
                ==> !comp_reserved((#[trigger] props[i]).0)
            &&& match children {
                Some(ch) => comps_wf(ch),
                None => true,
            }
        },
    }
}

/// Every component in the sequence is well-formed.
pub open spec fn comps_wf(cs: Seq<crate::types::CompModel>) -> bool
    decreases cs, 1int,
    via comps_wf_decreases
{
    cs.len() == 0 || (comps_wf(cs.drop_last()) && comp_wf(cs.last()))
}

#[via_fn]
proof fn comp_wf_decreases(c: crate::types::CompModel) {
    match c {
        crate::types::CompModel::Node { tag, children, props } => {
            match children {
                Some(ch) => {
                    assert(decreases_to!(c => c->Node_children));
                    assert(decreases_to!(c->Node_children => c->Node_children->0));
                },
                None => {},
            }
        },
    }
}

#[via_fn]
proof fn comps_wf_decreases(cs: Seq<crate::types::CompModel>) {
    if cs.len() > 0 {
        assert(cs.drop_last() == cs.subrange(0, cs.len() - 1));
        assert(decreases_to!(cs => cs.subrange(0, cs.len() - 1)));
        assert(decreases_to!(cs => cs[cs.len() - 1]));
    }
}

/// Stripping the component keys distributes over concatenation.
proof fn lemma_strip_comp_concat(s: Seq<(Seq<char>, ValModel)>, t: Seq<(Seq<char>, ValModel)>)
    ensures
        strip_comp(s + t) == strip_comp(s) + strip_comp(t),
    decreases t.len(),
{
    if t.len() == 0 {
        assert(s + t =~= s);
        assert(strip_comp(s) + strip_comp(t) =~= strip_comp(s));
    } else {
        assert(s + t =~= (s + t.drop_last()).push(t.last()));
        assert((s + t).drop_last() =~= s + t.drop_last());
        assert((s + t).last() == t.last());
        lemma_strip_comp_concat(s, t.drop_last());
        if comp_reserved(t.last().0) {
            assert(strip_comp(t) == strip_comp(t.drop_last()));
        } else {
            assert(strip_comp(t) == strip_comp(t.drop_last()).push(t.last()));
            assert(strip_comp(s) + strip_comp(t)
                =~= (strip_comp(s) + strip_comp(t.drop_last())).push(t.last()));
        }
    }
}

/// A record whose keys avoid the component keys strips to itself.
proof fn lemma_strip_comp_none(s: Seq<(Seq<char>, ValModel)>)
    requires
        forall|i: int| 0 <= i < s.len() ==> !comp_reserved((#[trigger] s[i]).0),
    ensures
        strip_comp(s) == s,
    decreases s.len(),
{
    if s.len() > 0 {
        assert(forall|i: int| 0 <= i < s.drop_last().len()
            ==> #[trigger] s.drop_last()[i] == s[i]);
        lemma_strip_comp_none(s.drop_last());
        assert(!comp_reserved(s.last().0));
        assert(s.drop_last().push(s.last()) =~= s);
    }
}

/// Round-trip law of the component layout: reading a well-formed
/// component's wire value back yields the component, children included.
pub proof fn lemma_component_round_trip(c: crate::types::CompModel)
    requires
        comp_wf(c),
    ensures
        comp_of_val(comp_val(c)) == Some(c),
    decreases c, 0int,
{
    broadcast use lemma_field_of_push;

    reveal_strlit("tag");
    reveal_strlit("children");
    match c {
        crate::types::CompModel::Node { tag, children, props } => {
            let head = opt_push(
                Seq::<(Seq<char>, ValModel)>::empty().push(("tag"@, ValModel::Text(tag))),
                match children {
                    Some(ch) => Some(("children"@, ValModel::List(comp_vals(ch)))),
                    None => None,
                });
            let fields = comp_fields(c);
            assert(fields == head + props);
            assert("tag"@.len() == 3 && "children"@.len() == 8);
            assert(field_of(Seq::<(Seq<char>, ValModel)>::empty(), "tag"@) is None);
            assert(field_of(Seq::<(Seq<char>, ValModel)>::empty(), "children"@) is None);
            assert(comp_reserved("tag"@) && comp_reserved("children"@));
            assert(forall|i: int| 0 <= i < props.len()
                ==> ((#[trigger] props[i]).0 != "tag"@ && props[i].0 != "children"@));
            lemma_field_of_absent(props, "tag"@);
            lemma_field_of_absent(props, "children"@);
            lemma_field_of_concat(head, props, "tag"@);
            lemma_field_of_concat(head, props, "children"@);
            assert(field_of(fields, "tag"@) == Some(ValModel::Text(tag)));
            assert(field_of(fields, "children"@) == match children {
                Some(ch) => Some(ValModel::List(comp_vals(ch))),
                None => None::<ValModel>,
            });
            match children {
                Some(ch) => {
                    assert(decreases_to!(c => c->Node_children));
                    assert(decreases_to!(c->Node_children => c->Node_children->0));
                    lemma_components_round_trip(ch);
                },
                None => {},
            }
            lemma_strip_comp_concat(head, props);
            lemma_strip_comp_none(props);
            assert(strip_comp(head) =~= Seq::<(Seq<char>, ValModel)>::empty()) by {
                let empty = Seq::<(Seq<char>, ValModel)>::empty();
                assert(strip_comp(empty) == empty);
                let base = empty.push(("tag"@, ValModel::Text(tag)));
                assert(base.drop_last() =~= empty);
                assert(base.last().0 == "tag"@);
                assert(strip_comp(base) == empty);
                match children {
                    Some(ch) => {
                        assert(head == base.push(("children"@, ValModel::List(comp_vals(ch)))));
                        assert(head.drop_last() =~= base);
                        assert(head.last().0 == "children"@);
                        assert(strip_comp(head) == empty);
                    },
                    None => {
                        assert(head == base);
                    },
                }
            }
            assert(strip_comp(fields) =~= props);
        },
    }
}

/// Round-trip law for a sequence of well-formed components.
pub proof fn lemma_components_round_trip(cs: Seq<crate::types::CompModel>)
    requires
        comps_wf(cs),
    ensures
        comps_of_vals(comp_vals(cs)) == Some(cs),
    decreases cs, 1int,
{
    if cs.len() == 0 {
        assert(comp_vals(cs) =~= Seq::<ValModel>::empty());
        assert(cs =~= Seq::<crate::types::CompModel>::empty());
    } else {
        assert(decreases_to!(cs => cs.subrange(0, cs.len() - 1)));
        assert(cs.drop_last() == cs.subrange(0, cs.len() - 1));
        lemma_components_round_trip(cs.drop_last());
        assert(decreases_to!(cs => cs[cs.len() - 1]));
        lemma_component_round_trip(cs.last());
        let vs = comp_vals(cs);
        assert(vs.drop_last() =~= comp_vals(cs.drop_last()));
        assert(vs.last() == comp_val(cs.last()));
        assert(cs.drop_last().push(cs.last()) =~= cs);
    }
}

} // verus!

verus! {

/// Full round-trip law for messages: the wire bytes of any message
/// whose record fits the 32-bit wire formats decode back to exactly
/// that message.
pub proof fn lemma_message_wire_round_trip(m: crate::types::MessageModel)
    requires
        crate::msgpack::val_wf(msg_val(m)),
    ensures
        crate::msgpack::dec_value(crate::msgpack::enc_value(msg_val(m)))
            == Some((msg_val(m), crate::msgpack::enc_value(msg_val(m)).len() as int)),
        msg_of_val(msg_val(m)) == Some(m),
{
    crate::msgpack::lemma_codec_round_trip(msg_val(m));
    lemma_message_round_trip(m);
}

} // verus!

verus! {

/// Full round-trip law for RPC requests, as for messages.
pub proof fn lemma_rpc_request_wire_round_trip(m: crate::types::RpcRequestModel)
    requires
        crate::msgpack::val_wf(req_val(m)),
    ensures
        crate::msgpack::dec_value(crate::msgpack::enc_value(req_val(m)))
            == Some((req_val(m), crate::msgpack::enc_value(req_val(m)).len() as int)),
        req_of_val(req_val(m)) == Some(m),
{
    crate::msgpack::lemma_codec_round_trip(req_val(m));
    lemma_rpc_request_round_trip(m);
}

/// Full round-trip law for envelopes: the wire bytes of a well-formed
/// envelope decode back to exactly that envelope.
pub proof fn lemma_zdata_wire_round_trip(z: crate::zdata::ZDataModel)
    requires
        crate::msgpack::val_wf(zdata_val(z)),
        zdata_wf(z),
    ensures
        crate::msgpack::dec_value(crate::msgpack::enc_value(zdata_val(z)))
            == Some((zdata_val(z), crate::msgpack::enc_value(zdata_val(z)).len() as int)),
        zdata_of_val(zdata_val(z)) == Some(z),
{
    crate::msgpack::lemma_codec_round_trip(zdata_val(z));
    lemma_zdata_round_trip(z);
}

/// Full round-trip law for component trees.
pub proof fn lemma_component_wire_round_trip(c: crate::types::CompModel)
    requires
        crate::msgpack::val_wf(comp_val(c)),
        comp_wf(c),
    ensures
        crate::msgpack::dec_value(crate::msgpack::enc_value(comp_val(c)))
            == Some((comp_val(c), crate::msgpack::enc_value(comp_val(c)).len() as int)),
        comp_of_val(comp_val(c)) == Some(c),
{
    crate::msgpack::lemma_codec_round_trip(comp_val(c));
    lemma_component_round_trip(c);
}

} // verus!
