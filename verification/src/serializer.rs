//! Serialization to the binary wire format.
//!
//! A value or message is laid out as its wire record, optionally
//! rewritten by the recursive encoder (which consults the type registry
//! for application-defined types), and encoded to MessagePack bytes; a
//! base64 text form of the same bytes serves text-only channels.

use vstd::prelude::*;

use crate::error::VmpError;
use crate::msgpack::{encode_value, enc_value, val_wf};
use crate::type_registry::{TypeCodec, TypeRegistry, spec_try_encode};
use crate::types::{Message, VuerComponent};
use crate::value::{DynValue, ValModel, view_value, view_items, view_fields,
    lemma_view_items, lemma_view_fields, field_of, find_field};
use crate::wire::{msg_val, comp_val, zdata_val, message_to_value, component_to_value,
    zdata_to_value, find_index};
use crate::zdata::ZData;
use base64::Engine;

verus! {

broadcast use vstd::std_specs::vec::group_vec_axioms, vstd::seq::group_seq_axioms;

/// Serialization options.
#[derive(Debug, Clone)]
pub struct SerializeOptions {
    /// Recursively encode nested structures.
    pub recursive: bool,
    /// Allow null values instead of rejecting them.
    pub encode_undefined: bool,
    /// Consult the type registry for custom types.
    pub use_type_registry: bool,
}

impl Default for SerializeOptions {
    /// Recursive encoding with the registry on; nulls rejected.
    fn default() -> (r: Self)
        ensures
            r.recursive == true,
            r.encode_undefined == false,
            r.use_type_registry == true,
    {
        SerializeOptions { recursive: true, encode_undefined: false, use_type_registry: true }
    }
}

/// Encodes a value to its wire bytes. Fails exactly when a part of the
/// value overflows the 32-bit wire formats.
pub fn serialize(value: &DynValue) -> (r: Result<Vec<u8>, VmpError>)
    ensures
        match r {
            Ok(out) => val_wf(value.deep_view()) && out@ == enc_value(value.deep_view()),
            Err(e) => !val_wf(value.deep_view()) && e is Serialization,
        },
{
    encode_value(value)
}

/// Encodes a value to its wire bytes; the byte encoding itself takes no
/// options, so this equals `serialize`.
pub fn serialize_with_options(value: &DynValue, _options: &SerializeOptions)
    -> (r: Result<Vec<u8>, VmpError>)
    ensures
        match r {
            Ok(out) => val_wf(value.deep_view()) && out@ == enc_value(value.deep_view()),
            Err(e) => !val_wf(value.deep_view()) && e is Serialization,
        },
{
    serialize(value)
}

/// Encodes a message: its wire record, then the bytes of that record.
pub fn serialize_message(message: &Message) -> (r: Result<Vec<u8>, VmpError>)
    ensures
        match r {
            Ok(out) => val_wf(msg_val(message.deep_view()))
                && out@ == enc_value(msg_val(message.deep_view())),
            Err(e) => !val_wf(msg_val(message.deep_view())) && e is Serialization,
        },
{
    let value = message_to_value(message);
    serialize(&value)
}

/// Encodes a component tree: its wire record, then the bytes.
pub fn serialize_component(component: &VuerComponent) -> (r: Result<Vec<u8>, VmpError>)
    ensures
        match r {
            Ok(out) => val_wf(comp_val(component.deep_view()))
                && out@ == enc_value(comp_val(component.deep_view())),
            Err(e) => !val_wf(comp_val(component.deep_view())) && e is Serialization,
        },
{
    let value = component_to_value(component);
    serialize(&value)
}

/// Encodes an envelope: its wire record, then the bytes.
pub fn zdata_to_bytes(zdata: &ZData) -> (r: Result<Vec<u8>, VmpError>)
    ensures
        match r {
            Ok(out) => val_wf(zdata_val(zdata.deep_view()))
                && out@ == enc_value(zdata_val(zdata.deep_view())),
            Err(e) => !val_wf(zdata_val(zdata.deep_view())) && e is Serialization,
        },
{
    let value = zdata_to_value(zdata);
    serialize(&value)
}

/// The base64 text of a byte sequence under the standard alphabet with
/// padding.
pub uninterp spec fn b64_of(bytes: Seq<u8>) -> Seq<char>;

/// Relies on base64's STANDARD engine encode: the text depends on the
/// bytes alone, and distinct byte sequences have distinct texts (decode
/// inverts encode).
#[verifier::external_body]
fn b64_encode(bytes: &Vec<u8>) -> (r: String)
    ensures
        r@ == b64_of(bytes@),
        forall|other: Seq<u8>| b64_of(other) == r@ ==> other == bytes@,
{
    base64::engine::general_purpose::STANDARD.encode(bytes)
}

/// Encodes a value to base64 text over its wire bytes.
pub fn serialize_to_base64(value: &DynValue) -> (r: Result<String, VmpError>)
    ensures
        match r {
            Ok(s) => val_wf(value.deep_view())
                && s@ == b64_of(enc_value(value.deep_view())),
            Err(e) => !val_wf(value.deep_view()) && e is Serialization,
        },
{
    let bytes = match serialize(value) {
        Ok(b) => b,
        Err(e) => { return Err(e); },
    };
    Ok(b64_encode(&bytes))
}

/// What the recursive encoder rewrites a value to, or nothing when it
/// fails: a record already shaped like an envelope (carrying a "ztype"
/// key) passes unchanged; a record the registry recognises becomes its
/// envelope's record; any other record or sequence is rewritten child
/// by child; null fails unless allowed; everything else passes
/// unchanged.
pub open spec fn enc_rec<C: TypeCodec>(
    v: ValModel,
    allow_null: bool,
    use_reg: bool,
    regs: Seq<(Seq<char>, C)>,
) -> Option<ValModel>
    decreases v, 0int,
    via enc_rec_decreases::<C>
{
    match v {
        ValModel::Null => if allow_null {
            Some(ValModel::Null)
        } else {
            None
        },
        ValModel::Object(fields) => if field_of(fields, "ztype"@) is Some {
            Some(v)
        } else if use_reg && spec_try_encode(regs, v) is Some {
            match spec_try_encode(regs, v) {
                Some(z) => Some(zdata_val(z)),
                None => None,
            }
        } else {
            match enc_rec_fields(fields, allow_null, use_reg, regs) {
                Some(fs) => Some(ValModel::Object(fs)),
                None => None,
            }
        },
        ValModel::List(items) => match enc_rec_items(items, allow_null, use_reg, regs) {
            Some(vs) => Some(ValModel::List(vs)),
            None => None,
        },
        _ => Some(v),
    }
}

/// The recursive encoder over a sequence of values.
pub open spec fn enc_rec_items<C: TypeCodec>(
    items: Seq<ValModel>,
    allow_null: bool,
    use_reg: bool,
    regs: Seq<(Seq<char>, C)>,
) -> Option<Seq<ValModel>>
    decreases items, 1int,
    via enc_rec_items_decreases::<C>
{
    if items.len() == 0 {
        Some(Seq::empty())
    } else {
        match enc_rec_items(items.drop_last(), allow_null, use_reg, regs) {
            Some(vs) => match enc_rec(items.last(), allow_null, use_reg, regs) {
                Some(w) => Some(vs.push(w)),
                None => None,
            },
            None => None,
        }
    }
}

/// The recursive encoder over a record's fields.
pub open spec fn enc_rec_fields<C: TypeCodec>(
    fields: Seq<(Seq<char>, ValModel)>,
    allow_null: bool,
    use_reg: bool,
    regs: Seq<(Seq<char>, C)>,
) -> Option<Seq<(Seq<char>, ValModel)>>
    decreases fields, 1int,
    via enc_rec_fields_decreases::<C>
{
    if fields.len() == 0 {
        Some(Seq::empty())
    } else {
        match enc_rec_fields(fields.drop_last(), allow_null, use_reg, regs) {
            Some(fs) => match enc_rec(fields.last().1, allow_null, use_reg, regs) {
                Some(w) => Some(fs.push((fields.last().0, w))),
                None => None,
            },
            None => None,
        }
    }
}

#[via_fn]
proof fn enc_rec_decreases<C: TypeCodec>(
    v: ValModel,
    allow_null: bool,
    use_reg: bool,
    regs: Seq<(Seq<char>, C)>,
) {
    match v {
        ValModel::Object(fields) => {
            assert(decreases_to!(v => v->Object_0));
        },
        ValModel::List(items) => {
            assert(decreases_to!(v => v->List_0));
        },
        _ => {},
    }
}

#[via_fn]
proof fn enc_rec_items_decreases<C: TypeCodec>(
    items: Seq<ValModel>,
    allow_null: bool,
    use_reg: bool,
    regs: Seq<(Seq<char>, C)>,
) {
    if items.len() > 0 {
        assert(items.drop_last() == items.subrange(0, items.len() - 1));
        assert(decreases_to!(items => items.subrange(0, items.len() - 1)));
        assert(decreases_to!(items => items[items.len() - 1]));
    }
}

#[via_fn]
proof fn enc_rec_fields_decreases<C: TypeCodec>(
    fields: Seq<(Seq<char>, ValModel)>,
    allow_null: bool,
    use_reg: bool,
    regs: Seq<(Seq<char>, C)>,
) {
    if fields.len() > 0 {
        assert(fields.drop_last() == fields.subrange(0, fields.len() - 1));
        assert(decreases_to!(fields => fields.subrange(0, fields.len() - 1)));
        assert(decreases_to!(fields => fields[fields.len() - 1]));
        assert(decreases_to!(fields[fields.len() - 1] => fields[fields.len() - 1].1));
    }
}

/// A sequence with a child the encoder rejects is rejected, whatever
/// comes after.
proof fn lemma_enc_rec_items_bad<C: TypeCodec>(
    items: Seq<ValModel>,
    i: int,
    allow_null: bool,
    use_reg: bool,
    regs: Seq<(Seq<char>, C)>,
)
    requires
        0 <= i < items.len(),
        enc_rec(items[i], allow_null, use_reg, regs) is None,
    ensures
        enc_rec_items(items, allow_null, use_reg, regs) is None,
    decreases items.len(),
{
    if items.len() > 0 {
        if i == items.len() - 1 {
            assert(items.last() == items[i]);
        } else {
            lemma_enc_rec_items_bad(items.drop_last(), i, allow_null, use_reg, regs);
        }
    }
}

/// A record with a child the encoder rejects is rejected.
proof fn lemma_enc_rec_fields_bad<C: TypeCodec>(
    fields: Seq<(Seq<char>, ValModel)>,
    i: int,
    allow_null: bool,
    use_reg: bool,
    regs: Seq<(Seq<char>, C)>,
)
    requires
        0 <= i < fields.len(),
        enc_rec(fields[i].1, allow_null, use_reg, regs) is None,
    ensures
        enc_rec_fields(fields, allow_null, use_reg, regs) is None,
    decreases fields.len(),
{
    if fields.len() > 0 {
        if i == fields.len() - 1 {
            assert(fields.last() == fields[i]);
        } else {
            lemma_enc_rec_fields_bad(fields.drop_last(), i, allow_null, use_reg, regs);
        }
    }
}

/// Recursively rewrites a value before encoding: envelope-shaped
/// records pass unchanged, records the registry's detectors recognise
/// become their envelope form, other containers are rewritten child by
/// child, and null fails unless `encode_undefined` allows it. With
/// `recursive` off, the value passes unchanged.
pub fn encode_value_recursive<C: TypeCodec>(
    value: &DynValue,
    options: &SerializeOptions,
    registry: &TypeRegistry<C>,
) -> (r: Result<DynValue, VmpError>)
    ensures
        !options.recursive ==> (r matches Ok(v) && v.deep_view() == value.deep_view()),
        options.recursive ==> match r {
            Ok(v) => enc_rec(value.deep_view(), options.encode_undefined,
                options.use_type_registry, registry.regs()) == Some(v.deep_view()),
            Err(e) => enc_rec(value.deep_view(), options.encode_undefined,
                options.use_type_registry, registry.regs()) is None
                && e is Serialization,
        },
    decreases *value,
{
    if !options.recursive {
        return Ok(value.clone());
    }
    let ghost allow_null = options.encode_undefined;
    let ghost use_reg = options.use_type_registry;
    let ghost regs = registry.regs();
    match value {
        DynValue::Null => {
            if options.encode_undefined {
                Ok(DynValue::Null)
            } else {
                Err(VmpError::Serialization("null value not allowed".to_owned()))
            }
        },
        DynValue::Object(fields) => {
            let shaped = match find_field(fields, "ztype") {
                Some(_) => true,
                None => false,
            };
            if shaped {
                return Ok(value.clone());
            }
            if options.use_type_registry {
                match registry.try_encode(value) {
                    Some(z) => {
                        return Ok(crate::wire::zdata_to_value(&z));
                    },
                    None => {},
                }
            }
            let ghost m = view_fields(fields@);
            proof {
                lemma_view_fields(fields@);
                assert(m.subrange(0, 0) =~= Seq::<(Seq<char>, ValModel)>::empty());
            }
            let mut out: Vec<(String, DynValue)> = Vec::new();
            let mut i: usize = 0;
            while i < fields.len()
                invariant
                    i <= fields@.len(),
                    *value == DynValue::Object(*fields),
                    options.recursive,
                    allow_null == options.encode_undefined,
                    use_reg == options.use_type_registry,
                    regs == registry.regs(),
                    m == view_fields(fields@),
                    m.len() == fields@.len(),
                    field_of(m, "ztype"@) is None,
                    use_reg ==> spec_try_encode(regs, ValModel::Object(m)) is None,
                    forall|j: int| 0 <= j < fields@.len()
                        ==> m[j] == (#[trigger] fields@[j].0@, view_value(fields@[j].1)),
                    enc_rec_fields(m.subrange(0, i as int), allow_null, use_reg, regs)
                        == Some(view_fields(out@)),
                decreases fields@.len() - i,
            {
                let (k, w) = &fields[i];
                proof {
                    assert(decreases_to!(*value => value->Object_0));
                    assert(decreases_to!(value->Object_0 => (value->Object_0)@));
                    assert(decreases_to!((value->Object_0)@ => (value->Object_0)@[i as int]));
                    assert(decreases_to!((value->Object_0)@[i as int]
                        => (value->Object_0)@[i as int].1));
                    assert(decreases_to!(*value => *w));
                }
                let child = match encode_value_recursive(w, options, registry) {
                    Ok(x) => x,
                    Err(e) => {
                        proof {
                            lemma_enc_rec_fields_bad(m, i as int, allow_null, use_reg, regs);
                        }
                        return Err(e);
                    },
                };
                let ghost before = view_fields(out@);
                let ghost prevv = out@;
                out.push((k.clone(), child));
                proof {
                    assert(out@.drop_last() =~= prevv);
                    assert(m[i as int] == (fields@[i as int].0@,
                        view_value(fields@[i as int].1)));
                    assert(m.subrange(0, i as int + 1).drop_last() =~= m.subrange(0, i as int));
                    assert(m.subrange(0, i as int + 1).last() == m[i as int]);
                    assert(view_fields(out@) =~= before.push((m[i as int].0,
                        enc_rec(m[i as int].1, allow_null, use_reg, regs)->Some_0)));
                }
                i = i + 1;
            }
            proof {
                assert(m.subrange(0, m.len() as int) =~= m);
            }
            Ok(DynValue::Object(out))
        },
        DynValue::List(items) => {
            let ghost m = view_items(items@);
            proof {
                lemma_view_items(items@);
                assert(m.subrange(0, 0) =~= Seq::<ValModel>::empty());
            }
            let mut out: Vec<DynValue> = Vec::new();
            let mut i: usize = 0;
            while i < items.len()
                invariant
                    i <= items@.len(),
                    *value == DynValue::List(*items),
                    options.recursive,
                    allow_null == options.encode_undefined,
                    use_reg == options.use_type_registry,
                    regs == registry.regs(),
                    m == view_items(items@),
                    m.len() == items@.len(),
                    forall|j: int| 0 <= j < items@.len()
                        ==> m[j] == view_value(#[trigger] items@[j]),
                    enc_rec_items(m.subrange(0, i as int), allow_null, use_reg, regs)
                        == Some(view_items(out@)),
                decreases items@.len() - i,
            {
                let w = &items[i];
                proof {
                    assert(decreases_to!(*value => value->List_0));
                    assert(decreases_to!(value->List_0 => (value->List_0)@));
                    assert(decreases_to!((value->List_0)@ => (value->List_0)@[i as int]));
                    assert(decreases_to!(*value => *w));
                }
                let child = match encode_value_recursive(w, options, registry) {
                    Ok(x) => x,
                    Err(e) => {
                        proof {
                            lemma_enc_rec_items_bad(m, i as int, allow_null, use_reg, regs);
                        }
                        return Err(e);
                    },
                };
                let ghost before = view_items(out@);
                let ghost prevv = out@;
                out.push(child);
                proof {
                    assert(out@.drop_last() =~= prevv);
                    assert(m[i as int] == view_value(items@[i as int]));
                    assert(m.subrange(0, i as int + 1).drop_last() =~= m.subrange(0, i as int));
                    assert(m.subrange(0, i as int + 1).last() == m[i as int]);
                    assert(view_items(out@) =~= before.push(
                        enc_rec(m[i as int], allow_null, use_reg, regs)->Some_0));
                }
                i = i + 1;
            }
            proof {
                assert(m.subrange(0, m.len() as int) =~= m);
            }
            Ok(DynValue::List(out))
        },
        _ => Ok(value.clone()),
    }
}

} // verus!
