//! Deserialization from the binary wire format.
//!
//! Bytes decode to a dynamic value, which reads back as a message,
//! component or envelope; the recursive decoder rewrites nested
//! envelope-shaped records through the type registry, leaving unknown
//! tags untouched so foreign payloads pass through unchanged.
//! `validate_message` checks the structural rules independently of any
//! serialization.

use vstd::prelude::*;

use crate::error::VmpError;
use crate::msgpack::{decode_value, dec_value};
use crate::type_registry::{TypeCodec, TypeRegistry};
use crate::types::{Message, VuerComponent};
use crate::value::{DynValue, ValModel, view_value, view_items, view_fields, field_of,
    key_index, find_field};
use crate::value::{lemma_view_items, lemma_view_fields};
use crate::wire::{msg_of_val, comp_of_val, zdata_of_val, value_to_message,
    value_to_component, value_to_zdata};
use crate::serializer::b64_of;
use crate::zdata::ZData;
use base64::Engine;

verus! {

broadcast use vstd::std_specs::vec::group_vec_axioms, vstd::seq::group_seq_axioms;

/// Deserialization options.
#[derive(Debug, Clone)]
pub struct DeserializeOptions {
    /// Recursively decode nested envelope-shaped records.
    pub recursive: bool,
    /// Validate message structure.
    pub validate: bool,
    /// Consult the type registry for custom types.
    pub use_type_registry: bool,
}

impl Default for DeserializeOptions {
    /// Recursive decoding with validation and the registry on.
    fn default() -> (r: Self)
        ensures
            r.recursive == true,
            r.validate == true,
            r.use_type_registry == true,
    {
        DeserializeOptions { recursive: true, validate: true, use_type_registry: true }
    }
}

/// Decodes wire bytes to a dynamic value; trailing bytes are an error.
pub fn deserialize(bytes: &[u8]) -> (r: Result<DynValue, VmpError>)
    ensures
        match r {
            Ok(v) => dec_value(bytes@) == Some((v.deep_view(), bytes@.len() as int)),
            Err(e) => e is Deserialization
                && !(dec_value(bytes@) matches Some((m, k)) && k == bytes@.len()),
        },
{
    decode_value(bytes)
}

/// Decodes wire bytes to a dynamic value; the byte decoding itself
/// takes no options, so this equals `deserialize`.
pub fn deserialize_with_options(bytes: &[u8], _options: &DeserializeOptions)
    -> (r: Result<DynValue, VmpError>)
    ensures
        match r {
            Ok(v) => dec_value(bytes@) == Some((v.deep_view(), bytes@.len() as int)),
            Err(e) => e is Deserialization
                && !(dec_value(bytes@) matches Some((m, k)) && k == bytes@.len()),
        },
{
    deserialize(bytes)
}

/// Decodes wire bytes into a message.
pub fn deserialize_message(bytes: &[u8]) -> (r: Result<Message, VmpError>)
    ensures
        match r {
            Ok(m) => dec_value(bytes@) matches Some((w, k)) && k == bytes@.len()
                && msg_of_val(w) == Some(m.deep_view()),
            Err(e) => e is Deserialization
                && !(dec_value(bytes@) matches Some((w, k)) && k == bytes@.len()
                    && msg_of_val(w) is Some),
        },
{
    let value = match deserialize(bytes) {
        Ok(v) => v,
        Err(e) => { return Err(e); },
    };
    value_to_message(&value)
}

/// Decodes wire bytes into a component tree.
pub fn deserialize_component(bytes: &[u8]) -> (r: Result<VuerComponent, VmpError>)
    ensures
        match r {
            Ok(c) => dec_value(bytes@) matches Some((w, k)) && k == bytes@.len()
                && comp_of_val(w) == Some(c.deep_view()),
            Err(e) => e is Deserialization
                && !(dec_value(bytes@) matches Some((w, k)) && k == bytes@.len()
                    && comp_of_val(w) is Some),
        },
{
    let value = match deserialize(bytes) {
        Ok(v) => v,
        Err(e) => { return Err(e); },
    };
    value_to_component(&value)
}

/// Decodes wire bytes into an envelope.
pub fn bytes_to_zdata(bytes: &[u8]) -> (r: Result<ZData, VmpError>)
    ensures
        match r {
            Ok(z) => dec_value(bytes@) matches Some((w, k)) && k == bytes@.len()
                && zdata_of_val(w) == Some(z.deep_view()),
            Err(e) => e is Deserialization
                && !(dec_value(bytes@) matches Some((w, k)) && k == bytes@.len()
                    && zdata_of_val(w) is Some),
        },
{
    let value = match deserialize(bytes) {
        Ok(v) => v,
        Err(e) => { return Err(e); },
    };
    value_to_zdata(&value)
}

/// Relies on base64's STANDARD engine decode: it inverts the engine's
/// encode, succeeding exactly on the texts the encode produces and
/// returning their unique preimage.
#[verifier::external_body]
fn b64_decode(s: &str) -> (r: Option<Vec<u8>>)
    ensures
        match r {
            Some(bytes) => s@ == b64_of(bytes@)
                && (forall|b: Seq<u8>| b64_of(b) == s@ ==> b == bytes@),
            None => forall|b: Seq<u8>| b64_of(b) != s@,
        },
{
    base64::engine::general_purpose::STANDARD.decode(s).ok()
}

/// Decodes base64 text into a dynamic value: the text must be the
/// base64 form of decodable wire bytes.
pub fn deserialize_from_base64(encoded: &str) -> (r: Result<DynValue, VmpError>)
    ensures
        match r {
            Ok(v) => exists|b: Seq<u8>| #[trigger] b64_of(b) == encoded@
                && (dec_value(b) matches Some((m, k)) && m == v.deep_view()
                    && k == b.len()),
            Err(e) => e is Deserialization
                && forall|b: Seq<u8>| #[trigger] b64_of(b) == encoded@
                    ==> !(dec_value(b) matches Some((m, k)) && k == b.len()),
        },
{
    let bytes = match b64_decode(encoded) {
        Some(b) => b,
        None => {
            return Err(VmpError::Deserialization(
                "the text is not valid base64".to_owned(),
            ));
        },
    };
    match deserialize(bytes.as_slice()) {
        Ok(v) => {
            proof {
                assert(b64_of(bytes@) == encoded@
                    && (dec_value(bytes@) matches Some((m, k)) && m == v.deep_view()
                        && k == bytes@.len()));
            }
            Ok(v)
        },
        Err(e) => Err(e),
    }
}

/// Checks the structural rules of a message, independent of any
/// serialization: the event type must be non-empty, and a message
/// carrying positional or keyword arguments must carry a response type,
/// so that the request stays answerable.
pub fn validate_message(msg: &Message) -> (r: Result<(), VmpError>)
    ensures
        r is Ok <==> (msg.etype@.len() > 0
            && ((msg.args is Some || msg.kwargs is Some) ==> msg.rtype is Some)),
        r matches Err(e) ==> e is InvalidMessage,
{
    if msg.etype.as_str().is_empty() {
        return Err(VmpError::InvalidMessage(
            "message etype cannot be empty".to_owned(),
        ));
    }
    if (msg.args.is_some() || msg.kwargs.is_some()) && msg.rtype.is_none() {
        return Err(VmpError::InvalidMessage(
            "RPC request must have rtype field".to_owned(),
        ));
    }
    Ok(())
}

} // verus!

verus! {

/// What the recursive decoder rewrites a value to, or nothing when it
/// fails: an envelope-shaped record (carrying a "ztype" key) must parse
/// as an envelope; a registered tag is replaced by the codec's decoded
/// value, an unknown tag passes through unchanged; any other record or
/// sequence is rewritten child by child; everything else passes
/// unchanged.
pub open spec fn dec_rec<C: TypeCodec>(
    v: ValModel,
    use_reg: bool,
    regs: Seq<(Seq<char>, C)>,
) -> Option<ValModel>
    decreases v, 0int,
    via dec_rec_decreases::<C>
{
    match v {
        ValModel::Object(fields) => if field_of(fields, "ztype"@) is Some {
            match zdata_of_val(v) {
                Some(z) => if use_reg && key_index(regs, z.ztype) >= 0 {
                    regs[key_index(regs, z.ztype)].1.spec_decode(z)
                } else {
                    Some(v)
                },
                None => None,
            }
        } else {
            match dec_rec_fields(fields, use_reg, regs) {
                Some(fs) => Some(ValModel::Object(fs)),
                None => None,
            }
        },
        ValModel::List(items) => match dec_rec_items(items, use_reg, regs) {
            Some(vs) => Some(ValModel::List(vs)),
            None => None,
        },
        _ => Some(v),
    }
}

/// The recursive decoder over a sequence of values.
pub open spec fn dec_rec_items<C: TypeCodec>(
    items: Seq<ValModel>,
    use_reg: bool,
    regs: Seq<(Seq<char>, C)>,
) -> Option<Seq<ValModel>>
    decreases items, 1int,
    via dec_rec_items_decreases::<C>
{
    if items.len() == 0 {
        Some(Seq::empty())
    } else {
        match dec_rec_items(items.drop_last(), use_reg, regs) {
            Some(vs) => match dec_rec(items.last(), use_reg, regs) {
                Some(w) => Some(vs.push(w)),
                None => None,
            },
            None => None,
        }
    }
}

/// The recursive decoder over a record's fields.
pub open spec fn dec_rec_fields<C: TypeCodec>(
    fields: Seq<(Seq<char>, ValModel)>,
    use_reg: bool,
    regs: Seq<(Seq<char>, C)>,
) -> Option<Seq<(Seq<char>, ValModel)>>
    decreases fields, 1int,
    via dec_rec_fields_decreases::<C>
{
    if fields.len() == 0 {
        Some(Seq::empty())
    } else {
        match dec_rec_fields(fields.drop_last(), use_reg, regs) {
            Some(fs) => match dec_rec(fields.last().1, use_reg, regs) {
                Some(w) => Some(fs.push((fields.last().0, w))),
                None => None,
            },
            None => None,
        }
    }
}

#[via_fn]
proof fn dec_rec_decreases<C: TypeCodec>(v: ValModel, use_reg: bool, regs: Seq<(Seq<char>, C)>) {
    match v {
        ValModel::Object(fields) => {
            assert(decreases_to!(v => v->Object_0));
        },
        ValModel::List(items) => {
            assert(decreases_to!(v => v->List_0));
        },
        _ => {},
    }
}

#[via_fn]
proof fn dec_rec_items_decreases<C: TypeCodec>(
    items: Seq<ValModel>,
    use_reg: bool,
    regs: Seq<(Seq<char>, C)>,
) {
    if items.len() > 0 {
        assert(items.drop_last() == items.subrange(0, items.len() - 1));
        assert(decreases_to!(items => items.subrange(0, items.len() - 1)));
        assert(decreases_to!(items => items[items.len() - 1]));
    }
}

#[via_fn]
proof fn dec_rec_fields_decreases<C: TypeCodec>(
    fields: Seq<(Seq<char>, ValModel)>,
    use_reg: bool,
    regs: Seq<(Seq<char>, C)>,
) {
    if fields.len() > 0 {
        assert(fields.drop_last() == fields.subrange(0, fields.len() - 1));
        assert(decreases_to!(fields => fields.subrange(0, fields.len() - 1)));
        assert(decreases_to!(fields => fields[fields.len() - 1]));
        assert(decreases_to!(fields[fields.len() - 1] => fields[fields.len() - 1].1));
    }
}

/// A sequence with a child the decoder rejects is rejected.
proof fn lemma_dec_rec_items_bad<C: TypeCodec>(
    items: Seq<ValModel>,
    i: int,
    use_reg: bool,
    regs: Seq<(Seq<char>, C)>,
)
    requires
        0 <= i < items.len(),
        dec_rec(items[i], use_reg, regs) is None,
    ensures
        dec_rec_items(items, use_reg, regs) is None,
    decreases items.len(),
{
    if items.len() > 0 {
        if i == items.len() - 1 {
            assert(items.last() == items[i]);
        } else {
            lemma_dec_rec_items_bad(items.drop_last(), i, use_reg, regs);
        }
    }
}

/// A record with a child the decoder rejects is rejected.
proof fn lemma_dec_rec_fields_bad<C: TypeCodec>(
    fields: Seq<(Seq<char>, ValModel)>,
    i: int,
    use_reg: bool,
    regs: Seq<(Seq<char>, C)>,
)
    requires
        0 <= i < fields.len(),
        dec_rec(fields[i].1, use_reg, regs) is None,
    ensures
        dec_rec_fields(fields, use_reg, regs) is None,
    decreases fields.len(),
{
    if fields.len() > 0 {
        if i == fields.len() - 1 {
            assert(fields.last() == fields[i]);
        } else {
            lemma_dec_rec_fields_bad(fields.drop_last(), i, use_reg, regs);
        }
    }
}

/// Recursively rewrites a decoded value: envelope-shaped records are
/// parsed and, when their tag is registered, replaced by the codec's
/// decoded value; an unknown tag passes through unchanged, preserving
/// forward compatibility. With `recursive` off, the value passes
/// unchanged.
pub fn decode_value_recursive<C: TypeCodec>(
    value: &DynValue,
    options: &DeserializeOptions,
    registry: &TypeRegistry<C>,
) -> (r: Result<DynValue, VmpError>)
    ensures
        !options.recursive ==> (r matches Ok(v) && v.deep_view() == value.deep_view()),
        options.recursive ==> match r {
            Ok(v) => dec_rec(value.deep_view(), options.use_type_registry,
                registry.regs()) == Some(v.deep_view()),
            Err(_) => dec_rec(value.deep_view(), options.use_type_registry,
                registry.regs()) is None,
        },
    decreases *value,
{
    if !options.recursive {
        return Ok(value.clone());
    }
    let ghost use_reg = options.use_type_registry;
    let ghost regs = registry.regs();
    match value {
        DynValue::Object(fields) => {
            let shaped = match find_field(fields, "ztype") {
                Some(_) => true,
                None => false,
            };
            if shaped {
                let z = match value_to_zdata(value) {
                    Ok(z) => z,
                    Err(e) => { return Err(e); },
                };
                if options.use_type_registry {
                    if registry.is_registered(z.ztype.as_str()) {
                        return registry.decode(&z);
                    }
                }
                return Ok(value.clone());
            }
            let ghost m = view_fields(fields@);
            proof {
                lemma_view_fields(fields@);
                assert(m.subrange(0, 0) =~= Seq::<(Seq<char>, ValModel)>::empty());
            }
            let mut out: Vec<(String, DynValue)> = Vec::new();
            let mut i: usize = 0;
            while i < fields.len()
                invariant
                    i <= fields@.len(),
                    *value == DynValue::Object(*fields),
                    options.recursive,
                    use_reg == options.use_type_registry,
                    regs == registry.regs(),
                    m == view_fields(fields@),
                    m.len() == fields@.len(),
                    field_of(m, "ztype"@) is None,
                    forall|j: int| 0 <= j < fields@.len()
                        ==> m[j] == (#[trigger] fields@[j].0@, view_value(fields@[j].1)),
                    dec_rec_fields(m.subrange(0, i as int), use_reg, regs)
                        == Some(view_fields(out@)),
                decreases fields@.len() - i,
            {
                let (k, w) = &fields[i];
                proof {
                    assert(decreases_to!(*value => value->Object_0));
                    assert(decreases_to!(value->Object_0 => (value->Object_0)@));
                    assert(decreases_to!((value->Object_0)@ => (value->Object_0)@[i as int]));
                    assert(decreases_to!((value->Object_0)@[i as int]
                        => (value->Object_0)@[i as int].1));
                    assert(decreases_to!(*value => *w));
                }
                let child = match decode_value_recursive(w, options, registry) {
                    Ok(x) => x,
                    Err(e) => {
                        proof {
                            lemma_dec_rec_fields_bad(m, i as int, use_reg, regs);
                        }
                        return Err(e);
                    },
                };
                let ghost before = view_fields(out@);
                let ghost prevv = out@;
                out.push((k.clone(), child));
                proof {
                    assert(out@.drop_last() =~= prevv);
                    assert(m[i as int] == (fields@[i as int].0@,
                        view_value(fields@[i as int].1)));
                    assert(m.subrange(0, i as int + 1).drop_last() =~= m.subrange(0, i as int));
                    assert(m.subrange(0, i as int + 1).last() == m[i as int]);
                    assert(view_fields(out@) =~= before.push((m[i as int].0,
                        dec_rec(m[i as int].1, use_reg, regs)->Some_0)));
                }
                i = i + 1;
            }
            proof {
                assert(m.subrange(0, m.len() as int) =~= m);
            }
            Ok(DynValue::Object(out))
        },
        DynValue::List(items) => {
            let ghost m = view_items(items@);
            proof {
                lemma_view_items(items@);
                assert(m.subrange(0, 0) =~= Seq::<ValModel>::empty());
            }
            let mut out: Vec<DynValue> = Vec::new();
            let mut i: usize = 0;
            while i < items.len()
                invariant
                    i <= items@.len(),
                    *value == DynValue::List(*items),
                    options.recursive,
                    use_reg == options.use_type_registry,
                    regs == registry.regs(),
                    m == view_items(items@),
                    m.len() == items@.len(),
                    forall|j: int| 0 <= j < items@.len()
                        ==> m[j] == view_value(#[trigger] items@[j]),
                    dec_rec_items(m.subrange(0, i as int), use_reg, regs)
                        == Some(view_items(out@)),
                decreases items@.len() - i,
            {
                let w = &items[i];
                proof {
                    assert(decreases_to!(*value => value->List_0));
                    assert(decreases_to!(value->List_0 => (value->List_0)@));
                    assert(decreases_to!((value->List_0)@ => (value->List_0)@[i as int]));
                    assert(decreases_to!(*value => *w));
                }
                let child = match decode_value_recursive(w, options, registry) {
                    Ok(x) => x,
                    Err(e) => {
                        proof {
                            lemma_dec_rec_items_bad(m, i as int, use_reg, regs);
                        }
                        return Err(e);
                    },
                };
                let ghost before = view_items(out@);
                let ghost prevv = out@;
                out.push(child);
                proof {
                    assert(out@.drop_last() =~= prevv);
                    assert(m[i as int] == view_value(items@[i as int]));
                    assert(m.subrange(0, i as int + 1).drop_last() =~= m.subrange(0, i as int));
                    assert(m.subrange(0, i as int + 1).last() == m[i as int]);
                    assert(view_items(out@) =~= before.push(
                        dec_rec(m[i as int], use_reg, regs)->Some_0));
                }
                i = i + 1;
            }
            proof {
                assert(m.subrange(0, m.len() as int) =~= m);
            }
            Ok(DynValue::List(out))
        },
        _ => Ok(value.clone()),
    }
}

} // verus!
