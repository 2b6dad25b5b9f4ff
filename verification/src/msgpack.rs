//! The binary wire format for dynamic values.
//!
//! Values are encoded as self-describing MessagePack: the encoder always
//! emits the widest format of each family (int 64, str 32, bin 32,
//! array 32, map 32), which every MessagePack reader accepts; the decoder
//! accepts the whole standard format range, so payloads produced by other
//! peers decode as well. `enc_value` and `dec_value` are the mathematical
//! statements of the two directions, and the round-trip between them is
//! proved.

use vstd::prelude::*;

use crate::error::VmpError;
use crate::value::{DynValue, ValModel, view_value, view_items, view_fields,
    lemma_view_items, lemma_view_fields};
use vstd::utf8::{encode_utf8, decode_utf8, valid_utf8};

verus! {

broadcast use vstd::std_specs::vec::group_vec_axioms, vstd::seq::group_seq_axioms,
    vstd::utf8::encode_utf8_valid_utf8, vstd::utf8::encode_utf8_decode_utf8;

/// Largest payload length the 32-bit wire formats can carry.
pub open spec fn max_len() -> int {
    0xffff_ffff
}

/// Big-endian bytes of a 32-bit number.
pub open spec fn be32(n: u32) -> Seq<u8> {
    seq![(n >> 24) as u8, (n >> 16) as u8, (n >> 8) as u8, n as u8]
}

/// Big-endian bytes of a 64-bit number.
pub open spec fn be64(n: u64) -> Seq<u8> {
    seq![
        (n >> 56) as u8, (n >> 48) as u8, (n >> 40) as u8, (n >> 32) as u8,
        (n >> 24) as u8, (n >> 16) as u8, (n >> 8) as u8, n as u8,
    ]
}

/// The 16-bit number whose big-endian bytes are the first two of `b`.
pub open spec fn be16val(b: Seq<u8>) -> u16 {
    (b[0] as u16) << 8 | (b[1] as u16)
}

/// The 32-bit number whose big-endian bytes are the first four of `b`.
pub open spec fn be32val(b: Seq<u8>) -> u32 {
    (b[0] as u32) << 24 | (b[1] as u32) << 16 | (b[2] as u32) << 8 | (b[3] as u32)
}

/// The 64-bit number whose big-endian bytes are the first eight of `b`.
pub open spec fn be64val(b: Seq<u8>) -> u64 {
    (b[0] as u64) << 56 | (b[1] as u64) << 48 | (b[2] as u64) << 40 | (b[3] as u64) << 32
        | (b[4] as u64) << 24 | (b[5] as u64) << 16 | (b[6] as u64) << 8 | (b[7] as u64)
}

proof fn lemma_be32_roundtrip(n: u32)
    ensures
        be32val(be32(n)) == n,
{
    assert((((n >> 24) as u8) as u32) << 24 | (((n >> 16) as u8) as u32) << 16
        | (((n >> 8) as u8) as u32) << 8 | ((n as u8) as u32) == n) by (bit_vector);
}

proof fn lemma_be64_roundtrip(n: u64)
    ensures
        be64val(be64(n)) == n,
{
    assert((((n >> 56) as u8) as u64) << 56 | (((n >> 48) as u8) as u64) << 48
        | (((n >> 40) as u8) as u64) << 40 | (((n >> 32) as u8) as u64) << 32
        | (((n >> 24) as u8) as u64) << 24 | (((n >> 16) as u8) as u64) << 16
        | (((n >> 8) as u8) as u64) << 8 | ((n as u8) as u64) == n) by (bit_vector);
}

/// A value is encodable when every text, byte string, sequence and
/// mapping in it fits the 32-bit wire formats.
pub open spec fn val_wf(v: ValModel) -> bool
    decreases v,
    via val_wf_decreases
{
    match v {
        ValModel::Null => true,
        ValModel::Bool(_) => true,
        ValModel::Int(_) => true,
        ValModel::Float(_) => true,
        ValModel::Text(s) => encode_utf8(s).len() <= max_len(),
        ValModel::Bin(b) => b.len() <= max_len(),
        ValModel::List(items) => items.len() <= max_len() && items_wf(items),
        ValModel::Object(fields) => fields.len() <= max_len() && fields_wf(fields),
    }
}

/// Every element of the sequence is encodable.
pub open spec fn items_wf(items: Seq<ValModel>) -> bool
    decreases items,
    via items_wf_decreases
{
    items.len() == 0 || (items_wf(items.drop_last()) && val_wf(items.last()))
}

/// Every key fits the 32-bit string format and every value is encodable.
pub open spec fn fields_wf(fields: Seq<(Seq<char>, ValModel)>) -> bool
    decreases fields,
    via fields_wf_decreases
{
    fields.len() == 0 || (fields_wf(fields.drop_last())
        && encode_utf8(fields.last().0).len() <= max_len() && val_wf(fields.last().1))
}

#[via_fn]
proof fn val_wf_decreases(v: ValModel) {
    match v {
        ValModel::List(items) => {
            assert(decreases_to!(v => v->List_0));
        },
        ValModel::Object(fields) => {
            assert(decreases_to!(v => v->Object_0));
        },
        _ => {},
    }
}

#[via_fn]
proof fn items_wf_decreases(items: Seq<ValModel>) {
    if items.len() > 0 {
        assert(items.drop_last() == items.subrange(0, items.len() - 1));
        assert(decreases_to!(items => items.subrange(0, items.len() - 1)));
        assert(decreases_to!(items => items[items.len() - 1]));
    }
}

#[via_fn]
proof fn fields_wf_decreases(fields: Seq<(Seq<char>, ValModel)>) {
    if fields.len() > 0 {
        assert(fields.drop_last() == fields.subrange(0, fields.len() - 1));
        assert(decreases_to!(fields => fields.subrange(0, fields.len() - 1)));
        assert(decreases_to!(fields => fields[fields.len() - 1]));
        assert(decreases_to!(fields[fields.len() - 1] => fields[fields.len() - 1].1));
    }
}

/// `items_wf` holds exactly when each element is well-formed.
pub broadcast proof fn lemma_items_wf(items: Seq<ValModel>)
    ensures
        #[trigger] items_wf(items)
            <==> (forall|i: int| 0 <= i < items.len() ==> val_wf(#[trigger] items[i])),
    decreases items.len(),
{
    if items.len() > 0 {
        lemma_items_wf(items.drop_last());
        assert(forall|i: int| 0 <= i < items.len() - 1
            ==> items.drop_last()[i] == items[i]);
        if forall|i: int| 0 <= i < items.len() ==> val_wf(#[trigger] items[i]) {
            assert(val_wf(items.last()));
        }
    }
}

/// `fields_wf` holds exactly when each key and value is well-formed.
pub broadcast proof fn lemma_fields_wf(fields: Seq<(Seq<char>, ValModel)>)
    ensures
        #[trigger] fields_wf(fields)
            <==> (forall|i: int| 0 <= i < fields.len()
                ==> encode_utf8((#[trigger] fields[i]).0).len() <= max_len()
                    && val_wf(fields[i].1)),
    decreases fields.len(),
{
    if fields.len() > 0 {
        lemma_fields_wf(fields.drop_last());
        assert(forall|i: int| 0 <= i < fields.len() - 1
            ==> fields.drop_last()[i] == fields[i]);
        if forall|i: int| 0 <= i < fields.len()
            ==> encode_utf8((#[trigger] fields[i]).0).len() <= max_len()
                && val_wf(fields[i].1) {
            assert(encode_utf8(fields.last().0).len() <= max_len() && val_wf(fields.last().1));
        }
    }
}

/// The encoding of a string: a str 32 header, then its UTF-8 bytes.
pub open spec fn enc_str(s: Seq<char>) -> Seq<u8> {
    seq![0xdbu8] + be32(encode_utf8(s).len() as u32) + encode_utf8(s)
}

/// The canonical encoding of a value.
pub open spec fn enc_value(v: ValModel) -> Seq<u8>
    decreases v,
    via enc_value_decreases
{
    match v {
        ValModel::Null => seq![0xc0u8],
        ValModel::Bool(b) => if b { seq![0xc3u8] } else { seq![0xc2u8] },
        ValModel::Int(i) => seq![0xd3u8] + be64(i as u64),
        ValModel::Float(bits) => seq![0xcbu8] + be64(bits),
        ValModel::Text(s) => enc_str(s),
        ValModel::Bin(b) => seq![0xc6u8] + be32(b.len() as u32) + b,
        ValModel::List(items) => seq![0xddu8] + be32(items.len() as u32) + enc_items(items),
        ValModel::Object(fields) => seq![0xdfu8] + be32(fields.len() as u32)
            + enc_fields(fields),
    }
}

/// The concatenated encodings of a sequence of values.
pub open spec fn enc_items(items: Seq<ValModel>) -> Seq<u8>
    decreases items,
    via enc_items_decreases
{
    if items.len() == 0 {
        Seq::empty()
    } else {
        enc_value(items.first()) + enc_items(items.drop_first())
    }
}

/// The concatenated encodings of a sequence of key/value pairs.
pub open spec fn enc_fields(fields: Seq<(Seq<char>, ValModel)>) -> Seq<u8>
    decreases fields,
    via enc_fields_decreases
{
    if fields.len() == 0 {
        Seq::empty()
    } else {
        enc_str(fields.first().0) + enc_value(fields.first().1)
            + enc_fields(fields.drop_first())
    }
}

#[via_fn]
proof fn enc_value_decreases(v: ValModel) {
    match v {
        ValModel::List(items) => {
            assert(decreases_to!(v => v->List_0));
        },
        ValModel::Object(fields) => {
            assert(decreases_to!(v => v->Object_0));
        },
        _ => {},
    }
}

#[via_fn]
proof fn enc_items_decreases(items: Seq<ValModel>) {
    if items.len() > 0 {
        assert(decreases_to!(items => items[0]));
        assert(items.drop_first() == items.subrange(1, items.len() as int));
        assert(decreases_to!(items => items.subrange(1, items.len() as int)));
    }
}

#[via_fn]
proof fn enc_fields_decreases(fields: Seq<(Seq<char>, ValModel)>) {
    if fields.len() > 0 {
        assert(decreases_to!(fields => fields[0]));
        assert(decreases_to!(fields[0] => fields[0].1));
        assert(fields.drop_first() == fields.subrange(1, fields.len() as int));
        assert(decreases_to!(fields => fields.subrange(1, fields.len() as int)));
    }
}

/// Appending one value extends the concatenated encoding at the end.
proof fn lemma_enc_items_push(items: Seq<ValModel>, v: ValModel)
    ensures
        enc_items(items.push(v)) == enc_items(items) + enc_value(v),
    decreases items.len(),
{
    if items.len() == 0 {
        assert(items.push(v).drop_first() =~= Seq::<ValModel>::empty());
        assert(items.push(v).first() == v);
        assert(enc_items(items.push(v)) == enc_value(v) + enc_items(Seq::<ValModel>::empty()));
        assert(enc_value(v) + Seq::<u8>::empty() =~= enc_value(v));
        assert(enc_items(items) + enc_value(v) =~= enc_value(v));
    } else {
        assert(items.push(v).first() == items.first());
        assert(items.push(v).drop_first() =~= items.drop_first().push(v));
        lemma_enc_items_push(items.drop_first(), v);
        assert(enc_items(items.push(v))
            =~= enc_items(items) + enc_value(v));
    }
}

/// Appending one pair extends the concatenated encoding at the end.
proof fn lemma_enc_fields_push(fields: Seq<(Seq<char>, ValModel)>, k: Seq<char>, v: ValModel)
    ensures
        enc_fields(fields.push((k, v)))
            == enc_fields(fields) + enc_str(k) + enc_value(v),
    decreases fields.len(),
{
    if fields.len() == 0 {
        assert(fields.push((k, v)).drop_first() =~= Seq::<(Seq<char>, ValModel)>::empty());
        assert(fields.push((k, v)).first() == (k, v));
        assert(enc_fields(fields.push((k, v))) == enc_str(k) + enc_value(v)
            + enc_fields(Seq::<(Seq<char>, ValModel)>::empty()));
        assert(enc_str(k) + enc_value(v) + Seq::<u8>::empty() =~= enc_str(k) + enc_value(v));
        assert(enc_fields(fields) + enc_str(k) + enc_value(v) =~= enc_str(k) + enc_value(v));
    } else {
        assert(fields.push((k, v)).first() == fields.first());
        assert(fields.push((k, v)).drop_first() =~= fields.drop_first().push((k, v)));
        lemma_enc_fields_push(fields.drop_first(), k, v);
        assert(enc_fields(fields.push((k, v)))
            =~= enc_fields(fields) + enc_str(k) + enc_value(v));
    }
}

} // verus!

verus! {

/// Decodes a string payload of `l` bytes that follows a header of
/// `hdr` bytes: the bytes must be present and be valid UTF-8.
pub open spec fn dec_str_payload(b: Seq<u8>, hdr: int, l: int) -> Option<(ValModel, int)> {
    if b.len() >= hdr + l && valid_utf8(b.subrange(hdr, hdr + l)) {
        Some((ValModel::Text(decode_utf8(b.subrange(hdr, hdr + l))), hdr + l))
    } else {
        None
    }
}

/// Decodes a byte-string payload of `l` bytes after a header of `hdr` bytes.
pub open spec fn dec_bin_payload(b: Seq<u8>, hdr: int, l: int) -> Option<(ValModel, int)> {
    if b.len() >= hdr + l {
        Some((ValModel::Bin(b.subrange(hdr, hdr + l)), hdr + l))
    } else {
        None
    }
}

/// What one value decodes to from the front of `b`: the value and the
/// count of bytes consumed, or nothing when the bytes do not hold one.
///
/// All standard MessagePack formats are read; the extension family,
/// 32-bit floats, and unsigned values above the signed 64-bit range have
/// no counterpart in the value model and do not decode.
pub open spec fn dec_value(b: Seq<u8>) -> Option<(ValModel, int)>
    decreases b.len(), 0int, 1int,
{
    if b.len() < 1 {
        None
    } else {
        let c = b[0];
        if c <= 0x7f {
            Some((ValModel::Int(c as i64), 1))
        } else if c <= 0x8f {
            match dec_fields(b.skip(1), c - 0x80) {
                Some((fs, k)) => Some((ValModel::Object(fs), 1 + k)),
                None => None,
            }
        } else if c <= 0x9f {
            match dec_items(b.skip(1), c - 0x90) {
                Some((vs, k)) => Some((ValModel::List(vs), 1 + k)),
                None => None,
            }
        } else if c <= 0xbf {
            dec_str_payload(b, 1, c - 0xa0)
        } else if c == 0xc0 {
            Some((ValModel::Null, 1))
        } else if c == 0xc2 {
            Some((ValModel::Bool(false), 1))
        } else if c == 0xc3 {
            Some((ValModel::Bool(true), 1))
        } else if c == 0xc4 {
            if b.len() >= 2 { dec_bin_payload(b, 2, b[1] as int) } else { None }
        } else if c == 0xc5 {
            if b.len() >= 3 { dec_bin_payload(b, 3, be16val(b.subrange(1, 3)) as int) } else { None }
        } else if c == 0xc6 {
            if b.len() >= 5 { dec_bin_payload(b, 5, be32val(b.subrange(1, 5)) as int) } else { None }
        } else if c == 0xcb {
            if b.len() >= 9 {
                Some((ValModel::Float(be64val(b.subrange(1, 9))), 9))
            } else {
                None
            }
        } else if c == 0xcc {
            if b.len() >= 2 { Some((ValModel::Int(b[1] as i64), 2)) } else { None }
        } else if c == 0xcd {
            if b.len() >= 3 { Some((ValModel::Int(be16val(b.subrange(1, 3)) as i64), 3)) } else { None }
        } else if c == 0xce {
            if b.len() >= 5 { Some((ValModel::Int(be32val(b.subrange(1, 5)) as i64), 5)) } else { None }
        } else if c == 0xcf {
            if b.len() >= 9 && be64val(b.subrange(1, 9)) <= i64::MAX as u64 {
                Some((ValModel::Int(be64val(b.subrange(1, 9)) as i64), 9))
            } else {
                None
            }
        } else if c == 0xd0 {
            if b.len() >= 2 { Some((ValModel::Int((b[1] as i8) as i64), 2)) } else { None }
        } else if c == 0xd1 {
            if b.len() >= 3 {
                Some((ValModel::Int((be16val(b.subrange(1, 3)) as i16) as i64), 3))
            } else {
                None
            }
        } else if c == 0xd2 {
            if b.len() >= 5 {
                Some((ValModel::Int((be32val(b.subrange(1, 5)) as i32) as i64), 5))
            } else {
                None
            }
        } else if c == 0xd3 {
            if b.len() >= 9 {
                Some((ValModel::Int(be64val(b.subrange(1, 9)) as i64), 9))
            } else {
                None
            }
        } else if c == 0xd9 {
            if b.len() >= 2 { dec_str_payload(b, 2, b[1] as int) } else { None }
        } else if c == 0xda {
            if b.len() >= 3 { dec_str_payload(b, 3, be16val(b.subrange(1, 3)) as int) } else { None }
        } else if c == 0xdb {
            if b.len() >= 5 { dec_str_payload(b, 5, be32val(b.subrange(1, 5)) as int) } else { None }
        } else if c == 0xdc {
            if b.len() >= 3 {
                match dec_items(b.skip(3), be16val(b.subrange(1, 3)) as int) {
                    Some((vs, k)) => Some((ValModel::List(vs), 3 + k)),
                    None => None,
                }
            } else {
                None
            }
        } else if c == 0xdd {
            if b.len() >= 5 {
                match dec_items(b.skip(5), be32val(b.subrange(1, 5)) as int) {
                    Some((vs, k)) => Some((ValModel::List(vs), 5 + k)),
                    None => None,
                }
            } else {
                None
            }
        } else if c == 0xde {
            if b.len() >= 3 {
                match dec_fields(b.skip(3), be16val(b.subrange(1, 3)) as int) {
                    Some((fs, k)) => Some((ValModel::Object(fs), 3 + k)),
                    None => None,
                }
            } else {
                None
            }
        } else if c == 0xdf {
            if b.len() >= 5 {
                match dec_fields(b.skip(5), be32val(b.subrange(1, 5)) as int) {
                    Some((fs, k)) => Some((ValModel::Object(fs), 5 + k)),
                    None => None,
                }
            } else {
                None
            }
        } else if 0xe0 <= c {
            Some((ValModel::Int((c as i8) as i64), 1))
        } else {
            None
        }
    }
}

/// What `n` consecutive values decode to from the front of `b`.
pub open spec fn dec_items(b: Seq<u8>, n: int) -> Option<(Seq<ValModel>, int)>
    decreases b.len(), n, 0int,
{
    if n <= 0 {
        Some((Seq::empty(), 0))
    } else {
        match dec_value(b) {
            None => None,
            Some((v, k)) => if 1 <= k <= b.len() {
                match dec_items(b.skip(k), n - 1) {
                    None => None,
                    Some((vs, k2)) => Some((seq![v] + vs, k + k2)),
                }
            } else {
                None
            },
        }
    }
}

/// What `n` consecutive key/value pairs decode to from the front of `b`.
/// Every key must be a string.
pub open spec fn dec_fields(b: Seq<u8>, n: int) -> Option<(Seq<(Seq<char>, ValModel)>, int)>
    decreases b.len(), n, 0int,
{
    if n <= 0 {
        Some((Seq::empty(), 0))
    } else {
        match dec_value(b) {
            None => None,
            Some((kv, k1)) => match kv {
                ValModel::Text(key) => if 1 <= k1 <= b.len() {
                    match dec_value(b.skip(k1)) {
                        None => None,
                        Some((v, k2)) => if 1 <= k2 <= b.skip(k1).len() {
                            match dec_fields(b.skip(k1 + k2), n - 1) {
                                None => None,
                                Some((fs, k3)) => Some((seq![(key, v)] + fs, k1 + k2 + k3)),
                            }
                        } else {
                            None
                        },
                    }
                } else {
                    None
                },
                _ => None,
            },
        }
    }
}

} // verus!

verus! {

/// Every encoding is at least one byte long.
proof fn lemma_enc_value_len(v: ValModel)
    ensures
        enc_value(v).len() >= 1,
{
    match v {
        ValModel::Null => {},
        ValModel::Bool(_) => {},
        ValModel::Int(_) => {},
        ValModel::Float(_) => {},
        ValModel::Text(_) => {},
        ValModel::Bin(_) => {},
        ValModel::List(_) => {},
        ValModel::Object(_) => {},
    }
}

/// Decoding an encoded string from the front of a byte sequence yields
/// the string and consumes exactly its encoding.
proof fn lemma_dec_enc_str(s: Seq<char>, rest: Seq<u8>)
    requires
        encode_utf8(s).len() <= max_len(),
    ensures
        dec_value(enc_str(s) + rest) == Some((ValModel::Text(s), enc_str(s).len() as int)),
{
    let e = enc_str(s);
    let b = e + rest;
    let u = encode_utf8(s);
    let l32 = u.len() as u32;
    assert(e.len() == 5 + u.len());
    assert(b[0] == 0xdbu8);
    assert(b.subrange(1, 5) =~= be32(l32));
    lemma_be32_roundtrip(l32);
    assert(l32 as int == u.len() as int);
    assert(b.subrange(5, 5 + u.len() as int) =~= u);
    assert(valid_utf8(u));
    assert(decode_utf8(u) == s);
    assert(dec_str_payload(b, 5, u.len() as int)
        == Some((ValModel::Text(s), e.len() as int)));
}

/// Decoding the encoding of a well-formed value, with anything after it,
/// yields the value back and consumes exactly its encoding.
#[verifier::rlimit(50)]
proof fn lemma_dec_enc_value(v: ValModel, rest: Seq<u8>)
    requires
        val_wf(v),
    ensures
        dec_value(enc_value(v) + rest) == Some((v, enc_value(v).len() as int)),
    decreases v, 0int,
{
    let e = enc_value(v);
    let b = e + rest;
    match v {
        ValModel::Null => {
            assert(b[0] == 0xc0u8);
        },
        ValModel::Bool(x) => {
            if x {
                assert(b[0] == 0xc3u8);
            } else {
                assert(b[0] == 0xc2u8);
            }
        },
        ValModel::Int(i) => {
            assert(e.len() == 9);
            assert(b[0] == 0xd3u8);
            assert(b.subrange(1, 9) =~= be64(i as u64));
            lemma_be64_roundtrip(i as u64);
            assert((i as u64) as i64 == i) by (bit_vector);
        },
        ValModel::Float(bits) => {
            assert(e.len() == 9);
            assert(b[0] == 0xcbu8);
            assert(b.subrange(1, 9) =~= be64(bits));
            lemma_be64_roundtrip(bits);
        },
        ValModel::Text(s) => {
            lemma_dec_enc_str(s, rest);
            assert(e == enc_str(s));
        },
        ValModel::Bin(bb) => {
            let l32 = bb.len() as u32;
            assert(e.len() == 5 + bb.len());
            assert(b[0] == 0xc6u8);
            assert(b.subrange(1, 5) =~= be32(l32));
            lemma_be32_roundtrip(l32);
            assert(l32 as int == bb.len() as int);
            assert(b.subrange(5, 5 + bb.len() as int) =~= bb);
        },
        ValModel::List(items) => {
            let n = items.len() as int;
            assert(e == seq![0xddu8] + be32(items.len() as u32) + enc_items(items));
            assert(b[0] == 0xddu8);
            assert(b.subrange(1, 5) =~= be32(items.len() as u32));
            lemma_be32_roundtrip(items.len() as u32);
            assert(be32val(b.subrange(1, 5)) as int == n);
            assert(decreases_to!(v => v->List_0));
            lemma_dec_enc_items(items, rest);
            assert(b.skip(5) =~= enc_items(items) + rest);
            assert(dec_items(b.skip(5), n) == Some((items, enc_items(items).len() as int)));
            assert(e.len() as int == 5 + enc_items(items).len());
        },
        ValModel::Object(fields) => {
            let n = fields.len() as int;
            assert(e == seq![0xdfu8] + be32(fields.len() as u32) + enc_fields(fields));
            assert(b[0] == 0xdfu8);
            assert(b.subrange(1, 5) =~= be32(fields.len() as u32));
            lemma_be32_roundtrip(fields.len() as u32);
            assert(be32val(b.subrange(1, 5)) as int == n);
            assert(decreases_to!(v => v->Object_0));
            lemma_dec_enc_fields(fields, rest);
            assert(b.skip(5) =~= enc_fields(fields) + rest);
            assert(dec_fields(b.skip(5), n) == Some((fields, enc_fields(fields).len() as int)));
            assert(e.len() as int == 5 + enc_fields(fields).len());
        },
    }
}

/// Decoding `n` encoded values from the front yields them back.
proof fn lemma_dec_enc_items(items: Seq<ValModel>, rest: Seq<u8>)
    requires
        items_wf(items),
    ensures
        dec_items(enc_items(items) + rest, items.len() as int)
            == Some((items, enc_items(items).len() as int)),
    decreases items, 1int,
{
    let b = enc_items(items) + rest;
    if items.len() == 0 {
        assert(items =~= Seq::<ValModel>::empty());
        assert(enc_items(items) == Seq::<u8>::empty());
    } else {
        let first = items.first();
        let tail = items.drop_first();
        lemma_items_wf(items);
        lemma_items_wf(tail);
        assert(forall|i: int| 0 <= i < tail.len() ==> tail[i] == items[i + 1]);
        assert(val_wf(first));
        let e1 = enc_value(first);
        let erest = enc_items(tail);
        assert(enc_items(items) == e1 + erest);
        assert(b =~= e1 + (erest + rest));
        assert(decreases_to!(items => items[0]));
        lemma_dec_enc_value(first, erest + rest);
        assert(dec_value(b) == Some((first, e1.len() as int)));
        lemma_enc_value_len(first);
        let k1 = e1.len() as int;
        assert(1 <= k1 <= b.len());
        assert(b.skip(k1) =~= erest + rest);
        assert(tail == items.subrange(1, items.len() as int));
        assert(decreases_to!(items => items.subrange(1, items.len() as int)));
        lemma_dec_enc_items(tail, rest);
        assert(dec_items(b.skip(k1), items.len() - 1)
            == Some((tail, erest.len() as int)));
        assert(seq![first] + tail =~= items);
        assert(enc_items(items).len() == k1 + erest.len());
    }
}

/// Decoding `n` encoded key/value pairs from the front yields them back.
#[verifier::rlimit(50)]
proof fn lemma_dec_enc_fields(fields: Seq<(Seq<char>, ValModel)>, rest: Seq<u8>)
    requires
        fields_wf(fields),
    ensures
        dec_fields(enc_fields(fields) + rest, fields.len() as int)
            == Some((fields, enc_fields(fields).len() as int)),
    decreases fields, 1int,
{
    let b = enc_fields(fields) + rest;
    if fields.len() == 0 {
        assert(fields =~= Seq::<(Seq<char>, ValModel)>::empty());
        assert(enc_fields(fields) == Seq::<u8>::empty());
    } else {
        let key = fields.first().0;
        let val = fields.first().1;
        let tail = fields.drop_first();
        lemma_fields_wf(fields);
        lemma_fields_wf(tail);
        assert(forall|i: int| 0 <= i < tail.len() ==> tail[i] == fields[i + 1]);
        assert(encode_utf8(key).len() <= max_len());
        assert(val_wf(val));
        let ek = enc_str(key);
        let ev = enc_value(val);
        let erest = enc_fields(tail);
        assert(enc_fields(fields) == ek + ev + erest);
        assert(b =~= ek + (ev + (erest + rest)));
        lemma_dec_enc_str(key, ev + (erest + rest));
        assert(dec_value(b) == Some((ValModel::Text(key), ek.len() as int)));
        let k1 = ek.len() as int;
        assert(1 <= k1 <= b.len());
        assert(b.skip(k1) =~= ev + (erest + rest));
        assert(decreases_to!(fields => fields[0]));
        assert(decreases_to!(fields[0] => fields[0].1));
        lemma_dec_enc_value(val, erest + rest);
        assert(dec_value(b.skip(k1)) == Some((val, ev.len() as int)));
        lemma_enc_value_len(val);
        let k2 = ev.len() as int;
        assert(1 <= k2 <= b.skip(k1).len());
        assert(b.skip(k1 + k2) =~= erest + rest);
        assert(tail == fields.subrange(1, fields.len() as int));
        assert(decreases_to!(fields => fields.subrange(1, fields.len() as int)));
        lemma_dec_enc_fields(tail, rest);
        assert(dec_fields(b.skip(k1 + k2), fields.len() - 1)
            == Some((tail, erest.len() as int)));
        assert(seq![(key, val)] + tail =~= fields);
        assert(enc_fields(fields).len() == k1 + k2 + erest.len());
    }
}

/// Round-trip law of the wire format: decoding the encoding of any
/// well-formed value yields the value back, consuming the whole encoding.
pub proof fn lemma_codec_round_trip(v: ValModel)
    requires
        val_wf(v),
    ensures
        dec_value(enc_value(v)) == Some((v, enc_value(v).len() as int)),
{
    lemma_dec_enc_value(v, Seq::empty());
    assert(enc_value(v) + Seq::<u8>::empty() =~= enc_value(v));
}

} // verus!

verus! {

/// Appends the big-endian bytes of a 32-bit number.
fn push_be32(out: &mut Vec<u8>, n: u32)
    ensures
        final(out)@ == old(out)@ + be32(n),
{
    out.push((n >> 24) as u8);
    out.push((n >> 16) as u8);
    out.push((n >> 8) as u8);
    out.push(n as u8);
    proof {
        assert(final(out)@ =~= old(out)@ + be32(n));
    }
}

/// Appends the big-endian bytes of a 64-bit number.
fn push_be64(out: &mut Vec<u8>, n: u64)
    ensures
        final(out)@ == old(out)@ + be64(n),
{
    out.push((n >> 56) as u8);
    out.push((n >> 48) as u8);
    out.push((n >> 40) as u8);
    out.push((n >> 32) as u8);
    out.push((n >> 24) as u8);
    out.push((n >> 16) as u8);
    out.push((n >> 8) as u8);
    out.push(n as u8);
    proof {
        assert(final(out)@ =~= old(out)@ + be64(n));
    }
}

/// Appends a byte slice.
fn push_bytes(out: &mut Vec<u8>, b: &[u8])
    ensures
        final(out)@ == old(out)@ + b@,
{
    out.extend_from_slice(b);
    proof {
        assert forall|i: int| 0 <= i < b@.len()
            implies final(out)@[old(out)@.len() + i] == b@[i] by {
            assert(cloned::<u8>(b@[i], final(out)@[old(out)@.len() + i]));
        }
        assert(final(out)@ =~= old(out)@ + b@);
    }
}

/// Appends the encoding of a string: str 32 header, then UTF-8 bytes.
/// Fails when the string is longer than the 32-bit format carries.
fn emit_str(s: &str, out: &mut Vec<u8>) -> (r: Result<(), VmpError>)
    ensures
        r is Ok ==> encode_utf8(s@).len() <= max_len()
            && final(out)@ == old(out)@ + enc_str(s@),
        r is Err ==> encode_utf8(s@).len() > max_len()
            && final(out)@ == old(out)@,
        r matches Err(e) ==> e is Serialization,
{
    let bytes = s.as_bytes();
    if bytes.len() > 0xffff_ffffusize {
        return Err(VmpError::Serialization("string is too long to encode".to_owned()));
    }
    out.push(0xdb);
    push_be32(out, bytes.len() as u32);
    push_bytes(out, bytes);
    proof {
        assert(final(out)@ =~= old(out)@ + enc_str(s@));
    }
    Ok(())
}

/// Appends the encoding of a value. Fails exactly when the value is not
/// well-formed, that is, some part of it overflows the 32-bit formats.
pub fn emit_value(v: &DynValue, out: &mut Vec<u8>) -> (r: Result<(), VmpError>)
    ensures
        r is Ok ==> val_wf(v.deep_view())
            && final(out)@ == old(out)@ + enc_value(v.deep_view()),
        r is Err ==> !val_wf(v.deep_view())
            && old(out)@.is_prefix_of(final(out)@),
        r matches Err(e) ==> e is Serialization,
    decreases *v,
{
    match v {
        DynValue::Null => {
            out.push(0xc0);
            proof {
                assert(final(out)@ =~= old(out)@ + enc_value(v.deep_view()));
            }
            Ok(())
        },
        DynValue::Bool(x) => {
            out.push(if *x { 0xc3 } else { 0xc2 });
            proof {
                assert(final(out)@ =~= old(out)@ + enc_value(v.deep_view()));
            }
            Ok(())
        },
        DynValue::Int(i) => {
            out.push(0xd3);
            push_be64(out, *i as u64);
            proof {
                assert(final(out)@ =~= old(out)@ + enc_value(v.deep_view()));
            }
            Ok(())
        },
        DynValue::Float(bits) => {
            out.push(0xcb);
            push_be64(out, *bits);
            proof {
                assert(final(out)@ =~= old(out)@ + enc_value(v.deep_view()));
            }
            Ok(())
        },
        DynValue::Text(s) => {
            let r = emit_str(s.as_str(), out);
            proof {
                if r is Ok {
                    assert(final(out)@ =~= old(out)@ + enc_value(v.deep_view()));
                } else {
                    assert(old(out)@.is_prefix_of(final(out)@));
                }
            }
            r
        },
        DynValue::Bin(bb) => {
            if bb.len() > 0xffff_ffffusize {
                return Err(VmpError::Serialization(
                    "byte string is too long to encode".to_owned(),
                ));
            }
            out.push(0xc6);
            push_be32(out, bb.len() as u32);
            push_bytes(out, bb.as_slice());
            proof {
                assert(final(out)@ =~= old(out)@ + enc_value(v.deep_view()));
            }
            Ok(())
        },
        DynValue::List(items) => {
            if items.len() > 0xffff_ffffusize {
                proof {
                    lemma_view_items(items@);
                }
                return Err(VmpError::Serialization(
                    "sequence is too long to encode".to_owned(),
                ));
            }
            let ghost m = view_items(items@);
            proof {
                lemma_view_items(items@);
            }
            out.push(0xdd);
            push_be32(out, items.len() as u32);
            let ghost header = old(out)@ + seq![0xddu8] + be32(items@.len() as u32);
            let mut i: usize = 0;
            while i < items.len()
                invariant
                    i <= items@.len(),
                    *v == DynValue::List(*items),
                    m == view_items(items@),
                    m.len() == items@.len(),
                    items@.len() <= max_len(),
                    forall|j: int| 0 <= j < items@.len() ==> m[j] == view_value(items@[j]),
                    header == old(out)@ + seq![0xddu8] + be32(items@.len() as u32),
                    out@ == header + enc_items(m.subrange(0, i as int)),
                    items_wf(m.subrange(0, i as int)),
                decreases items@.len() - i,
            {
                let elem = &items[i];
                proof {
                    assert(decreases_to!(*v => v->List_0));
                    assert(decreases_to!(v->List_0 => (v->List_0)@));
                    assert(decreases_to!((v->List_0)@ => (v->List_0)@[i as int]));
                    assert(decreases_to!(*v => *elem));
                }
                let ghost out_before = out@;
                match emit_value(elem, out) {
                    Ok(()) => {},
                    Err(e) => {
                        proof {
                            lemma_items_wf(m);
                            assert(!val_wf(m[i as int]));
                            assert(!items_wf(m));
                            assert(old(out)@.is_prefix_of(out@));
                        }
                        return Err(e);
                    },
                }
                proof {
                    lemma_enc_items_push(m.subrange(0, i as int), m[i as int]);
                    assert(m.subrange(0, i as int).push(m[i as int])
                        =~= m.subrange(0, i as int + 1));
                    assert(out@ =~= header + enc_items(m.subrange(0, i as int + 1)));
                    lemma_items_wf(m.subrange(0, i as int));
                    lemma_items_wf(m.subrange(0, i as int + 1));
                }
                i = i + 1;
            }
            proof {
                assert(m.subrange(0, m.len() as int) =~= m);
                assert(out@ =~= old(out)@ + enc_value(v.deep_view()));
            }
            Ok(())
        },
        DynValue::Object(fields) => {
            if fields.len() > 0xffff_ffffusize {
                proof {
                    lemma_view_fields(fields@);
                }
                return Err(VmpError::Serialization(
                    "mapping is too long to encode".to_owned(),
                ));
            }
            let ghost m = view_fields(fields@);
            proof {
                lemma_view_fields(fields@);
            }
            out.push(0xdf);
            push_be32(out, fields.len() as u32);
            let ghost header = old(out)@ + seq![0xdfu8] + be32(fields@.len() as u32);
            let mut i: usize = 0;
            while i < fields.len()
                invariant
                    i <= fields@.len(),
                    *v == DynValue::Object(*fields),
                    m == view_fields(fields@),
                    m.len() == fields@.len(),
                    fields@.len() <= max_len(),
                    forall|j: int| 0 <= j < fields@.len()
                        ==> m[j] == (fields@[j].0@, view_value(fields@[j].1)),
                    header == old(out)@ + seq![0xdfu8] + be32(fields@.len() as u32),
                    out@ == header + enc_fields(m.subrange(0, i as int)),
                    fields_wf(m.subrange(0, i as int)),
                decreases fields@.len() - i,
            {
                let kv = &fields[i];
                proof {
                    assert(decreases_to!(*v => v->Object_0));
                    assert(decreases_to!(v->Object_0 => (v->Object_0)@));
                    assert(decreases_to!((v->Object_0)@ => (v->Object_0)@[i as int]));
                    assert(decreases_to!((v->Object_0)@[i as int]
                        => (v->Object_0)@[i as int].1));
                    assert(decreases_to!(*v => kv.1));
                }
                match emit_str(kv.0.as_str(), out) {
                    Ok(()) => {},
                    Err(e) => {
                        proof {
                            lemma_fields_wf(m);
                            assert(encode_utf8(m[i as int].0).len() > max_len());
                            assert(!fields_wf(m));
                            assert(old(out)@.is_prefix_of(out@));
                        }
                        return Err(e);
                    },
                }
                match emit_value(&kv.1, out) {
                    Ok(()) => {},
                    Err(e) => {
                        proof {
                            lemma_fields_wf(m);
                            assert(!val_wf(m[i as int].1));
                            assert(!fields_wf(m));
                            assert(old(out)@.is_prefix_of(out@));
                        }
                        return Err(e);
                    },
                }
                proof {
                    lemma_enc_fields_push(m.subrange(0, i as int),
                        m[i as int].0, m[i as int].1);
                    assert(m.subrange(0, i as int).push((m[i as int].0, m[i as int].1))
                        =~= m.subrange(0, i as int + 1));
                    assert(out@ =~= header + enc_fields(m.subrange(0, i as int + 1)));
                    lemma_fields_wf(m.subrange(0, i as int));
                    lemma_fields_wf(m.subrange(0, i as int + 1));
                }
                i = i + 1;
            }
            proof {
                assert(m.subrange(0, m.len() as int) =~= m);
                assert(out@ =~= old(out)@ + enc_value(v.deep_view()));
            }
            Ok(())
        },
    }
}

/// Encodes a value to its canonical wire bytes. Fails exactly when the
/// value is not well-formed (a part overflows the 32-bit wire formats).
pub fn encode_value(v: &DynValue) -> (r: Result<Vec<u8>, VmpError>)
    ensures
        match r {
            Ok(out) => val_wf(v.deep_view()) && out@ == enc_value(v.deep_view()),
            Err(e) => !val_wf(v.deep_view()) && e is Serialization,
        },
{
    let mut out: Vec<u8> = Vec::new();
    match emit_value(v, &mut out) {
        Ok(()) => {
            proof {
                assert(out@ =~= enc_value(v.deep_view()));
            }
            Ok(out)
        },
        Err(e) => Err(e),
    }
}

} // verus!

verus! {

/// Relies on String::from_utf8: returns the string whose UTF-8 encoding
/// is the given byte sequence, or nothing when it is not valid UTF-8.
#[verifier::external_body]
fn string_from_utf8(bytes: Vec<u8>) -> (r: Option<String>)
    ensures
        match r {
            Some(s) => valid_utf8(bytes@) && s@ == decode_utf8(bytes@),
            None => !valid_utf8(bytes@),
        },
{
    String::from_utf8(bytes).ok()
}

/// Reads two big-endian bytes at `pos`.
fn read_be16(b: &[u8], pos: usize) -> (r: u16)
    requires
        pos + 2 <= b@.len(),
    ensures
        r == be16val(b@.subrange(pos as int, pos + 2)),
{
    (b[pos] as u16) << 8 | (b[pos + 1] as u16)
}

/// Reads four big-endian bytes at `pos`.
fn read_be32(b: &[u8], pos: usize) -> (r: u32)
    requires
        pos + 4 <= b@.len(),
    ensures
        r == be32val(b@.subrange(pos as int, pos + 4)),
{
    (b[pos] as u32) << 24 | (b[pos + 1] as u32) << 16 | (b[pos + 2] as u32) << 8
        | (b[pos + 3] as u32)
}

/// Reads eight big-endian bytes at `pos`.
fn read_be64(b: &[u8], pos: usize) -> (r: u64)
    requires
        pos + 8 <= b@.len(),
    ensures
        r == be64val(b@.subrange(pos as int, pos + 8)),
{
    (b[pos] as u64) << 56 | (b[pos + 1] as u64) << 48 | (b[pos + 2] as u64) << 40
        | (b[pos + 3] as u64) << 32 | (b[pos + 4] as u64) << 24 | (b[pos + 5] as u64) << 16
        | (b[pos + 6] as u64) << 8 | (b[pos + 7] as u64)
}

/// The deserialization failure used for undecodable bytes.
fn dec_err() -> (r: VmpError)
    ensures
        r is Deserialization,
{
    VmpError::Deserialization("bytes do not hold a value in the wire format".to_owned())
}

/// Decodes a string payload of `l` bytes after a header of `hdr` bytes
/// at `pos`.
fn parse_str_payload(b: &[u8], pos: usize, hdr: usize, l: usize)
    -> (r: Result<(String, usize), VmpError>)
    requires
        pos + hdr <= b@.len(),
    ensures
        match r {
            Ok((s, np)) => np == pos + hdr + l && np <= b@.len()
                && dec_str_payload(b@.skip(pos as int), hdr as int, l as int)
                    == Some((ValModel::Text(s@), hdr + l as int)),
            Err(e) => dec_str_payload(b@.skip(pos as int), hdr as int, l as int) is None
                && e is Deserialization,
        },
{
    let avail = b.len() - pos;
    if l > avail - hdr {
        return Err(dec_err());
    }
    let payload = vstd::slice::slice_subrange(b, pos + hdr, pos + hdr + l);
    let bytes = vstd::slice::slice_to_vec(payload);
    proof {
        assert(bytes@ =~= b@.skip(pos as int).subrange(hdr as int, hdr + l as int));
    }
    match string_from_utf8(bytes) {
        Some(s) => Ok((s, pos + hdr + l)),
        None => Err(dec_err()),
    }
}

/// Decodes a byte-string payload of `l` bytes after a header of `hdr`
/// bytes at `pos`.
fn parse_bin_payload(b: &[u8], pos: usize, hdr: usize, l: usize)
    -> (r: Result<(Vec<u8>, usize), VmpError>)
    requires
        pos + hdr <= b@.len(),
    ensures
        match r {
            Ok((bb, np)) => np == pos + hdr + l && np <= b@.len()
                && dec_bin_payload(b@.skip(pos as int), hdr as int, l as int)
                    == Some((ValModel::Bin(bb@), hdr + l as int)),
            Err(e) => dec_bin_payload(b@.skip(pos as int), hdr as int, l as int) is None
                && e is Deserialization,
        },
{
    let avail = b.len() - pos;
    if l > avail - hdr {
        return Err(dec_err());
    }
    let payload = vstd::slice::slice_subrange(b, pos + hdr, pos + hdr + l);
    let bytes = vstd::slice::slice_to_vec(payload);
    proof {
        assert(bytes@ =~= b@.skip(pos as int).subrange(hdr as int, hdr + l as int));
    }
    Ok((bytes, pos + hdr + l))
}

/// Decodes one value at `pos`, returning it with the position after it.
#[verifier::rlimit(100)]
pub fn parse_value(b: &[u8], pos: usize) -> (r: Result<(DynValue, usize), VmpError>)
    requires
        pos <= b@.len(),
    ensures
        match r {
            Ok((v, np)) => pos < np <= b@.len()
                && dec_value(b@.skip(pos as int)) == Some((v.deep_view(), np - pos)),
            Err(e) => dec_value(b@.skip(pos as int)) is None && e is Deserialization,
        },
    decreases b@.len() - pos, 0int, 1int,
{
    let ghost s = b@.skip(pos as int);
    let avail = b.len() - pos;
    if avail < 1 {
        return Err(dec_err());
    }
    let c = b[pos];
    proof {
        assert(s[0] == c);
    }
    if c <= 0x7f {
        Ok((DynValue::Int(c as i64), pos + 1))
    } else if c <= 0x8f {
        let n = (c - 0x80) as usize;
        let (fields, np) = match parse_fields(b, pos + 1, n) {
            Ok(x) => x,
            Err(e) => {
                proof {
                    assert(s.skip(1) =~= b@.skip(pos + 1));
                }
                return Err(e);
            },
        };
        proof {
            assert(s.skip(1) =~= b@.skip(pos + 1));
        }
        Ok((DynValue::Object(fields), np))
    } else if c <= 0x9f {
        let n = (c - 0x90) as usize;
        let (items, np) = match parse_items(b, pos + 1, n) {
            Ok(x) => x,
            Err(e) => {
                proof {
                    assert(s.skip(1) =~= b@.skip(pos + 1));
                }
                return Err(e);
            },
        };
        proof {
            assert(s.skip(1) =~= b@.skip(pos + 1));
        }
        Ok((DynValue::List(items), np))
    } else if c <= 0xbf {
        let l = (c - 0xa0) as usize;
        let (st, np) = match parse_str_payload(b, pos, 1, l) {
            Ok(x) => x,
            Err(e) => { return Err(e); },
        };
        Ok((DynValue::Text(st), np))
    } else if c == 0xc0 {
        Ok((DynValue::Null, pos + 1))
    } else if c == 0xc2 {
        Ok((DynValue::Bool(false), pos + 1))
    } else if c == 0xc3 {
        Ok((DynValue::Bool(true), pos + 1))
    } else if c == 0xc4 {
        if avail < 2 {
            return Err(dec_err());
        }
        let l = b[pos + 1] as usize;
        proof {
            assert(s[1] == b@[pos + 1]);
        }
        let (bb, np) = match parse_bin_payload(b, pos, 2, l) {
            Ok(x) => x,
            Err(e) => { return Err(e); },
        };
        Ok((DynValue::Bin(bb), np))
    } else if c == 0xc5 {
        if avail < 3 {
            return Err(dec_err());
        }
        let l = read_be16(b, pos + 1) as usize;
        proof {
            assert(s.subrange(1, 3) =~= b@.subrange(pos + 1, pos + 3));
        }
        let (bb, np) = match parse_bin_payload(b, pos, 3, l) {
            Ok(x) => x,
            Err(e) => { return Err(e); },
        };
        Ok((DynValue::Bin(bb), np))
    } else if c == 0xc6 {
        if avail < 5 {
            return Err(dec_err());
        }
        let l = read_be32(b, pos + 1) as usize;
        proof {
            assert(s.subrange(1, 5) =~= b@.subrange(pos + 1, pos + 5));
        }
        let (bb, np) = match parse_bin_payload(b, pos, 5, l) {
            Ok(x) => x,
            Err(e) => { return Err(e); },
        };
        Ok((DynValue::Bin(bb), np))
    } else if c == 0xcb {
        if avail < 9 {
            return Err(dec_err());
        }
        let bits = read_be64(b, pos + 1);
        proof {
            assert(s.subrange(1, 9) =~= b@.subrange(pos + 1, pos + 9));
        }
        Ok((DynValue::Float(bits), pos + 9))
    } else if c == 0xcc {
        if avail < 2 {
            return Err(dec_err());
        }
        proof {
            assert(s[1] == b@[pos + 1]);
        }
        Ok((DynValue::Int(b[pos + 1] as i64), pos + 2))
    } else if c == 0xcd {
        if avail < 3 {
            return Err(dec_err());
        }
        let x = read_be16(b, pos + 1);
        proof {
            assert(s.subrange(1, 3) =~= b@.subrange(pos + 1, pos + 3));
        }
        Ok((DynValue::Int(x as i64), pos + 3))
    } else if c == 0xce {
        if avail < 5 {
            return Err(dec_err());
        }
        let x = read_be32(b, pos + 1);
        proof {
            assert(s.subrange(1, 5) =~= b@.subrange(pos + 1, pos + 5));
        }
        Ok((DynValue::Int(x as i64), pos + 5))
    } else if c == 0xcf {
        if avail < 9 {
            return Err(dec_err());
        }
        let x = read_be64(b, pos + 1);
        proof {
            assert(s.subrange(1, 9) =~= b@.subrange(pos + 1, pos + 9));
        }
        if x <= i64::MAX as u64 {
            Ok((DynValue::Int(#[verifier::truncate] (x as i64)), pos + 9))
        } else {
            Err(dec_err())
        }
    } else if c == 0xd0 {
        if avail < 2 {
            return Err(dec_err());
        }
        proof {
            assert(s[1] == b@[pos + 1]);
        }
        Ok((DynValue::Int((#[verifier::truncate] (b[pos + 1] as i8)) as i64), pos + 2))
    } else if c == 0xd1 {
        if avail < 3 {
            return Err(dec_err());
        }
        let x = read_be16(b, pos + 1);
        proof {
            assert(s.subrange(1, 3) =~= b@.subrange(pos + 1, pos + 3));
        }
        Ok((DynValue::Int((#[verifier::truncate] (x as i16)) as i64), pos + 3))
    } else if c == 0xd2 {
        if avail < 5 {
            return Err(dec_err());
        }
        let x = read_be32(b, pos + 1);
        proof {
            assert(s.subrange(1, 5) =~= b@.subrange(pos + 1, pos + 5));
        }
        Ok((DynValue::Int((#[verifier::truncate] (x as i32)) as i64), pos + 5))
    } else if c == 0xd3 {
        if avail < 9 {
            return Err(dec_err());
        }
        let x = read_be64(b, pos + 1);
        proof {
            assert(s.subrange(1, 9) =~= b@.subrange(pos + 1, pos + 9));
        }
        Ok((DynValue::Int(#[verifier::truncate] (x as i64)), pos + 9))
    } else if c == 0xd9 {
        if avail < 2 {
            return Err(dec_err());
        }
        let l = b[pos + 1] as usize;
        proof {
            assert(s[1] == b@[pos + 1]);
        }
        let (st, np) = match parse_str_payload(b, pos, 2, l) {
            Ok(x) => x,
            Err(e) => { return Err(e); },
        };
        Ok((DynValue::Text(st), np))
    } else if c == 0xda {
        if avail < 3 {
            return Err(dec_err());
        }
        let l = read_be16(b, pos + 1) as usize;
        proof {
            assert(s.subrange(1, 3) =~= b@.subrange(pos + 1, pos + 3));
        }
        let (st, np) = match parse_str_payload(b, pos, 3, l) {
            Ok(x) => x,
            Err(e) => { return Err(e); },
        };
        Ok((DynValue::Text(st), np))
    } else if c == 0xdb {
        if avail < 5 {
            return Err(dec_err());
        }
        let l = read_be32(b, pos + 1) as usize;
        proof {
            assert(s.subrange(1, 5) =~= b@.subrange(pos + 1, pos + 5));
        }
        let (st, np) = match parse_str_payload(b, pos, 5, l) {
            Ok(x) => x,
            Err(e) => { return Err(e); },
        };
        Ok((DynValue::Text(st), np))
    } else if c == 0xdc {
        if avail < 3 {
            return Err(dec_err());
        }
        let n = read_be16(b, pos + 1) as usize;
        proof {
            assert(s.subrange(1, 3) =~= b@.subrange(pos + 1, pos + 3));
            assert(s.skip(3) =~= b@.skip(pos + 3));
        }
        let (items, np) = match parse_items(b, pos + 3, n) {
            Ok(x) => x,
            Err(e) => { return Err(e); },
        };
        Ok((DynValue::List(items), np))
    } else if c == 0xdd {
        if avail < 5 {
            return Err(dec_err());
        }
        let n = read_be32(b, pos + 1) as usize;
        proof {
            assert(s.subrange(1, 5) =~= b@.subrange(pos + 1, pos + 5));
            assert(s.skip(5) =~= b@.skip(pos + 5));
        }
        let (items, np) = match parse_items(b, pos + 5, n) {
            Ok(x) => x,
            Err(e) => { return Err(e); },
        };
        Ok((DynValue::List(items), np))
    } else if c == 0xde {
        if avail < 3 {
            return Err(dec_err());
        }
        let n = read_be16(b, pos + 1) as usize;
        proof {
            assert(s.subrange(1, 3) =~= b@.subrange(pos + 1, pos + 3));
            assert(s.skip(3) =~= b@.skip(pos + 3));
        }
        let (fields, np) = match parse_fields(b, pos + 3, n) {
            Ok(x) => x,
            Err(e) => { return Err(e); },
        };
        Ok((DynValue::Object(fields), np))
    } else if c == 0xdf {
        if avail < 5 {
            return Err(dec_err());
        }
        let n = read_be32(b, pos + 1) as usize;
        proof {
            assert(s.subrange(1, 5) =~= b@.subrange(pos + 1, pos + 5));
            assert(s.skip(5) =~= b@.skip(pos + 5));
        }
        let (fields, np) = match parse_fields(b, pos + 5, n) {
            Ok(x) => x,
            Err(e) => { return Err(e); },
        };
        Ok((DynValue::Object(fields), np))
    } else if 0xe0 <= c {
        Ok((DynValue::Int((#[verifier::truncate] (c as i8)) as i64), pos + 1))
    } else {
        Err(dec_err())
    }
}

/// Decodes `n` consecutive values starting at `pos`.
#[verifier::rlimit(50)]
pub fn parse_items(b: &[u8], pos: usize, n: usize) -> (r: Result<(Vec<DynValue>, usize), VmpError>)
    requires
        pos <= b@.len(),
    ensures
        match r {
            Ok((vs, np)) => pos <= np <= b@.len() && vs@.len() == n
                && dec_items(b@.skip(pos as int), n as int)
                    == Some((view_items(vs@), np - pos)),
            Err(e) => dec_items(b@.skip(pos as int), n as int) is None
                && e is Deserialization,
        },
    decreases b@.len() - pos, n, 0int,
{
    let ghost s = b@.skip(pos as int);
    if n == 0 {
        let vs: Vec<DynValue> = Vec::new();
        proof {
            assert(view_items(vs@) =~= Seq::<ValModel>::empty());
        }
        Ok((vs, pos))
    } else {
        let (v, p2) = match parse_value(b, pos) {
            Ok(x) => x,
            Err(e) => { return Err(e); },
        };
        proof {
            assert(s.skip(p2 - pos) =~= b@.skip(p2 as int));
        }
        let (mut vs, p3) = match parse_items(b, p2, n - 1) {
            Ok(x) => x,
            Err(e) => { return Err(e); },
        };
        let ghost vs_before = vs@;
        vs.insert(0, v);
        proof {
            lemma_view_items(vs@);
            lemma_view_items(vs_before);
            assert(view_items(vs@) =~= seq![v.deep_view()] + view_items(vs_before));
        }
        Ok((vs, p3))
    }
}

/// Decodes `n` consecutive key/value pairs starting at `pos`.
#[verifier::rlimit(50)]
pub fn parse_fields(b: &[u8], pos: usize, n: usize)
    -> (r: Result<(Vec<(String, DynValue)>, usize), VmpError>)
    requires
        pos <= b@.len(),
    ensures
        match r {
            Ok((fs, np)) => pos <= np <= b@.len() && fs@.len() == n
                && dec_fields(b@.skip(pos as int), n as int)
                    == Some((view_fields(fs@), np - pos)),
            Err(e) => dec_fields(b@.skip(pos as int), n as int) is None
                && e is Deserialization,
        },
    decreases b@.len() - pos, n, 0int,
{
    let ghost s = b@.skip(pos as int);
    if n == 0 {
        let fs: Vec<(String, DynValue)> = Vec::new();
        proof {
            assert(view_fields(fs@) =~= Seq::<(Seq<char>, ValModel)>::empty());
        }
        Ok((fs, pos))
    } else {
        let (kv, p2) = match parse_value(b, pos) {
            Ok(x) => x,
            Err(e) => { return Err(e); },
        };
        let key = match kv {
            DynValue::Text(st) => st,
            _ => { return Err(dec_err()); },
        };
        proof {
            assert(s.skip(p2 - pos) =~= b@.skip(p2 as int));
        }
        let (v, p3) = match parse_value(b, p2) {
            Ok(x) => x,
            Err(e) => { return Err(e); },
        };
        proof {
            assert(s.skip(p3 - pos) =~= b@.skip(p3 as int));
        }
        let (mut fs, p4) = match parse_fields(b, p3, n - 1) {
            Ok(x) => x,
            Err(e) => { return Err(e); },
        };
        let ghost fs_before = fs@;
        fs.insert(0, (key, v));
        proof {
            lemma_view_fields(fs@);
            lemma_view_fields(fs_before);
            assert(view_fields(fs@)
                =~= seq![(key@, v.deep_view())] + view_fields(fs_before));
        }
        Ok((fs, p4))
    }
}

/// Decodes one value from the whole byte sequence; trailing bytes after
/// the value are an error.
pub fn decode_value(bytes: &[u8]) -> (r: Result<DynValue, VmpError>)
    ensures
        match r {
            Ok(v) => dec_value(bytes@) == Some((v.deep_view(), bytes@.len() as int)),
            Err(e) => e is Deserialization
                && !(dec_value(bytes@) matches Some((m, k)) && k == bytes@.len()),
        },
{
    proof {
        assert(bytes@.skip(0) =~= bytes@);
    }
    match parse_value(bytes, 0) {
        Ok((v, np)) => {
            if np == bytes.len() {
                Ok(v)
            } else {
                Err(VmpError::Deserialization(
                    "trailing bytes after the encoded value".to_owned(),
                ))
            }
        },
        Err(e) => Err(e),
    }
}

} // verus!
