use vuer_rpc::deserializer::{
    bytes_to_zdata, deserialize, deserialize_component, deserialize_from_base64,
    deserialize_message, validate_message, DeserializeOptions,
};
use vuer_rpc::serializer::{
    serialize, serialize_component, serialize_message, serialize_to_base64, zdata_to_bytes,
    SerializeOptions,
};
use vuer_rpc::types::{Message, VuerComponent};
use vuer_rpc::value::DynValue;
use vuer_rpc::zdata::ZData;
use base64::Engine;

fn obj(pairs: Vec<(&str, DynValue)>) -> DynValue {
    DynValue::Object(pairs.into_iter().map(|(k, v)| (k.to_string(), v)).collect())
}

fn text(s: &str) -> DynValue {
    DynValue::Text(s.to_string())
}

#[test]
fn test_serialize_message() {
    let mut msg = Message::new("TEST_EVENT");
    msg.data = Some(obj(vec![("foo", text("bar"))]));

    let bytes = serialize_message(&msg).unwrap();
    assert!(!bytes.is_empty());
}

#[test]
fn test_serialize_component() {
    let component = VuerComponent::new("scene").with_prop("background", text("#000000"));

    let bytes = serialize_component(&component).unwrap();
    assert!(!bytes.is_empty());
}

#[test]
fn test_zdata_to_bytes() {
    let zdata = ZData::new("test.Type").with_binary(vec![1, 2, 3, 4]);

    let bytes = zdata_to_bytes(&zdata).unwrap();
    assert!(!bytes.is_empty());
}

#[test]
fn test_deserialize_message() {
    let msg = Message::new("TEST_EVENT").with_data(text("test value"));

    let bytes = serialize_message(&msg).unwrap();
    let deserialized: Message = deserialize_message(&bytes).unwrap();

    assert_eq!(msg.etype, deserialized.etype);
    assert_eq!(msg.ts, deserialized.ts);
    assert_eq!(msg, deserialized);
}

#[test]
fn test_roundtrip_component() {
    let component = VuerComponent::new("scene").with_prop("background", text("#000000"));

    let bytes = serialize_component(&component).unwrap();
    let deserialized = deserialize_component(&bytes).unwrap();

    assert_eq!(component, deserialized);
}

#[test]
fn test_validate_message() {
    let valid_msg = Message::new("TEST");
    assert!(validate_message(&valid_msg).is_ok());

    let mut invalid_msg = Message::new("");
    assert!(validate_message(&invalid_msg).is_err());

    invalid_msg.etype = "TEST".to_string();
    invalid_msg.args = Some(vec![]);
    // Missing rtype for RPC
    assert!(validate_message(&invalid_msg).is_err());
}

#[test]
fn test_validate_message_kwargs_without_rtype() {
    let mut msg = Message::new("TEST");
    msg.kwargs = Some(vec![("k".to_string(), DynValue::Int(1))]);
    assert!(validate_message(&msg).is_err());
    msg.rtype = Some("rpc-1".to_string());
    assert!(validate_message(&msg).is_ok());
}

#[test]
fn test_basic_workflow() {
    let msg = Message::new("TEST_EVENT").with_data(text("simple string"));

    println!("Original message: {:?}", msg);

    let bytes = serialize_message(&msg).unwrap();
    println!("Serialized bytes: {:?}", bytes);
    println!("Bytes length: {}", bytes.len());

    let restored: Message = deserialize_message(&bytes).unwrap();
    println!("Restored message: {:?}", restored);

    assert_eq!(msg.etype, restored.etype);
    assert_eq!(msg.ts, restored.ts);
}

#[test]
fn test_message_with_object() {
    let msg = Message::new("TEST_EVENT");

    let bytes = serialize_message(&msg).unwrap();

    let restored: Message = deserialize_message(&bytes).unwrap();

    assert_eq!(msg.etype, restored.etype);
}

#[test]
fn test_component_tree() {
    let child = VuerComponent::new("sphere").with_prop("radius", DynValue::Float(1.0f64.to_bits()));

    let component = VuerComponent::new("scene")
        .with_child(child)
        .with_prop("background", text("#000000"));

    let bytes = serialize_component(&component).unwrap();
    let restored = deserialize_component(&bytes).unwrap();

    assert_eq!(component, restored);
}

#[test]
fn test_zdata_encoding() {
    let zdata = ZData::new("test.Type")
        .with_binary(vec![1, 2, 3, 4])
        .with_dtype("uint8")
        .with_shape(vec![2, 2]);

    let bytes = zdata_to_bytes(&zdata).unwrap();
    let restored = bytes_to_zdata(&bytes).unwrap();

    assert_eq!(zdata, restored);
}

#[test]
fn test_value_roundtrip_all_kinds() {
    let v = obj(vec![
        ("null", DynValue::Null),
        ("flag", DynValue::Bool(true)),
        ("min", DynValue::Int(i64::MIN)),
        ("max", DynValue::Int(i64::MAX)),
        ("pi", DynValue::Float(3.25f64.to_bits())),
        ("text", text("héllo")),
        ("bytes", DynValue::Bin(vec![0, 255, 7])),
        (
            "list",
            DynValue::List(vec![DynValue::Int(1), DynValue::Int(-2), text("x")]),
        ),
        ("nested", obj(vec![("k", text("v"))])),
    ]);
    let bytes = serialize(&v).unwrap();
    let back = deserialize(&bytes).unwrap();
    assert_eq!(v, back);
}

#[test]
fn test_exact_encoding_of_null() {
    assert_eq!(serialize(&DynValue::Null).unwrap(), vec![0xc0]);
    assert_eq!(serialize(&DynValue::Bool(true)).unwrap(), vec![0xc3]);
    assert_eq!(serialize(&DynValue::Bool(false)).unwrap(), vec![0xc2]);
}

#[test]
fn test_exact_encoding_of_int() {
    assert_eq!(
        serialize(&DynValue::Int(7)).unwrap(),
        vec![0xd3, 0, 0, 0, 0, 0, 0, 0, 7]
    );
    assert_eq!(
        serialize(&DynValue::Int(-1)).unwrap(),
        vec![0xd3, 255, 255, 255, 255, 255, 255, 255, 255]
    );
}

#[test]
fn test_decoder_accepts_compact_formats() {
    // positive fixint, fixstr, fixarray, fixmap, negative fixint
    let bytes = vec![
        0x82, // fixmap of 2
        0xa1, b'a', // "a"
        0x93, 0x01, 0xe0, 0xcc, 0xff, // [1, -32, 255]
        0xa1, b'b', // "b"
        0xc0, // null
    ];
    let v = deserialize(&bytes).unwrap();
    assert_eq!(
        v,
        obj(vec![
            (
                "a",
                DynValue::List(vec![
                    DynValue::Int(1),
                    DynValue::Int(-32),
                    DynValue::Int(255)
                ])
            ),
            ("b", DynValue::Null),
        ])
    );
}

#[test]
fn test_decoder_rejects_truncated_and_trailing() {
    assert!(deserialize(&[0xd3, 0, 0]).is_err());
    assert!(deserialize(&[]).is_err());
    assert!(deserialize(&[0xc0, 0xc0]).is_err());
    assert!(deserialize(&[0xc1]).is_err());
}

#[test]
fn test_base64_roundtrip() {
    let v = obj(vec![("k", text("v")), ("n", DynValue::Int(5))]);
    let encoded = serialize_to_base64(&v).unwrap();
    let bytes = serialize(&v).unwrap();
    // the text is real standard base64 of the wire bytes
    assert_eq!(
        base64::engine::general_purpose::STANDARD
            .decode(&encoded)
            .unwrap(),
        bytes
    );
    let back = deserialize_from_base64(&encoded).unwrap();
    assert_eq!(v, back);
    assert!(deserialize_from_base64("!!! not base64 !!!").is_err());
}

#[test]
fn test_interop_with_messagepack_ecosystem() {
    // The wire bytes decode with an independent MessagePack reader.
    let msg = Message::new("TEST_EVENT")
        .with_rtype("rpc-1")
        .with_data(obj(vec![("foo", text("bar")), ("n", DynValue::Int(3))]));
    let bytes = serialize_message(&msg).unwrap();
    let v: serde_json::Value = rmp_serde::from_slice(&bytes).unwrap();
    assert_eq!(v["etype"], "TEST_EVENT");
    assert_eq!(v["rtype"], "rpc-1");
    assert_eq!(v["data"]["foo"], "bar");
    assert_eq!(v["data"]["n"], 3);
    assert_eq!(v["ts"], msg.ts);

    // And bytes written by the independent writer decode here.
    let mut m = std::collections::BTreeMap::new();
    m.insert("ts".to_string(), serde_json::Value::from(12));
    m.insert("etype".to_string(), serde_json::Value::from("PING"));
    let theirs = rmp_serde::to_vec(&m).unwrap();
    let ours = deserialize_message(&theirs).unwrap();
    assert_eq!(ours.ts, 12);
    assert_eq!(ours.etype, "PING");
}

#[test]
fn test_serialize_rejects_none_with_options() {
    let opts = SerializeOptions::default();
    assert!(opts.recursive);
    assert!(!opts.encode_undefined);
    assert!(opts.use_type_registry);
    let dopts = DeserializeOptions::default();
    assert!(dopts.recursive);
    assert!(dopts.validate);
    assert!(dopts.use_type_registry);
}

#[test]
fn test_message_unknown_fields_ignored_and_defaults() {
    // a record with only an etype and an unknown key reads back with defaults
    let v = obj(vec![("etype", text("E")), ("mystery", DynValue::Int(1))]);
    let bytes = serialize(&v).unwrap();
    let m = deserialize_message(&bytes).unwrap();
    assert_eq!(m.etype, "E");
    assert_eq!(m.ts, 0);
    assert!(m.rtype.is_none() && m.args.is_none() && m.kwargs.is_none());
    // a wrongly-kinded field is an error
    let bad = obj(vec![("etype", DynValue::Int(1))]);
    let bytes = serialize(&bad).unwrap();
    assert!(deserialize_message(&bytes).is_err());
}
