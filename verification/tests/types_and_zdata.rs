use vuer_rpc::value::DynValue;
use vuer_rpc::types::{ClientEvent, Message, RpcRequest, VuerComponent};
use vuer_rpc::zdata::{UnknownType, ZData};

fn obj(pairs: Vec<(&str, DynValue)>) -> DynValue {
    DynValue::Object(pairs.into_iter().map(|(k, v)| (k.to_string(), v)).collect())
}

#[test]
fn test_message_creation() {
    let msg = Message::new("TEST_EVENT")
        .with_data(obj(vec![("foo", DynValue::Text("bar".to_string()))]));

    assert_eq!(msg.etype, "TEST_EVENT");
    assert!(msg.data.is_some());
    assert!(msg.ts > 0);
}

#[test]
fn test_client_event() {
    let event = ClientEvent::new(
        "CLICK",
        obj(vec![("x", DynValue::Int(100)), ("y", DynValue::Int(200))]),
    );
    assert_eq!(event.etype, "CLICK");
    match &event.value {
        DynValue::Object(fields) => {
            assert_eq!(fields[0], ("x".to_string(), DynValue::Int(100)));
        }
        _ => panic!("the payload must be a record"),
    }
}

#[test]
fn test_rpc_request() {
    let kwargs = vec![("seed".to_string(), DynValue::Int(100))];

    let req = RpcRequest::new("render", "rpc-123").with_kwargs(kwargs);

    assert_eq!(req.etype, "render");
    assert_eq!(req.rtype, "rpc-123");
}

#[test]
fn test_vuer_component() {
    let child = VuerComponent::new("sphere").with_prop("radius", DynValue::Float(1.0f64.to_bits()));

    let component = VuerComponent::new("scene")
        .with_child(child)
        .with_prop("background", DynValue::Text("#000000".to_string()));

    assert_eq!(component.tag, "scene");
    assert_eq!(component.children.as_ref().unwrap().len(), 1);
}

#[test]
fn test_zdata_creation() {
    let zdata = ZData::new("test.Type")
        .with_binary(vec![1, 2, 3, 4])
        .with_dtype("float32")
        .with_shape(vec![2, 2])
        .with_field("custom", DynValue::Text("value".to_string()));

    assert_eq!(zdata.ztype, "test.Type");
    assert_eq!(zdata.b, Some(vec![1, 2, 3, 4]));
    assert_eq!(zdata.dtype, Some("float32".to_string()));
    assert_eq!(zdata.shape, Some(vec![2, 2]));
    assert_eq!(
        zdata.get_field("custom"),
        Some(&DynValue::Text("value".to_string()))
    );
}

#[test]
fn test_unknown_type() {
    let zdata = ZData::new("unknown.Type");
    let unknown = UnknownType::new(zdata.clone());

    assert_eq!(unknown.ztype(), "unknown.Type");
    assert_eq!(unknown.as_zdata(), &zdata);
}

#[test]
fn test_zdata_serialization() {
    let zdata = ZData::new("numpy.ndarray")
        .with_binary(vec![0, 1, 2, 3])
        .with_dtype("uint8")
        .with_shape(vec![2, 2]);

    let bytes = vuer_rpc::serializer::zdata_to_bytes(&zdata).unwrap();
    let deserialized = vuer_rpc::deserializer::bytes_to_zdata(&bytes).unwrap();

    assert_eq!(zdata, deserialized);
}

#[test]
fn test_zdata_field_overwrite_keeps_position() {
    let zdata = ZData::new("t")
        .with_field("a", DynValue::Int(1))
        .with_field("b", DynValue::Int(2))
        .with_field("a", DynValue::Int(3));
    assert_eq!(
        zdata.extra,
        vec![
            ("a".to_string(), DynValue::Int(3)),
            ("b".to_string(), DynValue::Int(2)),
        ]
    );
}

#[test]
fn test_message_builders_set_fields() {
    let msg = Message::new("EV")
        .with_rtype("rpc-9")
        .with_value(DynValue::Bool(true));
    assert_eq!(msg.rtype.as_deref(), Some("rpc-9"));
    assert_eq!(msg.value, Some(DynValue::Bool(true)));
    assert!(msg.data.is_none());
}

#[test]
fn test_error_messages() {
    let e = vuer_rpc::error::VmpError::TypeNotRegistered("datetime".to_string());
    assert_eq!(e.message(), "Type not registered: datetime");
    let e = vuer_rpc::error::VmpError::InvalidMessage("bad".to_string());
    assert_eq!(e.message(), "Invalid message format: bad");
}
