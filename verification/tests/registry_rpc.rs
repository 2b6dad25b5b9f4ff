use vuer_rpc::error::VmpError;
use vuer_rpc::rpc::{create_rpc_request, create_rpc_response, generate_request_id, RpcManager};
use vuer_rpc::type_registry::{TypeCodec, TypeRegistry};
use vuer_rpc::types::RpcResponse;
use vuer_rpc::value::DynValue;
use vuer_rpc::zdata::ZData;

fn obj(pairs: Vec<(&str, DynValue)>) -> DynValue {
    DynValue::Object(pairs.into_iter().map(|(k, v)| (k.to_string(), v)).collect())
}

fn text(s: &str) -> DynValue {
    DynValue::Text(s.to_string())
}

/// A test codec that wraps any value under a single extra field of the
/// envelope, with an optional numeric detector.
struct WrapCodec {
    tag: &'static str,
    field: &'static str,
    numbers_only: bool,
}

impl TypeCodec for WrapCodec {
    fn encode(&self, value: &DynValue) -> Result<ZData, VmpError> {
        Ok(ZData::new(self.tag).with_field(self.field, value.clone()))
    }

    fn decode(&self, zdata: &ZData) -> Result<DynValue, VmpError> {
        match zdata.get_field(self.field) {
            Some(v) => Ok(v.clone()),
            None => Err(VmpError::MissingField(self.field.to_string())),
        }
    }

    fn has_detector(&self) -> bool {
        self.numbers_only
    }

    fn matches(&self, value: &DynValue) -> bool {
        matches!(value, DynValue::Int(_) | DynValue::Float(_))
    }
}

#[test]
fn test_type_registration() {
    let mut registry: TypeRegistry<WrapCodec> = TypeRegistry::new();

    registry.register(
        "test.Type",
        WrapCodec { tag: "test.Type", field: "value", numbers_only: false },
    );

    assert!(registry.is_registered("test.Type"));
    assert!(!registry.is_registered("unknown.Type"));
}

#[test]
fn test_encode_decode() {
    let mut registry: TypeRegistry<WrapCodec> = TypeRegistry::new();

    registry.register(
        "datetime",
        WrapCodec { tag: "datetime", field: "iso", numbers_only: false },
    );

    let value = text("2025-01-20T12:00:00Z");
    let zdata = registry.encode("datetime", &value).unwrap();
    let decoded = registry.decode(&zdata).unwrap();

    assert_eq!(value, decoded);
}

#[test]
fn test_type_checker() {
    let mut registry: TypeRegistry<WrapCodec> = TypeRegistry::new();

    registry.register(
        "number",
        WrapCodec { tag: "number", field: "n", numbers_only: true },
    );

    let number = DynValue::Int(42);
    let string = text("not a number");

    assert!(registry.try_encode(&number).is_some());
    assert!(registry.try_encode(&string).is_none());
}

#[test]
fn test_unregistered_tag_fails_exactly() {
    let registry: TypeRegistry<WrapCodec> = TypeRegistry::new();
    match registry.encode("nope", &DynValue::Int(1)) {
        Err(VmpError::TypeNotRegistered(t)) => assert_eq!(t, "nope"),
        other => panic!("expected a type-not-registered error, got {:?}", other.is_ok()),
    }
    let z = ZData::new("nope");
    match registry.decode(&z) {
        Err(VmpError::TypeNotRegistered(t)) => assert_eq!(t, "nope"),
        other => panic!("expected a type-not-registered error, got {:?}", other.is_ok()),
    }
}

#[test]
fn test_registration_replaces_and_lists() {
    let mut registry: TypeRegistry<WrapCodec> = TypeRegistry::new();
    registry.register("a", WrapCodec { tag: "a", field: "v1", numbers_only: false });
    registry.register("b", WrapCodec { tag: "b", field: "v", numbers_only: false });
    registry.register("a", WrapCodec { tag: "a", field: "v2", numbers_only: false });
    assert_eq!(registry.registered_types(), vec!["a".to_string(), "b".to_string()]);
    // the replacement codec answers for the tag
    let z = registry.encode("a", &DynValue::Int(1)).unwrap();
    assert!(z.get_field("v2").is_some());
    assert!(z.get_field("v1").is_none());
}

#[test]
fn test_generate_request_id() {
    let id1 = generate_request_id();
    let id2 = generate_request_id();

    assert!(id1.starts_with("rpc-"));
    assert_ne!(id1, id2);
    assert_eq!(id1.len(), 40);
}

#[test]
fn test_create_rpc_request() {
    let kwargs = vec![("seed".to_string(), DynValue::Int(100))];

    let req = create_rpc_request("render", None, Some(kwargs));

    assert_eq!(req.etype, "render");
    assert!(req.rtype.starts_with("rpc-"));
    assert!(req.kwargs.is_some());
}

#[test]
fn test_create_rpc_response_both_outcomes() {
    let ok = create_rpc_response("rpc-1", Ok(text("done")));
    assert_eq!(ok.ok, Some(true));
    assert_eq!(ok.data, Some(text("done")));
    let err = create_rpc_response(
        "rpc-1",
        Err(VmpError::RpcTimeout("late".to_string())),
    );
    assert_eq!(err.ok, Some(false));
    assert_eq!(err.error.as_deref(), Some("RPC timeout: late"));
}

#[test]
fn test_rpc_manager() {
    let mut manager = RpcManager::new();

    let req = manager.request("test", None, None, 5000, 0);

    let response = RpcResponse::success(
        &req.rtype,
        obj(vec![("result", text("success"))]),
    );

    manager.handle_response(&response).unwrap();

    assert_eq!(response.ok, Some(true));
    assert_eq!(
        response.data,
        Some(obj(vec![("result", text("success"))]))
    );
    assert_eq!(manager.pending_count(), 0);
}

#[test]
fn test_rpc_timeout() {
    let mut manager = RpcManager::new();

    let req = manager.request("test", None, None, 100, 0);

    // the call may not time out before its deadline
    assert!(!manager.expire(&req.rtype, 99));
    assert_eq!(manager.pending_count(), 1);
    // at the deadline it does, and the entry is gone at once
    assert!(manager.expire(&req.rtype, 100));
    assert_eq!(manager.pending_count(), 0);
    // a late response then fails cleanly
    let late = RpcResponse::success(&req.rtype, DynValue::Null);
    assert!(matches!(
        manager.handle_response(&late),
        Err(VmpError::RpcError(_))
    ));
}

#[test]
fn test_rpc_cancel() {
    let mut manager = RpcManager::new();

    let req = manager.request("test", None, None, 5000, 0);

    assert_eq!(manager.pending_count(), 1);

    let cancelled = manager.cancel(&req.rtype);
    assert!(cancelled);
    assert_eq!(manager.pending_count(), 0);
    assert!(!manager.cancel(&req.rtype));
}

#[test]
fn test_two_concurrent_requests_resolve_independently() {
    let mut manager = RpcManager::new();
    let req1 = manager.request("alpha", None, None, 5000, 0);
    let req2 = manager.request("beta", None, None, 5000, 0);
    assert_ne!(req1.rtype, req2.rtype);
    assert_eq!(manager.pending_count(), 2);

    // a response matching only the second id resolves it alone
    let resp2 = RpcResponse::success(&req2.rtype, text("ok"));
    manager.handle_response(&resp2).unwrap();
    assert_eq!(manager.pending_count(), 1);

    // the first is still pending; a duplicate of the second fails
    assert!(manager.handle_response(&resp2).is_err());
    assert_eq!(manager.pending_count(), 1);

    // cancelling the first brings the pending count back to zero
    assert!(manager.cancel(&req1.rtype));
    assert_eq!(manager.pending_count(), 0);
}

#[test]
fn test_rpc_request_end_to_end() {
    // build, serialize, deserialize: the method, arguments and the
    // correlation id survive unchanged
    let req = create_rpc_request(
        "render_frame",
        Some(vec![DynValue::Int(100)]),
        Some(vec![("quality".to_string(), text("high"))]),
    );
    let value = vuer_rpc::wire::rpc_request_to_value(&req);
    let bytes = vuer_rpc::serializer::serialize(&value).unwrap();
    let decoded = vuer_rpc::deserializer::deserialize(&bytes).unwrap();
    let back = vuer_rpc::wire::value_to_rpc_request(&decoded).unwrap();
    assert_eq!(back.etype, "render_frame");
    assert_eq!(back.args, Some(vec![DynValue::Int(100)]));
    assert_eq!(
        back.kwargs,
        Some(vec![("quality".to_string(), text("high"))])
    );
    assert!(!back.rtype.is_empty());
    assert_eq!(back.rtype, req.rtype);
}

#[test]
fn test_clear_discards_everything() {
    let mut manager = RpcManager::new();
    manager.request("a", None, None, 10, 0);
    manager.request("b", None, None, 10, 0);
    assert_eq!(manager.pending_count(), 2);
    manager.clear();
    assert_eq!(manager.pending_count(), 0);
}
