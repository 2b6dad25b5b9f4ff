//! A lightweight cross-language messaging and RPC protocol library.
//!
//! The crate provides a self-describing binary envelope format (`ZData`)
//! with a runtime type registry, message types with a canonical
//! MessagePack wire encoding, and a request/response correlation engine
//! for asynchronous RPC under timeout and cancellation.

pub mod builtin_types;
pub mod deserializer;
pub mod error;
pub mod msgpack;
pub mod rpc;
pub mod serializer;
pub mod type_registry;
pub mod types;
pub mod zdata;
pub mod value;
pub mod wire;

pub use error::VmpError;
pub use types::{ClientEvent, Message, RpcRequest, RpcResponse, ServerEvent, Timestamp, VuerComponent};
pub use zdata::{ZData, ZDataConversion, UnknownType};
pub use zdata::{encode_to_zdata, decode_from_zdata};
pub use builtin_types::{ImageData, NumpyArray, TypeConversionFallback};
pub use type_registry::{TypeCodec, TypeRegistration, TypeRegistry};
pub use rpc::{RpcManager, create_rpc_request, create_rpc_response, generate_request_id};
pub use deserializer::{DeserializeOptions, bytes_to_zdata, deserialize, deserialize_component, deserialize_from_base64, deserialize_message, deserialize_with_options, validate_message};
pub use deserializer::decode_value_recursive;
pub use serializer::{SerializeOptions, serialize, serialize_component, serialize_message, serialize_to_base64, serialize_with_options, encode_value_recursive, zdata_to_bytes};
pub use value::DynValue;
pub use value::ValModel;
