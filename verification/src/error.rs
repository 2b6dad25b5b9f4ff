//! Error taxonomy of the protocol library.
//!
//! Every failure is scoped to the operation that produced it and is
//! returned to the immediate caller; no error is fatal to the process.

use vstd::prelude::*;

verus! {

/// The failure cases of the library, each carrying a description.
#[derive(Debug, Clone, PartialEq)]
pub enum VmpError {
    /// A value could not be encoded to the wire format.
    Serialization(String),
    /// Bytes could not be decoded from the wire format.
    Deserialization(String),
    /// A value did not match the shape an adapter expected.
    TypeConversion(String),
    /// The type tag is unknown to the registry.
    TypeNotRegistered(String),
    /// An RPC request saw no response within its deadline.
    RpcTimeout(String),
    /// A response could not be correlated, or its channel was torn down.
    RpcError(String),
    /// A message violated a structural rule.
    InvalidMessage(String),
    /// A required field was absent.
    MissingField(String),
}

impl VmpError {
    /// The human-readable description: a category prefix, then the detail.
    pub fn message(&self) -> (r: String)
        ensures
            r@ == self.prefix() + self.detail()@,
    {
        match self {
            VmpError::Serialization(m) => concat_msg("Serialization error: ", m),
            VmpError::Deserialization(m) => concat_msg("Deserialization error: ", m),
            VmpError::TypeConversion(m) => concat_msg("Type conversion error: ", m),
            VmpError::TypeNotRegistered(m) => concat_msg("Type not registered: ", m),
            VmpError::RpcTimeout(m) => concat_msg("RPC timeout: ", m),
            VmpError::RpcError(m) => concat_msg("RPC error: ", m),
            VmpError::InvalidMessage(m) => concat_msg("Invalid message format: ", m),
            VmpError::MissingField(m) => concat_msg("Missing required field: ", m),
        }
    }

    /// The category prefix used by `message`.
    pub open spec fn prefix(&self) -> Seq<char> {
        match self {
            VmpError::Serialization(_) => "Serialization error: "@,
            VmpError::Deserialization(_) => "Deserialization error: "@,
            VmpError::TypeConversion(_) => "Type conversion error: "@,
            VmpError::TypeNotRegistered(_) => "Type not registered: "@,
            VmpError::RpcTimeout(_) => "RPC timeout: "@,
            VmpError::RpcError(_) => "RPC error: "@,
            VmpError::InvalidMessage(_) => "Invalid message format: "@,
            VmpError::MissingField(_) => "Missing required field: "@,
        }
    }

    /// The detail string the error was constructed with.
    pub open spec fn detail(&self) -> &String {
        match self {
            VmpError::Serialization(m) => m,
            VmpError::Deserialization(m) => m,
            VmpError::TypeConversion(m) => m,
            VmpError::TypeNotRegistered(m) => m,
            VmpError::RpcTimeout(m) => m,
            VmpError::RpcError(m) => m,
            VmpError::InvalidMessage(m) => m,
            VmpError::MissingField(m) => m,
        }
    }
}

/// Joins a category prefix and a detail string.
fn concat_msg(prefix: &str, detail: &String) -> (r: String)
    ensures
        r@ == prefix@ + detail@,
{
    let mut out = prefix.to_owned();
    out.append(detail.as_str());
    out
}

} // verus!
