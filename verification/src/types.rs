//! Message types of the protocol.
//!
//! A generic envelope (`Message`) plus the directional variants: client
//! and server events, RPC request and response, and the recursive
//! component tree. Each type has a mathematical model (its deep view)
//! that the wire mapping and validation contracts are stated over.

use vstd::prelude::*;

use crate::value::{DynValue, ValModel, view_items, view_fields};

verus! {

broadcast use vstd::std_specs::vec::group_vec_axioms, vstd::seq::group_seq_axioms;

/// Milliseconds since the Unix epoch.
pub type Timestamp = i64;

/// Relies on chrono's Utc::now().timestamp_millis(): the current wall
/// clock in milliseconds since the Unix epoch. Nothing is assumed about
/// the value: the clock may read anything.
#[verifier::external_body]
pub(crate) fn now_millis() -> i64 {
    chrono::Utc::now().timestamp_millis()
}

/// Model of a generic message.
pub struct MessageModel {
    pub ts: i64,
    pub etype: Seq<char>,
    pub rtype: Option<Seq<char>>,
    pub args: Option<Seq<ValModel>>,
    pub kwargs: Option<Seq<(Seq<char>, ValModel)>>,
    pub data: Option<ValModel>,
    pub value: Option<ValModel>,
}

/// Generic message envelope with all possible fields.
#[derive(Debug, PartialEq)]
pub struct Message {
    /// Timestamp in milliseconds.
    pub ts: Timestamp,
    /// Event type or queue name.
    pub etype: String,
    /// Response type: the correlation id (RPC only).
    pub rtype: Option<String>,
    /// Positional arguments (RPC).
    pub args: Option<Vec<DynValue>>,
    /// Keyword arguments (RPC), in insertion order.
    pub kwargs: Option<Vec<(String, DynValue)>>,
    /// Server payload.
    pub data: Option<DynValue>,
    /// Client payload.
    pub value: Option<DynValue>,
}

impl DeepView for Message {
    type V = MessageModel;

    open spec fn deep_view(&self) -> MessageModel {
        MessageModel {
            ts: self.ts,
            etype: self.etype@,
            rtype: match self.rtype {
                Some(s) => Some(s@),
                None => None,
            },
            args: match self.args {
                Some(a) => Some(view_items(a@)),
                None => None,
            },
            kwargs: match self.kwargs {
                Some(k) => Some(view_fields(k@)),
                None => None,
            },
            data: match self.data {
                Some(d) => Some(d.deep_view()),
                None => None,
            },
            value: match self.value {
                Some(v) => Some(v.deep_view()),
                None => None,
            },
        }
    }
}

impl Message {
    /// A new message stamped with the current time; all other fields empty.
    pub fn new(etype: &str) -> (r: Self)
        ensures
            r.etype@ == etype@,
            r.rtype is None,
            r.args is None,
            r.kwargs is None,
            r.data is None,
            r.value is None,
    {
        Message {
            ts: now_millis(),
            etype: etype.to_owned(),
            rtype: None,
            args: None,
            kwargs: None,
            data: None,
            value: None,
        }
    }

    /// Sets the response type for RPC.
    pub fn with_rtype(self, rtype: &str) -> (r: Self)
        ensures
            r.rtype matches Some(s) && s@ == rtype@,
            r == (Message { rtype: r.rtype, ..self }),
    {
        Message { rtype: Some(rtype.to_owned()), ..self }
    }

    /// Sets the server payload.
    pub fn with_data(self, data: DynValue) -> (r: Self)
        ensures
            r == (Message { data: Some(data), ..self }),
    {
        Message { data: Some(data), ..self }
    }

    /// Sets the client payload.
    pub fn with_value(self, value: DynValue) -> (r: Self)
        ensures
            r == (Message { value: Some(value), ..self }),
    {
        Message { value: Some(value), ..self }
    }
}

impl Default for Message {
    /// The empty message: zero timestamp, empty event type, no payloads.
    fn default() -> (r: Self)
        ensures
            r.ts == 0,
            r.etype@ == Seq::<char>::empty(),
            r.rtype is None,
            r.args is None,
            r.kwargs is None,
            r.data is None,
            r.value is None,
    {
        Message {
            ts: 0,
            etype: String::new(),
            rtype: None,
            args: None,
            kwargs: None,
            data: None,
            value: None,
        }
    }
}

} // verus!

verus! {

/// Model of a client event.
pub struct ClientEventModel {
    pub ts: i64,
    pub etype: Seq<char>,
    pub rtype: Option<Seq<char>>,
    pub value: ValModel,
}

/// Client-to-server event; the payload travels in `value`.
#[derive(Debug, PartialEq)]
pub struct ClientEvent {
    /// Timestamp in milliseconds.
    pub ts: Timestamp,
    /// Event type.
    pub etype: String,
    /// Response type (for RPC requests).
    pub rtype: Option<String>,
    /// Client payload.
    pub value: DynValue,
}

impl DeepView for ClientEvent {
    type V = ClientEventModel;

    open spec fn deep_view(&self) -> ClientEventModel {
        ClientEventModel {
            ts: self.ts,
            etype: self.etype@,
            rtype: match self.rtype {
                Some(s) => Some(s@),
                None => None,
            },
            value: self.value.deep_view(),
        }
    }
}

impl ClientEvent {
    /// A new client event stamped with the current time.
    pub fn new(etype: &str, value: DynValue) -> (r: Self)
        ensures
            r.etype@ == etype@,
            r.rtype is None,
            r.value == value,
    {
        ClientEvent { ts: now_millis(), etype: etype.to_owned(), rtype: None, value }
    }

    /// Sets the response type for RPC.
    pub fn with_rtype(self, rtype: &str) -> (r: Self)
        ensures
            r.rtype matches Some(s) && s@ == rtype@,
            r == (ClientEvent { rtype: r.rtype, ..self }),
    {
        ClientEvent { rtype: Some(rtype.to_owned()), ..self }
    }
}

impl Default for ClientEvent {
    /// The empty client event with a null payload.
    fn default() -> (r: Self)
        ensures
            r.ts == 0,
            r.etype@ == Seq::<char>::empty(),
            r.rtype is None,
            r.value == DynValue::Null,
    {
        ClientEvent { ts: 0, etype: String::new(), rtype: None, value: DynValue::Null }
    }
}

/// Model of a server event.
pub struct ServerEventModel {
    pub ts: i64,
    pub etype: Seq<char>,
    pub data: ValModel,
}

/// Server-to-client event; the payload travels in `data`.
#[derive(Debug, PartialEq)]
pub struct ServerEvent {
    /// Timestamp in milliseconds.
    pub ts: Timestamp,
    /// Event type.
    pub etype: String,
    /// Server payload.
    pub data: DynValue,
}

impl DeepView for ServerEvent {
    type V = ServerEventModel;

    open spec fn deep_view(&self) -> ServerEventModel {
        ServerEventModel { ts: self.ts, etype: self.etype@, data: self.data.deep_view() }
    }
}

impl ServerEvent {
    /// A new server event stamped with the current time.
    pub fn new(etype: &str, data: DynValue) -> (r: Self)
        ensures
            r.etype@ == etype@,
            r.data == data,
    {
        ServerEvent { ts: now_millis(), etype: etype.to_owned(), data }
    }
}

impl Default for ServerEvent {
    /// The empty server event with a null payload.
    fn default() -> (r: Self)
        ensures
            r.ts == 0,
            r.etype@ == Seq::<char>::empty(),
            r.data == DynValue::Null,
    {
        ServerEvent { ts: 0, etype: String::new(), data: DynValue::Null }
    }
}

/// Model of an RPC request.
pub struct RpcRequestModel {
    pub ts: i64,
    pub etype: Seq<char>,
    pub rtype: Seq<char>,
    pub args: Option<Seq<ValModel>>,
    pub kwargs: Option<Seq<(Seq<char>, ValModel)>>,
}

/// RPC request: `etype` is the method name, `rtype` the correlation id
/// a response must echo back.
#[derive(Debug, PartialEq)]
pub struct RpcRequest {
    /// Timestamp in milliseconds.
    pub ts: Timestamp,
    /// Event type: the method name.
    pub etype: String,
    /// Response type: required for RPC.
    pub rtype: String,
    /// Positional arguments.
    pub args: Option<Vec<DynValue>>,
    /// Keyword arguments, in insertion order.
    pub kwargs: Option<Vec<(String, DynValue)>>,
}

impl DeepView for RpcRequest {
    type V = RpcRequestModel;

    open spec fn deep_view(&self) -> RpcRequestModel {
        RpcRequestModel {
            ts: self.ts,
            etype: self.etype@,
            rtype: self.rtype@,
            args: match self.args {
                Some(a) => Some(view_items(a@)),
                None => None,
            },
            kwargs: match self.kwargs {
                Some(k) => Some(view_fields(k@)),
                None => None,
            },
        }
    }
}

impl RpcRequest {
    /// A new RPC request stamped with the current time, without arguments.
    pub fn new(etype: &str, rtype: &str) -> (r: Self)
        ensures
            r.etype@ == etype@,
            r.rtype@ == rtype@,
            r.args is None,
            r.kwargs is None,
    {
        RpcRequest {
            ts: now_millis(),
            etype: etype.to_owned(),
            rtype: rtype.to_owned(),
            args: None,
            kwargs: None,
        }
    }

    /// Sets the positional arguments.
    pub fn with_args(self, args: Vec<DynValue>) -> (r: Self)
        ensures
            r == (RpcRequest { args: Some(args), ..self }),
    {
        RpcRequest { args: Some(args), ..self }
    }

    /// Sets the keyword arguments.
    pub fn with_kwargs(self, kwargs: Vec<(String, DynValue)>) -> (r: Self)
        ensures
            r == (RpcRequest { kwargs: Some(kwargs), ..self }),
    {
        RpcRequest { kwargs: Some(kwargs), ..self }
    }
}

impl Default for RpcRequest {
    /// The empty request: empty method name and correlation id.
    fn default() -> (r: Self)
        ensures
            r.ts == 0,
            r.etype@ == Seq::<char>::empty(),
            r.rtype@ == Seq::<char>::empty(),
            r.args is None,
            r.kwargs is None,
    {
        RpcRequest {
            ts: 0,
            etype: String::new(),
            rtype: String::new(),
            args: None,
            kwargs: None,
        }
    }
}

/// Model of an RPC response.
pub struct RpcResponseModel {
    pub ts: i64,
    pub etype: Seq<char>,
    pub data: Option<ValModel>,
    pub value: Option<ValModel>,
    pub ok: Option<bool>,
    pub error: Option<Seq<char>>,
}

/// RPC response: `etype` equals the `rtype` of the request it answers.
#[derive(Debug, PartialEq)]
pub struct RpcResponse {
    /// Timestamp in milliseconds.
    pub ts: Timestamp,
    /// Event type: the correlation id echoed back.
    pub etype: String,
    /// Response payload (server side).
    pub data: Option<DynValue>,
    /// Response payload (client side).
    pub value: Option<DynValue>,
    /// Success flag.
    pub ok: Option<bool>,
    /// Error message.
    pub error: Option<String>,
}

impl DeepView for RpcResponse {
    type V = RpcResponseModel;

    open spec fn deep_view(&self) -> RpcResponseModel {
        RpcResponseModel {
            ts: self.ts,
            etype: self.etype@,
            data: match self.data {
                Some(d) => Some(d.deep_view()),
                None => None,
            },
            value: match self.value {
                Some(v) => Some(v.deep_view()),
                None => None,
            },
            ok: self.ok,
            error: match self.error {
                Some(e) => Some(e@),
                None => None,
            },
        }
    }
}

impl RpcResponse {
    /// A successful response carrying a payload; `ok` is set to true.
    pub fn success(etype: &str, data: DynValue) -> (r: Self)
        ensures
            r.etype@ == etype@,
            r.data == Some(data),
            r.value is None,
            r.ok == Some(true),
            r.error is None,
    {
        RpcResponse {
            ts: now_millis(),
            etype: etype.to_owned(),
            data: Some(data),
            value: None,
            ok: Some(true),
            error: None,
        }
    }

    /// A failed response carrying an error message; `ok` is set to false.
    pub fn error(etype: &str, error: &str) -> (r: Self)
        ensures
            r.etype@ == etype@,
            r.data is None,
            r.value is None,
            r.ok == Some(false),
            r.error matches Some(e) && e@ == error@,
    {
        RpcResponse {
            ts: now_millis(),
            etype: etype.to_owned(),
            data: None,
            value: None,
            ok: Some(false),
            error: Some(error.to_owned()),
        }
    }
}

impl Default for RpcResponse {
    /// The empty response.
    fn default() -> (r: Self)
        ensures
            r.ts == 0,
            r.etype@ == Seq::<char>::empty(),
            r.data is None,
            r.value is None,
            r.ok is None,
            r.error is None,
    {
        RpcResponse {
            ts: 0,
            etype: String::new(),
            data: None,
            value: None,
            ok: None,
            error: None,
        }
    }
}

} // verus!

verus! {

/// Model of a component node.
pub enum CompModel {
    /// A node: tag, optional ordered children, named properties.
    Node {
        tag: Seq<char>,
        children: Option<Seq<CompModel>>,
        props: Seq<(Seq<char>, ValModel)>,
    },
}

/// A scene-graph component: a tag, optional ordered children, and an
/// open, insertion-ordered property mapping. Ownership is tree-shaped:
/// a parent owns its children exclusively, so no cycle can arise.
#[derive(Debug, PartialEq)]
pub struct VuerComponent {
    /// Component type.
    pub tag: String,
    /// Nested components.
    pub children: Option<Vec<VuerComponent>>,
    /// Additional properties, in insertion order.
    pub props: Vec<(String, DynValue)>,
}

/// The model of a component node.
pub open spec fn view_comp(c: VuerComponent) -> CompModel
    decreases c,
    via view_comp_decreases
{
    CompModel::Node {
        tag: c.tag@,
        children: match c.children {
            Some(ch) => Some(view_comps(ch@)),
            None => None,
        },
        props: view_fields(c.props@),
    }
}

/// The models of a sequence of components, element by element.
pub open spec fn view_comps(cs: Seq<VuerComponent>) -> Seq<CompModel>
    decreases cs,
    via view_comps_decreases
{
    if cs.len() == 0 {
        Seq::empty()
    } else {
        view_comps(cs.drop_last()).push(view_comp(cs.last()))
    }
}

#[via_fn]
proof fn view_comp_decreases(c: VuerComponent) {
    match c.children {
        Some(ch) => {
            assert(decreases_to!(c => c.children));
            assert(decreases_to!(c.children => c.children->0));
            assert(decreases_to!(c.children->0 => (c.children->0)@));
        },
        None => {},
    }
}

#[via_fn]
proof fn view_comps_decreases(cs: Seq<VuerComponent>) {
    if cs.len() > 0 {
        assert(cs.drop_last() == cs.subrange(0, cs.len() - 1));
        assert(decreases_to!(cs => cs.subrange(0, cs.len() - 1)));
        assert(decreases_to!(cs => cs[cs.len() - 1]));
    }
}

/// `view_comps` maps the sequence element by element.
pub broadcast proof fn lemma_view_comps(cs: Seq<VuerComponent>)
    ensures
        #[trigger] view_comps(cs).len() == cs.len(),
        forall|i: int| 0 <= i < cs.len() ==> view_comps(cs)[i] == view_comp(cs[i]),
    decreases cs.len(),
{
    if cs.len() > 0 {
        lemma_view_comps(cs.drop_last());
    }
}

impl DeepView for VuerComponent {
    type V = CompModel;

    open spec fn deep_view(&self) -> CompModel {
        view_comp(*self)
    }
}

impl VuerComponent {
    /// A new component with the given tag, no children and no properties.
    pub fn new(tag: &str) -> (r: Self)
        ensures
            r.tag@ == tag@,
            r.children is None,
            r.props@ == Seq::<(String, DynValue)>::empty(),
    {
        VuerComponent { tag: tag.to_owned(), children: None, props: Vec::new() }
    }

    /// Appends a child component, creating the child list if absent.
    pub fn with_child(self, child: VuerComponent) -> (r: Self)
        ensures
            r.tag == self.tag,
            r.props == self.props,
            r.children matches Some(cs) && cs@ == (match self.children {
                Some(old_cs) => old_cs@,
                None => Seq::<VuerComponent>::empty(),
            }).push(child),
    {
        let VuerComponent { tag, children, props } = self;
        let mut cs = match children {
            Some(cs) => cs,
            None => Vec::new(),
        };
        cs.push(child);
        VuerComponent { tag, children: Some(cs), props }
    }

    /// Sets a property: an existing key is overwritten in place, a new
    /// key is appended.
    pub fn with_prop(self, key: &str, value: DynValue) -> (r: Self)
        ensures
            r.tag == self.tag,
            r.children == self.children,
            view_fields(r.props@) == crate::value::upsert_field(view_fields(self.props@),
                key@, value.deep_view()),
    {
        let VuerComponent { tag, children, mut props } = self;
        crate::value::upsert(&mut props, key.to_owned(), value);
        VuerComponent { tag, children, props }
    }
}

impl Default for VuerComponent {
    /// The empty component: empty tag, no children, no properties.
    fn default() -> (r: Self)
        ensures
            r.tag@ == Seq::<char>::empty(),
            r.children is None,
            r.props@ == Seq::<(String, DynValue)>::empty(),
    {
        VuerComponent { tag: String::new(), children: None, props: Vec::new() }
    }
}

} // verus!
