//! The request/response correlation engine.
//!
//! A correlator keys each outstanding call by its correlation id (the
//! request's `rtype`) together with the deadline after which it may time
//! out. Exactly one terminal outcome removes the entry: a matching
//! response, an explicit cancellation, or an expiry at or after the
//! deadline; every later transition for the same id fails. The engine
//! is synchronous; an asynchronous host wraps it in a lock and holds the
//! per-call completion channels beside it.

use vstd::prelude::*;

use crate::error::VmpError;
use crate::value::{DynValue, key_index, lemma_key_index, str_eq};
use crate::types::{RpcRequest, RpcResponse};

verus! {

broadcast use vstd::std_specs::vec::group_vec_axioms, vstd::seq::group_seq_axioms;

/// Relies on uuid's Uuid::new_v4, whose hyphenated text form is 36
/// characters; the id is that form behind a fixed 4-character prefix.
/// Nothing is assumed about which id comes out: it is random.
#[verifier::external_body]
pub fn generate_request_id() -> (r: String)
    ensures
        r@.len() == 40,
        r@.subrange(0, 4) == "rpc-"@,
{
    format!("rpc-{}", uuid::Uuid::new_v4())
}

/// Builds an RPC request with a fresh correlation id and the given
/// method name and arguments.
pub fn create_rpc_request(
    etype: &str,
    args: Option<Vec<DynValue>>,
    kwargs: Option<Vec<(String, DynValue)>>,
) -> (r: RpcRequest)
    ensures
        r.etype@ == etype@,
        r.rtype@.len() == 40,
        r.rtype@.subrange(0, 4) == "rpc-"@,
        r.args == args,
        r.kwargs == kwargs,
{
    let rtype = generate_request_id();
    let req = RpcRequest::new(etype, rtype.as_str());
    let req = match args {
        Some(a) => req.with_args(a),
        None => req,
    };
    let req = match kwargs {
        Some(k) => req.with_kwargs(k),
        None => req,
    };
    req
}

/// Builds an RPC response from an operation's outcome: a success
/// response carrying the value, or an error response carrying the
/// error's description.
pub fn create_rpc_response(etype: &str, result: Result<DynValue, VmpError>) -> (r: RpcResponse)
    ensures
        r.etype@ == etype@,
        match result {
            Ok(data) => r.data == Some(data) && r.ok == Some(true) && r.error is None,
            Err(e) => r.data is None && r.ok == Some(false)
                && (r.error matches Some(msg) && msg@ == e.prefix() + e.detail()@),
        },
{
    match result {
        Ok(data) => RpcResponse::success(etype, data),
        Err(e) => {
            let msg = e.message();
            RpcResponse::error(etype, msg.as_str())
        },
    }
}

/// One outstanding call: its correlation id and its deadline in
/// milliseconds since the epoch.
pub struct PendingCall {
    /// The correlation id the response must echo.
    pub rtype: String,
    /// The instant at or after which the call may time out.
    pub deadline: i64,
}

/// The models of a sequence of pending calls, element by element.
pub open spec fn view_pending(s: Seq<PendingCall>) -> Seq<(Seq<char>, i64)>
    decreases s.len(),
{
    if s.len() == 0 {
        Seq::empty()
    } else {
        view_pending(s.drop_last()).push((s.last().rtype@, s.last().deadline))
    }
}

/// `view_pending` maps the sequence element by element.
pub broadcast proof fn lemma_view_pending(s: Seq<PendingCall>)
    ensures
        #[trigger] view_pending(s).len() == s.len(),
        forall|i: int| 0 <= i < s.len()
            ==> view_pending(s)[i] == (s[i].rtype@, s[i].deadline),
    decreases s.len(),
{
    if s.len() > 0 {
        lemma_view_pending(s.drop_last());
    }
}

/// The correlation engine: the set of outstanding calls, each id at
/// most once.
pub struct RpcManager {
    pending: Vec<PendingCall>,
}

impl RpcManager {
    /// The outstanding (id, deadline) pairs, in insertion order.
    pub closed spec fn calls(&self) -> Seq<(Seq<char>, i64)> {
        view_pending(self.pending@)
    }

    /// Each correlation id occurs at most once.
    pub open spec fn wf(&self) -> bool {
        forall|i: int, j: int| 0 <= i < j < self.calls().len()
            ==> (#[trigger] self.calls()[i]).0 != (#[trigger] self.calls()[j]).0
    }

    /// Whether a call with this id is outstanding.
    pub open spec fn is_pending(&self, id: Seq<char>) -> bool {
        key_index(self.calls(), id) >= 0
    }

    /// The deadline of the outstanding call with this id.
    pub open spec fn deadline_of(&self, id: Seq<char>) -> i64 {
        self.calls()[key_index(self.calls(), id)].1
    }

    /// A new correlator with no outstanding calls.
    pub fn new() -> (r: Self)
        ensures
            r.calls() == Seq::<(Seq<char>, i64)>::empty(),
            r.wf(),
    {
        let r = RpcManager { pending: Vec::new() };
        proof {
            assert(r.calls() =~= Seq::<(Seq<char>, i64)>::empty());
        }
        r
    }

    /// Issues a request: builds it with a fresh correlation id and
    /// registers the id as outstanding with deadline `now + timeout_ms`.
    /// The caller sends the request out of band and later feeds the
    /// response, a cancellation, or the clock back in.
    pub fn request(
        &mut self,
        etype: &str,
        args: Option<Vec<DynValue>>,
        kwargs: Option<Vec<(String, DynValue)>>,
        timeout_ms: i64,
        now: i64,
    ) -> (r: RpcRequest)
        requires
            old(self).wf(),
            0 <= timeout_ms,
            now + timeout_ms <= i64::MAX,
        ensures
            final(self).wf(),
            r.etype@ == etype@,
            r.rtype@.len() == 40,
            r.rtype@.subrange(0, 4) == "rpc-"@,
            r.args == args,
            r.kwargs == kwargs,
            final(self).is_pending(r.rtype@),
            final(self).deadline_of(r.rtype@) == now + timeout_ms,
            final(self).calls() == if old(self).is_pending(r.rtype@) {
                old(self).calls().update(key_index(old(self).calls(), r.rtype@),
                    (r.rtype@, (now + timeout_ms) as i64))
            } else {
                old(self).calls().push((r.rtype@, (now + timeout_ms) as i64))
            },
            forall|t: Seq<char>| t != r.rtype@
                ==> #[trigger] final(self).is_pending(t) == old(self).is_pending(t),
    {
        let req = create_rpc_request(etype, args, kwargs);
        self.insert_pending(req.rtype.clone(), now + timeout_ms);
        req
    }

    /// Registers an id as outstanding with the given deadline,
    /// replacing the deadline of an already-outstanding id.
    fn insert_pending(&mut self, rtype: String, deadline: i64)
        requires
            old(self).wf(),
        ensures
            final(self).wf(),
            final(self).is_pending(rtype@),
            final(self).deadline_of(rtype@) == deadline,
            final(self).calls() == if old(self).is_pending(rtype@) {
                old(self).calls().update(key_index(old(self).calls(), rtype@),
                    (rtype@, deadline))
            } else {
                old(self).calls().push((rtype@, deadline))
            },
            forall|t: Seq<char>| t != rtype@
                ==> #[trigger] final(self).is_pending(t) == old(self).is_pending(t),
    {
        let ghost prev = self.calls();
        proof {
            lemma_view_pending(self.pending@);
            lemma_key_index(prev, rtype@);
        }
        let mut i: usize = 0;
        let n = self.pending.len();
        while i < n
            invariant
                n == self.pending@.len(),
                i <= n,
                self == old(self),
                prev == self.calls(),
                prev.len() == self.pending@.len(),
                forall|j: int| 0 <= j < self.pending@.len()
                    ==> #[trigger] prev[j] == (self.pending@[j].rtype@, self.pending@[j].deadline),
                forall|j: int| 0 <= j < i as int ==> (#[trigger] prev[j]).0 != rtype@,
                forall|a: int, b: int| 0 <= a < b < prev.len()
                    ==> (#[trigger] prev[a]).0 != (#[trigger] prev[b]).0,
            decreases n - i,
        {
            let hit = str_eq(self.pending[i].rtype.as_str(), rtype.as_str());
            if hit {
                proof {
                    assert(key_index(prev, rtype@) == i as int) by {
                        lemma_key_index(prev, rtype@);
                        if key_index(prev, rtype@) < 0 {
                            assert(prev[i as int].0 != rtype@);
                            assert(false);
                        } else if key_index(prev, rtype@) < i as int {
                            assert(prev[key_index(prev, rtype@)].0 == rtype@);
                            assert(prev[key_index(prev, rtype@)].0 != rtype@);
                            assert(false);
                        } else if key_index(prev, rtype@) > i as int {
                            assert(prev[i as int].0 != rtype@);
                            assert(prev[i as int].0 == rtype@);
                            assert(false);
                        }
                    }
                }
                self.pending.set(i, PendingCall { rtype, deadline });
                proof {
                    lemma_view_pending(self.pending@);
                    assert(self.calls() =~= prev.update(i as int, (rtype@, deadline)));
                    let cur = self.calls();
                    assert(forall|j: int| 0 <= j < prev.len()
                        ==> (#[trigger] prev[j]).0 == (#[trigger] cur[j]).0);
                    crate::type_registry::lemma_key_index_keys_equal(prev, cur, rtype@);
                    assert forall|a: int, b: int| 0 <= a < b < cur.len()
                        implies (#[trigger] cur[a]).0 != (#[trigger] cur[b]).0 by {
                        assert(prev[a].0 != prev[b].0);
                        assert(cur[a].0 == prev[a].0);
                        assert(cur[b].0 == prev[b].0);
                    }
                    assert forall|t: Seq<char>| t != rtype@
                        implies #[trigger] self.is_pending(t) == old(self).is_pending(t) by {
                        crate::type_registry::lemma_key_index_keys_equal(prev, cur, t);
                    }
                }
                return;
            }
            i = i + 1;
        }
        proof {
            lemma_key_index(prev, rtype@);
            assert(key_index(prev, rtype@) < 0) by {
                if key_index(prev, rtype@) >= 0 {
                    assert(prev[key_index(prev, rtype@)].0 == rtype@);
                    assert(prev[key_index(prev, rtype@)].0 != rtype@);
                }
            }
        }
        self.pending.push(PendingCall { rtype, deadline });
        proof {
            lemma_view_pending(self.pending@);
            lemma_view_pending(old(self).pending@);
            assert(self.calls() =~= prev.push((rtype@, deadline)));
            let cur = self.calls();
            crate::type_registry::lemma_key_index_push(prev, (rtype@, deadline), rtype@);
            assert(key_index(cur, rtype@) == prev.len() as int);
            assert forall|a: int, b: int| 0 <= a < b < cur.len()
                implies (#[trigger] cur[a]).0 != (#[trigger] cur[b]).0 by {
                if b < prev.len() {
                    assert(cur[a] == prev[a] && cur[b] == prev[b]);
                } else {
                    assert(cur[a] == prev[a]);
                    assert(prev[a].0 != rtype@);
                    assert(cur[b].0 == rtype@);
                }
            }
            assert forall|t: Seq<char>| t != rtype@
                implies #[trigger] self.is_pending(t) == old(self).is_pending(t) by {
                crate::type_registry::lemma_key_index_push(prev, (rtype@, deadline), t);
            }
        }
    }

    /// Removes the outstanding call at a known position.
    fn remove_at(&mut self, i: usize)
        requires
            old(self).wf(),
            i < old(self).calls().len(),
        ensures
            final(self).wf(),
            final(self).calls() == old(self).calls().remove(i as int),
    {
        proof {
            lemma_view_pending(self.pending@);
        }
        let ghost prev = self.calls();
        self.pending.remove(i);
        proof {
            lemma_view_pending(self.pending@);
            lemma_view_pending(old(self).pending@);
            assert(self.calls() =~= prev.remove(i as int));
            let cur = self.calls();
            assert forall|a: int, b: int| 0 <= a < b < cur.len()
                implies (#[trigger] cur[a]).0 != (#[trigger] cur[b]).0 by {
                let pa: int = if a < i as int { a } else { a + 1 };
                let pb: int = if b < i as int { b } else { b + 1 };
                assert(cur[a] == prev[pa]);
                assert(cur[b] == prev[pb]);
                assert(prev[pa].0 != prev[pb].0);
            }
        }
    }

    /// Finds the position of an outstanding id.
    fn find_pending(&self, id: &str) -> (r: Option<usize>)
        ensures
            match r {
                Some(i) => i as int == key_index(self.calls(), id@)
                    && i < self.calls().len(),
                None => !self.is_pending(id@),
            },
    {
        let ghost m = self.calls();
        proof {
            lemma_view_pending(self.pending@);
        }
        let mut i: usize = 0;
        while i < self.pending.len()
            invariant
                i <= self.pending@.len(),
                m == self.calls(),
                m.len() == self.pending@.len(),
                forall|j: int| 0 <= j < self.pending@.len()
                    ==> #[trigger] m[j] == (self.pending@[j].rtype@, self.pending@[j].deadline),
                forall|j: int| 0 <= j < i as int ==> (#[trigger] m[j]).0 != id@,
            decreases self.pending@.len() - i,
        {
            if str_eq(self.pending[i].rtype.as_str(), id) {
                proof {
                    assert(key_index(m, id@) == i as int) by {
                        lemma_key_index(m, id@);
                        if key_index(m, id@) < 0 {
                            assert(m[i as int].0 != id@);
                            assert(false);
                        } else if key_index(m, id@) < i as int {
                            assert(m[key_index(m, id@)].0 == id@);
                            assert(m[key_index(m, id@)].0 != id@);
                            assert(false);
                        } else if key_index(m, id@) > i as int {
                            assert(m[i as int].0 != id@);
                            assert(m[i as int].0 == id@);
                            assert(false);
                        }
                    }
                }
                return Some(i);
            }
            i = i + 1;
        }
        proof {
            lemma_key_index(m, id@);
            if key_index(m, id@) >= 0 {
                assert(m[key_index(m, id@)].0 == id@);
            }
        }
        None
    }

    /// Correlates an incoming response: if a call with the response's
    /// `etype` is outstanding, it is removed (fulfilled) and the caller
    /// resolves its completion; otherwise the response is unmatched,
    /// late, or a duplicate, and the call fails.
    pub fn handle_response(&mut self, response: &RpcResponse) -> (r: Result<(), VmpError>)
        requires
            old(self).wf(),
        ensures
            final(self).wf(),
            match r {
                Ok(()) => old(self).is_pending(response.etype@)
                    && final(self).calls() == old(self).calls().remove(
                        key_index(old(self).calls(), response.etype@)),
                Err(e) => !old(self).is_pending(response.etype@)
                    && final(self).calls() == old(self).calls()
                    && e is RpcError,
            },
    {
        match self.find_pending(response.etype.as_str()) {
            Some(i) => {
                self.remove_at(i);
                Ok(())
            },
            None => {
                let mut m = "no pending request for response type: ".to_owned();
                m.append(response.etype.as_str());
                Err(VmpError::RpcError(m))
            },
        }
    }

    /// Cancels an outstanding call: removes it and reports whether it
    /// existed.
    pub fn cancel(&mut self, rtype: &str) -> (r: bool)
        requires
            old(self).wf(),
        ensures
            final(self).wf(),
            r == old(self).is_pending(rtype@),
            final(self).calls() == if old(self).is_pending(rtype@) {
                old(self).calls().remove(key_index(old(self).calls(), rtype@))
            } else {
                old(self).calls()
            },
    {
        match self.find_pending(rtype) {
            Some(i) => {
                self.remove_at(i);
                true
            },
            None => false,
        }
    }

    /// Times an outstanding call out, but only at or after its
    /// deadline: removes it and reports whether it did. A call that is
    /// not outstanding, or whose deadline lies ahead, is left alone.
    pub fn expire(&mut self, rtype: &str, now: i64) -> (r: bool)
        requires
            old(self).wf(),
        ensures
            final(self).wf(),
            r == (old(self).is_pending(rtype@) && now >= old(self).deadline_of(rtype@)),
            final(self).calls() == if old(self).is_pending(rtype@)
                && now >= old(self).deadline_of(rtype@) {
                old(self).calls().remove(key_index(old(self).calls(), rtype@))
            } else {
                old(self).calls()
            },
    {
        match self.find_pending(rtype) {
            Some(i) => {
                proof {
                    lemma_view_pending(self.pending@);
                }
                if now >= self.pending[i].deadline {
                    self.remove_at(i);
                    true
                } else {
                    false
                }
            },
            None => false,
        }
    }

    /// The number of outstanding calls: exactly the ids that have seen
    /// no terminal outcome yet.
    pub fn pending_count(&self) -> (r: usize)
        ensures
            r == self.calls().len(),
    {
        proof {
            lemma_view_pending(self.pending@);
        }
        self.pending.len()
    }

    /// Discards every outstanding call.
    pub fn clear(&mut self)
        ensures
            final(self).wf(),
            final(self).calls() == Seq::<(Seq<char>, i64)>::empty(),
    {
        self.pending.clear();
        proof {
            assert(self.calls() =~= Seq::<(Seq<char>, i64)>::empty());
        }
    }
}

/// Correlation is exactly-once: whichever terminal transition (a
/// matching response, a cancellation, or an expiry) removes an
/// outstanding id first, the id is no longer outstanding afterwards, so
/// every later transition for it fails: `handle_response` returns the
/// correlation error, `cancel` returns false, and `expire` returns
/// false. Together with the `pending_count` contract, the count always
/// equals the number of ids without a terminal outcome.
pub proof fn lemma_exactly_once(calls: Seq<(Seq<char>, i64)>, id: Seq<char>)
    requires
        forall|i: int, j: int| 0 <= i < j < calls.len()
            ==> (#[trigger] calls[i]).0 != (#[trigger] calls[j]).0,
        key_index(calls, id) >= 0,
    ensures
        key_index(calls.remove(key_index(calls, id)), id) < 0,
{
    let i = key_index(calls, id);
    lemma_key_index(calls, id);
    let cur = calls.remove(i);
    lemma_key_index(cur, id);
    if key_index(cur, id) >= 0 {
        let j = key_index(cur, id);
        assert(cur[j].0 == id);
        if j < i {
            assert(cur[j] == calls[j]);
            assert(calls[j].0 != id);
        } else {
            assert(cur[j] == calls[j + 1]);
            assert(calls[i].0 == id);
            assert(calls[i].0 != calls[j + 1].0);
        }
        assert(false);
    }
}

} // verus!
