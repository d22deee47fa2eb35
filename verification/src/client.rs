//! Requests that wait for their responses.
//!
//! A request gets an id. Whoever waits for its response is known by a number, which is
//! handed back with the response. A request that was begun with a payload ends with the
//! payload of the response, one that was begun with a message ends with the message
//! that is the response.

use crate::envelope::{fault_text, Envelope};
use crate::ids::{tokens_in, values_in_order};
use crate::transport_error::TransportError;
use std::collections::BTreeMap;
use vstd::prelude::*;
use vstd::string::StringExecFns;

verus! {

/// A message that no request waits for.
#[derive(Debug, Clone)]
pub struct ReceivedEnvelope<E> {
    /// The message.
    pub envelope: E,
    /// Where it came from.
    pub from: String,
}

/// The requests of a client.
pub struct ClientTransport {
    pending_requests: BTreeMap<u64, u64>,
    next_correlation_id: u64,
}

/// What a [`ClientTransport`] says.
#[verifier::ext_equal]
pub ghost struct ClientView {
    pub pending: Map<u64, u64>,
    pub next_id: u64,
}

impl View for ClientTransport {
    type V = ClientView;

    closed spec fn view(&self) -> ClientView {
        ClientView { pending: self.pending_requests@, next_id: self.next_correlation_id }
    }
}

/// What became of a message that was received.
pub enum Received<E> {
    /// It answers a request.
    Response {
        /// Who waits for it.
        waiter: u64,
        /// The response.
        envelope: E,
    },
    /// No request waits for it.
    Application(ReceivedEnvelope<E>),
}

/// What is known of the response to a request.
#[derive(Debug)]
pub enum ReplyPoll<E> {
    /// It came.
    Ready(E),
    /// It did not come yet.
    Empty,
    /// The client was closed: the response is empty.
    Drained,
    /// It will not come.
    Closed,
}

/// Who waits for the response with an id.
pub open spec fn waiter_of(v: ClientView, id: u64) -> Option<u64> {
    if v.pending.contains_key(id) {
        Some(v.pending[id])
    } else {
        None
    }
}

/// A request waits under an id.
pub open spec fn begun(v: ClientView, id: u64, waiter: u64) -> ClientView {
    ClientView { pending: v.pending.insert(id, waiter), ..v }
}

/// A request waits under the next id.
pub open spec fn requested(v: ClientView, waiter: u64) -> ClientView {
    begun(
        (ClientView { next_id: crate::counts::next_count(v.next_id), ..v }),
        v.next_id,
        waiter,
    )
}

/// No request waits under an id any more.
pub open spec fn ended(v: ClientView, id: u64) -> ClientView {
    ClientView { pending: v.pending.remove(id), ..v }
}

/// A request was asked for its reply: it waits on where there is none yet.
pub open spec fn settled<E>(v: ClientView, id: u64, reply: ReplyPoll<E>) -> ClientView {
    if reply is Empty {
        v
    } else {
        ended(v, id)
    }
}

impl ClientTransport {
    /// No request waits.
    pub fn new() -> (c: Self)
        ensures
            c@ == (ClientView { pending: Map::empty(), next_id: 1 }),
    {
        ClientTransport { pending_requests: BTreeMap::new(), next_correlation_id: 1 }
    }

    /// A client that numbers its requests from `id` on.
    pub fn with_next_id(id: u64) -> (c: Self)
        ensures
            c@ == (ClientView { pending: Map::empty(), next_id: id }),
    {
        ClientTransport { pending_requests: BTreeMap::new(), next_correlation_id: id }
    }

    /// The id of the next request. Ids start over after the largest.
    pub fn next_correlation_id(&mut self) -> (id: u64)
        ensures
            id == old(self)@.next_id,
            final(self)@ == (ClientView {
                next_id: crate::counts::next_count(old(self)@.next_id),
                ..old(self)@
            }),
    {
        let id: u64 = self.next_correlation_id;
        self.next_correlation_id = id.wrapping_add(1);
        id
    }

    /// Begins a request under a fresh id. Returns the id, and who waited under it
    /// before and waits in vain now.
    pub fn request(&mut self, waiter: u64) -> (r: (u64, Option<u64>))
        ensures
            r.0 == old(self)@.next_id,
            r.1 == waiter_of(old(self)@, r.0),
            final(self)@ == requested(old(self)@, waiter),
    {
        let id: u64 = self.next_correlation_id();
        let before = self.begin(id, waiter);
        (id, before)
    }

    /// Begins a request with a message, under the id that the message has. Returns who
    /// waited under it before and waits in vain now.
    pub fn request_envelope<E: Envelope>(&mut self, envelope: &E, waiter: u64) -> (before: Option<
        u64,
    >)
        ensures
            before == waiter_of(old(self)@, E::id(envelope@)),
            final(self)@ == begun(old(self)@, E::id(envelope@), waiter),
    {
        let id: u64 = envelope.correlation_id();
        self.begin(id, waiter)
    }

    fn begin(&mut self, id: u64, waiter: u64) -> (before: Option<u64>)
        ensures
            before == waiter_of(old(self)@, id),
            final(self)@ == begun(old(self)@, id, waiter),
    {
        let before: Option<u64> = match self.pending_requests.get(&id) {
            Some(w) => Some(*w),
            None => None,
        };
        self.pending_requests.insert(id, waiter);
        before
    }

    /// Takes a message that was received. It goes to the request that waits for its
    /// id, and else to the application.
    pub fn poll_receive<E: Envelope>(&mut self, envelope: E) -> (r: Received<E>)
        ensures
            final(self)@ == ended(old(self)@, E::id(envelope@)),
            match r {
                Received::Response { waiter, envelope: response } => waiter_of(
                    old(self)@,
                    E::id(envelope@),
                ) == Some(waiter) && response == envelope,
                Received::Application(e) => waiter_of(old(self)@, E::id(envelope@)) is None
                    && e.envelope == envelope && e.from@ == "unknown"@,
            },
    {
        let id: u64 = envelope.correlation_id();
        match self.pending_requests.remove(&id) {
            Some(waiter) => Received::Response { waiter, envelope },
            None => {
                assert(self@.pending =~= old(self)@.pending.remove(id));
                Received::Application(
                    ReceivedEnvelope { envelope, from: "unknown".to_owned() },
                )
            },
        }
    }

    /// Decides whether a request that was begun with a payload is over, given what is
    /// known of its response, and with what payload. One that is over no longer waits.
    pub fn settle<E: Envelope>(&mut self, id: u64, reply: ReplyPoll<E>) -> (r: Option<
        Result<Vec<u8>, TransportError>,
    >)
        ensures
            final(self)@ == settled(old(self)@, id, reply),
            match reply {
                ReplyPoll::Empty => r is None,
                ReplyPoll::Ready(response) => r matches Some(Ok(payload)) && payload@ == E::body(
                    response@,
                ),
                ReplyPoll::Drained => r matches Some(Ok(payload)) && payload@ == Seq::<
                    u8,
                >::empty(),
                ReplyPoll::Closed => r matches Some(Err(e)) && e.is_send_failed(
                    "Request cancelled"@,
                ),
            },
    {
        match reply {
            ReplyPoll::Empty => None,
            ReplyPoll::Ready(response) => {
                self.forget(id);
                Some(Ok(vstd::slice::slice_to_vec(response.payload())))
            },
            ReplyPoll::Drained => {
                self.forget(id);
                Some(Ok(Vec::new()))
            },
            ReplyPoll::Closed => {
                self.forget(id);
                Some(Err(TransportError::SendFailed("Request cancelled".to_owned())))
            },
        }
    }

    /// Decides whether a request that was begun with a message is over, given what is
    /// known of its response, and with what message. One that is over no longer waits.
    /// An empty response is read as a message.
    pub fn settle_envelope<E: Envelope>(&mut self, id: u64, reply: ReplyPoll<E>) -> (r: Option<
        Result<E, TransportError>,
    >)
        ensures
            final(self)@ == settled(old(self)@, id, reply),
            match reply {
                ReplyPoll::Empty => r is None,
                ReplyPoll::Ready(response) => r == Some(Ok::<E, TransportError>(response)),
                ReplyPoll::Drained => r matches Some(read) && is_read_from(read, Seq::empty()),
                ReplyPoll::Closed => r matches Some(Err(e)) && e.is_send_failed(
                    "Request cancelled"@,
                ),
            },
    {
        match reply {
            ReplyPoll::Empty => None,
            ReplyPoll::Ready(response) => {
                self.forget(id);
                Some(Ok(response))
            },
            ReplyPoll::Drained => {
                self.forget(id);
                let nothing: Vec<u8> = Vec::new();
                Some(read_response(&nothing))
            },
            ReplyPoll::Closed => {
                self.forget(id);
                Some(Err(TransportError::SendFailed("Request cancelled".to_owned())))
            },
        }
    }

    fn forget(&mut self, id: u64)
        ensures
            final(self)@ == ended(old(self)@, id),
    {
        let removed = self.pending_requests.remove(&id);
        assert(self@.pending =~= old(self)@.pending.remove(id));
    }

    /// Closes the client. Returns who waited, in the order of the ids that they waited
    /// under; they get an empty response.
    pub fn close(&mut self) -> (waiters: Vec<u64>)
        ensures
            final(self)@ == (ClientView { pending: Map::empty(), ..old(self)@ }),
            waiters@ == values_in_order(old(self)@.pending),
            waiters@.len() == old(self)@.pending.dom().len(),
            waiters@.to_set() == old(self)@.pending.values(),
    {
        let waiters = tokens_in(&self.pending_requests);
        self.pending_requests.clear();
        waiters
    }

    /// How many requests wait.
    pub fn pending_request_count(&self) -> (n: usize)
        ensures
            n == self@.pending.dom().len(),
    {
        self.pending_requests.len()
    }

    /// Whether a request waits under an id.
    pub fn has_pending_request(&self, correlation_id: u64) -> (b: bool)
        ensures
            b == self@.pending.contains_key(correlation_id),
    {
        self.pending_requests.contains_key(&correlation_id)
    }
}

/// What bytes say as a response.
pub open spec fn is_read_from<E: Envelope>(r: Result<E, TransportError>, data: Seq<u8>) -> bool {
    match r {
        Ok(e) => E::decoded(data) == Ok::<E::V, crate::envelope::FaultView>(e@),
        Err(e) => E::decoded(data) matches Err(f) && e.is_send_failed(
            "Failed to deserialize response: "@ + fault_text(f),
        ),
    }
}

fn read_response<E: Envelope>(data: &Vec<u8>) -> (r: Result<E, TransportError>)
    ensures
        is_read_from(r, data@),
{
    match E::from_bytes(data.as_slice()) {
        Ok(e) => Ok(e),
        Err(e) => {
            let mut reason = "Failed to deserialize response: ".to_owned();
            reason.append(e.describe().as_str());
            Err(TransportError::SendFailed(reason))
        },
    }
}

/// A response reaches whoever waits for it, once: the message with the id of a request
/// that began is handed to its waiter, and a second one with the same id is not. Other
/// requests wait as before.
pub proof fn lemma_response_reaches_waiter(v: ClientView, id: u64, waiter: u64)
    ensures
        waiter_of(begun(v, id, waiter), id) == Some(waiter),
        waiter_of(ended(begun(v, id, waiter), id), id) is None,
        forall|other: u64|
            other != id ==> waiter_of(begun(v, id, waiter), other) == #[trigger] waiter_of(
                v,
                other,
            ) && waiter_of(ended(begun(v, id, waiter), id), other) == waiter_of(v, other),
{
}

/// A message that responds to a request is handed to whoever waits for that request,
/// and none is pending under its id after that.
pub proof fn lemma_request_is_answered<E: Envelope>(
    v: ClientView,
    request: E::V,
    response: E::V,
    waiter: u64,
)
    requires
        E::id(response) == E::id(request),
    ensures
        ({
            let waiting = begun(v, E::id(request), waiter);
            &&& waiter_of(waiting, E::id(response)) == Some(waiter)
            &&& !ended(waiting, E::id(response)).pending.contains_key(E::id(request))
        }),
{
}

} // verus!
