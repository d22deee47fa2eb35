//! Connections of a server, and the messages that arrive on them.

use crate::counts::next_count;
use crate::envelope::Envelope;
use crate::ids::{ids_in, in_order};
use crate::transport_error::TransportError;
use std::collections::BTreeMap;
use vstd::prelude::*;

verus! {

/// The number of a connection.
pub type ConnectionId = u64;

/// A message that arrived on a connection.
#[derive(Debug)]
pub struct IncomingMessage<E> {
    /// The message.
    pub envelope: E,
    /// The connection.
    pub connection_id: ConnectionId,
    /// The address of the peer.
    pub peer_address: String,
}

/// What is known of a connection.
#[derive(Debug, Clone)]
pub struct ConnectionHandle {
    /// The address of the peer.
    pub peer_address: String,
}

impl View for ConnectionHandle {
    type V = Seq<char>;

    open spec fn view(&self) -> Seq<char> {
        self.peer_address@
    }
}

/// The connections of a server.
pub struct ServerTransport {
    connections: BTreeMap<u64, ConnectionHandle>,
    next_connection_id: u64,
    bind_address: String,
}

/// What a [`ServerTransport`] says.
#[verifier::ext_equal]
pub ghost struct ServerView {
    pub connections: Map<u64, Seq<char>>,
    pub next_id: u64,
    pub bind_address: Seq<char>,
}

impl View for ServerTransport {
    type V = ServerView;

    closed spec fn view(&self) -> ServerView {
        ServerView {
            connections: self.connections@.map_values(|c: ConnectionHandle| c@),
            next_id: self.next_connection_id,
            bind_address: self.bind_address@,
        }
    }
}

/// The messages in a buffer, one after the other, and what is left of it. Where bytes
/// make no sense, or are too few, they are kept.
pub open spec fn messages_in<E: Envelope>(buffer: Seq<u8>) -> (Seq<E::V>, Seq<u8>)
    decreases buffer.len(),
{
    match E::taken(buffer) {
        (Ok(Some(v)), rest) if rest.len() < buffer.len() => {
            let (more, left) = messages_in::<E>(rest);
            (seq![v] + more, left)
        },
        (_, rest) => (Seq::empty(), rest),
    }
}

/// Messages before others.
pub open spec fn messages_after<V>(first: Seq<V>, rest: (Seq<V>, Seq<u8>)) -> (Seq<V>, Seq<u8>) {
    (first + rest.0, rest.1)
}

/// A connection from an address was accepted, under the next number.
pub open spec fn accepted(s: ServerView, peer_address: Seq<char>) -> ServerView {
    ServerView {
        connections: s.connections.insert(s.next_id, peer_address),
        next_id: next_count(s.next_id),
        ..s
    }
}

/// A connection is forgotten.
pub open spec fn disconnected(s: ServerView, id: u64) -> ServerView {
    ServerView { connections: s.connections.remove(id), ..s }
}

/// What is sent, and to which connection; or why nothing is.
pub open spec fn routed(
    s: ServerView,
    connection_id: u64,
    data: Seq<u8>,
) -> Result<(u64, Seq<u8>), TransportError> {
    if s.connections.contains_key(connection_id) {
        Ok((connection_id, data))
    } else {
        Err(TransportError::UnknownConnection)
    }
}

/// The view of what is sent.
pub open spec fn route_view(r: Result<(u64, Vec<u8>), TransportError>) -> Result<
    (u64, Seq<u8>),
    TransportError,
> {
    match r {
        Ok((id, data)) => Ok((id, data@)),
        Err(e) => Err(e),
    }
}

impl ServerTransport {
    /// A server that is bound to an address and has no connections.
    pub fn bind(address: &str) -> (s: Self)
        ensures
            s@ == (ServerView {
                connections: Map::empty(),
                next_id: 0,
                bind_address: address@,
            }),
    {
        ServerTransport {
            connections: BTreeMap::new(),
            next_connection_id: 0,
            bind_address: address.to_owned(),
        }
    }

    /// Takes note of a connection that was accepted. Returns its number.
    pub fn accept(&mut self, peer_address: String) -> (id: ConnectionId)
        ensures
            id == old(self)@.next_id,
            final(self)@ == accepted(old(self)@, peer_address@),
    {
        let id: u64 = self.next_connection_id;
        self.next_connection_id = id.wrapping_add(1);
        self.connections.insert(id, ConnectionHandle { peer_address });
        assert(self@.connections =~= old(self)@.connections.insert(id, peer_address@));
        id
    }

    /// Puts together the messages that bytes from a connection complete, and takes them
    /// off the buffer.
    pub fn read<E: Envelope>(
        connection_id: ConnectionId,
        peer_address: &String,
        buffer: &mut Vec<u8>,
    ) -> (messages: Vec<IncomingMessage<E>>)
        ensures
            messages_in::<E>(old(buffer)@).1 == final(buffer)@,
            messages@.len() == messages_in::<E>(old(buffer)@).0.len(),
            forall|i: int|
                0 <= i < messages@.len() ==> (#[trigger] messages@[i]).envelope@ == messages_in::<
                    E,
                >(old(buffer)@).0[i] && messages@[i].connection_id == connection_id
                    && messages@[i].peer_address@ == peer_address@,
    {
        let ghost all = buffer@;
        let mut messages: Vec<IncomingMessage<E>> = Vec::new();
        let ghost mut done: Seq<E::V> = Seq::empty();
        proof {
            assert(done + messages_in::<E>(all).0 =~= messages_in::<E>(all).0);
        }
        loop
            invariant
                all == old(buffer)@,
                messages_in::<E>(all) == messages_after(done, messages_in::<E>(buffer@)),
                messages@.len() == done.len(),
                forall|i: int|
                    0 <= i < messages@.len() ==> (#[trigger] messages@[i]).envelope@ == done[i]
                        && messages@[i].connection_id == connection_id
                        && messages@[i].peer_address@ == peer_address@,
            decreases buffer@.len(),
        {
            let ghost before = buffer@;
            proof {
                E::lemma_taken_leaves_less(before);
            }
            match E::try_from_buffer(buffer) {
                Ok(Some(envelope)) => {
                    proof {
                        let v = envelope@;
                        let rest = messages_in::<E>(buffer@);
                        assert(done + (seq![v] + rest.0) =~= done.push(v) + rest.0);
                        done = done.push(v);
                    }
                    messages.push(
                        IncomingMessage {
                            envelope,
                            connection_id,
                            peer_address: peer_address.clone(),
                        },
                    );
                },
                _ => {
                    assert(done + Seq::<E::V>::empty() =~= done);
                    return messages;
                },
            }
        }
    }

    /// Decides what becomes of bytes for a connection, given whether its channel took
    /// them.
    pub fn send_to(&self, connection_id: ConnectionId, taken: bool) -> (r: Result<
        (),
        TransportError,
    >)
        ensures
            r == (if !self@.connections.contains_key(connection_id) {
                Err::<(), TransportError>(TransportError::UnknownConnection)
            } else if !taken {
                Err::<(), TransportError>(TransportError::ConnectionClosed)
            } else {
                Ok::<(), TransportError>(())
            }),
    {
        if !self.connections.contains_key(&connection_id) {
            return Err(TransportError::UnknownConnection);
        }
        if !taken {
            return Err(TransportError::ConnectionClosed);
        }
        Ok(())
    }

    /// The bytes of a message for a connection.
    pub fn send_envelope<E: Envelope>(&self, connection_id: ConnectionId, envelope: &E) -> (r:
        Result<(ConnectionId, Vec<u8>), TransportError>)
        ensures
            route_view(r) == routed(self@, connection_id, E::encoded(envelope@)),
    {
        if self.connections.contains_key(&connection_id) {
            Ok((connection_id, envelope.to_bytes()))
        } else {
            Err(TransportError::UnknownConnection)
        }
    }

    /// The bytes of a response, for the connection that the request came from.
    pub fn reply<E: Envelope>(&self, msg: &IncomingMessage<E>, response: &E) -> (r: Result<
        (ConnectionId, Vec<u8>),
        TransportError,
    >)
        ensures
            route_view(r) == routed(self@, msg.connection_id, E::encoded(response@)),
    {
        self.send_envelope(msg.connection_id, response)
    }

    /// The bytes of the response to a request with a payload, for the connection that a
    /// message came from.
    pub fn reply_with_payload<E: Envelope>(
        &self,
        request: &E,
        payload: Vec<u8>,
        msg: &IncomingMessage<E>,
    ) -> (r: Result<(ConnectionId, Vec<u8>), TransportError>)
        ensures
            route_view(r) == routed(
                self@,
                msg.connection_id,
                E::encoded(E::response(request@, payload@)),
            ),
    {
        let reply = request.create_response(payload);
        self.reply(msg, &reply)
    }

    /// The bytes of a message for all connections, and which these are, in the
    /// order in which their numbers rise.
    pub fn broadcast<E: Envelope>(&self, envelope: &E) -> (r: (Vec<ConnectionId>, Vec<u8>))
        ensures
            r.0@ == in_order(self@.connections.dom()),
            r.0@.to_set() == self@.connections.dom(),
            r.1@ == E::encoded(envelope@),
    {
        (self.connection_ids(), envelope.to_bytes())
    }

    /// How many connections there are.
    pub fn connection_count(&self) -> (n: usize)
        ensures
            n == self@.connections.dom().len(),
    {
        assert(self@.connections.dom() =~= self.connections@.dom());
        self.connections.len()
    }

    /// Whether there are connections.
    pub fn has_connections(&self) -> (b: bool)
        ensures
            b == (self@.connections.dom().len() > 0),
    {
        assert(self@.connections.dom() =~= self.connections@.dom());
        self.connections.len() > 0
    }

    /// The connections, in the order in which their numbers rise.
    pub fn connection_ids(&self) -> (ids: Vec<ConnectionId>)
        ensures
            ids@ == in_order(self@.connections.dom()),
            ids@.to_set() == self@.connections.dom(),
    {
        let ids = ids_in(&self.connections);
        assert(self@.connections.dom() =~= self.connections@.dom());
        ids
    }

    /// Forgets a connection.
    pub fn close_connection(&mut self, connection_id: ConnectionId) -> (r: Result<
        (),
        TransportError,
    >)
        ensures
            r == (if old(self)@.connections.contains_key(connection_id) {
                Ok::<(), TransportError>(())
            } else {
                Err::<(), TransportError>(TransportError::UnknownConnection)
            }),
            final(self)@ == disconnected(old(self)@, connection_id),
    {
        let removed = self.connections.remove(&connection_id);
        assert(self@.connections =~= old(self)@.connections.remove(connection_id));
        match removed {
            Some(_) => Ok(()),
            None => Err(TransportError::UnknownConnection),
        }
    }

    /// The address that the server is bound to.
    pub fn bind_address(&self) -> (a: &str)
        ensures
            a@ == self@.bind_address,
    {
        self.bind_address.as_str()
    }
}

} // verus!
