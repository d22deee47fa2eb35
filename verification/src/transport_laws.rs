//! What requests, responses and the bytes between them are good for.

use crate::bytes::le_bytes;
use crate::client::{ClientView, ReplyPoll, ended, requested, settled, waiter_of};
use crate::envelope::{
    Envelope, EnvelopeView, FaultView, SimpleEnvelope, framed, framed_len, lemma_frame_parts,
    simple_decoded,
};
use crate::peer_config::{PeerConfig, gives_up, wait_after};
use crate::protocol::{ProtocolView, counted_up, handled, parsed_all, sent, stream_of};
use crate::request_response_envelope::{
    RequestResponseEnvelope, lemma_message_round_trip, rr_decoded, rr_taken,
};
use crate::server::{ServerView, accepted, disconnected, messages_in, routed};
use crate::time::MAX_NANOS;
use crate::transport_error::TransportError;
use vstd::prelude::*;

verus! {

/// Messages that a server reads from a connection are those that were written to it, whole
/// and in order; what is too short for a message is kept for the bytes to come.
pub proof fn lemma_server_reads_what_was_written(messages: Seq<EnvelopeView>, part: Seq<u8>)
    requires
        forall|i: int|
            0 <= i < messages.len() ==> (#[trigger] messages[i]).payload.len() <= 1_048_576,
        part.len() < 12,
    ensures
        messages_in::<RequestResponseEnvelope>(stream_of(messages) + part) == (messages, part),
    decreases messages.len(),
{
    let buffer = stream_of(messages) + part;
    if messages.len() == 0 {
        assert(buffer =~= part);
        assert(messages =~= Seq::<EnvelopeView>::empty());
    } else {
        let more = messages.skip(1);
        let rest = stream_of(more) + part;
        assert(buffer =~= framed(messages[0]) + rest);
        lemma_message_round_trip(messages[0], rest);
        lemma_frame_parts(messages[0], rest);
        assert forall|i: int| 0 <= i < more.len() implies (#[trigger] more[i]).payload.len()
            <= 1_048_576 by {
            assert(more[i] == messages[i + 1]);
        }
        lemma_server_reads_what_was_written(more, part);
        assert(seq![messages[0]] + more =~= messages);
    }
}

/// A message is twelve bytes and its payload: the id first, then the length of the payload,
/// each with its lowest byte first.
pub proof fn lemma_messages_are_laid_out(v: EnvelopeView)
    requires
        v.payload.len() < 0x1_0000_0000,
    ensures
        framed(v).len() == 12 + v.payload.len(),
        framed(v).skip(12) == v.payload,
        framed(v)[0] as int == v.correlation_id % 256,
        framed(v)[1] as int == v.correlation_id / 256 % 256,
        framed(v)[7] as int == v.correlation_id / 0x100_0000_0000_0000 % 256,
        framed(v)[8] as int == v.payload.len() % 256,
        framed(v)[9] as int == v.payload.len() / 256 % 256,
        framed(v)[11] as int == v.payload.len() / 0x100_0000 % 256,
{
    lemma_frame_parts(v, Seq::empty());
    let a = v.correlation_id as int;
    let b = v.payload.len() as int;
    reveal_with_fuel(le_bytes, 9);
    assert(le_bytes(a, 8).len() == 8);
    assert(le_bytes(b, 4).len() == 4);
    assert(framed(v)[0] == le_bytes(a, 8)[0]);
    assert(framed(v)[1] == le_bytes(a, 8)[1]);
    assert(framed(v)[7] == le_bytes(a, 8)[7]);
    assert(framed(v)[8] == le_bytes(b, 4)[0]);
    assert(framed(v)[9] == le_bytes(b, 4)[1]);
    assert(framed(v)[11] == le_bytes(b, 4)[3]);
}

/// Bytes are read as a message exactly where they are a whole one and no more, and of requests
/// and responses where the payload is no longer than allowed.
pub proof fn lemma_only_whole_messages_are_read(data: Seq<u8>)
    ensures
        simple_decoded(data) is Ok <==> data.len() >= 12 && data.len() == 12 + framed_len(data),
        rr_decoded(data) is Ok <==> data.len() >= 12 && data.len() == 12 + framed_len(data)
            && framed_len(data) <= 1_048_576,
        simple_decoded(data) matches Ok(v) ==> v.payload == data.skip(12),
        rr_decoded(data) matches Ok(v) ==> v.payload == data.skip(12),
        rr_taken(data).0 matches Ok(Some(v)) ==> data.len() >= 12 + v.payload.len() && v.payload
            == data.subrange(12, 12 + v.payload.len() as int) && rr_taken(data).1 == data.skip(
            12 + v.payload.len() as int,
        ),
        !(rr_taken(data).0 matches Ok(Some(v))) ==> rr_taken(data).1 == data,
{
    if data.len() >= 12 {
        crate::bytes::lemma_le_value(data.subrange(8, 12));
    }
}

/// A response has the id of its request and the payload that it was made with, and is read
/// back so: it reaches the one who waits for the request and ends the wait.
pub proof fn lemma_responses_reach_their_requests(
    c: ClientView,
    request: EnvelopeView,
    payload: Seq<u8>,
    waiter: u64,
    rest: Seq<u8>,
)
    requires
        request.payload.len() <= 1_048_576,
        payload.len() <= 1_048_576,
        waiter_of(c, request.correlation_id) == Some(waiter),
    ensures
        ({
            let response = RequestResponseEnvelope::response(request, payload);
            let read = EnvelopeView { correlation_id: request.correlation_id, payload };
            &&& rr_taken(framed(request) + rest) == (
                Ok::<Option<EnvelopeView>, FaultView>(Some(request)),
                rest,
            )
            &&& rr_taken(RequestResponseEnvelope::encoded(response) + rest) == (
                Ok::<Option<EnvelopeView>, FaultView>(Some(read)),
                rest,
            )
            &&& RequestResponseEnvelope::id(read) == request.correlation_id
            &&& RequestResponseEnvelope::body(read) == payload
            &&& waiter_of(c, RequestResponseEnvelope::id(read)) == Some(waiter)
            &&& waiter_of(ended(c, RequestResponseEnvelope::id(read)), request.correlation_id)
                is None
        }),
        ({
            let response = SimpleEnvelope::response(request, payload);
            &&& SimpleEnvelope::id(response) == request.correlation_id
            &&& SimpleEnvelope::body(response) == payload
            &&& simple_decoded(SimpleEnvelope::encoded(response)) == Ok::<EnvelopeView, FaultView>(
                response,
            )
        }),
{
    let response = RequestResponseEnvelope::response(request, payload);
    lemma_message_round_trip(request, rest);
    lemma_message_round_trip(response, rest);
    crate::envelope::lemma_simple_round_trip(response);
}

/// Requests that are made one after the other wait under different ids, each for itself, until
/// its response ends the wait; other waits stay.
pub proof fn lemma_requests_wait_apart(c: ClientView, a: u64, b: u64, other: u64)
    requires
        c.next_id < u64::MAX - 1,
    ensures
        ({
            let first = c.next_id;
            let one = requested(c, a);
            let second = one.next_id;
            let two = requested(one, b);
            &&& first != second
            &&& waiter_of(two, first) == Some(a)
            &&& waiter_of(two, second) == Some(b)
            &&& waiter_of(ended(two, first), first) is None
            &&& waiter_of(ended(two, first), second) == Some(b)
            &&& other != first && other != second ==> waiter_of(two, other) == waiter_of(c, other)
        }),
{
}

/// A server tells its connections apart: those that are accepted have different numbers, and
/// are known with their addresses until they are closed.
pub proof fn lemma_connections_are_told_apart(
    s: ServerView,
    a: Seq<char>,
    b: Seq<char>,
    data: Seq<u8>,
    other: u64,
)
    requires
        s.next_id < u64::MAX - 1,
    ensures
        ({
            let one = accepted(s, a);
            let two = accepted(one, b);
            &&& s.next_id != one.next_id
            &&& two.connections[s.next_id] == a
            &&& two.connections[one.next_id] == b
            &&& routed(two, s.next_id, data) == Ok::<(u64, Seq<u8>), TransportError>(
                (s.next_id, data),
            )
            &&& routed(disconnected(two, s.next_id), s.next_id, data) == Err::<
                (u64, Seq<u8>),
                TransportError,
            >(TransportError::UnknownConnection)
            &&& routed(disconnected(two, s.next_id), one.next_id, data) == Ok::<
                (u64, Seq<u8>),
                TransportError,
            >((one.next_id, data))
            &&& !s.connections.contains_key(other) && other != s.next_id && other != one.next_id
                ==> routed(two, other, data) is Err
            &&& two.bind_address == s.bind_address
        }),
{
}

/// A count after `n` more is greater by `n`.
proof fn lemma_counted_up(count: u64, n: nat)
    requires
        count + n <= u64::MAX,
    ensures
        counted_up(count, n) == count + n,
    decreases n,
{
    if n > 0 {
        lemma_counted_up(count, (n - 1) as nat);
    }
}

/// All that is sent and received is counted: each message that is handed over, with its
/// bytes, all bytes that arrive, and each message that they complete. Bytes that make no sense
/// are counted as an error and given up; else nothing is.
pub proof fn lemma_traffic_is_counted<E: Envelope>(
    p: ProtocolView<E::V>,
    destination: Seq<char>,
    envelope: E::V,
    data: Seq<u8>,
)
    requires
        p.stats.envelopes_sent < u64::MAX,
        p.stats.deserialization_errors < u64::MAX,
        p.stats.bytes_sent + E::encoded(envelope).len() <= u64::MAX,
        p.stats.bytes_received + data.len() <= u64::MAX,
        p.stats.envelopes_received + parsed_all::<E>(p.receive_buffer + data).envelopes.len()
            <= u64::MAX,
    ensures
        ({
            let q = sent::<E>(p, destination, envelope);
            &&& q.stats.envelopes_sent == p.stats.envelopes_sent + 1
            &&& q.stats.bytes_sent == p.stats.bytes_sent + E::encoded(envelope).len()
            &&& q.transmit_queue.len() == p.transmit_queue.len() + 1
            &&& q.transmit_queue.last().destination == destination
            &&& q.transmit_queue.last().data == E::encoded(envelope)
            &&& q.receive_queue == p.receive_queue && q.receive_buffer == p.receive_buffer
        }),
        ({
            let q = handled::<E>(p, data);
            let parsed = parsed_all::<E>(p.receive_buffer + data);
            &&& q.stats.bytes_received == p.stats.bytes_received + data.len()
            &&& q.stats.envelopes_received - p.stats.envelopes_received == q.receive_queue.len()
                - p.receive_queue.len()
            &&& q.receive_queue.take(p.receive_queue.len() as int) == p.receive_queue
            &&& parsed.failed ==> q.stats.deserialization_errors == p.stats.deserialization_errors
                + 1
            &&& !parsed.failed ==> q.stats.deserialization_errors == p.stats.deserialization_errors
            &&& q.transmit_queue == p.transmit_queue
            &&& q.stats.envelopes_sent == p.stats.envelopes_sent
        }),
{
    let parsed = parsed_all::<E>(p.receive_buffer + data);
    lemma_counted_up(p.stats.envelopes_received, parsed.envelopes.len());
    let q = handled::<E>(p, data);
    assert(q.receive_queue.take(p.receive_queue.len() as int) =~= p.receive_queue);
}

/// Bytes that cannot be the start of any message, for they announce too long a payload, are
/// an error and are given up.
pub proof fn lemma_nonsense_is_given_up(p: ProtocolView<EnvelopeView>, data: Seq<u8>)
    requires
        p.receive_buffer.len() == 0,
        data.len() >= 12,
        framed_len(data) > 1_048_576,
        p.stats.deserialization_errors < u64::MAX,
    ensures
        ({
            let q = handled::<RequestResponseEnvelope>(p, data);
            &&& q.receive_buffer.len() == 0
            &&& q.receive_queue == p.receive_queue
            &&& q.stats.deserialization_errors == p.stats.deserialization_errors + 1
        }),
{
    assert(p.receive_buffer + data =~= data);
    let q = handled::<RequestResponseEnvelope>(p, data);
    assert(q.receive_queue =~= p.receive_queue);
}

/// A peer is given up exactly after the most failures in a row, if there is a most. Until
/// then the waits start with the initial one, double each time, and are never longer than the
/// longest.
pub proof fn lemma_waits_double_up_to_the_longest(c: PeerConfig, failures: u32, last: nat)
    requires
        c.initial_reconnect_delay@ <= c.max_reconnect_delay@ <= MAX_NANOS,
        last + last <= MAX_NANOS,
    ensures
        gives_up(c, failures) <==> c.max_connection_failures is Some && failures
            >= c.max_connection_failures->0,
        wait_after(c, failures, last) <= c.max_reconnect_delay@,
        failures <= 1 ==> wait_after(c, failures, last) == c.initial_reconnect_delay@,
        failures > 1 && last + last <= c.max_reconnect_delay@ ==> wait_after(c, failures, last)
            == last + last,
        failures > 1 && last + last > c.max_reconnect_delay@ ==> wait_after(c, failures, last)
            == c.max_reconnect_delay@,
{
}

/// A request waits until its reply is there or will not come, and no longer; other requests
/// wait on.
pub proof fn lemma_replies_end_their_waits<E>(
    c: ClientView,
    id: u64,
    other: u64,
    reply: ReplyPoll<E>,
)
    ensures
        reply is Empty ==> settled(c, id, reply) == c,
        reply is Ready || reply is Drained || reply is Closed ==> waiter_of(
            settled(c, id, reply),
            id,
        ) is None,
        other != id ==> waiter_of(settled(c, id, reply), other) == waiter_of(c, other),
        settled(c, id, reply).next_id == c.next_id,
{
}

} // verus!
