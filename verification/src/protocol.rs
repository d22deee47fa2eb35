//! The transport protocol as a state machine without I/O: messages to be sent are
//! queued as bytes, and bytes that arrive, in pieces of any size, are put together to
//! messages.

use crate::counts::next_count;
use crate::envelope::{
    framed, lemma_frame_parts, Envelope, EnvelopeError, EnvelopeView, FaultView,
};
use crate::request_response_envelope::{
    lemma_later_bytes_change_nothing, lemma_message_round_trip, rr_taken, RequestResponseEnvelope,
};
use std::collections::VecDeque;
use vstd::prelude::*;

verus! {

/// Bytes that are to be sent to a destination.
#[derive(Debug, Clone)]
pub struct Transmit {
    /// The destination.
    pub destination: String,
    /// The bytes.
    pub data: Vec<u8>,
}

/// What a [`Transmit`] says.
#[verifier::ext_equal]
pub ghost struct TransmitView {
    pub destination: Seq<char>,
    pub data: Seq<u8>,
}

impl View for Transmit {
    type V = TransmitView;

    open spec fn view(&self) -> TransmitView {
        TransmitView { destination: self.destination@, data: self.data@ }
    }
}

impl Transmit {
    /// Bytes for a destination.
    pub fn new(destination: String, data: Vec<u8>) -> (t: Self)
        ensures
            t@ == (TransmitView { destination: destination@, data: data@ }),
    {
        Transmit { destination, data }
    }

    /// How many bytes there are.
    pub fn data_size(&self) -> (n: usize)
        ensures
            n == self@.data.len(),
    {
        self.data.len()
    }

    /// Whether there are no bytes.
    pub fn is_empty(&self) -> (b: bool)
        ensures
            b == (self@.data.len() == 0),
    {
        self.data.len() == 0
    }
}

/// Counts of what was sent and received.
#[derive(Debug, Clone, Copy, PartialEq, Eq, Structural)]
pub struct ProtocolStats {
    /// Messages that were sent.
    pub envelopes_sent: u64,
    /// Messages that were received.
    pub envelopes_received: u64,
    /// Bytes that were sent.
    pub bytes_sent: u64,
    /// Bytes that were received.
    pub bytes_received: u64,
    /// Messages that could not be written.
    pub serialization_errors: u64,
    /// Times that bytes made no sense.
    pub deserialization_errors: u64,
}

/// Nothing was sent or received.
pub open spec fn zero_stats() -> ProtocolStats {
    ProtocolStats {
        envelopes_sent: 0,
        envelopes_received: 0,
        bytes_sent: 0,
        bytes_received: 0,
        serialization_errors: 0,
        deserialization_errors: 0,
    }
}

impl Default for ProtocolStats {
    fn default() -> (s: Self)
        ensures
            s == zero_stats(),
    {
        ProtocolStats {
            envelopes_sent: 0,
            envelopes_received: 0,
            bytes_sent: 0,
            bytes_received: 0,
            serialization_errors: 0,
            deserialization_errors: 0,
        }
    }
}

impl ProtocolStats {
    /// Counts at zero.
    pub fn new() -> (s: Self)
        ensures
            s == zero_stats(),
    {
        ProtocolStats::default()
    }

    /// Sets all counts to zero.
    pub fn reset(&mut self)
        ensures
            *final(self) == zero_stats(),
    {
        *self = ProtocolStats::default();
    }

    /// How many errors there were.
    pub fn total_errors(&self) -> (n: u64)
        requires
            self.serialization_errors + self.deserialization_errors <= u64::MAX,
        ensures
            n == self.serialization_errors + self.deserialization_errors,
    {
        self.serialization_errors + self.deserialization_errors
    }
}

/// The protocol.
pub struct TransportProtocol<E> {
    transmit_queue: VecDeque<Transmit>,
    receive_queue: VecDeque<E>,
    receive_buffer: Vec<u8>,
    stats: ProtocolStats,
}

/// What a [`TransportProtocol`] says.
#[verifier::ext_equal]
pub ghost struct ProtocolView<V> {
    pub transmit_queue: Seq<TransmitView>,
    pub receive_queue: Seq<V>,
    pub receive_buffer: Seq<u8>,
    pub stats: ProtocolStats,
}

/// What a queue says.
pub open spec fn queue_view<T: View>(s: Seq<T>) -> Seq<T::V> {
    Seq::new(s.len(), |i: int| s[i]@)
}

impl<E: View> View for TransportProtocol<E> {
    type V = ProtocolView<E::V>;

    closed spec fn view(&self) -> ProtocolView<E::V> {
        ProtocolView {
            transmit_queue: queue_view(self.transmit_queue@),
            receive_queue: queue_view(self.receive_queue@),
            receive_buffer: self.receive_buffer@,
            stats: self.stats,
        }
    }
}

/// Nothing is queued.
pub open spec fn idle_protocol<V>() -> ProtocolView<V> {
    ProtocolView {
        transmit_queue: Seq::empty(),
        receive_queue: Seq::empty(),
        receive_buffer: Seq::empty(),
        stats: zero_stats(),
    }
}

/// The messages in a buffer, what is left of it, and whether it made no sense.
#[verifier::ext_equal]
pub ghost struct Parsed<V> {
    pub envelopes: Seq<V>,
    pub rest: Seq<u8>,
    pub failed: bool,
}

/// The messages in a buffer, one after the other. Where bytes make no sense the buffer
/// is given up; where they are too few they are kept.
pub open spec fn parsed_all<E: Envelope>(buffer: Seq<u8>) -> Parsed<E::V>
    decreases buffer.len(),
{
    match E::taken(buffer) {
        (Ok(Some(v)), rest) if rest.len() < buffer.len() => {
            let p = parsed_all::<E>(rest);
            Parsed { envelopes: seq![v] + p.envelopes, ..p }
        },
        (Err(FaultView::Failed(reason)), rest) => Parsed {
            envelopes: Seq::empty(),
            rest: Seq::empty(),
            failed: true,
        },
        (_, rest) => Parsed { envelopes: Seq::empty(), rest, failed: false },
    }
}

/// Messages before others.
pub open spec fn parsed_after<V>(first: Seq<V>, p: Parsed<V>) -> Parsed<V> {
    Parsed { envelopes: first + p.envelopes, ..p }
}

/// The protocol after bytes arrived.
pub open spec fn handled<E: Envelope>(p: ProtocolView<E::V>, data: Seq<u8>) -> ProtocolView<E::V> {
    let q = parsed_all::<E>(p.receive_buffer + data);
    ProtocolView {
        receive_queue: p.receive_queue + q.envelopes,
        receive_buffer: q.rest,
        stats: ProtocolStats {
            bytes_received: p.stats.bytes_received.wrapping_add(data.len() as u64),
            envelopes_received: counted_up(p.stats.envelopes_received, q.envelopes.len()),
            deserialization_errors: if q.failed {
                next_count(p.stats.deserialization_errors)
            } else {
                p.stats.deserialization_errors
            },
            ..p.stats
        },
        ..p
    }
}

/// A count after `n` more.
pub open spec fn counted_up(count: u64, n: nat) -> u64
    decreases n,
{
    if n == 0 {
        count
    } else {
        next_count(counted_up(count, (n - 1) as nat))
    }
}

/// The protocol after a message was handed over to be sent.
pub open spec fn sent<E: Envelope>(
    p: ProtocolView<E::V>,
    destination: Seq<char>,
    envelope: E::V,
) -> ProtocolView<E::V> {
    let data = E::encoded(envelope);
    ProtocolView {
        transmit_queue: p.transmit_queue.push(TransmitView { destination, data }),
        stats: ProtocolStats {
            envelopes_sent: next_count(p.stats.envelopes_sent),
            bytes_sent: p.stats.bytes_sent.wrapping_add(data.len() as u64),
            ..p.stats
        },
        ..p
    }
}

/// The bytes that are to be sent next, and the protocol without them.
pub open spec fn transmit_polled<V>(p: ProtocolView<V>) -> (
    Option<TransmitView>,
    ProtocolView<V>,
) {
    if p.transmit_queue.len() > 0 {
        (
            Some(p.transmit_queue[0]),
            ProtocolView { transmit_queue: p.transmit_queue.skip(1), ..p },
        )
    } else {
        (None, p)
    }
}

/// The message that was received next, and the protocol without it.
pub open spec fn receive_polled<V>(p: ProtocolView<V>) -> (Option<V>, ProtocolView<V>) {
    if p.receive_queue.len() > 0 {
        (Some(p.receive_queue[0]), ProtocolView { receive_queue: p.receive_queue.skip(1), ..p })
    } else {
        (None, p)
    }
}

/// The view of what may be missing.
pub open spec fn polled_view<T: View>(r: Option<T>) -> Option<T::V> {
    match r {
        Some(t) => Some(t@),
        None => None,
    }
}

impl<E: Envelope> TransportProtocol<E> {
    /// Nothing is queued.
    pub fn new() -> (p: Self)
        ensures
            p@ == idle_protocol::<E::V>(),
    {
        let p = TransportProtocol {
            transmit_queue: VecDeque::new(),
            receive_queue: VecDeque::new(),
            receive_buffer: Vec::new(),
            stats: ProtocolStats::new(),
        };
        assert(p@ =~= idle_protocol::<E::V>());
        p
    }

    /// Queues a message to be sent to a destination.
    pub fn send(&mut self, destination: String, envelope: E)
        ensures
            final(self)@ == sent::<E>(old(self)@, destination@, envelope@),
    {
        let data = envelope.to_bytes();
        self.stats.envelopes_sent = self.stats.envelopes_sent.wrapping_add(1);
        self.stats.bytes_sent = self.stats.bytes_sent.wrapping_add(data.len() as u64);
        let ghost before = self@.transmit_queue;
        let transmit = Transmit::new(destination, data);
        self.transmit_queue.push_back(transmit);
        assert(self@.transmit_queue =~= before.push(transmit@));
    }

    /// Takes bytes that arrived and puts together the messages that they complete.
    pub fn handle_received(&mut self, _from: String, data: Vec<u8>)
        ensures
            final(self)@ == handled::<E>(old(self)@, data@),
    {
        let ghost p = old(self)@;
        let ghost all = p.receive_buffer + data@;
        self.stats.bytes_received = self.stats.bytes_received.wrapping_add(data.len() as u64);
        self.receive_buffer.extend_from_slice(data.as_slice());
        assert(self.receive_buffer@ =~= all);
        let ghost mut done: Seq<E::V> = Seq::empty();
        proof {
            assert(parsed_after(done, parsed_all::<E>(all)) =~= parsed_all::<E>(all));
            assert(self@.receive_queue =~= p.receive_queue + done);
        }
        loop
            invariant
                p == old(self)@,
                all == p.receive_buffer + data@,
                parsed_all::<E>(all) == parsed_after(
                    done,
                    parsed_all::<E>(self.receive_buffer@),
                ),
                self@ == (ProtocolView {
                    receive_queue: p.receive_queue + done,
                    receive_buffer: self.receive_buffer@,
                    stats: ProtocolStats {
                        bytes_received: p.stats.bytes_received.wrapping_add(data@.len() as u64),
                        envelopes_received: counted_up(p.stats.envelopes_received, done.len()),
                        ..p.stats
                    },
                    ..p
                }),
            decreases self.receive_buffer@.len(),
        {
            let ghost buffer = self.receive_buffer@;
            let ghost q = self@.receive_queue;
            proof {
                E::lemma_taken_leaves_less(buffer);
            }
            match E::try_from_buffer(&mut self.receive_buffer) {
                Ok(Some(envelope)) => {
                    self.stats.envelopes_received = self.stats.envelopes_received.wrapping_add(1);
                    self.receive_queue.push_back(envelope);
                    proof {
                        let rest = parsed_all::<E>(self.receive_buffer@);
                        let v = envelope@;
                        assert(self@.receive_queue =~= q.push(v));
                        assert(parsed_after(done, parsed_all::<E>(buffer)) =~= parsed_after(
                            done.push(v),
                            rest,
                        ));
                        assert(p.receive_queue + done.push(v) =~= (p.receive_queue + done).push(v));
                        done = done.push(v);
                    }
                },
                Ok(None) => {
                    assert(done + Seq::<E::V>::empty() =~= done);
                    return;
                },
                Err(EnvelopeError::InsufficientData { .. }) => {
                    assert(done + Seq::<E::V>::empty() =~= done);
                    return;
                },
                Err(_) => {
                    self.stats.deserialization_errors =
                    self.stats.deserialization_errors.wrapping_add(1);
                    self.receive_buffer.clear();
                    proof {
                        assert(done + Seq::<E::V>::empty() =~= done);
                        assert(self.receive_buffer@ =~= Seq::<u8>::empty());
                    }
                    return;
                },
            }
        }
    }

    /// Takes the bytes that are to be sent next.
    pub fn poll_transmit(&mut self) -> (r: Option<Transmit>)
        ensures
            (polled_view(r), final(self)@) == transmit_polled(old(self)@),
    {
        let ghost before = self@.transmit_queue;
        let r = self.transmit_queue.pop_front();
        proof {
            if before.len() > 0 {
                assert(self@.transmit_queue =~= before.skip(1));
            } else {
                assert(self@.transmit_queue =~= before);
            }
        }
        r
    }

    /// Takes the message that was received next.
    pub fn poll_receive(&mut self) -> (r: Option<E>)
        ensures
            (polled_view(r), final(self)@) == receive_polled(old(self)@),
    {
        let ghost before = self@.receive_queue;
        let r = self.receive_queue.pop_front();
        proof {
            if before.len() > 0 {
                assert(self@.receive_queue =~= before.skip(1));
            } else {
                assert(self@.receive_queue =~= before);
            }
        }
        r
    }

    /// The counts.
    pub fn stats(&self) -> (s: &ProtocolStats)
        ensures
            *s == self@.stats,
    {
        &self.stats
    }

    /// The counts, to be changed.
    pub fn stats_mut(&mut self) -> (s: &mut ProtocolStats)
        ensures
            *s == old(self)@.stats,
            final(self)@ == (ProtocolView { stats: *final(s), ..old(self)@ }),
    {
        &mut self.stats
    }

    /// Whether there are bytes to be sent.
    pub fn has_pending_transmissions(&self) -> (b: bool)
        ensures
            b == (self@.transmit_queue.len() > 0),
    {
        self.transmit_queue.len() > 0
    }

    /// Whether messages were received.
    pub fn has_pending_receives(&self) -> (b: bool)
        ensures
            b == (self@.receive_queue.len() > 0),
    {
        self.receive_queue.len() > 0
    }

    /// How many messages are to be sent.
    pub fn pending_transmission_count(&self) -> (n: usize)
        ensures
            n == self@.transmit_queue.len(),
    {
        self.transmit_queue.len()
    }

    /// How many messages were received.
    pub fn pending_receive_count(&self) -> (n: usize)
        ensures
            n == self@.receive_queue.len(),
    {
        self.receive_queue.len()
    }

    /// Forgets all that is queued and buffered.
    pub fn clear_queues(&mut self)
        ensures
            final(self)@ == (ProtocolView { stats: old(self)@.stats, ..idle_protocol::<E::V>() }),
    {
        self.transmit_queue = VecDeque::new();
        self.receive_queue = VecDeque::new();
        self.receive_buffer.clear();
        assert(self@ =~= (ProtocolView { stats: self@.stats, ..idle_protocol::<E::V>() }));
    }

    /// The same protocol once more.
    fn copy(&self) -> (p: Self)
        ensures
            p@ == self@,
    {
        let mut transmit_queue: VecDeque<Transmit> = VecDeque::new();
        let mut i: usize = 0;
        while i < self.transmit_queue.len()
            invariant
                i <= self.transmit_queue@.len(),
                queue_view(transmit_queue@) == queue_view(self.transmit_queue@).take(i as int),
            decreases self.transmit_queue@.len() - i,
        {
            let t = &self.transmit_queue[i];
            let data = t.data.clone();
            assert(data@ =~= t.data@);
            let ghost before = queue_view(transmit_queue@);
            let copy = Transmit { destination: t.destination.clone(), data };
            transmit_queue.push_back(copy);
            proof {
                let all = queue_view(self.transmit_queue@);
                assert(queue_view(transmit_queue@) =~= before.push(copy@));
                assert(all.take(i + 1) =~= all.take(i as int).push(all[i as int]));
            }
            i += 1;
        }
        let mut receive_queue: VecDeque<E> = VecDeque::new();
        let mut j: usize = 0;
        while j < self.receive_queue.len()
            invariant
                j <= self.receive_queue@.len(),
                queue_view(receive_queue@) == queue_view(self.receive_queue@).take(j as int),
            decreases self.receive_queue@.len() - j,
        {
            let ghost before = queue_view(receive_queue@);
            let copy = self.receive_queue[j].copy();
            receive_queue.push_back(copy);
            proof {
                let all = queue_view(self.receive_queue@);
                assert(queue_view(receive_queue@) =~= before.push(copy@));
                assert(all.take(j + 1) =~= all.take(j as int).push(all[j as int]));
            }
            j += 1;
        }
        let receive_buffer = self.receive_buffer.clone();
        let p = TransportProtocol {
            transmit_queue,
            receive_queue,
            receive_buffer,
            stats: self.stats,
        };
        assert(p@ =~= self@);
        p
    }
}

impl<E: Envelope> Clone for TransportProtocol<E> {
    fn clone(&self) -> (p: Self)
        ensures
            p@ == self@,
    {
        self.copy()
    }
}

impl<E: Envelope> Default for TransportProtocol<E> {
    fn default() -> (p: Self)
        ensures
            p@ == idle_protocol::<E::V>(),
    {
        TransportProtocol::new()
    }
}

/// The bytes of messages, one after the other.
pub open spec fn stream_of(messages: Seq<EnvelopeView>) -> Seq<u8>
    decreases messages.len(),
{
    if messages.len() == 0 {
        Seq::empty()
    } else {
        framed(messages[0]) + stream_of(messages.skip(1))
    }
}

proof fn lemma_parse_in_pieces(x: Seq<u8>, y: Seq<u8>)
    requires
        !parsed_all::<RequestResponseEnvelope>(x).failed,
    ensures
        parsed_all::<RequestResponseEnvelope>(x + y) == parsed_after(
            parsed_all::<RequestResponseEnvelope>(x).envelopes,
            parsed_all::<RequestResponseEnvelope>(
                parsed_all::<RequestResponseEnvelope>(x).rest + y,
            ),
        ),
    decreases x.len(),
{
    RequestResponseEnvelope::lemma_taken_leaves_less(x);
    lemma_later_bytes_change_nothing(x, y);
    let p = parsed_all::<RequestResponseEnvelope>(x);
    match rr_taken(x) {
        (Ok(Some(v)), rest) => {
            RequestResponseEnvelope::lemma_taken_leaves_less(x + y);
            lemma_parse_in_pieces(rest, y);
            let tail = parsed_all::<RequestResponseEnvelope>(rest);
            let after = parsed_all::<RequestResponseEnvelope>(tail.rest + y);
            assert(seq![v] + (tail.envelopes + after.envelopes) =~= (seq![v] + tail.envelopes)
                + after.envelopes);
        },
        _ => {
            assert(p.rest == x);
            let q = parsed_all::<RequestResponseEnvelope>(x + y);
            assert(Seq::<EnvelopeView>::empty() + q.envelopes =~= q.envelopes);
        },
    }
}

proof fn lemma_counted_up_adds(count: u64, n: nat, m: nat)
    ensures
        counted_up(counted_up(count, n), m) == counted_up(count, n + m),
    decreases m,
{
    if m > 0 {
        lemma_counted_up_adds(count, n, (m - 1) as nat);
    }
}

/// It does not matter in which pieces bytes arrive: one piece after the other gives
/// the same messages, in the same order, as both at once, as long as the first makes
/// sense.
pub proof fn lemma_pieces_do_not_matter(p: ProtocolView<EnvelopeView>, x: Seq<u8>, y: Seq<u8>)
    requires
        !parsed_all::<RequestResponseEnvelope>(p.receive_buffer + x).failed,
        x.len() + y.len() <= u64::MAX,
    ensures
        handled::<RequestResponseEnvelope>(handled::<RequestResponseEnvelope>(p, x), y)
            == handled::<RequestResponseEnvelope>(p, x + y),
{
    let first = handled::<RequestResponseEnvelope>(p, x);
    let second = handled::<RequestResponseEnvelope>(first, y);
    let both = handled::<RequestResponseEnvelope>(p, x + y);
    lemma_parse_in_pieces(p.receive_buffer + x, y);
    assert(p.receive_buffer + x + y =~= p.receive_buffer + (x + y));
    let a = parsed_all::<RequestResponseEnvelope>(p.receive_buffer + x).envelopes;
    let b = parsed_all::<RequestResponseEnvelope>(first.receive_buffer + y).envelopes;
    lemma_counted_up_adds(p.stats.envelopes_received, a.len(), b.len());
    assert(p.receive_queue + a + b =~= p.receive_queue + (a + b));
    assert(second.stats.bytes_received == both.stats.bytes_received);
}

/// What was sent arrives: bytes of messages, one after the other, are put together to
/// just these messages, and nothing is left over.
pub proof fn lemma_stream_is_understood(messages: Seq<EnvelopeView>)
    requires
        forall|i: int|
            0 <= i < messages.len() ==> (#[trigger] messages[i]).payload.len() <= 1_048_576,
    ensures
        parsed_all::<RequestResponseEnvelope>(stream_of(messages)) == (Parsed {
            envelopes: messages,
            rest: Seq::<u8>::empty(),
            failed: false,
        }),
    decreases messages.len(),
{
    if messages.len() == 0 {
        assert(messages =~= Seq::<EnvelopeView>::empty());
    } else {
        let rest = stream_of(messages.skip(1));
        lemma_message_round_trip(messages[0], rest);
        RequestResponseEnvelope::lemma_taken_leaves_less(stream_of(messages));
        assert forall|i: int| 0 <= i < messages.skip(1).len() implies (
        #[trigger] messages.skip(1)[i]).payload.len() <= 1_048_576 by {
            assert(messages.skip(1)[i] == messages[i + 1]);
        }
        lemma_stream_is_understood(messages.skip(1));
        assert(seq![messages[0]] + messages.skip(1) =~= messages);
    }
}

/// The pieces of a stream, one after the other.
pub open spec fn joined(pieces: Seq<Seq<u8>>) -> Seq<u8>
    decreases pieces.len(),
{
    if pieces.len() == 0 {
        Seq::empty()
    } else {
        joined(pieces.drop_last()) + pieces.last()
    }
}

/// The protocol after bytes arrived in pieces.
pub open spec fn all_handled<E: Envelope>(
    p: ProtocolView<E::V>,
    pieces: Seq<Seq<u8>>,
) -> ProtocolView<E::V>
    decreases pieces.len(),
{
    if pieces.len() == 0 {
        p
    } else {
        handled::<E>(all_handled::<E>(p, pieces.drop_last()), pieces.last())
    }
}

/// What is buffered is no whole message.
pub open spec fn waits<E: Envelope>(p: ProtocolView<E::V>) -> bool {
    parsed_all::<E>(p.receive_buffer) == (Parsed {
        envelopes: Seq::<E::V>::empty(),
        rest: p.receive_buffer,
        failed: false,
    })
}

/// Bytes that make no sense are not mended by later ones.
proof fn lemma_failure_stays(x: Seq<u8>, y: Seq<u8>)
    requires
        parsed_all::<RequestResponseEnvelope>(x).failed,
    ensures
        parsed_all::<RequestResponseEnvelope>(x + y).failed,
    decreases x.len(),
{
    RequestResponseEnvelope::lemma_taken_leaves_less(x);
    RequestResponseEnvelope::lemma_taken_leaves_less(x + y);
    lemma_later_bytes_change_nothing(x, y);
    if let (Ok(Some(v)), rest) = rr_taken(x) {
        lemma_failure_stays(rest, y);
    }
}

/// It does not matter in how many pieces bytes arrive, nor where they are cut: they give
/// the same messages, in the same order, the same counts and the same rest as all at
/// once, as long as they make sense.
pub proof fn lemma_any_pieces_do_not_matter(
    p: ProtocolView<EnvelopeView>,
    pieces: Seq<Seq<u8>>,
)
    requires
        waits::<RequestResponseEnvelope>(p),
        !parsed_all::<RequestResponseEnvelope>(p.receive_buffer + joined(pieces)).failed,
        joined(pieces).len() <= u64::MAX,
    ensures
        all_handled::<RequestResponseEnvelope>(p, pieces) == handled::<RequestResponseEnvelope>(
            p,
            joined(pieces),
        ),
    decreases pieces.len(),
{
    if pieces.len() == 0 {
        assert(p.receive_buffer + Seq::<u8>::empty() =~= p.receive_buffer);
        assert(p.receive_queue + Seq::<EnvelopeView>::empty() =~= p.receive_queue);
        assert(handled::<RequestResponseEnvelope>(p, Seq::empty()) =~= p);
    } else {
        let before = joined(pieces.drop_last());
        let last = pieces.last();
        assert(p.receive_buffer + before + last =~= p.receive_buffer + joined(pieces));
        if parsed_all::<RequestResponseEnvelope>(p.receive_buffer + before).failed {
            lemma_failure_stays(p.receive_buffer + before, last);
        }
        lemma_any_pieces_do_not_matter(p, pieces.drop_last());
        lemma_pieces_do_not_matter(p, before, last);
    }
}

/// A part of a message is no message yet, and is kept.
proof fn lemma_part_waits(v: EnvelopeView, n: int)
    requires
        v.payload.len() <= 1_048_576,
        0 <= n < framed(v).len(),
    ensures
        parsed_all::<RequestResponseEnvelope>(framed(v).take(n)) == (Parsed {
            envelopes: Seq::<EnvelopeView>::empty(),
            rest: framed(v).take(n),
            failed: false,
        }),
{
    let part = framed(v).take(n);
    lemma_frame_parts(v, Seq::empty());
    assert(framed(v) + Seq::<u8>::empty() =~= framed(v));
    if n >= 12 {
        assert(part.subrange(8, 12) =~= framed(v).subrange(8, 12));
    }
}

proof fn lemma_counted_from_zero(n: nat)
    requires
        n <= u64::MAX,
    ensures
        counted_up(0, n) == n,
    decreases n,
{
    if n > 0 {
        lemma_counted_from_zero((n - 1) as nat);
    }
}

/// What was sent arrives, however it is cut: messages one after the other, with a part of
/// one more at the end, are put together to just these messages in their order. They are
/// counted, nothing counts as an error, and the part is kept for the bytes that complete
/// it.
pub proof fn lemma_cut_stream_is_understood(
    messages: Seq<EnvelopeView>,
    next: EnvelopeView,
    n: int,
    pieces: Seq<Seq<u8>>,
)
    requires
        forall|i: int|
            0 <= i < messages.len() ==> (#[trigger] messages[i]).payload.len() <= 1_048_576,
        next.payload.len() <= 1_048_576,
        0 <= n < framed(next).len(),
        joined(pieces) == stream_of(messages) + framed(next).take(n),
        joined(pieces).len() <= u64::MAX,
        messages.len() <= u64::MAX,
    ensures
        all_handled::<RequestResponseEnvelope>(idle_protocol(), pieces) == (ProtocolView {
            transmit_queue: Seq::empty(),
            receive_queue: messages,
            receive_buffer: framed(next).take(n),
            stats: ProtocolStats {
                bytes_received: joined(pieces).len() as u64,
                envelopes_received: messages.len() as u64,
                ..zero_stats()
            },
        }),
{
    let p = idle_protocol::<EnvelopeView>();
    let part = framed(next).take(n);
    lemma_stream_is_understood(messages);
    lemma_part_waits(next, n);
    lemma_parse_in_pieces(stream_of(messages), part);
    assert(Seq::<u8>::empty() + part =~= part);
    assert(messages + Seq::<EnvelopeView>::empty() =~= messages);
    assert(p.receive_buffer + joined(pieces) =~= joined(pieces));
    lemma_stream_is_understood(Seq::empty());
    lemma_any_pieces_do_not_matter(p, pieces);
    lemma_counted_from_zero(messages.len());
    assert(p.receive_queue + messages =~= messages);
}

/// The protocol after its next received message was taken `n` times.
pub open spec fn receives_polled<V>(p: ProtocolView<V>, n: nat) -> ProtocolView<V>
    decreases n,
{
    if n == 0 {
        p
    } else {
        receive_polled(receives_polled(p, (n - 1) as nat)).1
    }
}

/// Received messages are handed out in the order in which they came, and then none.
/// Nothing else changes.
pub proof fn lemma_receives_come_in_order<V>(p: ProtocolView<V>, n: nat)
    requires
        n <= p.receive_queue.len(),
    ensures
        receives_polled(p, n) == (ProtocolView { receive_queue: p.receive_queue.skip(n as int), ..p }),
        receive_polled(receives_polled(p, n)).0 == (if n < p.receive_queue.len() {
            Some(p.receive_queue[n as int])
        } else {
            None
        }),
    decreases n,
{
    if n > 0 {
        lemma_receives_come_in_order(p, (n - 1) as nat);
        assert(p.receive_queue.skip(n - 1).skip(1) =~= p.receive_queue.skip(n as int));
    } else {
        assert(p.receive_queue.skip(0) =~= p.receive_queue);
    }
}

/// Something that is done with the sending side.
pub ghost enum SendingStep<V> {
    /// A message is handed over to be sent.
    Send { destination: Seq<char>, envelope: V },
    /// The bytes that are to be sent next are taken, if there are any.
    Poll,
}

/// The protocol after some steps, and the bytes that were taken in them.
pub open spec fn sending_steps<E: Envelope>(
    p: ProtocolView<E::V>,
    steps: Seq<SendingStep<E::V>>,
) -> (ProtocolView<E::V>, Seq<TransmitView>)
    decreases steps.len(),
{
    if steps.len() == 0 {
        (p, Seq::empty())
    } else {
        let (before, out) = sending_steps::<E>(p, steps.drop_last());
        match steps.last() {
            SendingStep::Send { destination, envelope } => (
                sent::<E>(before, destination, envelope),
                out,
            ),
            SendingStep::Poll => match transmit_polled(before) {
                (Some(t), after) => (after, out.push(t)),
                (None, after) => (after, out),
            },
        }
    }
}

/// The bytes of the messages that are handed over in some steps, in order.
pub open spec fn handed_over<E: Envelope>(steps: Seq<SendingStep<E::V>>) -> Seq<TransmitView>
    decreases steps.len(),
{
    if steps.len() == 0 {
        Seq::empty()
    } else {
        let before = handed_over::<E>(steps.drop_last());
        match steps.last() {
            SendingStep::Send { destination, envelope } => before.push(
                TransmitView { destination, data: E::encoded(envelope) },
            ),
            SendingStep::Poll => before,
        }
    }
}

/// Messages leave in the order in which they were handed over, however handing over and
/// taking alternate: what was taken, and after it what still waits, is what waited at
/// first and after it what was handed over. The receiving side does not change.
pub proof fn lemma_first_in_first_out<E: Envelope>(
    p: ProtocolView<E::V>,
    steps: Seq<SendingStep<E::V>>,
)
    ensures
        ({
            let (q, out) = sending_steps::<E>(p, steps);
            &&& out + q.transmit_queue == p.transmit_queue + handed_over::<E>(steps)
            &&& q.receive_queue == p.receive_queue
            &&& q.receive_buffer == p.receive_buffer
        }),
    decreases steps.len(),
{
    if steps.len() == 0 {
        assert(Seq::<TransmitView>::empty() + p.transmit_queue =~= p.transmit_queue + Seq::<
            TransmitView,
        >::empty());
    } else {
        lemma_first_in_first_out::<E>(p, steps.drop_last());
        let (before, out) = sending_steps::<E>(p, steps.drop_last());
        let all = p.transmit_queue + handed_over::<E>(steps.drop_last());
        match steps.last() {
            SendingStep::Send { destination, envelope } => {
                let t = TransmitView { destination, data: E::encoded(envelope) };
                assert(out + before.transmit_queue.push(t) =~= all.push(t));
                assert(all.push(t) =~= p.transmit_queue + handed_over::<E>(steps));
            },
            SendingStep::Poll => {
                if before.transmit_queue.len() > 0 {
                    let t = before.transmit_queue[0];
                    assert(out.push(t) + before.transmit_queue.skip(1) =~= all);
                }
            },
        }
    }
}

/// The protocol after its next bytes were taken `n` times.
pub open spec fn transmits_polled<V>(p: ProtocolView<V>, n: nat) -> ProtocolView<V>
    decreases n,
{
    if n == 0 {
        p
    } else {
        transmit_polled(transmits_polled(p, (n - 1) as nat)).1
    }
}

/// The protocol after messages were handed over to be sent, one after the other.
pub open spec fn all_sent<E: Envelope>(
    p: ProtocolView<E::V>,
    messages: Seq<(Seq<char>, E::V)>,
) -> ProtocolView<E::V>
    decreases messages.len(),
{
    if messages.len() == 0 {
        p
    } else {
        let m = messages.last();
        sent::<E>(all_sent::<E>(p, messages.drop_last()), m.0, m.1)
    }
}

proof fn lemma_transmits_polled<V>(p: ProtocolView<V>, n: nat)
    requires
        n <= p.transmit_queue.len(),
    ensures
        transmits_polled(p, n) == (ProtocolView {
            transmit_queue: p.transmit_queue.skip(n as int),
            ..p
        }),
    decreases n,
{
    if n > 0 {
        lemma_transmits_polled(p, (n - 1) as nat);
        assert(p.transmit_queue.skip(n - 1).skip(1) =~= p.transmit_queue.skip(n as int));
    } else {
        assert(p.transmit_queue.skip(0) =~= p.transmit_queue);
    }
}

proof fn lemma_all_sent<E: Envelope>(messages: Seq<(Seq<char>, E::V)>)
    ensures
        all_sent::<E>(idle_protocol(), messages).transmit_queue == Seq::new(
            messages.len(),
            |i: int|
                TransmitView { destination: messages[i].0, data: E::encoded(messages[i].1) },
        ),
    decreases messages.len(),
{
    if messages.len() > 0 {
        lemma_all_sent::<E>(messages.drop_last());
    }
    assert(all_sent::<E>(idle_protocol(), messages).transmit_queue =~= Seq::new(
        messages.len(),
        |i: int| TransmitView { destination: messages[i].0, data: E::encoded(messages[i].1) },
    ));
}

/// Messages that were handed over are taken one by one in the same order, each as its
/// bytes for its destination, and then none. Taking them changes neither the counts nor
/// the receiving side.
pub proof fn lemma_transmits_come_in_order<E: Envelope>(
    messages: Seq<(Seq<char>, E::V)>,
    n: nat,
)
    requires
        n <= messages.len(),
    ensures
        ({
            let p = all_sent::<E>(idle_protocol(), messages);
            let q = transmits_polled(p, n);
            &&& q.transmit_queue.len() == messages.len() - n
            &&& q == (ProtocolView { transmit_queue: q.transmit_queue, ..p })
            &&& transmit_polled(q).0 == (if n < messages.len() {
                Some(
                    TransmitView {
                        destination: messages[n as int].0,
                        data: E::encoded(messages[n as int].1),
                    },
                )
            } else {
                None
            })
        }),
{
    lemma_all_sent::<E>(messages);
    lemma_transmits_polled(all_sent::<E>(idle_protocol(), messages), n);
}

} // verus!
