//! Requests and responses on the wire: eight bytes for the id, four for the length of
//! the payload, and the payload, all little-endian.

use crate::envelope::{
    framed, framed_id, framed_len, lemma_frame_parts, option_result_view, read_id, read_len,
    read_payload, result_view, write_frame, Envelope, EnvelopeError, EnvelopeView, FaultView,
};
use crate::text::{append_decimal, decimal};
use vstd::prelude::*;
use vstd::string::StringExecFns;

verus! {

/// A request or a response.
#[derive(Debug, Clone, PartialEq, Eq)]
pub struct RequestResponseEnvelope {
    /// The id.
    pub correlation_id: u64,
    /// The payload.
    pub payload: Vec<u8>,
}

impl View for RequestResponseEnvelope {
    type V = EnvelopeView;

    open spec fn view(&self) -> EnvelopeView {
        EnvelopeView { correlation_id: self.correlation_id, payload: self.payload@ }
    }
}

impl RequestResponseEnvelope {
    /// A message with an id and a payload.
    pub fn new(correlation_id: u64, payload: Vec<u8>) -> (e: Self)
        ensures
            e@ == (EnvelopeView { correlation_id, payload: payload@ }),
    {
        RequestResponseEnvelope { correlation_id, payload }
    }

    /// Whether the payload is empty.
    pub fn is_empty(&self) -> (b: bool)
        ensures
            b == (self@.payload.len() == 0),
    {
        self.payload.len() == 0
    }

    /// The length of the payload.
    pub fn payload_size(&self) -> (n: usize)
        ensures
            n == self@.payload.len(),
    {
        self.payload.len()
    }

    /// How many bytes the message takes on the wire.
    pub fn serialized_size(&self) -> (n: usize)
        requires
            self@.payload.len() + 12 <= usize::MAX,
        ensures
            n == framed(self@).len(),
    {
        proof {
            crate::bytes::lemma_byte_range();
            crate::bytes::lemma_le_bytes(self@.correlation_id as int, 8);
            crate::bytes::lemma_le_bytes(self@.payload.len() as int % 0x1_0000_0000, 4);
        }
        8 + 4 + self.payload.len()
    }
}

/// Writes and reads requests and responses.
#[derive(Debug, Clone)]
pub struct RequestResponseSerializer;

/// How too few bytes are told.
pub open spec fn short_fault(got: int) -> Seq<char> {
    "Data too short: got "@ + decimal(got) + " bytes, need at least "@ + decimal(12)
}

/// How a payload that is too long is told.
pub open spec fn large_fault(len: int) -> Seq<char> {
    "Payload too large: "@ + decimal(len) + " bytes, max allowed: "@ + decimal(1_048_576)
}

/// How a length that does not fit is told.
pub open spec fn mismatch_fault(got: int, expected: int) -> Seq<char> {
    "Invalid data length: got "@ + decimal(got) + " bytes, expected "@ + decimal(expected)
        + " bytes"@
}

/// What bytes say as a request or response.
pub open spec fn rr_decoded(data: Seq<u8>) -> Result<EnvelopeView, FaultView> {
    if data.len() < 12 {
        Err(FaultView::Failed(short_fault(data.len() as int)))
    } else if framed_len(data) > 1_048_576 {
        Err(FaultView::Failed(large_fault(framed_len(data))))
    } else if data.len() != 12 + framed_len(data) {
        Err(FaultView::Failed(mismatch_fault(data.len() as int, 12 + framed_len(data))))
    } else {
        Ok(EnvelopeView { correlation_id: framed_id(data), payload: data.skip(12) })
    }
}

/// What the bytes at the start of a buffer say as a request or response, and what is
/// left of the buffer.
pub open spec fn rr_taken(buffer: Seq<u8>) -> (Result<Option<EnvelopeView>, FaultView>, Seq<u8>) {
    if buffer.len() == 0 {
        (Ok(None), buffer)
    } else if buffer.len() < 12 {
        (Err(FaultView::Short { needed: 12, available: buffer.len() }), buffer)
    } else {
        let len = framed_len(buffer);
        if len > 1_048_576 {
            (Err(FaultView::Failed(large_fault(len))), buffer)
        } else if buffer.len() < 12 + len {
            (
                Err(FaultView::Short { needed: (12 + len) as nat, available: buffer.len() }),
                buffer,
            )
        } else {
            (
                Ok(
                    Some(
                        EnvelopeView {
                            correlation_id: framed_id(buffer),
                            payload: buffer.subrange(12, 12 + len),
                        },
                    ),
                ),
                buffer.skip(12 + len),
            )
        }
    }
}

fn large_error(len: u64) -> (e: EnvelopeError)
    ensures
        e@ == FaultView::Failed(large_fault(len as int)),
{
    let mut reason = "Payload too large: ".to_owned();
    append_decimal(&mut reason, len);
    reason.append(" bytes, max allowed: ");
    append_decimal(&mut reason, 1_048_576);
    EnvelopeError::DeserializationFailed(reason)
}

impl RequestResponseSerializer {
    /// The longest payload.
    pub const MAX_PAYLOAD_SIZE: usize = 1_048_576;

    /// The length of the id and the length.
    pub const HEADER_SIZE: usize = 12;

    /// A serializer.
    pub fn new() -> (s: Self)
        ensures
            s == RequestResponseSerializer,
    {
        RequestResponseSerializer
    }

    /// Writes a message as bytes.
    pub fn serialize(&self, envelope: &RequestResponseEnvelope) -> (data: Vec<u8>)
        ensures
            data@ == framed(envelope@),
    {
        write_frame(envelope.correlation_id, &envelope.payload)
    }

    /// Reads a message.
    pub fn deserialize(&self, data: &[u8]) -> (r: Result<RequestResponseEnvelope, EnvelopeError>)
        ensures
            result_view(r) == rr_decoded(data@),
    {
        if data.len() < Self::HEADER_SIZE {
            let mut reason = "Data too short: got ".to_owned();
            append_decimal(&mut reason, data.len() as u64);
            reason.append(" bytes, need at least ");
            append_decimal(&mut reason, 12);
            return Err(EnvelopeError::DeserializationFailed(reason));
        }
        let len: u64 = read_len(data);
        if len > Self::MAX_PAYLOAD_SIZE as u64 {
            return Err(large_error(len));
        }
        if data.len() as u64 != 12 + len {
            let mut reason = "Invalid data length: got ".to_owned();
            append_decimal(&mut reason, data.len() as u64);
            reason.append(" bytes, expected ");
            append_decimal(&mut reason, 12 + len);
            reason.append(" bytes");
            return Err(EnvelopeError::DeserializationFailed(reason));
        }
        Ok(RequestResponseEnvelope::new(read_id(data), read_payload(data)))
    }

    /// Takes a message off the start of a buffer.
    pub fn try_deserialize_from_buffer(&self, buffer: &mut Vec<u8>) -> (r: Result<
        Option<RequestResponseEnvelope>,
        EnvelopeError,
    >)
        ensures
            (option_result_view(r), final(buffer)@) == rr_taken(old(buffer)@),
    {
        if buffer.len() == 0 {
            return Ok(None);
        }
        if buffer.len() < Self::HEADER_SIZE {
            return Err(
                EnvelopeError::InsufficientData { needed: 12, available: buffer.len() },
            );
        }
        let len: u64 = read_len(buffer.as_slice());
        if len > Self::MAX_PAYLOAD_SIZE as u64 {
            return Err(large_error(len));
        }
        let total: usize = 12 + len as usize;
        if buffer.len() < total {
            return Err(
                EnvelopeError::InsufficientData { needed: total, available: buffer.len() },
            );
        }
        let ghost before = buffer@;
        let mut message: Vec<u8> = buffer.split_off(total);
        std::mem::swap(&mut message, buffer);
        proof {
            assert(message@ =~= before.take(total as int));
            assert(buffer@ =~= before.skip(total as int));
            assert(message@.subrange(0, 8) =~= before.subrange(0, 8));
            assert(message@.subrange(8, 12) =~= before.subrange(8, 12));
            assert(message@.skip(12) =~= before.subrange(12, total as int));
        }
        match self.deserialize(message.as_slice()) {
            Ok(envelope) => Ok(Some(envelope)),
            Err(e) => Err(e),
        }
    }
}

impl Default for RequestResponseSerializer {
    fn default() -> (s: Self)
        ensures
            s == RequestResponseSerializer,
    {
        RequestResponseSerializer
    }
}

impl Envelope for RequestResponseEnvelope {
    open spec fn encoded(v: EnvelopeView) -> Seq<u8> {
        framed(v)
    }

    open spec fn decoded(data: Seq<u8>) -> Result<EnvelopeView, FaultView> {
        rr_decoded(data)
    }

    open spec fn taken(buffer: Seq<u8>) -> (Result<Option<EnvelopeView>, FaultView>, Seq<u8>) {
        rr_taken(buffer)
    }

    open spec fn id(v: EnvelopeView) -> u64 {
        v.correlation_id
    }

    open spec fn body(v: EnvelopeView) -> Seq<u8> {
        v.payload
    }

    open spec fn response(v: EnvelopeView, payload: Seq<u8>) -> EnvelopeView {
        EnvelopeView { correlation_id: v.correlation_id, payload }
    }

    proof fn lemma_taken_leaves_less(buffer: Seq<u8>) {
        if buffer.len() >= 12 {
            crate::bytes::lemma_le_value(buffer.subrange(8, 12));
        }
    }

    fn to_bytes(&self) -> (data: Vec<u8>) {
        RequestResponseSerializer::new().serialize(self)
    }

    fn from_bytes(data: &[u8]) -> (r: Result<Self, EnvelopeError>) {
        RequestResponseSerializer::new().deserialize(data)
    }

    fn try_from_buffer(buffer: &mut Vec<u8>) -> (r: Result<Option<Self>, EnvelopeError>) {
        RequestResponseSerializer::new().try_deserialize_from_buffer(buffer)
    }

    fn correlation_id(&self) -> (id: u64) {
        self.correlation_id
    }

    fn create_response(&self, payload: Vec<u8>) -> (e: Self) {
        RequestResponseEnvelope::new(self.correlation_id, payload)
    }

    fn payload(&self) -> (data: &[u8]) {
        self.payload.as_slice()
    }

    fn copy(&self) -> (e: Self) {
        let payload = self.payload.clone();
        assert(payload@ =~= self.payload@);
        RequestResponseEnvelope { correlation_id: self.correlation_id, payload }
    }
}

/// Makes requests and replies.
pub struct RequestResponseEnvelopeFactory;

impl RequestResponseEnvelopeFactory {
    /// Makes a request.
    pub fn create_request(correlation_id: u64, payload: Vec<u8>) -> (e: RequestResponseEnvelope)
        ensures
            e@ == (EnvelopeView { correlation_id, payload: payload@ }),
    {
        RequestResponseEnvelope::new(correlation_id, payload)
    }

    /// Makes the reply to a request.
    pub fn create_reply(request: &RequestResponseEnvelope, payload: Vec<u8>) -> (e:
        RequestResponseEnvelope)
        ensures
            e@ == (EnvelopeView {
                correlation_id: request@.correlation_id,
                payload: payload@,
            }),
    {
        RequestResponseEnvelope::new(request.correlation_id, payload)
    }
}

/// Reading a message that was written gives it back, unless its payload is longer than
/// allowed; and so does taking it off a buffer that starts with it, which leaves the
/// rest of the buffer.
pub proof fn lemma_message_round_trip(v: EnvelopeView, rest: Seq<u8>)
    requires
        v.payload.len() <= 1_048_576,
    ensures
        rr_decoded(framed(v)) == Ok::<EnvelopeView, FaultView>(v),
        rr_taken(framed(v) + rest) == (Ok::<Option<EnvelopeView>, FaultView>(Some(v)), rest),
{
    lemma_frame_parts(v, rest);
    lemma_frame_parts(v, Seq::empty());
    assert(framed(v) + Seq::<u8>::empty() =~= framed(v));
    assert((framed(v) + rest).skip(12 + v.payload.len() as int) =~= rest);
}

/// A message whose payload is longer than allowed is not read back.
pub proof fn lemma_long_message_is_refused(v: EnvelopeView)
    requires
        1_048_576 < v.payload.len() < 0x1_0000_0000,
    ensures
        rr_decoded(framed(v)) == Err::<EnvelopeView, FaultView>(
            FaultView::Failed(large_fault(v.payload.len() as int)),
        ),
{
    lemma_frame_parts(v, Seq::empty());
    assert(framed(v) + Seq::<u8>::empty() =~= framed(v));
}

/// What stands at the start of a buffer does not depend on what comes after it: bytes
/// that arrive later neither change a message that is complete nor mend a buffer that
/// makes no sense.
pub proof fn lemma_later_bytes_change_nothing(buffer: Seq<u8>, more: Seq<u8>)
    ensures
        rr_taken(buffer).0 matches Ok(Some(v)) ==> rr_taken(buffer + more) == (
            Ok::<Option<EnvelopeView>, FaultView>(Some(v)),
            rr_taken(buffer).1 + more,
        ),
        rr_taken(buffer).0 matches Err(FaultView::Failed(f)) ==> rr_taken(buffer + more) == (
            Err::<Option<EnvelopeView>, FaultView>(FaultView::Failed(f)),
            buffer + more,
        ),
{
    if buffer.len() >= 12 {
        let all = buffer + more;
        assert(all.subrange(0, 8) =~= buffer.subrange(0, 8));
        assert(all.subrange(8, 12) =~= buffer.subrange(8, 12));
        crate::bytes::lemma_le_value(buffer.subrange(8, 12));
        let len = framed_len(buffer);
        if len <= 1_048_576 && buffer.len() >= 12 + len {
            assert(all.subrange(12, 12 + len) =~= buffer.subrange(12, 12 + len));
            assert(all.skip(12 + len) =~= buffer.skip(12 + len) + more);
        }
    }
}

} // verus!
