//! Messages with an id that ties a response to its request.

use crate::bytes::{lemma_byte_range, lemma_le_bytes, le_bytes, le_value, push_le, read_le};
use crate::text::{append_decimal, decimal};
use vstd::prelude::*;
use vstd::string::StringExecFns;

verus! {

/// Why bytes are no message.
#[derive(Debug, Clone, PartialEq, Eq)]
pub enum EnvelopeError {
    /// The bytes make no sense.
    DeserializationFailed(String),
    /// There are too few bytes so far.
    InsufficientData {
        /// How many are needed.
        needed: usize,
        /// How many there are.
        available: usize,
    },
}

/// What an [`EnvelopeError`] says.
#[verifier::ext_equal]
pub ghost enum FaultView {
    Failed(Seq<char>),
    Short { needed: nat, available: nat },
}

impl View for EnvelopeError {
    type V = FaultView;

    open spec fn view(&self) -> FaultView {
        match *self {
            EnvelopeError::DeserializationFailed(reason) => FaultView::Failed(reason@),
            EnvelopeError::InsufficientData { needed, available } => FaultView::Short {
                needed: needed as nat,
                available: available as nat,
            },
        }
    }
}

/// What an error says.
pub open spec fn fault_text(f: FaultView) -> Seq<char> {
    match f {
        FaultView::Failed(reason) => "deserialization failed: "@ + reason,
        FaultView::Short { needed, available } => "insufficient data: need "@ + decimal(
            needed as int,
        ) + " bytes, have "@ + decimal(available as int),
    }
}

impl EnvelopeError {
    /// Tells the error.
    pub fn describe(&self) -> (text: String)
        ensures
            text@ == fault_text(self@),
    {
        match self {
            EnvelopeError::DeserializationFailed(reason) => {
                let mut text = "deserialization failed: ".to_owned();
                text.append(reason.as_str());
                text
            },
            EnvelopeError::InsufficientData { needed, available } => {
                let mut text = "insufficient data: need ".to_owned();
                append_decimal(&mut text, *needed as u64);
                text.append(" bytes, have ");
                append_decimal(&mut text, *available as u64);
                text
            },
        }
    }
}

/// The view of a result.
pub open spec fn result_view<T: View>(r: Result<T, EnvelopeError>) -> Result<T::V, FaultView> {
    match r {
        Ok(t) => Ok(t@),
        Err(e) => Err(e@),
    }
}

/// The view of a result that may be missing.
pub open spec fn option_result_view<T: View>(r: Result<Option<T>, EnvelopeError>) -> Result<
    Option<T::V>,
    FaultView,
> {
    match r {
        Ok(Some(t)) => Ok(Some(t@)),
        Ok(None) => Ok(None),
        Err(e) => Err(e@),
    }
}

/// A message that carries a payload and an id. Applications bring messages of their
/// own.
pub trait Envelope: Sized + View {
    /// The bytes of a message.
    spec fn encoded(v: Self::V) -> Seq<u8>;

    /// What bytes say as a message.
    spec fn decoded(data: Seq<u8>) -> Result<Self::V, FaultView>;

    /// What the bytes at the start of a buffer say as a message, and what is left of
    /// the buffer.
    spec fn taken(buffer: Seq<u8>) -> (Result<Option<Self::V>, FaultView>, Seq<u8>);

    /// The id of a message.
    spec fn id(v: Self::V) -> u64;

    /// The payload of a message.
    spec fn body(v: Self::V) -> Seq<u8>;

    /// The response to a message.
    spec fn response(v: Self::V, payload: Seq<u8>) -> Self::V;

    /// A message that is taken from a buffer leaves less of it.
    proof fn lemma_taken_leaves_less(buffer: Seq<u8>)
        ensures
            Self::taken(buffer).0 matches Ok(Some(_)) ==> Self::taken(buffer).1.len()
                < buffer.len(),
    ;

    /// Writes the message as bytes.
    fn to_bytes(&self) -> (data: Vec<u8>)
        ensures
            data@ == Self::encoded(self@),
    ;

    /// Reads a message.
    fn from_bytes(data: &[u8]) -> (r: Result<Self, EnvelopeError>)
        ensures
            result_view(r) == Self::decoded(data@),
    ;

    /// Takes a message off the start of a buffer.
    fn try_from_buffer(buffer: &mut Vec<u8>) -> (r: Result<Option<Self>, EnvelopeError>)
        ensures
            (option_result_view(r), final(buffer)@) == Self::taken(old(buffer)@),
    ;

    /// The id of the message.
    fn correlation_id(&self) -> (id: u64)
        ensures
            id == Self::id(self@),
    ;

    /// Whether the message is a response to the request with an id.
    fn is_response_to(&self, request_id: u64) -> (b: bool)
        ensures
            b == (Self::id(self@) == request_id),
    {
        self.correlation_id() == request_id
    }

    /// Makes a response to the message.
    fn create_response(&self, payload: Vec<u8>) -> (e: Self)
        ensures
            e@ == Self::response(self@, payload@),
    ;

    /// The payload.
    fn payload(&self) -> (data: &[u8])
        ensures
            data@ == Self::body(self@),
    ;

    /// The same message once more.
    fn copy(&self) -> (e: Self)
        ensures
            e@ == self@,
    ;
}

/// What a whole buffer says as a message, where no message is put together from more
/// than one read: nothing is taken while there are too few bytes.
pub open spec fn whole_taken<V>(
    buffer: Seq<u8>,
    decoded: Result<V, FaultView>,
) -> (Result<Option<V>, FaultView>, Seq<u8>) {
    if buffer.len() == 0 {
        (Ok(None), buffer)
    } else {
        match decoded {
            Ok(v) => (Ok(Some(v)), Seq::empty()),
            Err(FaultView::Short { needed, available }) => (Ok(None), buffer),
            Err(f) => (Err(f), buffer),
        }
    }
}

/// Takes a whole buffer as one message, given what its bytes say.
pub fn take_whole<T: View>(buffer: &mut Vec<u8>, parsed: Result<T, EnvelopeError>) -> (r: Result<
    Option<T>,
    EnvelopeError,
>)
    ensures
        (option_result_view(r), final(buffer)@) == whole_taken(
            old(buffer)@,
            result_view(parsed),
        ),
{
    if buffer.len() == 0 {
        return Ok(None);
    }
    match parsed {
        Ok(envelope) => {
            buffer.clear();
            Ok(Some(envelope))
        },
        Err(EnvelopeError::InsufficientData { .. }) => Ok(None),
        Err(e) => Err(e),
    }
}

/// What a message with an id and a payload says.
#[verifier::ext_equal]
pub ghost struct EnvelopeView {
    pub correlation_id: u64,
    pub payload: Seq<u8>,
}

/// The bytes of a message: eight for the id, four for the length of the payload, and
/// the payload.
pub open spec fn framed(v: EnvelopeView) -> Seq<u8> {
    le_bytes(v.correlation_id as int, 8) + le_bytes(
        v.payload.len() as int % 0x1_0000_0000,
        4,
    ) + v.payload
}

/// The id that bytes start with.
pub open spec fn framed_id(data: Seq<u8>) -> u64 {
    le_value(data.subrange(0, 8)) as u64
}

/// The length that follows the id.
pub open spec fn framed_len(data: Seq<u8>) -> int {
    le_value(data.subrange(8, 12))
}

/// Writes a message as bytes.
pub fn write_frame(correlation_id: u64, payload: &Vec<u8>) -> (data: Vec<u8>)
    ensures
        data@ == framed(EnvelopeView { correlation_id, payload: payload@ }),
{
    let mut data: Vec<u8> = Vec::new();
    push_le(&mut data, correlation_id, 8);
    push_le(&mut data, (payload.len() as u64) % 0x1_0000_0000, 4);
    data.extend_from_slice(payload.as_slice());
    assert(data@ =~= framed(EnvelopeView { correlation_id, payload: payload@ }));
    data
}

/// Reads the id that bytes start with.
pub fn read_id(data: &[u8]) -> (id: u64)
    requires
        data@.len() >= 12,
    ensures
        id == framed_id(data@),
{
    read_le(data, 0, 8)
}

/// Reads the length that follows the id.
pub fn read_len(data: &[u8]) -> (len: u64)
    requires
        data@.len() >= 12,
    ensures
        len == framed_len(data@),
        len < 0x1_0000_0000,
{
    proof {
        lemma_byte_range();
        crate::bytes::lemma_le_value(data@.subrange(8, 12));
    }
    read_le(data, 8, 4)
}

/// The bytes after the first twelve.
pub fn read_payload(data: &[u8]) -> (payload: Vec<u8>)
    requires
        data@.len() >= 12,
    ensures
        payload@ == data@.skip(12),
{
    let mut payload: Vec<u8> = Vec::new();
    let mut i: usize = 12;
    while i < data.len()
        invariant
            12 <= i <= data@.len(),
            payload@ == data@.subrange(12, i as int),
        decreases data@.len() - i,
    {
        payload.push(data[i]);
        assert(data@.subrange(12, i + 1) =~= data@.subrange(12, i as int).push(data@[i as int]));
        i += 1;
    }
    assert(data@.subrange(12, i as int) =~= data@.skip(12));
    payload
}

/// What is read from the bytes of a message.
pub proof fn lemma_frame_parts(v: EnvelopeView, rest: Seq<u8>)
    requires
        v.payload.len() < 0x1_0000_0000,
    ensures
        framed(v).len() == 12 + v.payload.len(),
        framed_id(framed(v) + rest) == v.correlation_id,
        framed_len(framed(v) + rest) == v.payload.len(),
        (framed(v) + rest).subrange(12, 12 + v.payload.len() as int) == v.payload,
        framed(v).skip(12) == v.payload,
{
    let len = v.payload.len() as int;
    lemma_byte_range();
    lemma_le_bytes(v.correlation_id as int, 8);
    lemma_le_bytes(len, 4);
    let data = framed(v) + rest;
    assert(data.subrange(0, 8) =~= le_bytes(v.correlation_id as int, 8));
    assert(data.subrange(8, 12) =~= le_bytes(len, 4));
    assert(data.subrange(12, 12 + len) =~= v.payload);
    assert(framed(v).skip(12) =~= v.payload);
}

/// A plain message.
#[derive(Debug, Clone, PartialEq, Eq)]
pub struct SimpleEnvelope {
    /// The id.
    pub correlation_id: u64,
    /// The payload.
    pub payload: Vec<u8>,
}

impl View for SimpleEnvelope {
    type V = EnvelopeView;

    open spec fn view(&self) -> EnvelopeView {
        EnvelopeView { correlation_id: self.correlation_id, payload: self.payload@ }
    }
}

impl SimpleEnvelope {
    /// A message with an id and a payload.
    pub fn new(correlation_id: u64, payload: Vec<u8>) -> (e: Self)
        ensures
            e@ == (EnvelopeView { correlation_id, payload: payload@ }),
    {
        SimpleEnvelope { correlation_id, payload }
    }

    /// Whether the payload is empty.
    pub fn is_empty(&self) -> (b: bool)
        ensures
            b == (self@.payload.len() == 0),
    {
        self.payload.len() == 0
    }

    /// The length of the payload.
    pub fn payload_size(&self) -> (n: usize)
        ensures
            n == self@.payload.len(),
    {
        self.payload.len()
    }
}

/// How a length that does not fit is told.
pub open spec fn length_fault(got: int, expected: int) -> Seq<char> {
    "Invalid data length: got "@ + decimal(got) + " bytes, expected "@ + decimal(expected)
}

/// What bytes say as a plain message.
pub open spec fn simple_decoded(data: Seq<u8>) -> Result<EnvelopeView, FaultView> {
    if data.len() < 12 {
        Err(FaultView::Short { needed: 12, available: data.len() })
    } else if data.len() != 12 + framed_len(data) {
        Err(FaultView::Failed(length_fault(data.len() as int, 12 + framed_len(data))))
    } else {
        Ok(EnvelopeView { correlation_id: framed_id(data), payload: data.skip(12) })
    }
}

impl Envelope for SimpleEnvelope {
    open spec fn encoded(v: EnvelopeView) -> Seq<u8> {
        framed(v)
    }

    open spec fn decoded(data: Seq<u8>) -> Result<EnvelopeView, FaultView> {
        simple_decoded(data)
    }

    open spec fn taken(buffer: Seq<u8>) -> (Result<Option<EnvelopeView>, FaultView>, Seq<u8>) {
        whole_taken(buffer, simple_decoded(buffer))
    }

    open spec fn id(v: EnvelopeView) -> u64 {
        v.correlation_id
    }

    open spec fn body(v: EnvelopeView) -> Seq<u8> {
        v.payload
    }

    open spec fn response(v: EnvelopeView, payload: Seq<u8>) -> EnvelopeView {
        EnvelopeView { correlation_id: v.correlation_id, payload }
    }

    proof fn lemma_taken_leaves_less(buffer: Seq<u8>) {
    }

    fn to_bytes(&self) -> (data: Vec<u8>) {
        write_frame(self.correlation_id, &self.payload)
    }

    fn from_bytes(data: &[u8]) -> (r: Result<Self, EnvelopeError>) {
        if data.len() < 12 {
            return Err(EnvelopeError::InsufficientData { needed: 12, available: data.len() });
        }
        let len: u64 = read_len(data);
        if data.len() as u64 != 12 + len {
            let mut reason = "Invalid data length: got ".to_owned();
            append_decimal(&mut reason, data.len() as u64);
            reason.append(" bytes, expected ");
            append_decimal(&mut reason, 12 + len);
            return Err(EnvelopeError::DeserializationFailed(reason));
        }
        Ok(SimpleEnvelope::new(read_id(data), read_payload(data)))
    }

    fn try_from_buffer(buffer: &mut Vec<u8>) -> (r: Result<Option<Self>, EnvelopeError>) {
        let parsed = SimpleEnvelope::from_bytes(buffer.as_slice());
        take_whole(buffer, parsed)
    }

    fn correlation_id(&self) -> (id: u64) {
        self.correlation_id
    }

    fn create_response(&self, payload: Vec<u8>) -> (e: Self) {
        SimpleEnvelope::new(self.correlation_id, payload)
    }

    fn payload(&self) -> (data: &[u8]) {
        self.payload.as_slice()
    }

    fn copy(&self) -> (e: Self) {
        let payload = self.payload.clone();
        assert(payload@ =~= self.payload@);
        SimpleEnvelope { correlation_id: self.correlation_id, payload }
    }
}

/// Reading a plain message that was written gives it back.
pub proof fn lemma_simple_round_trip(v: EnvelopeView)
    requires
        v.payload.len() < 0x1_0000_0000,
    ensures
        simple_decoded(framed(v)) == Ok::<EnvelopeView, FaultView>(v),
{
    lemma_frame_parts(v, Seq::empty());
    assert(framed(v) + Seq::<u8>::empty() =~= framed(v));
}

} // verus!
