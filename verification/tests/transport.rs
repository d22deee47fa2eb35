//! Tests of envelopes, the protocol and the transports.

use moonpool::client::{ClientTransport, Received, ReplyPoll};
use moonpool::envelope::{Envelope, EnvelopeError, SimpleEnvelope};
use moonpool::peer_config::PeerConfig;
use moonpool::protocol::{Transmit, TransportProtocol};
use moonpool::request_response_envelope::{
    RequestResponseEnvelope, RequestResponseEnvelopeFactory, RequestResponseSerializer,
};
use moonpool::server::{ConnectionHandle, IncomingMessage, ServerTransport};
use moonpool::time::Duration;
use moonpool::transport_error::TransportError;
use moonpool::well_known::{UID, WELL_KNOWN_RESERVED_COUNT, WellKnownToken};

fn create_test_protocol() -> TransportProtocol<RequestResponseEnvelope> {
    TransportProtocol::new()
}

fn create_test_envelope(correlation_id: u64, payload: &[u8]) -> RequestResponseEnvelope {
    RequestResponseEnvelope::new(correlation_id, payload.to_vec())
}

#[test]
fn test_simple_envelope_creation() {
    let envelope = SimpleEnvelope::new(42, b"test payload".to_vec());

    assert_eq!(Envelope::correlation_id(&envelope), 42);
    assert_eq!(Envelope::payload(&envelope), b"test payload");
    assert!(!envelope.is_empty());
    assert_eq!(envelope.payload_size(), 12);
}

#[test]
fn test_simple_envelope_empty_payload() {
    let envelope = SimpleEnvelope::new(0, Vec::new());

    assert_eq!(Envelope::correlation_id(&envelope), 0);
    assert_eq!(Envelope::payload(&envelope), b"");
    assert!(envelope.is_empty());
    assert_eq!(envelope.payload_size(), 0);
}

#[test]
fn test_envelope_serialization_round_trip() {
    let original = SimpleEnvelope::new(123, b"request data".to_vec());

    let bytes = original.to_bytes();
    let deserialized = SimpleEnvelope::from_bytes(&bytes).unwrap();

    assert_eq!(Envelope::correlation_id(&deserialized), 123);
    assert_eq!(Envelope::payload(&deserialized), b"request data");
    assert_eq!(original, deserialized);
}

#[test]
fn test_envelope_create_response() {
    let request = SimpleEnvelope::new(456, b"original request".to_vec());
    let response = request.create_response(b"reply data".to_vec());

    // Response should have same correlation ID as request
    assert_eq!(
        Envelope::correlation_id(&response),
        Envelope::correlation_id(&request)
    );
    assert_eq!(Envelope::correlation_id(&response), 456);
    assert_eq!(Envelope::payload(&response), b"reply data");
}

#[test]
fn test_response_detection() {
    let envelope = SimpleEnvelope::new(100, b"test".to_vec());

    // Should match its own correlation ID
    assert!(Envelope::is_response_to(&envelope, 100));

    // Should not match different correlation IDs
    assert!(!Envelope::is_response_to(&envelope, 99));
    assert!(!Envelope::is_response_to(&envelope, 101));
}

#[test]
fn test_correlation_id_matching() {
    let correlation_id = 42;
    let request = SimpleEnvelope::new(correlation_id, b"ping".to_vec());
    let response = request.create_response(b"pong".to_vec());

    // Both should have the same correlation ID
    assert_eq!(Envelope::correlation_id(&request), correlation_id);
    assert_eq!(Envelope::correlation_id(&response), correlation_id);

    // Response should be detected as response to the request's correlation ID
    assert!(Envelope::is_response_to(&response, correlation_id));
    assert!(Envelope::is_response_to(&request, correlation_id)); // Request also matches its own ID
}

#[test]
fn test_envelope_clone_and_equality() {
    let envelope1 = SimpleEnvelope::new(1, b"data".to_vec());
    let envelope2 = envelope1.clone();

    assert_eq!(envelope1, envelope2);
    assert_eq!(
        Envelope::correlation_id(&envelope1),
        Envelope::correlation_id(&envelope2)
    );
    assert_eq!(Envelope::payload(&envelope1), Envelope::payload(&envelope2));
}

#[test]
fn test_envelope_debug_display() {
    let envelope = SimpleEnvelope::new(999, b"debug test".to_vec());
    let debug_str = format!("{:?}", envelope);

    // Should contain correlation ID and payload in debug output
    assert!(debug_str.contains("999"));
    // The payload is a Vec<u8>, so "debug test" will be shown as byte array
    assert!(
        debug_str.contains("100, 101, 98, 117, 103, 32, 116, 101, 115, 116")
            || debug_str.contains("[100, 101, 98, 117, 103, 32, 116, 101, 115, 116]")
    );
}

#[test]
fn test_insufficient_data_error() {
    let incomplete_data = vec![1, 2, 3]; // Less than 12 bytes needed

    let result = SimpleEnvelope::from_bytes(&incomplete_data);
    assert!(result.is_err());

    match result.unwrap_err() {
        EnvelopeError::InsufficientData { needed, available } => {
            assert_eq!(needed, 12);
            assert_eq!(available, 3);
        }
        _ => panic!("Expected InsufficientData error"),
    }
}

#[test]
fn test_invalid_length_error() {
    let mut data = Vec::new();
    data.extend_from_slice(&42u64.to_le_bytes()); // correlation_id
    data.extend_from_slice(&10u32.to_le_bytes()); // payload_len says 10
    data.extend_from_slice(b"short"); // but only 5 bytes provided

    let result = SimpleEnvelope::from_bytes(&data);
    assert!(result.is_err());

    match result.unwrap_err() {
        EnvelopeError::DeserializationFailed(msg) => {
            assert!(msg.contains("Invalid data length"));
        }
        _ => panic!("Expected DeserializationFailed error"),
    }
}

#[test]
fn test_protocol_creation() {
    let protocol = create_test_protocol();

    assert!(!protocol.has_pending_transmissions());
    assert!(!protocol.has_pending_receives());
    assert_eq!(protocol.pending_transmission_count(), 0);
    assert_eq!(protocol.pending_receive_count(), 0);
    assert_eq!(protocol.stats().envelopes_sent, 0);
    assert_eq!(protocol.stats().envelopes_received, 0);
}

#[test]
fn test_protocol_send() {
    let mut protocol = create_test_protocol();
    let envelope = create_test_envelope(42, b"test message");

    // Send envelope
    protocol.send("destination1".to_string(), envelope);

    // Check state
    assert!(protocol.has_pending_transmissions());
    assert_eq!(protocol.pending_transmission_count(), 1);
    assert_eq!(protocol.stats().envelopes_sent, 1);
    assert!(protocol.stats().bytes_sent > 0);
}

#[test]
fn test_protocol_poll_transmit() {
    let mut protocol = create_test_protocol();
    let envelope = create_test_envelope(123, b"ping");

    // Send and poll
    protocol.send("server".to_string(), envelope);
    let transmit = protocol.poll_transmit().expect("Should have transmission");

    // Verify transmission
    assert_eq!(transmit.destination, "server");
    assert!(!transmit.is_empty());
    assert!(transmit.data_size() > 0);

    // Queue should be empty now
    assert!(!protocol.has_pending_transmissions());
    assert!(protocol.poll_transmit().is_none());
}

#[test]
fn test_protocol_handle_received() {
    let mut protocol = create_test_protocol();
    let original_envelope = create_test_envelope(456, b"response");

    // Serialize envelope to simulate received data
    let serialized_data = original_envelope.to_bytes();

    // Handle received data
    protocol.handle_received("client".to_string(), serialized_data);

    // Check state
    assert!(protocol.has_pending_receives());
    assert_eq!(protocol.pending_receive_count(), 1);
    assert_eq!(protocol.stats().envelopes_received, 1);
    assert!(protocol.stats().bytes_received > 0);
}

#[test]
fn test_protocol_poll_receive() {
    let mut protocol = create_test_protocol();
    let original_envelope = create_test_envelope(789, b"data");

    // Simulate received data
    let serialized_data = original_envelope.to_bytes();
    protocol.handle_received("peer".to_string(), serialized_data);

    // Poll received envelope
    let received_envelope = protocol
        .poll_receive()
        .expect("Should have received envelope");

    // Verify envelope
    assert_eq!(
        received_envelope.correlation_id,
        original_envelope.correlation_id
    );
    assert_eq!(received_envelope.payload, original_envelope.payload);

    // Queue should be empty now
    assert!(!protocol.has_pending_receives());
    assert!(protocol.poll_receive().is_none());
}

#[test]
fn test_protocol_send_receive_flow() {
    let mut protocol = create_test_protocol();
    let request = create_test_envelope(100, b"request");
    let reply = create_test_envelope(100, b"reply"); // Same correlation ID

    // Send request
    protocol.send("server".to_string(), request.clone());
    let transmit = protocol.poll_transmit().unwrap();

    // Simulate server receiving and replying
    protocol.handle_received("server".to_string(), transmit.data);
    let received_request = protocol.poll_receive().unwrap();
    assert_eq!(received_request.correlation_id, request.correlation_id);

    // Send reply
    protocol.send("client".to_string(), reply.clone());
    let reply_transmit = protocol.poll_transmit().unwrap();

    // Simulate client receiving reply
    protocol.handle_received("client".to_string(), reply_transmit.data);
    let received_reply = protocol.poll_receive().unwrap();
    assert_eq!(received_reply.correlation_id, reply.correlation_id);

    // Check statistics
    assert_eq!(protocol.stats().envelopes_sent, 2);
    assert_eq!(protocol.stats().envelopes_received, 2);
}

#[test]
fn test_protocol_malformed_data_handling() {
    let mut protocol = create_test_protocol();

    // Send malformed data with invalid payload length (exceeds MAX_PAYLOAD_SIZE)
    let mut malformed_data = vec![0u8; 12]; // Valid header size
    malformed_data[8] = 255;
    malformed_data[9] = 255;
    malformed_data[10] = 255;
    malformed_data[11] = 255; // Payload length = u32::MAX (exceeds MAX_PAYLOAD_SIZE)
    protocol.handle_received("bad_peer".to_string(), malformed_data);

    // Should have no received envelopes but error should be counted
    assert!(!protocol.has_pending_receives());
    assert_eq!(protocol.stats().envelopes_received, 0);
    assert_eq!(protocol.stats().deserialization_errors, 1);
    assert_eq!(protocol.stats().total_errors(), 1);
}

#[test]
fn test_protocol_multiple_sends() {
    let mut protocol = create_test_protocol();

    // Send multiple envelopes
    for i in 0..5 {
        let envelope = create_test_envelope(i, format!("message {}", i).as_bytes());
        protocol.send(format!("dest{}", i), envelope);
    }

    // Check queue state
    assert_eq!(protocol.pending_transmission_count(), 5);
    assert_eq!(protocol.stats().envelopes_sent, 5);

    // Poll all transmissions
    let mut transmissions = Vec::new();
    while let Some(transmit) = protocol.poll_transmit() {
        transmissions.push(transmit);
    }

    assert_eq!(transmissions.len(), 5);
    assert!(!protocol.has_pending_transmissions());
}

#[test]
fn test_protocol_stats_operations() {
    let mut protocol = create_test_protocol();

    // Initial stats
    let stats = protocol.stats();
    assert_eq!(stats.envelopes_sent, 0);
    assert_eq!(stats.total_errors(), 0);

    // Reset stats
    protocol.stats_mut().reset();
    assert_eq!(protocol.stats().envelopes_sent, 0);

    // Test error counting
    // Note: Short data (< 12 bytes) is treated as incomplete, not corrupt
    // We need data with valid length header but invalid content to trigger error
    let mut malformed = vec![0u8; 12]; // Valid header size
    malformed[8] = 255; // Set payload_len to 255 (but we'll provide invalid data)
    malformed[9] = 255;
    malformed[10] = 255;
    malformed[11] = 255; // Payload length = u32::MAX (way too large)
    protocol.handle_received("peer".to_string(), malformed);
    assert_eq!(protocol.stats().deserialization_errors, 1);
}

#[test]
fn test_protocol_queue_management() {
    let mut protocol = create_test_protocol();
    let envelope = create_test_envelope(1, b"test");

    // Add items to queues
    protocol.send("dest".to_string(), envelope.clone());
    let serialized = envelope.to_bytes();
    protocol.handle_received("peer".to_string(), serialized);

    assert!(protocol.has_pending_transmissions());
    assert!(protocol.has_pending_receives());

    // Clear queues
    protocol.clear_queues();

    assert!(!protocol.has_pending_transmissions());
    assert!(!protocol.has_pending_receives());
    assert_eq!(protocol.pending_transmission_count(), 0);
    assert_eq!(protocol.pending_receive_count(), 0);
}

#[test]
fn test_protocol_sans_io_verification() {
    // This test verifies that the protocol is truly Sans I/O
    // by ensuring all operations are pure state transitions

    let mut protocol = create_test_protocol();
    let envelope = create_test_envelope(42, b"sans io test");

    // All operations should be synchronous and not block
    protocol.send("dest".to_string(), envelope.clone());
    let _transmit = protocol.poll_transmit();

    let serialized = envelope.to_bytes();
    protocol.handle_received("peer".to_string(), serialized);
    let _received = protocol.poll_receive();

    // All operations completed synchronously without any I/O
    // This proves the Sans I/O design is working correctly
}

#[test]
fn test_transmit_structure() {
    let transmit = Transmit::new("test_dest".to_string(), b"test_data".to_vec());

    assert_eq!(transmit.destination, "test_dest");
    assert_eq!(transmit.data, b"test_data");
    assert_eq!(transmit.data_size(), 9);
    assert!(!transmit.is_empty());

    let empty_transmit = Transmit::new("dest".to_string(), Vec::new());
    assert!(empty_transmit.is_empty());
    assert_eq!(empty_transmit.data_size(), 0);
}

#[test]
fn test_protocol_clone() {
    let mut protocol = create_test_protocol();
    let envelope = create_test_envelope(999, b"clone test");

    // Add some state
    protocol.send("dest".to_string(), envelope);

    // Clone protocol
    let cloned_protocol = protocol.clone();

    // Both should have the same state
    assert_eq!(
        protocol.pending_transmission_count(),
        cloned_protocol.pending_transmission_count()
    );
    assert_eq!(
        protocol.stats().envelopes_sent,
        cloned_protocol.stats().envelopes_sent
    );
}

#[test]
fn test_request_response_envelope_creation() {
    let envelope = RequestResponseEnvelope::new(42, b"test payload".to_vec());

    assert_eq!(envelope.correlation_id(), 42);
    assert_eq!(Envelope::payload(&envelope), b"test payload");
    assert!(!envelope.is_empty());
    assert_eq!(envelope.payload_size(), 12);
    assert_eq!(envelope.serialized_size(), 8 + 4 + 12); // header + payload
}

#[test]
fn test_request_response_envelope_empty_payload() {
    let envelope = RequestResponseEnvelope::new(0, Vec::new());

    assert_eq!(envelope.correlation_id(), 0);
    assert_eq!(Envelope::payload(&envelope), b"");
    assert!(envelope.is_empty());
    assert_eq!(envelope.payload_size(), 0);
    assert_eq!(envelope.serialized_size(), 12); // header only
}

#[test]
fn test_request_response_envelope_factory() {
    let correlation_id = 123;
    let request = RequestResponseEnvelope::new(correlation_id, b"ping".to_vec());
    let reply = request.create_response(b"pong".to_vec());

    // Both should have same correlation ID
    assert_eq!(Envelope::correlation_id(&request), correlation_id);
    assert_eq!(Envelope::correlation_id(&reply), correlation_id);

    // Reply should have matching correlation ID
    assert_eq!(reply.correlation_id, correlation_id);

    // Extract payload should work
    assert_eq!(Envelope::payload(&request), b"ping");
    assert_eq!(Envelope::payload(&reply), b"pong");
}

#[test]
fn test_serialization_roundtrip() {
    let serializer = RequestResponseSerializer::new();
    let original = RequestResponseEnvelope::new(0x123456789ABCDEF0, b"Hello, World!".to_vec());

    // Serialize
    let serialized = serializer.serialize(&original);

    // Deserialize
    let deserialized = serializer
        .deserialize(&serialized)
        .expect("Deserialization should succeed");

    // Should be identical
    assert_eq!(original, deserialized);
    assert_eq!(original.correlation_id, deserialized.correlation_id);
    assert_eq!(original.payload, deserialized.payload);
}

#[test]
fn test_serialization_empty_payload() {
    let serializer = RequestResponseSerializer::new();
    let original = RequestResponseEnvelope::new(42, Vec::new());

    let serialized = serializer.serialize(&original);
    let deserialized = serializer
        .deserialize(&serialized)
        .expect("Deserialization should succeed");

    assert_eq!(original, deserialized);
    assert_eq!(deserialized.payload_size(), 0);
}

#[test]
fn test_serialization_wire_format() {
    let serializer = RequestResponseSerializer::new();
    let envelope = RequestResponseEnvelope::new(0x0102030405060708, b"AB".to_vec());

    let serialized = serializer.serialize(&envelope);

    // Check wire format: [correlation_id:8][len:4][payload:N]
    assert_eq!(serialized.len(), 8 + 4 + 2);

    // correlation_id (little-endian)
    assert_eq!(
        &serialized[0..8],
        &[0x08, 0x07, 0x06, 0x05, 0x04, 0x03, 0x02, 0x01]
    );

    // payload length (little-endian)
    assert_eq!(&serialized[8..12], &[0x02, 0x00, 0x00, 0x00]); // 2 as u32 LE

    // payload
    assert_eq!(&serialized[12..14], b"AB");
}

#[test]
fn test_deserialization_too_short() {
    let serializer = RequestResponseSerializer::new();

    // Too short for header
    let result = serializer.deserialize(&[1, 2, 3]);
    assert!(matches!(
        result,
        Err(EnvelopeError::DeserializationFailed(_))
    ));

    // Header only, but claims to have payload
    let mut data = vec![0u8; 12];
    data[8..12].copy_from_slice(&5u32.to_le_bytes()); // claims 5 byte payload
    let result = serializer.deserialize(&data);
    assert!(matches!(
        result,
        Err(EnvelopeError::DeserializationFailed(_))
    ));
}

#[test]
fn test_deserialization_payload_too_large() {
    let serializer = RequestResponseSerializer::new();

    // Create data claiming massive payload
    let mut data = vec![0u8; 12];
    let massive_size = RequestResponseSerializer::MAX_PAYLOAD_SIZE + 1;
    data[8..12].copy_from_slice(&(massive_size as u32).to_le_bytes());

    let result = serializer.deserialize(&data);
    assert!(matches!(
        result,
        Err(EnvelopeError::DeserializationFailed(_))
    ));
}

#[test]
fn test_deserialization_length_mismatch() {
    let serializer = RequestResponseSerializer::new();

    // Create valid header but wrong total length
    let mut data = vec![0u8; 15]; // 12 header + 3 bytes
    data[8..12].copy_from_slice(&5u32.to_le_bytes()); // claims 5 byte payload, but only 3 provided

    let result = serializer.deserialize(&data);
    assert!(matches!(
        result,
        Err(EnvelopeError::DeserializationFailed(_))
    ));
}

#[test]
fn test_clone_and_equality() {
    let envelope1 = RequestResponseEnvelope::new(999, b"test data".to_vec());
    let envelope2 = envelope1.clone();

    assert_eq!(envelope1, envelope2);
    assert_eq!(envelope1.correlation_id, envelope2.correlation_id);
    assert_eq!(envelope1.payload, envelope2.payload);
}

#[test]
fn test_serializer_default() {
    let serializer1 = RequestResponseSerializer::new();
    let serializer2 = RequestResponseSerializer;

    // Both should work the same way
    let envelope = RequestResponseEnvelope::new(1, b"test".to_vec());
    let ser1 = serializer1.serialize(&envelope);
    let ser2 = serializer2.serialize(&envelope);

    assert_eq!(ser1, ser2);
}

#[test]
fn test_try_deserialize_from_buffer_insufficient_data() {
    let serializer = RequestResponseSerializer::new();

    // Test empty buffer
    let mut empty_buffer = Vec::new();
    let result = serializer.try_deserialize_from_buffer(&mut empty_buffer);
    assert_eq!(result, Ok(None));

    // Test partial header (only 6 bytes, need 12)
    let mut partial_header = vec![1, 2, 3, 4, 5, 6];
    let result = serializer.try_deserialize_from_buffer(&mut partial_header);
    assert_eq!(
        result,
        Err(
            EnvelopeError::InsufficientData {
                needed: 12,
                available: 6,
            }
        )
    );

    // Test complete header but incomplete message
    let envelope = RequestResponseEnvelope::new(42, b"hello world".to_vec());
    let complete_data = serializer.serialize(&envelope);
    let mut partial_message = complete_data[0..15].to_vec(); // Header (12) + 3 bytes of payload

    let result = serializer.try_deserialize_from_buffer(&mut partial_message);
    assert_eq!(
        result,
        Err(
            EnvelopeError::InsufficientData {
                needed: 23, // 12 header + 11 payload
                available: 15,
            }
        )
    );

    // Verify buffer was not consumed on error
    assert_eq!(partial_message.len(), 15);
}

#[test]
fn test_try_deserialize_from_buffer_complete_message() {
    let serializer = RequestResponseSerializer::new();
    let envelope = RequestResponseEnvelope::new(123, b"test data".to_vec());
    let serialized = serializer.serialize(&envelope);

    let mut buffer = serialized.clone();
    let result = serializer.try_deserialize_from_buffer(&mut buffer);

    match result {
        Ok(Some(deserialized)) => {
            assert_eq!(deserialized.correlation_id, 123);
            assert_eq!(deserialized.payload, b"test data");
            assert!(buffer.is_empty()); // Buffer should be consumed
        }
        _ => panic!("Expected successful deserialization"),
    }
}

// The client.

#[test]
fn test_correlation_id_generation() {
    let mut client = ClientTransport::new();

    let id1 = client.next_correlation_id();
    let id2 = client.next_correlation_id();
    let id3 = client.next_correlation_id();

    assert_eq!(id1, 1);
    assert_eq!(id2, 2);
    assert_eq!(id3, 3);
}

#[test]
fn test_correlation_id_wrapping() {
    let mut client = ClientTransport::with_next_id(u64::MAX);

    let id1 = client.next_correlation_id();
    let id2 = client.next_correlation_id();

    assert_eq!(id1, u64::MAX);
    assert_eq!(id2, 0);
}

#[test]
fn test_pending_request_management() {
    let mut client = ClientTransport::new();
    assert_eq!(client.pending_request_count(), 0);

    client.request_envelope(&create_test_envelope(42, b""), 7);

    assert_eq!(client.pending_request_count(), 1);
    assert!(client.has_pending_request(42));
    assert!(!client.has_pending_request(43));
}

#[test]
fn test_envelope_factory_compilation() {
    let envelope = RequestResponseEnvelopeFactory::create_request(42, b"test".to_vec());
    assert_eq!(envelope.correlation_id, 42);
    assert_eq!(envelope.payload, b"test");

    let reply = RequestResponseEnvelopeFactory::create_reply(&envelope, b"response".to_vec());
    assert_eq!(reply.correlation_id, 42);
    assert_eq!(reply.payload, b"response");
}

#[test]
fn test_basic_client_creation() {
    let client = ClientTransport::new();
    assert_eq!(client.pending_request_count(), 0);
    assert!(!client.has_pending_request(1));
}

#[test]
fn responses_reach_who_waits() {
    let mut client = ClientTransport::new();
    let (id, before) = client.request(11);
    assert_eq!((id, before), (1, None));
    match client.poll_receive(create_test_envelope(5, b"other")) {
        Received::Application(e) => {
            assert_eq!(e.envelope.payload, b"other");
            assert_eq!(e.from, "unknown");
        }
        Received::Response { .. } => panic!("nobody waits for this"),
    }
    match client.poll_receive(create_test_envelope(1, b"answer")) {
        Received::Response { waiter, envelope } => {
            assert_eq!(waiter, 11);
            assert_eq!(envelope, create_test_envelope(1, b"answer"));
        }
        Received::Application(_) => panic!("a request waits for this"),
    }
    assert_eq!(client.pending_request_count(), 0);
}

#[test]
fn requests_are_settled() {
    let mut client = ClientTransport::new();
    let (id, _) = client.request(11);
    assert_eq!(client.settle(id, ReplyPoll::<RequestResponseEnvelope>::Empty), None);
    assert!(client.has_pending_request(id));
    assert_eq!(
        client.settle(id, ReplyPoll::<RequestResponseEnvelope>::Closed),
        Some(Err(TransportError::SendFailed("Request cancelled".to_string())))
    );
    assert!(!client.has_pending_request(id));
    let (id, _) = client.request(12);
    let response = create_test_envelope(id, b"answer");
    assert_eq!(client.settle(id, ReplyPoll::Ready(response)), Some(Ok(b"answer".to_vec())));
    client.request(13);
    client.request(14);
    assert_eq!(client.close(), [13, 14]);
    assert_eq!(client.pending_request_count(), 0);
    assert_eq!(
        client.settle(3, ReplyPoll::<RequestResponseEnvelope>::Drained),
        Some(Ok(Vec::new()))
    );
}

#[test]
fn requests_with_messages_get_the_message_that_responds() {
    let mut client = ClientTransport::new();
    let request = create_test_envelope(42, b"ping");
    assert_eq!(client.request_envelope(&request, 7), None);
    let response = match client.poll_receive(request.create_response(b"pong".to_vec())) {
        Received::Response { waiter, envelope } => {
            assert_eq!(waiter, 7);
            envelope
        }
        Received::Application(_) => panic!("a request waits for this"),
    };
    assert!(!client.has_pending_request(42));
    assert_eq!(
        client.settle_envelope(42, ReplyPoll::Ready(response)),
        Some(Ok(create_test_envelope(42, b"pong")))
    );

    assert_eq!(client.request_envelope(&request, 8), None);
    assert_eq!(client.request_envelope(&request, 9), Some(8));
    assert_eq!(client.settle_envelope(42, ReplyPoll::<RequestResponseEnvelope>::Empty), None);
    assert!(client.has_pending_request(42));
    assert_eq!(
        client.settle_envelope(42, ReplyPoll::<RequestResponseEnvelope>::Closed),
        Some(Err(TransportError::SendFailed("Request cancelled".to_string())))
    );
    assert!(!client.has_pending_request(42));
    assert_eq!(
        client.settle_envelope(42, ReplyPoll::<RequestResponseEnvelope>::Drained),
        Some(Err(TransportError::SendFailed(
            "Failed to deserialize response: deserialization failed: \
             Data too short: got 0 bytes, need at least 12"
                .to_string()
        )))
    );
}

// The server.

#[test]
fn test_incoming_message_creation() {
    let msg = IncomingMessage {
        envelope: create_test_envelope(1, b"x"),
        connection_id: 2,
        peer_address: "127.0.0.1:1".to_string(),
    };
    assert_eq!(msg.connection_id, 2);
}

#[test]
fn test_connection_handle() {
    let handle = ConnectionHandle { peer_address: "127.0.0.1:1234".to_string() };

    assert_eq!(handle.peer_address, "127.0.0.1:1234");
}

#[test]
fn the_server_routes_messages() {
    let mut server = ServerTransport::bind("0.0.0.0:80");
    assert_eq!(server.bind_address(), "0.0.0.0:80");
    assert!(!server.has_connections());
    let a = server.accept("10.0.0.1:1".to_string());
    let b = server.accept("10.0.0.2:2".to_string());
    assert_ne!(a, b);
    assert_eq!(server.connection_count(), 2);

    let first = create_test_envelope(1, b"one").to_bytes();
    let second = create_test_envelope(2, b"two").to_bytes();
    let mut buffer = first.clone();
    buffer.extend_from_slice(&second[..7]);
    let peer = "10.0.0.1:1".to_string();
    let messages: Vec<IncomingMessage<RequestResponseEnvelope>> =
        ServerTransport::read(a, &peer, &mut buffer);
    assert_eq!(messages.len(), 1);
    assert_eq!(messages[0].envelope.payload, b"one");
    assert_eq!(messages[0].connection_id, a);
    assert_eq!(buffer, second[..7]);

    let (to, bytes) = server
        .reply_with_payload(&messages[0].envelope, b"back".to_vec(), &messages[0])
        .unwrap();
    assert_eq!(to, a);
    assert_eq!(bytes, create_test_envelope(1, b"back").to_bytes());

    let (ids, bytes) = server.broadcast(&create_test_envelope(9, b"all"));
    assert_eq!(ids, [a, b]);
    assert_eq!(bytes, create_test_envelope(9, b"all").to_bytes());

    assert_eq!(server.send_to(a, true), Ok(()));
    assert_eq!(server.send_to(a, false), Err(TransportError::ConnectionClosed));
    assert_eq!(server.send_to(99, true), Err(TransportError::UnknownConnection));
    assert_eq!(server.close_connection(a), Ok(()));
    assert_eq!(server.close_connection(a), Err(TransportError::UnknownConnection));
    assert_eq!(
        server.send_envelope(a, &create_test_envelope(1, b"")),
        Err(TransportError::UnknownConnection)
    );
    assert_eq!(server.connection_ids(), [b]);
}

// Laws on concrete values.

#[test]
fn pieces_do_not_matter() {
    let mut bytes = create_test_envelope(1, b"one").to_bytes();
    bytes.extend_from_slice(&create_test_envelope(2, b"two").to_bytes());
    for cut in 0..=bytes.len() {
        let mut protocol = create_test_protocol();
        protocol.handle_received("peer".to_string(), bytes[..cut].to_vec());
        protocol.handle_received("peer".to_string(), bytes[cut..].to_vec());
        assert_eq!(protocol.pending_receive_count(), 2, "cut at {cut}");
        assert_eq!(protocol.poll_receive().unwrap().payload, b"one");
        assert_eq!(protocol.poll_receive().unwrap().payload, b"two");
        assert_eq!(protocol.stats().total_errors(), 0);
    }
}

#[test]
fn a_payload_that_is_too_long_is_refused() {
    let serializer = RequestResponseSerializer::new();
    let long = vec![0u8; RequestResponseSerializer::MAX_PAYLOAD_SIZE + 1];
    let bytes = serializer.serialize(&RequestResponseEnvelope::new(1, long));
    assert!(serializer.deserialize(&bytes).is_err());
    let most = vec![0u8; RequestResponseSerializer::MAX_PAYLOAD_SIZE];
    let envelope = RequestResponseEnvelope::new(1, most);
    assert_eq!(serializer.deserialize(&serializer.serialize(&envelope)), Ok(envelope));
}

#[test]
fn errors_are_told() {
    assert_eq!(
        EnvelopeError::InsufficientData { needed: 12, available: 3 }.describe(),
        "insufficient data: need 12 bytes, have 3"
    );
    assert_eq!(TransportError::Timeout.describe(), "timeout");
    assert_eq!(TransportError::IoError("x".to_string()).describe(), "io error: x");
}

// Well known tokens.

#[test]
fn test_well_known_token_values() {
    assert_eq!(WellKnownToken::EndpointNotFound.as_u32(), 0);
    assert_eq!(WellKnownToken::Ping.as_u32(), 1);
    assert_eq!(WellKnownToken::UnauthorizedEndpoint.as_u32(), 2);
    assert_eq!(WellKnownToken::FirstAvailable.as_u32(), 3);
}

#[test]
fn test_well_known_uid() {
    let uid = WellKnownToken::Ping.uid();
    assert!(uid.is_well_known());
    assert_eq!(uid.first, u64::MAX);
    assert_eq!(uid.second, 1);
    assert!(!UID { first: 1, second: 1 }.is_well_known());
}

#[test]
fn test_reserved_count() {
    assert!((WellKnownToken::FirstAvailable.as_u32() as usize) < WELL_KNOWN_RESERVED_COUNT);
}

#[test]
fn peers_have_defaults() {
    let c = PeerConfig::default();
    assert!(c.initial_reconnect_delay.le(&c.max_reconnect_delay));
    assert!(PeerConfig::local_network()
        .initial_reconnect_delay
        .lt(&PeerConfig::wan_network().initial_reconnect_delay));
    let own = PeerConfig::new(
        10,
        Duration::from_secs(1),
        Duration::from_millis(2),
        Duration::from_millis(3),
        Some(4),
    );
    assert_eq!(own.max_queue_size, 10);
}

#[test]
fn waits_between_attempts_double_up_to_the_longest() {
    let config = PeerConfig::new(
        10,
        Duration::from_secs(1),
        Duration::from_millis(100),
        Duration::from_millis(350),
        Some(4),
    );
    let first = config.next_wait(1, Duration::zero()).unwrap();
    assert_eq!(first, Duration::from_millis(100));
    let second = config.next_wait(2, first).unwrap();
    assert_eq!(second, Duration::from_millis(200));
    assert_eq!(config.next_wait(3, second), Some(Duration::from_millis(350)));
    assert_eq!(config.next_wait(4, second), None);
    let patient = PeerConfig { max_connection_failures: None, ..config };
    assert_eq!(patient.next_wait(u32::MAX, second), Some(Duration::from_millis(350)));
}

#[test]
fn a_stream_may_be_cut_anywhere() {
    let mut stream: Vec<u8> = Vec::new();
    for id in 1..=3u64 {
        stream.extend(create_test_envelope(id, b"piece").to_bytes());
    }
    let whole = stream.len();
    stream.extend(&[7, 0, 0]);
    for size in [1, 2, 5, 19, whole] {
        let mut protocol = create_test_protocol();
        for piece in stream.chunks(size) {
            protocol.handle_received("peer".to_string(), piece.to_vec());
        }
        for id in 1..=3u64 {
            let got = protocol.poll_receive().expect("a whole message came");
            assert_eq!(Envelope::correlation_id(&got), id);
            assert_eq!(Envelope::payload(&got), b"piece");
        }
        assert!(protocol.poll_receive().is_none());
        assert_eq!(protocol.stats().total_errors(), 0);
    }
}

#[test]
fn messages_are_sent_in_order() {
    let mut protocol = create_test_protocol();
    let mut sent: Vec<Vec<u8>> = Vec::new();
    for id in 1..=5u64 {
        protocol.send("peer".to_string(), create_test_envelope(id, b"x"));
        if id == 3 {
            sent.push(protocol.poll_transmit().unwrap().data);
        }
    }
    while let Some(transmit) = protocol.poll_transmit() {
        sent.push(transmit.data);
    }
    let mut receiver = create_test_protocol();
    for data in sent {
        receiver.handle_received("peer".to_string(), data);
    }
    for id in 1..=5u64 {
        assert_eq!(Envelope::correlation_id(&receiver.poll_receive().unwrap()), id);
    }
}
