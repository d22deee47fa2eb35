//! Errors of the transport.

use vstd::prelude::*;
use vstd::string::StringExecFns;

verus! {

/// Why a transport could not do what it was asked.
#[derive(Debug, Clone, PartialEq, Eq)]
pub enum TransportError {
    /// The address could not be bound.
    BindFailed(String),
    /// The message could not be sent.
    SendFailed(String),
    /// The peer is at fault.
    PeerError(String),
    /// Reading or writing failed.
    IoError(String),
    /// There was no answer in time.
    Timeout,
    /// There is no such connection.
    UnknownConnection,
    /// The connection is closed.
    ConnectionClosed,
}

/// What an error says.
pub open spec fn transport_text(e: TransportError) -> Seq<char> {
    match e {
        TransportError::BindFailed(reason) => "bind failed: "@ + reason@,
        TransportError::SendFailed(reason) => "send failed: "@ + reason@,
        TransportError::PeerError(reason) => "peer error: "@ + reason@,
        TransportError::IoError(reason) => "io error: "@ + reason@,
        TransportError::Timeout => "timeout"@,
        TransportError::UnknownConnection => "unknown connection"@,
        TransportError::ConnectionClosed => "connection closed"@,
    }
}

fn joined(head: &str, tail: &String) -> (text: String)
    ensures
        text@ == head@ + tail@,
{
    let mut text = head.to_owned();
    text.append(tail.as_str());
    text
}

impl TransportError {
    /// Tells the error.
    pub fn describe(&self) -> (text: String)
        ensures
            text@ == transport_text(*self),
    {
        match self {
            TransportError::BindFailed(reason) => joined("bind failed: ", reason),
            TransportError::SendFailed(reason) => joined("send failed: ", reason),
            TransportError::PeerError(reason) => joined("peer error: ", reason),
            TransportError::IoError(reason) => joined("io error: ", reason),
            TransportError::Timeout => "timeout".to_owned(),
            TransportError::UnknownConnection => "unknown connection".to_owned(),
            TransportError::ConnectionClosed => "connection closed".to_owned(),
        }
    }

    /// Whether the error is that a message could not be sent, for a reason.
    pub open spec fn is_send_failed(self, reason: Seq<char>) -> bool {
        self matches TransportError::SendFailed(r) && r@ == reason
    }
}

} // verus!
