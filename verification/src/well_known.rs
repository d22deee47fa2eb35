//! Addresses of system services that are known to all.

use vstd::prelude::*;

verus! {

/// How many addresses are kept for services that are known to all.
pub const WELL_KNOWN_RESERVED_COUNT: usize = 64;

/// An identifier of 128 bits.
#[derive(Debug, Clone, Copy, PartialEq, Eq, Structural, Hash)]
pub struct UID {
    /// The first half.
    pub first: u64,
    /// The second half.
    pub second: u64,
}

impl UID {
    /// Whether the service is known to all: its first half is the largest number.
    pub open spec fn known(self) -> bool {
        self.first == u64::MAX
    }

    /// The identifier of a service that is known to all.
    pub fn well_known(token: u32) -> (u: Self)
        ensures
            u == (UID { first: u64::MAX, second: token as u64 }),
    {
        UID { first: u64::MAX, second: token as u64 }
    }

    /// Whether the service is known to all.
    pub fn is_well_known(&self) -> (b: bool)
        ensures
            b == self.known(),
    {
        self.first == u64::MAX
    }
}

/// A service that is known to all.
#[derive(Debug, Clone, Copy, PartialEq, Eq, Structural, Hash)]
pub enum WellKnownToken {
    /// Tells that there is no such service.
    EndpointNotFound,
    /// Tells whether a connection works.
    Ping,
    /// Tells that a service may not be used.
    UnauthorizedEndpoint,
    /// The first that is free for others.
    FirstAvailable,
}

/// The number of a service.
pub open spec fn token_number(t: WellKnownToken) -> u32 {
    match t {
        WellKnownToken::EndpointNotFound => 0,
        WellKnownToken::Ping => 1,
        WellKnownToken::UnauthorizedEndpoint => 2,
        WellKnownToken::FirstAvailable => 3,
    }
}

impl WellKnownToken {
    /// The number of the service.
    pub fn as_u32(self) -> (n: u32)
        ensures
            n == token_number(self),
    {
        match self {
            WellKnownToken::EndpointNotFound => 0,
            WellKnownToken::Ping => 1,
            WellKnownToken::UnauthorizedEndpoint => 2,
            WellKnownToken::FirstAvailable => 3,
        }
    }

    /// The identifier of the service.
    pub fn uid(self) -> (u: UID)
        ensures
            u == (UID { first: u64::MAX, second: token_number(self) as u64 }),
    {
        UID::well_known(self.as_u32())
    }
}

/// Every service that is known to all has an identifier of its own, within the kept
/// addresses.
pub proof fn lemma_tokens_are_apart(a: WellKnownToken, b: WellKnownToken)
    ensures
        token_number(a) == token_number(b) <==> a == b,
        token_number(a) < WELL_KNOWN_RESERVED_COUNT,
        (UID { first: u64::MAX, second: token_number(a) as u64 }).known(),
{
}

} // verus!
