//! What one probe came to.

use vstd::prelude::*;

verus! {

/// A resolved destination or source address, held as the number that its
/// bytes spell in network order.
#[derive(Debug, Clone, Copy, PartialEq, Eq, Structural)]
pub enum ProbeTarget {
    V4(u32),
    V6(u128),
}

/// The address families a raw ICMP socket can be opened for.
#[derive(Debug, Clone, Copy, PartialEq, Eq, Structural)]
pub enum AddressFamily {
    V4,
    V6,
}

impl ProbeTarget {
    /// The family that the address belongs to.
    pub open spec fn spec_family(self) -> AddressFamily {
        match self {
            ProbeTarget::V4(_) => AddressFamily::V4,
            ProbeTarget::V6(_) => AddressFamily::V6,
        }
    }

    /// The family that the address belongs to.
    #[verifier::when_used_as_spec(spec_family)]
    pub fn family(self) -> (f: AddressFamily)
        ensures
            f == self.spec_family(),
    {
        match self {
            ProbeTarget::V4(_) => AddressFamily::V4,
            ProbeTarget::V6(_) => AddressFamily::V6,
        }
    }
}

/// What went wrong in the transport.
#[derive(Debug, Clone, Copy, PartialEq, Eq, Structural)]
pub enum TransportFault {
    /// The operating system refused to send a request.
    SendFailed,
    /// Waiting for a packet ended in an error other than the wait running out.
    ReceiveFailed,
    /// The socket can no longer be used.
    SocketUnusable,
}

/// The one result that every request sent ends in. Round-trip times are in
/// microseconds.
#[derive(Debug, Clone, Copy, PartialEq, Eq, Structural)]
pub enum ProbeOutcome {
    Reply { seq: u32, rtt: u32, ttl: u8, addr: ProbeTarget },
    Timeout { seq: u32 },
    TtlExceeded { seq: u32, addr: ProbeTarget },
    TransportError { seq: u32, reason: TransportFault },
}

impl ProbeOutcome {
    /// The sequence number of the request that the outcome belongs to.
    pub open spec fn spec_seq(self) -> u32 {
        match self {
            ProbeOutcome::Reply { seq, .. } => seq,
            ProbeOutcome::Timeout { seq } => seq,
            ProbeOutcome::TtlExceeded { seq, .. } => seq,
            ProbeOutcome::TransportError { seq, .. } => seq,
        }
    }

    /// The sequence number of the request that the outcome belongs to.
    #[verifier::when_used_as_spec(spec_seq)]
    pub fn seq(self) -> (s: u32)
        ensures
            s == self.spec_seq(),
    {
        match self {
            ProbeOutcome::Reply { seq, .. } => seq,
            ProbeOutcome::Timeout { seq } => seq,
            ProbeOutcome::TtlExceeded { seq, .. } => seq,
            ProbeOutcome::TransportError { seq, .. } => seq,
        }
    }
}

} // verus!
