//! The options a run is started with, and the checked configuration that is
//! made of them.

use vstd::prelude::*;
use crate::outcome::ProbeTarget;

verus! {

/// The largest payload, in bytes, that fits an IPv4 datagram beside the IP
/// and ICMP headers.
pub const MAX_PAYLOAD: u16 = 65507;

/// The longest interval between probes, in milliseconds: the longest whose
/// length in microseconds a round-trip time can hold.
pub const MAX_INTERVAL_MS: u32 = 4_294_967;

/// Hop limit when none is given.
pub const DEFAULT_TTL: u8 = 255;

/// Probe count when none is given: any negative count stands for a run
/// without end.
pub const DEFAULT_COUNT: i32 = -1;

/// Payload bytes when none are given.
pub const DEFAULT_PACKET_SIZE: i32 = 56;

/// Milliseconds between probes when none are given.
pub const DEFAULT_INTERVAL_MS: u64 = 1000;

/// The options as they are given on the command line.
#[derive(Debug, Clone, Copy, PartialEq, Eq, Structural)]
pub struct Opt {
    /// Verbose diagnostic logging.
    pub debug: bool,
    /// The address to probe.
    pub ip: ProbeTarget,
    /// Hop limit of the requests.
    pub ttl: u8,
    /// Probes to send; negative for a run without end.
    pub max_packets: i32,
    /// Payload bytes in each request.
    pub packet_size: i32,
    /// Milliseconds between probes.
    pub max_rtt: u64,
}

/// Why a set of options was refused.
#[derive(Debug, Clone, Copy, PartialEq, Eq, Structural)]
pub enum ConfigError {
    /// The hop limit is zero.
    InvalidTtl,
    /// The payload size is negative or larger than `MAX_PAYLOAD`.
    InvalidPacketSize,
    /// The interval is longer than `MAX_INTERVAL_MS`.
    InvalidInterval,
}

/// The configuration of a run, fixed once it has started.
#[derive(Debug, Clone, Copy, PartialEq, Eq, Structural)]
pub struct ProbeConfig {
    /// Hop limit, 1 to 255.
    pub ttl: u8,
    /// Payload bytes in each request.
    pub payload_size: u16,
    /// Milliseconds between probes.
    pub interval_ms: u32,
    /// Probes to send; `None` for a run without end.
    pub max_packets: Option<u32>,
}

impl ProbeConfig {
    /// Every field lies in its range.
    pub open spec fn is_valid(self) -> bool {
        &&& self.ttl >= 1
        &&& self.payload_size <= MAX_PAYLOAD
        &&& self.interval_ms <= MAX_INTERVAL_MS
    }

    /// The number of probes after which the run ends. A run without end is
    /// one that ends after as many probes as a sequence number can count.
    pub open spec fn spec_limit(self) -> u32 {
        match self.max_packets {
            Some(n) => n,
            None => u32::MAX,
        }
    }

    /// The number of probes after which the run ends.
    #[verifier::when_used_as_spec(spec_limit)]
    pub fn limit(self) -> (n: u32)
        ensures
            n == self.spec_limit(),
    {
        match self.max_packets {
            Some(n) => n,
            None => u32::MAX,
        }
    }

    /// The interval between probes in microseconds.
    pub open spec fn spec_interval_us(self) -> u32 {
        (self.interval_ms * 1000) as u32
    }

    /// The interval between probes in microseconds.
    #[verifier::when_used_as_spec(spec_interval_us)]
    pub fn interval_us(self) -> (us: u32)
        requires
            self.is_valid(),
        ensures
            us == self.spec_interval_us(),
            us == self.interval_ms * 1000,
    {
        self.interval_ms * 1000
    }
}

impl Opt {
    /// The options for probing `ip` with every other option at its default.
    pub fn new(ip: ProbeTarget) -> (opt: Opt)
        ensures
            opt == (Opt {
                debug: false,
                ip,
                ttl: DEFAULT_TTL,
                max_packets: DEFAULT_COUNT,
                packet_size: DEFAULT_PACKET_SIZE,
                max_rtt: DEFAULT_INTERVAL_MS,
            }),
            opt.checked() is Ok,
    {
        Opt {
            debug: false,
            ip,
            ttl: DEFAULT_TTL,
            max_packets: DEFAULT_COUNT,
            packet_size: DEFAULT_PACKET_SIZE,
            max_rtt: DEFAULT_INTERVAL_MS,
        }
    }

    /// What the options come to. The hop limit is looked at first, then the
    /// payload size, then the interval.
    pub open spec fn checked(self) -> Result<ProbeConfig, ConfigError> {
        if self.ttl == 0 {
            Err(ConfigError::InvalidTtl)
        } else if self.packet_size < 0 || self.packet_size > MAX_PAYLOAD {
            Err(ConfigError::InvalidPacketSize)
        } else if self.max_rtt > MAX_INTERVAL_MS {
            Err(ConfigError::InvalidInterval)
        } else {
            Ok(
                ProbeConfig {
                    ttl: self.ttl,
                    payload_size: self.packet_size as u16,
                    interval_ms: self.max_rtt as u32,
                    max_packets: if self.max_packets < 0 {
                        None
                    } else {
                        Some(self.max_packets as u32)
                    },
                },
            )
        }
    }

    /// Checks the options and makes the configuration of a run of them.
    pub fn validate(&self) -> (r: Result<ProbeConfig, ConfigError>)
        ensures
            r == self.checked(),
            r matches Ok(config) ==> config.is_valid(),
    {
        if self.ttl == 0 {
            Err(ConfigError::InvalidTtl)
        } else if self.packet_size < 0 || self.packet_size > MAX_PAYLOAD as i32 {
            Err(ConfigError::InvalidPacketSize)
        } else if self.max_rtt > MAX_INTERVAL_MS as u64 {
            Err(ConfigError::InvalidInterval)
        } else {
            Ok(
                ProbeConfig {
                    ttl: self.ttl,
                    payload_size: self.packet_size as u16,
                    interval_ms: self.max_rtt as u32,
                    max_packets: if self.max_packets < 0 {
                        None
                    } else {
                        Some(self.max_packets as u32)
                    },
                },
            )
        }
    }
}

} // verus!
