//! Load balancing: addresses, endpoints, the endpoint table and its manager.
use vstd::prelude::*;

pub mod choice;
pub mod endpoint;
pub mod laws;
pub mod lemmas;
pub mod load;
pub mod manager;
pub mod model;
pub mod poll;
pub mod table;

verus! {

/// The key under which a peer is filed in the endpoint table: the fields of a
/// [`PeerAddr`] as a tuple of integers.
pub type PeerKey = (u128, u16, bool, u32, u32);

/// The socket address of a peer, held as plain integers.
///
/// An IPv4 address occupies the low 32 bits of `ip`; `flowinfo` and
/// `scope_id` are zero for it.
#[derive(Clone, Copy, Debug, PartialEq, Eq, Structural)]
pub struct PeerAddr {
    pub ip: u128,
    pub port: u16,
    pub v6: bool,
    pub flowinfo: u32,
    pub scope_id: u32,
}

impl PeerAddr {
    /// The key of this address. Distinct addresses have distinct keys.
    pub open spec fn spec_key(&self) -> PeerKey {
        (self.ip, self.port, self.v6, self.flowinfo, self.scope_id)
    }

    /// The key of this address.
    #[verifier::when_used_as_spec(spec_key)]
    pub fn key(&self) -> (k: PeerKey)
        ensures
            k == self.spec_key(),
    {
        (self.ip, self.port, self.v6, self.flowinfo, self.scope_id)
    }

    /// The address filed under `k`.
    pub open spec fn spec_of_key(k: PeerKey) -> PeerAddr {
        PeerAddr { ip: k.0, port: k.1, v6: k.2, flowinfo: k.3, scope_id: k.4 }
    }

    /// The address filed under `k`.
    #[verifier::when_used_as_spec(spec_of_key)]
    pub fn of_key(k: PeerKey) -> (a: PeerAddr)
        ensures
            a == Self::spec_of_key(k),
            a.key() == k,
    {
        PeerAddr { ip: k.0, port: k.1, v6: k.2, flowinfo: k.3, scope_id: k.4 }
    }

    /// An IPv4 address and port.
    pub fn v4(ip: u32, port: u16) -> (a: PeerAddr)
        ensures
            a == (PeerAddr { ip: ip as u128, port, v6: false, flowinfo: 0, scope_id: 0 }),
    {
        PeerAddr { ip: ip as u128, port, v6: false, flowinfo: 0, scope_id: 0 }
    }

    /// An IPv6 address with its port, flow label and scope.
    pub fn v6(ip: u128, port: u16, flowinfo: u32, scope_id: u32) -> (a: PeerAddr)
        ensures
            a == (PeerAddr { ip, port, v6: true, flowinfo, scope_id }),
    {
        PeerAddr { ip, port, v6: true, flowinfo, scope_id }
    }
}

/// One destination in a service-discovery update: a peer and its weight.
///
/// The weight is the bit pattern of an IEEE 754 single-precision number
/// (`f32::to_bits`); the balancer stores it and never computes with it.
#[derive(Clone, Copy, Debug, PartialEq, Eq, Structural)]
pub struct DstAddr {
    pub addr: PeerAddr,
    pub weight: u32,
}

impl DstAddr {
    /// The destination `addr` with the weight of bit pattern `weight`.
    pub fn new(addr: PeerAddr, weight: u32) -> (d: DstAddr)
        ensures
            d == (DstAddr { addr, weight }),
    {
        DstAddr { addr, weight }
    }
}

/// The errors that end a manager's run.
#[derive(Clone, Copy, Debug, PartialEq, Eq, Structural)]
pub enum Error {
    /// The service-discovery stream ended; without it the endpoint set
    /// would never change again.
    ResolverLost,
}

/// A failed service-discovery lookup. It is transient: the table is left as
/// it was and the next update is awaited.
#[derive(Clone, Copy, Debug, PartialEq, Eq, Structural)]
pub struct ResolveError {}

/// What one poll of the service-discovery stream returned.
#[derive(Debug)]
pub enum Resolution {
    /// Nothing new.
    NotReady,
    /// The stream itself reported an error. It is passed over.
    Failed,
    /// The result of a lookup: the full set of peers, or a failure.
    Update(Result<Vec<DstAddr>, ResolveError>),
    /// The stream has ended. That is fatal.
    Ended,
}

} // verus!
