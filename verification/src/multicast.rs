//! Multicast group selection for CoAP discovery: which group a socket joins
//! for a segment, and when a join request is a cross-family no-op.

use vstd::prelude::*;

verus! {

/// An IP address as plain values: four octets, or eight 16-bit groups.
#[derive(Clone, Copy, PartialEq, Eq, Structural, Debug)]
pub enum IpModel {
    V4(u8, u8, u8, u8),
    V6(u16, u16, u16, u16, u16, u16, u16, u16),
}

/// Multicast ranges: 224.0.0.0/4 on IPv4, ff00::/8 on IPv6.
pub open spec fn is_multicast(a: IpModel) -> bool {
    match a {
        IpModel::V4(a0, _a1, _a2, _a3) => 224 <= a0 <= 239,
        IpModel::V6(g0, _g1, _g2, _g3, _g4, _g5, _g6, _g7) => g0 / 256 == 0xff,
    }
}

pub fn ip_is_multicast(a: &IpModel) -> (r: bool)
    ensures
        r == is_multicast(*a),
{
    match a {
        IpModel::V4(a0, _a1, _a2, _a3) => 224 <= *a0 && *a0 <= 239,
        IpModel::V6(g0, _g1, _g2, _g3, _g4, _g5, _g6, _g7) => *g0 / 256 == 0xff,
    }
}

/// The All-CoAP group for the socket's address family: 224.0.1.187 on
/// IPv4; on IPv6, ff0s::fd where s is the segment nibble.
pub fn all_coap_group(v6: bool, segment: u8) -> (g: IpModel)
    requires
        segment <= 0xf,
    ensures
        g == (if v6 {
            IpModel::V6((0xff00 + segment) as u16, 0, 0, 0, 0, 0, 0, 0xfd)
        } else {
            IpModel::V4(224, 0, 1, 187)
        }),
        is_multicast(g),
{
    if v6 {
        IpModel::V6(0xff00 + (segment as u16), 0, 0, 0, 0, 0, 0, 0xfd)
    } else {
        IpModel::V4(224, 0, 1, 187)
    }
}

/// How a join request is carried out.
#[derive(Clone, Copy, PartialEq, Eq, Structural, Debug)]
pub enum JoinDecision {
    /// Join the IPv4 group on the socket's bound interface address.
    JoinV4,
    /// Join the IPv6 group on interface index 0, the kernel default.
    JoinV6AtIfaceZero,
    /// Cross-family request: nothing to do.
    Skip,
}

/// Which join a multicast request leads to on a socket of the given
/// family; cross-family combinations are no-ops.
pub fn join_decision(local_v6: bool, addr: &IpModel) -> (d: JoinDecision)
    requires
        is_multicast(*addr),
    ensures
        d == (match *addr {
            IpModel::V4(..) => if local_v6 {
                JoinDecision::Skip
            } else {
                JoinDecision::JoinV4
            },
            IpModel::V6(..) => if local_v6 {
                JoinDecision::JoinV6AtIfaceZero
            } else {
                JoinDecision::Skip
            },
        }),
{
    match addr {
        IpModel::V4(..) => if local_v6 {
            JoinDecision::Skip
        } else {
            JoinDecision::JoinV4
        },
        IpModel::V6(..) => if local_v6 {
            JoinDecision::JoinV6AtIfaceZero
        } else {
            JoinDecision::Skip
        },
    }
}

} // verus!
