//! Reading a captured frame's addresses and counting the frame.

use vstd::prelude::*;

use crate::resolver::{nic_for, StatusResponse};
use crate::stats::{stats_recorded, Direction, DirectionView, TrafficStats};
use crate::subnet::LocalSubnets;

verus! {

/// Length of an Ethernet header; the frame type sits in its last two bytes.
pub const ETHERNET_HEADER_LEN: usize = 14;

/// Shortest IPv4 header.
pub const IPV4_MIN_HEADER_LEN: usize = 20;

/// The big-endian 32-bit value of `b[at..at + 4]`.
pub open spec fn be32(b: Seq<u8>, at: int) -> nat {
    b[at] as nat * 16777216 + b[at + 1] as nat * 65536 + b[at + 2] as nat * 256 + b[at + 3] as nat
}

/// The source and destination addresses of an Ethernet frame that carries
/// IPv4 (frame type `0x0800`) with at least a minimal IPv4 header; `None`
/// for every other frame.
pub open spec fn frame_addrs(b: Seq<u8>) -> Option<(u32, u32)> {
    if b.len() >= 34 && b[12] == 0x08u8 && b[13] == 0x00u8 {
        Some((be32(b, 26) as u32, be32(b, 30) as u32))
    } else {
        None
    }
}

fn read_be32(b: &[u8], at: usize) -> (r: u32)
    requires
        at + 4 <= b@.len(),
    ensures
        r as nat == be32(b@, at as int),
{
    b[at] as u32 * 16777216 + b[at + 1] as u32 * 65536 + b[at + 2] as u32 * 256 + b[at + 3] as u32
}

/// Reads the IPv4 source and destination of a raw Ethernet frame.
pub fn decode_frame(frame: &[u8]) -> (r: Option<(u32, u32)>)
    ensures
        r == frame_addrs(frame@),
{
    if frame.len() < ETHERNET_HEADER_LEN + IPV4_MIN_HEADER_LEN {
        return None;
    }
    if frame[12] != 0x08u8 || frame[13] != 0x00u8 {
        return None;
    }
    let ip = ETHERNET_HEADER_LEN;
    Some((read_be32(frame, ip + 12), read_be32(frame, ip + 16)))
}

/// `v` after a frame of `len` bytes from `src` to `dst` is counted: as
/// transmit for a local source, as receive for a local destination, each
/// under the egress that `status` gives that endpoint.
pub open spec fn attributed(
    v: (DirectionView, DirectionView),
    subnets: LocalSubnets,
    status: StatusResponse,
    src: u32,
    dst: u32,
    len: u64,
) -> (DirectionView, DirectionView) {
    let v1 = if subnets.covers(src) {
        stats_recorded(v, Direction::Transmit, nic_for(status, src), src, len)
    } else {
        v
    };
    if subnets.covers(dst) {
        stats_recorded(v1, Direction::Receive, nic_for(status, dst), dst, len)
    } else {
        v1
    }
}

/// `v` after the raw frame `frame` is counted; frames that carry no IPv4
/// header count nothing.
pub open spec fn accounted(
    v: (DirectionView, DirectionView),
    subnets: LocalSubnets,
    status: StatusResponse,
    frame: Seq<u8>,
) -> (DirectionView, DirectionView) {
    match frame_addrs(frame) {
        Some(a) => attributed(v, subnets, status, a.0, a.1, frame.len() as u64),
        None => v,
    }
}

/// Counts one frame of `len` bytes from `src` to `dst`.
pub fn attribute(
    stats: &mut TrafficStats,
    subnets: &LocalSubnets,
    status: &StatusResponse,
    src: u32,
    dst: u32,
    len: u64,
)
    requires
        old(stats).wf(),
        subnets.wf(),
    ensures
        final(stats).wf(),
        final(stats)@ == attributed(old(stats)@, *subnets, *status, src, dst, len),
{
    if subnets.contains_addr(src) {
        let nic = status.resolve(src);
        stats.record(Direction::Transmit, &nic, src, len);
    }
    if subnets.contains_addr(dst) {
        let nic = status.resolve(dst);
        stats.record(Direction::Receive, &nic, dst, len);
    }
}

/// Counts one raw captured frame by its full length.
pub fn account_frame(
    stats: &mut TrafficStats,
    subnets: &LocalSubnets,
    status: &StatusResponse,
    frame: &[u8],
)
    requires
        old(stats).wf(),
        subnets.wf(),
    ensures
        final(stats).wf(),
        final(stats)@ == accounted(old(stats)@, *subnets, *status, frame@),
{
    match decode_frame(frame) {
        Some(a) => attribute(stats, subnets, status, a.0, a.1, frame.len() as u64),
        None => {},
    }
}

/// A frame between two local endpoints is counted both ways in the same
/// window: as transmit for its source and as receive for its destination.
pub proof fn lemma_dual_attribution(
    v: (DirectionView, DirectionView),
    subnets: LocalSubnets,
    status: StatusResponse,
    frame: Seq<u8>,
)
    requires
        frame_addrs(frame) is Some,
        subnets.covers(frame_addrs(frame)->Some_0.0),
        subnets.covers(frame_addrs(frame)->Some_0.1),
    ensures
        ({
            let (src, dst) = frame_addrs(frame)->Some_0;
            let w = accounted(v, subnets, status, frame);
            &&& w.0.0.contains_key((nic_for(status, src), src))
            &&& w.1.0.contains_key((nic_for(status, dst), dst))
        }),
{
}

/// A frame between two non-local addresses changes no counter.
pub proof fn lemma_remote_ignored(
    v: (DirectionView, DirectionView),
    subnets: LocalSubnets,
    status: StatusResponse,
    frame: Seq<u8>,
)
    requires
        frame_addrs(frame) is Some,
        !subnets.covers(frame_addrs(frame)->Some_0.0),
        !subnets.covers(frame_addrs(frame)->Some_0.1),
    ensures
        accounted(v, subnets, status, frame) == v,
{
}

} // verus!
