//! From captured Ethernet frames to the sensor's packets.

use crate::bytes::be_u16;
use crate::packet::pair_at;
use vstd::prelude::*;
use vstd::slice::{slice_subrange, slice_to_vec};

verus! {

/// The type of a frame that carries IPv4.
pub const ETHERTYPE_IPV4: u16 = 0x0800;

/// The type of a frame that carries a VLAN tag.
pub const ETHERTYPE_VLAN: u16 = 0x8100;

/// The protocol number of UDP.
pub const PROTOCOL_UDP: u8 = 17;

/// Where the IPv4 packet of a frame begins, if it carries one: after the two
/// addresses and the type, and after a VLAN tag where there is one.
pub open spec fn ip_start(frame: Seq<u8>) -> Option<int> {
    if frame.len() < 14 {
        None
    } else if pair_at(frame, 12) == ETHERTYPE_VLAN {
        if frame.len() >= 18 && pair_at(frame, 16) == ETHERTYPE_IPV4 {
            Some(18)
        } else {
            None
        }
    } else if pair_at(frame, 12) == ETHERTYPE_IPV4 {
        Some(14)
    } else {
        None
    }
}

/// Length of the header of an IPv4 packet.
pub open spec fn ip_header_len(ip: Seq<u8>) -> int {
    ip[0] % 16 * 4
}

/// Whether an IPv4 packet carries UDP and is long enough for both headers.
pub open spec fn carries_udp(ip: Seq<u8>) -> bool {
    &&& ip.len() >= 20
    &&& ip_header_len(ip) >= 20
    &&& ip.len() >= ip_header_len(ip) + 8
    &&& ip[9] == PROTOCOL_UDP
}

/// Where the UDP header of a frame begins, if it has one.
pub open spec fn udp_start(frame: Seq<u8>) -> Option<int> {
    match ip_start(frame) {
        None => None,
        Some(off) => {
            let ip = frame.skip(off);
            if carries_udp(ip) {
                Some(off + ip_header_len(ip))
            } else {
                None
            }
        },
    }
}

/// The UDP destination port and payload of an Ethernet frame. `None` if the
/// frame does not carry UDP over IPv4.
pub fn udp_payload_from_eth_frame(frame: &[u8]) -> (r: Option<(u16, &[u8])>)
    ensures
        match udp_start(frame@) {
            None => r is None,
            Some(udp) => {
                &&& r matches Some((dst_port, payload))
                &&& dst_port == pair_at(frame@, udp + 2)
                &&& payload@ == frame@.skip(udp + 8)
            },
        },
{
    let len: usize = frame.len();
    if len < 14 {
        return None;
    }
    let mut off: usize = 12;
    let mut ethertype: u16 = be_u16(slice_subrange(frame, off, off + 2));
    off = off + 2;
    if ethertype == ETHERTYPE_VLAN {
        if len < off + 4 {
            return None;
        }
        ethertype = be_u16(slice_subrange(frame, off + 2, off + 4));
        off = off + 4;
    }
    if ethertype != ETHERTYPE_IPV4 {
        return None;
    }
    let ip = slice_subrange(frame, off, len);
    assert(ip@ =~= frame@.skip(off as int));
    if ip.len() < 20 {
        return None;
    }
    let ihl: usize = (ip[0] % 16) as usize * 4;
    if ihl < 20 || ip.len() < ihl + 8 || ip[9] != PROTOCOL_UDP {
        return None;
    }
    let udp: usize = off + ihl;
    let dst_port: u16 = be_u16(slice_subrange(frame, udp + 2, udp + 4));
    let payload = slice_subrange(frame, udp + 8, len);
    assert(payload@ =~= frame@.skip(udp + 8));
    Some((dst_port, payload))
}

/// A datagram of the sensor.
pub enum RawPacket {
    /// Measurements.
    Msop(Vec<u8>),
    /// Status.
    Difop(Vec<u8>),
}

/// A datagram of the sensor: whether it holds measurements, and its bytes.
pub struct Datagram {
    pub measures: bool,
    pub bytes: Seq<u8>,
}

/// What a packet carries.
pub open spec fn datagram_of(p: RawPacket) -> Datagram {
    match p {
        RawPacket::Msop(d) => Datagram { measures: true, bytes: d@ },
        RawPacket::Difop(d) => Datagram { measures: false, bytes: d@ },
    }
}

/// The sensor's datagram in a captured frame, told apart by destination port.
/// Other traffic has none.
pub open spec fn routed(frame: Seq<u8>, msop_port: u16, difop_port: u16) -> Option<Datagram> {
    match udp_start(frame) {
        None => None,
        Some(udp) => {
            let port = pair_at(frame, udp + 2);
            if port == msop_port {
                Some(Datagram { measures: true, bytes: frame.skip(udp + 8) })
            } else if port == difop_port {
                Some(Datagram { measures: false, bytes: frame.skip(udp + 8) })
            } else {
                None
            }
        },
    }
}

/// Whether `p` is a packet exactly where there is a datagram, and carries it.
pub open spec fn carries(p: Option<RawPacket>, d: Option<Datagram>) -> bool {
    match p {
        None => d is None,
        Some(q) => d == Some(datagram_of(q)),
    }
}

/// The sensor's datagram in a captured frame, if it has one.
pub fn route_frame(frame: &[u8], msop_port: u16, difop_port: u16) -> (r: Option<RawPacket>)
    ensures
        carries(r, routed(frame@, msop_port, difop_port)),
{
    match udp_payload_from_eth_frame(frame) {
        None => None,
        Some((dst_port, payload)) => {
            if dst_port == msop_port {
                Some(RawPacket::Msop(slice_to_vec(payload)))
            } else if dst_port == difop_port {
                Some(RawPacket::Difop(slice_to_vec(payload)))
            } else {
                None
            }
        },
    }
}

/// Where the sensor's datagrams are. A frame of type 0x0800 carries its packet
/// behind fourteen bytes, and one of type 0x8100, with 0x0800 behind the tag,
/// behind eighteen. The packet's header has as many words of four bytes as the
/// low half of its first byte says, at least five, and names the protocol 17 in
/// its tenth byte. Behind it stand eight bytes with the destination port in the
/// second pair, and then the datagram, to the end of the frame. It is of
/// measurements or of status by that port, and any other frame has none.
pub proof fn datagrams_stand_behind_the_headers(
    frame: Seq<u8>,
    off: int,
    msop_port: u16,
    difop_port: u16,
)
    requires
        off == 14 || off == 18,
    ensures
        ({
            let words = frame[off] as int % 16;
            let plain = off == 14 && frame[12] == 0x08 && frame[13] == 0x00;
            let tagged = off == 18 && frame[12] == 0x81 && frame[13] == 0x00 && frame[16] == 0x08
                && frame[17] == 0x00;
            let udp = off + 4 * words;
            let port = 256 * frame[udp + 2] + frame[udp + 3];
            let r = routed(frame, msop_port, difop_port);
            (plain || tagged) && frame.len() >= off + 20 ==> {
                &&& words >= 5 && frame[off + 9] == 17 && frame.len() >= udp + 8 ==> {
                    &&& port == msop_port ==> r == Some(
                        Datagram {
                            measures: true,
                            bytes: frame.subrange(udp + 8, frame.len() as int),
                        },
                    )
                    &&& port != msop_port && port == difop_port ==> r == Some(
                        Datagram {
                            measures: false,
                            bytes: frame.subrange(udp + 8, frame.len() as int),
                        },
                    )
                    &&& port != msop_port && port != difop_port ==> r is None
                }
                &&& !(words >= 5 && frame[off + 9] == 17 && frame.len() >= udp + 8) ==> r is None
            }
        }),
        frame.len() < 34 ==> routed(frame, msop_port, difop_port) is None,
        !(frame[12] == 0x08 && frame[13] == 0x00) && !(frame[12] == 0x81 && frame[13] == 0x00
            && frame[16] == 0x08 && frame[17] == 0x00) ==> routed(frame, msop_port, difop_port) is None,
        frame[12] == 0x81 && frame[13] == 0x00 && frame.len() < 38 ==> routed(
            frame,
            msop_port,
            difop_port,
        ) is None,
{
    let ip = frame.skip(off);
    if frame.len() >= off + 20 {
        assert(ip[0] == frame[off] && ip[9] == frame[off + 9]);
    }
}

/// A packet carries its bytes, as measurements or as status.
pub proof fn packets_carry_their_bytes(p: Option<RawPacket>, d: Option<Datagram>)
    requires
        carries(p, d),
    ensures
        p is None <==> d is None,
        p matches Some(RawPacket::Msop(v)) ==> d matches Some(x) && x.measures && x.bytes == v@,
        p matches Some(RawPacket::Difop(v)) ==> d matches Some(x) && !x.measures && x.bytes == v@,
{
}

} // verus!
