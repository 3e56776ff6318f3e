//! Ethernet II frames.
//!
//! Everything above this sees a payload and a protocol number; everything
//! below sees a byte string with a fourteen byte header on the front.

use crate::bytes::{self, extend, push_be16, read_be16};
use vstd::prelude::*;
use vstd::slice::slice_subrange;

verus! {

pub const HEADER_LEN: usize = 14;

/// The shortest frame a card will put on the wire. Anything shorter is padded
/// with zeroes, which every protocol above ignores because each carries its
/// own length.
pub const MIN_FRAME_LEN: usize = 60;

/// The largest payload an untagged frame carries.
pub const MTU: usize = 1500;

pub const ETHERTYPE_IPV4: u16 = 0x0800;

pub const ETHERTYPE_ARP: u16 = 0x0806;

pub const ETHERTYPE_IPV6: u16 = 0x86DD;

pub const BROADCAST: [u8; 6] = [0xFF, 0xFF, 0xFF, 0xFF, 0xFF, 0xFF];

pub struct Frame<'a> {
    pub destination: [u8; 6],
    pub source: [u8; 6],
    pub ethertype: u16,
    pub payload: &'a [u8],
}

/// The hardware address at `at` of a byte string.
pub open spec fn mac_of(s: Seq<u8>, at: int) -> [u8; 6] {
    [s[at], s[at + 1], s[at + 2], s[at + 3], s[at + 4], s[at + 5]]
}

/// Six bytes out of a byte string, as a hardware address.
pub fn mac_at(bytes: &[u8], at: usize) -> (mac: [u8; 6])
    requires
        at + 6 <= bytes@.len(),
    ensures
        mac@ == bytes@.subrange(at as int, at + 6),
        mac == mac_of(bytes@, at as int),
{
    let mac: [u8; 6] = [
        bytes[at],
        bytes[at + 1],
        bytes[at + 2],
        bytes[at + 3],
        bytes[at + 4],
        bytes[at + 5],
    ];
    assert(mac@ =~= bytes@.subrange(at as int, at + 6));
    assert(mac =~= mac_of(bytes@, at as int));
    mac
}

/// Whether two hardware addresses are the same.
pub fn same_mac(a: &[u8; 6], b: &[u8; 6]) -> (same: bool)
    ensures
        same == (a@ == b@),
        same == (*a == *b),
{
    let same = a[0] == b[0] && a[1] == b[1] && a[2] == b[2] && a[3] == b[3] && a[4] == b[4] && a[5]
        == b[5];
    if same {
        assert(a@ =~= b@);
        assert(*a =~= *b);
    }
    same
}

impl<'a> Frame<'a> {
    /// Split a frame into its header and its payload. Only a byte string too
    /// short to hold the header is refused.
    pub fn parse(bytes: &'a [u8]) -> (frame: Option<Frame<'a>>)
        ensures
            frame is Some <==> bytes@.len() >= HEADER_LEN,
            frame matches Some(f) ==> {
                &&& f.destination@ == bytes@.subrange(0, 6)
                &&& f.destination == mac_of(bytes@, 0)
                &&& f.source@ == bytes@.subrange(6, 12)
                &&& f.source == mac_of(bytes@, 6)
                &&& f.ethertype == bytes::be16(bytes@, 12)
                &&& f.payload@ == bytes@.skip(HEADER_LEN as int)
            },
    {
        if bytes.len() < HEADER_LEN {
            return None;
        }
        let payload = slice_subrange(bytes, HEADER_LEN, bytes.len());
        assert(payload@ =~= bytes@.skip(HEADER_LEN as int));
        Some(
            Frame {
                destination: mac_at(bytes, 0),
                source: mac_at(bytes, 6),
                ethertype: read_be16(bytes, 12),
                payload,
            },
        )
    }
}

/// `count` zero bytes.
pub open spec fn zeroes(count: int) -> Seq<u8> {
    Seq::new(if count < 0 { 0 } else { count as nat }, |i: int| 0u8)
}

/// What a frame looks like on the wire: the header, the payload, and zeroes up
/// to the shortest length a card sends.
pub open spec fn frame_bytes(
    destination: Seq<u8>,
    source: Seq<u8>,
    ethertype: u16,
    payload: Seq<u8>,
) -> Seq<u8> {
    destination + source + bytes::be16_bytes(ethertype as int) + payload + zeroes(
        MIN_FRAME_LEN - HEADER_LEN - payload.len(),
    )
}

/// One frame, padded to the minimum length.
pub fn build(destination: [u8; 6], source: [u8; 6], ethertype: u16, payload: &[u8]) -> (frame: Vec<
    u8,
>)
    ensures
        frame@ == frame_bytes(destination@, source@, ethertype, payload@),
{
    let mut frame: Vec<u8> = Vec::new();
    extend(&mut frame, destination.as_slice());
    extend(&mut frame, source.as_slice());
    push_be16(&mut frame, ethertype);
    extend(&mut frame, payload);
    let ghost unpadded = frame@;
    assert(unpadded =~= destination@ + source@ + bytes::be16_bytes(ethertype as int) + payload@);
    while frame.len() < MIN_FRAME_LEN
        invariant
            unpadded.len() <= frame@.len(),
            frame@.len() <= MIN_FRAME_LEN || frame@.len() == unpadded.len(),
            frame@ == unpadded + zeroes(frame@.len() - unpadded.len()),
        decreases MIN_FRAME_LEN - frame@.len(),
    {
        frame.push(0);
        assert(frame@ =~= unpadded + zeroes(frame@.len() - unpadded.len()));
    }
    assert(frame@ =~= frame_bytes(destination@, source@, ethertype, payload@));
    frame
}

/// True when `address` has the group bit set: broadcast and multicast both.
pub fn is_group(address: &[u8; 6]) -> (group: bool)
    ensures
        group == is_group_address(address@),
{
    address[0] % 2 != 0
}

/// The group bit is the lowest bit of the first byte on the wire.
pub open spec fn is_group_address(address: Seq<u8>) -> bool {
    address[0] % 2 == 1
}

/// Taking a built frame apart gives back what it was built from, with the
/// padding, if there is any, behind the payload.
pub proof fn frame_round_trip(
    destination: Seq<u8>,
    source: Seq<u8>,
    ethertype: u16,
    payload: Seq<u8>,
)
    requires
        destination.len() == 6,
        source.len() == 6,
    ensures
        ({
            let wire = frame_bytes(destination, source, ethertype, payload);
            &&& wire.len() >= MIN_FRAME_LEN
            &&& wire.len() == HEADER_LEN + payload.len() || wire.len() == MIN_FRAME_LEN
            &&& wire.subrange(0, 6) == destination
            &&& wire.subrange(6, 12) == source
            &&& bytes::be16(wire, 12) == ethertype
            &&& wire.skip(HEADER_LEN as int).take(payload.len() as int) == payload
        }),
{
    let wire = frame_bytes(destination, source, ethertype, payload);
    assert(wire.subrange(0, 6) =~= destination);
    assert(wire.subrange(6, 12) =~= source);
    assert(wire[12] == bytes::be16_bytes(ethertype as int)[0]);
    assert(wire[13] == bytes::be16_bytes(ethertype as int)[1]);
    assert(wire.skip(HEADER_LEN as int).take(payload.len() as int) =~= payload);
}

} // verus!
