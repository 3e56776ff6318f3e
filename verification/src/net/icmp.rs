//! ICMP, far enough to answer a ping.
//!
//! Only the echo request is acted on. Destination unreachable and the rest are
//! parsed no further than deciding to ignore them, because nothing here keeps
//! the state that would let it act on one.

use crate::bytes::{self, extend, put_be16};
use crate::net::ip::{self, Ipv4Addr};
use crate::net::link::{Link, LinkView};
use crate::net::tcp;
use vstd::prelude::*;
use vstd::slice::slice_subrange;

verus! {

pub const TYPE_ECHO_REPLY: u8 = 0;

pub const TYPE_DESTINATION_UNREACHABLE: u8 = 3;

pub const TYPE_ECHO_REQUEST: u8 = 8;

pub const HEADER_LEN: usize = 8;

/// A message with nothing in its checksum yet.
pub open spec fn bare_message(kind: u8, code: u8, rest: Seq<u8>, body: Seq<u8>) -> Seq<u8> {
    seq![kind, code, 0u8, 0u8] + rest + body
}

/// A message as it goes on the wire. The checksum covers the whole thing.
pub open spec fn message_bytes(kind: u8, code: u8, rest: Seq<u8>, body: Seq<u8>) -> Seq<u8> {
    let bare = bare_message(kind, code, rest, body);
    bytes::put16(bare, 2, ip::checksum_of(bare))
}

/// Build one ICMP message: type, code, four bytes of per-type header, then the
/// body. The checksum covers the whole thing.
pub fn build(kind: u8, code: u8, rest: [u8; 4], body: &[u8]) -> (message: Vec<u8>)
    requires
        HEADER_LEN + body@.len() <= ip::MAX_DATAGRAM,
    ensures
        message@ == message_bytes(kind, code, rest@, body@),
{
    let mut message: Vec<u8> = Vec::new();
    message.push(kind);
    message.push(code);
    message.push(0);
    message.push(0);
    extend(&mut message, rest.as_slice());
    extend(&mut message, body);
    assert(message@ =~= bare_message(kind, code, rest@, body@));
    proof {
        ip::word_sum_bound(message@);
    }
    let checksum: u16 = ip::checksum(message.as_slice());
    put_be16(&mut message, 2, checksum);
    message
}

/// A built message passes the receiver's checksum test.
pub proof fn message_sums_to_zero(kind: u8, code: u8, rest: Seq<u8>, body: Seq<u8>)
    requires
        rest.len() == 4,
    ensures
        ip::checksum_of(message_bytes(kind, code, rest, body)) == 0,
        message_bytes(kind, code, rest, body).len() == HEADER_LEN + body.len(),
        message_bytes(kind, code, rest, body)[0] == kind,
        message_bytes(kind, code, rest, body)[1] == code,
        message_bytes(kind, code, rest, body).subrange(4, 8) == rest,
        message_bytes(kind, code, rest, body).skip(8) == body,
{
    let bare = bare_message(kind, code, rest, body);
    ip::checksum_fills_in(bare, 2, 0);
    let wire = message_bytes(kind, code, rest, body);
    assert(wire.subrange(4, 8) =~= rest);
    assert(wire.skip(8) =~= body);
}

/// A ping worth answering: whole, undamaged, and addressed to this machine
/// itself. A reply to one sent to a broadcast address makes this machine a way
/// of pointing traffic at whoever the request claims to be from, which is why
/// Linux ignores those by default.
pub open spec fn is_ping_for(l: LinkView, destination: Ipv4Addr, message: Seq<u8>) -> bool {
    &&& message.len() >= HEADER_LEN
    &&& ip::checksum_of(message) == 0
    &&& message[0] == TYPE_ECHO_REQUEST
    &&& message[1] == 0
    &&& destination.loopback() || l.is_ours(destination)
}

/// What an arriving message does. The identifier and sequence number go back
/// unchanged; so does the body, which is how the sender measures the round
/// trip.
pub open spec fn answered(
    l: LinkView,
    source: Ipv4Addr,
    destination: Ipv4Addr,
    message: Seq<u8>,
    now: u64,
) -> LinkView {
    if is_ping_for(l, destination, message) {
        ip::payload_sent(
            l,
            destination,
            source,
            ip::PROTO_ICMP,
            message_bytes(TYPE_ECHO_REPLY, 0, message.subrange(4, 8), message.skip(8)),
            now,
        ).0
    } else {
        l
    }
}

pub fn receive(
    link: &mut Link,
    source: Ipv4Addr,
    destination: Ipv4Addr,
    message: &[u8],
    now: u64,
)
    requires
        old(link)@.valid(),
        message@.len() <= ip::MAX_DATAGRAM,
        now <= tcp::LAST_TICK,
    ensures
        final(link)@.valid(),
        final(link)@ == answered(old(link)@, source, destination, message@, now),
{
    if message.len() < HEADER_LEN {
        return;
    }
    proof {
        ip::word_sum_bound(message@);
    }
    if ip::checksum(message) != 0 {
        return;
    }
    if message[0] != TYPE_ECHO_REQUEST || message[1] != 0 {
        return;
    }
    let configured = match link.config {
        Some(config) => config.address() == destination,
        None => false,
    };
    if !destination.is_loopback() && !configured {
        return;
    }
    let rest: [u8; 4] = [message[4], message[5], message[6], message[7]];
    assert(rest@ =~= message@.subrange(4, 8));
    let body = slice_subrange(message, HEADER_LEN, message.len());
    assert(body@ =~= message@.skip(8));
    let reply = build(TYPE_ECHO_REPLY, 0, rest, body);
    let _ = ip::send_from(link, destination, source, ip::PROTO_ICMP, reply.as_slice(), now);
}

} // verus!
