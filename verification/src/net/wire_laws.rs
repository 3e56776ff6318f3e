//! Where segments and messages have their fields, and what small numbers and
//! texts come to.

use crate::net::arp::{self, EntryView};
use crate::net::config;
use crate::net::dhcp::{self, State};
use crate::net::e1000;
use crate::net::icmp;
use crate::net::ip::{self, Ipv4Addr};
use crate::net::link::LinkView;
use crate::net::tcp;
use crate::text;
use vstd::prelude::*;

verus! {

/// What is read out of a segment, each field from its place: the ports, the
/// two numbers, where the payload starts, the flags and the window. A segment
/// can be read where all of its header is there.
pub proof fn what_is_read_out_of_a_segment(s: Seq<u8>)
    requires
        s.len() >= 20,
    ensures
        ({
            let g = tcp::segment_of(s);
            let head = s[12] as int / 16 * 4;
            &&& tcp::is_segment(s) == (20 <= head <= s.len())
            &&& g.source_port == s[0] * 256 + s[1]
            &&& g.destination_port == s[2] * 256 + s[3]
            &&& g.sequence == s[4] * 0x100_0000 + s[5] * 0x1_0000 + s[6] * 0x100 + s[7]
            &&& g.acknowledgement == s[8] * 0x100_0000 + s[9] * 0x1_0000 + s[10] * 0x100 + s[11]
            &&& g.flags == s[13]
            &&& g.window == s[14] * 256 + s[15]
            &&& tcp::is_segment(s) ==> g.payload == s.subrange(head, s.len() as int)
            &&& tcp::is_segment(s) ==> g.mss == tcp::mss_option(s.subrange(20, head), None)
        }),
{
    let head = s[12] as int / 16 * 4;
    if tcp::is_segment(s) {
        assert(s.skip(head) =~= s.subrange(head, s.len() as int));
    }
}

/// The segment size an option list names: the one of the last option of that
/// kind. Padding and other options are passed over; the list ends at its end
/// mark, or where an option says it is longer than what is left.
pub proof fn which_segment_size_is_named(
    rest: Seq<u8>,
    found: Option<u16>,
    high: u8,
    low: u8,
    kind: u8,
    value: Seq<u8>,
)
    requires
        kind > 2,
        value.len() <= 253,
    ensures
        tcp::mss_option(Seq::empty(), found) == found,
        tcp::mss_option(seq![0u8] + rest, found) == found,
        tcp::mss_option(seq![1u8] + rest, found) == tcp::mss_option(rest, found),
        tcp::mss_option(seq![2u8, 4u8, high, low] + rest, found) == tcp::mss_option(
            rest,
            Some((high * 256 + low) as u16),
        ),
        tcp::mss_option(seq![kind, (value.len() + 2) as u8] + value + rest, found)
            == tcp::mss_option(rest, found),
        rest.len() == 1 && rest[0] >= 2 ==> tcp::mss_option(rest, found) == found,
        rest.len() >= 2 && rest[0] >= 2 && (rest[1] < 2 || rest[1] > rest.len())
            ==> tcp::mss_option(rest, found) == found,
{
    assert((seq![1u8] + rest).skip(1) =~= rest);
    assert((seq![2u8, 4u8, high, low] + rest).skip(4) =~= rest);
    let other = seq![kind, (value.len() + 2) as u8] + value + rest;
    assert(other.skip(value.len() as int + 2) =~= rest);
}

/// A ping is answered where it is whole, is one, and is for this machine;
/// anything else draws nothing.
pub proof fn which_messages_are_answered(
    l: LinkView,
    source: Ipv4Addr,
    destination: Ipv4Addr,
    message: Seq<u8>,
    now: u64,
)
    ensures
        ({
            let ours = 0x7F00_0000 <= destination.0 < 0x8000_0000 || l.config is Some
                && l.config->0.spec_address() == destination;
            let ping = message.len() >= 8 && ip::checksum_of(message) == 0 && message[0] == 8
                && message[1] == 0;
            &&& !(ours && ping) ==> icmp::answered(l, source, destination, message, now) == l
            &&& ours && ping ==> icmp::answered(l, source, destination, message, now)
                == ip::payload_sent(
                l,
                destination,
                source,
                1,
                icmp::message_bytes(0, 0, message.subrange(4, 8), message.skip(8)),
                now,
            ).0
        }),
{
}

/// Where a message of this kind has its fields: the type, the code, a checksum
/// that holds, what its header says besides, and its body.
pub proof fn where_a_message_has_its_fields(
    kind: u8,
    code: u8,
    rest: Seq<u8>,
    body: Seq<u8>,
)
    requires
        rest.len() == 4,
    ensures
        ({
            let s = icmp::message_bytes(kind, code, rest, body);
            &&& s.len() == 8 + body.len()
            &&& s[0] == kind && s[1] == code
            &&& s.subrange(4, 8) == rest
            &&& s.skip(8) == body
            &&& ip::checksum_of(s) == 0
        }),
{
    let s = icmp::message_bytes(kind, code, rest, body);
    icmp::message_sums_to_zero(kind, code, rest, body);
    assert(s.subrange(4, 8) =~= rest);
    assert(s.skip(8) =~= body);
}

/// The address of a card is in three words of its memory, the low byte of each
/// first.
pub proof fn how_a_card_spells_its_address(a: u8, b: u8, c: u8, d: u8, e: u8, f: u8)
    ensures
        e1000::mac_of_words((a + b * 256) as u16, (c + d * 256) as u16, (e + f * 256) as u16)
            == seq![a, b, c, d, e, f],
{
    assert(e1000::mac_of_words(
        (a + b * 256) as u16,
        (c + d * 256) as u16,
        (e + f * 256) as u16,
    ) =~= seq![a, b, c, d, e, f]);
}

/// A netmask that leaves `bits` bits to its hosts is written as the rest of
/// them.
pub proof fn how_a_netmask_is_written(netmask: Ipv4Addr, bits: nat)
    requires
        bits <= 31,
        netmask.0 == 0x1_0000_0000 - vstd::arithmetic::power2::pow2(bits),
    ensures
        config::prefix_of(netmask) == 32 - bits,
{
    halving(bits);
}

proof fn halving(k: nat)
    ensures
        config::halvings(vstd::arithmetic::power2::pow2(k) as int) == k,
    decreases k,
{
    if k == 0 {
        vstd::arithmetic::power2::lemma2_to64();
    } else {
        halving((k - 1) as nat);
        vstd::arithmetic::power2::lemma_pow2_unfold(k);
        vstd::arithmetic::power2::lemma_pow2_pos((k - 1) as nat);
    }
}

/// The next entry to look at is the one whose time comes first.
pub proof fn which_entry_comes_first(cache: Seq<EntryView>, k: int)
    ensures
        0 <= k < cache.len() ==> arp::earliest(cache) <= cache[k].deadline,
        arp::earliest(cache) != u64::MAX ==> exists|i: int|
            0 <= i < cache.len() && (#[trigger] cache[i]).deadline == arp::earliest(cache),
    decreases cache.len(),
{
    if cache.len() > 0 {
        let rest = cache.drop_last();
        which_entry_comes_first(rest, k);
        assert(cache[cache.len() - 1] == cache.last());
        if 0 <= k < rest.len() {
            assert(rest[k] == cache[k]);
        }
        if arp::earliest(rest) == arp::earliest(cache) && arp::earliest(rest) != u64::MAX {
            let i = choose|i: int|
                0 <= i < rest.len() && (#[trigger] rest[i]).deadline == arp::earliest(rest);
            assert(cache[i] == rest[i]);
        }
    }
}

/// The client has something to do from its deadline on, and nothing before.
pub proof fn the_deadline_is_when_something_is_due(
    state: State,
    mac: Seq<u8>,
    now: u64,
    draws: Seq<u64>,
)
    requires
        state.valid(),
        state.lease() matches Some(lease) ==> lease.renew_at < u64::MAX,
    ensures
        ({
            let (turn, more) = dhcp::timer_pass(state, mac, now, draws);
            &&& now < state.deadline() ==> turn.state == state && turn.effects.len() == 0 && !more
            &&& now >= state.deadline() ==> turn.effects.len() > 0 || more
        }),
{
}

/// Two digits spell a byte, the high one first, in small letters.
pub proof fn how_a_byte_is_spelled(byte: u8)
    ensures
        ({
            let s = text::hex_text(byte);
            let value = |c: u8|
                if 0x30 <= c <= 0x39 {
                    c - 0x30
                } else {
                    c - 0x61 + 10
                };
            &&& s.len() == 2
            &&& 0x30 <= s[0] <= 0x39 || 0x61 <= s[0] <= 0x66
            &&& 0x30 <= s[1] <= 0x39 || 0x61 <= s[1] <= 0x66
            &&& value(s[0]) * 16 + value(s[1]) == byte
        }),
{
}

/// A hardware address is its bytes, spelled one after another with a colon
/// between each two.
pub proof fn how_an_address_is_spelled(mac: Seq<u8>, next: u8)
    requires
        mac.len() > 0,
    ensures
        text::mac_text(seq![next]) == text::hex_text(next),
        text::mac_text(mac.push(next)) == text::mac_text(mac) + seq![0x3Au8] + text::hex_text(next),
{
    assert(mac.push(next).drop_last() =~= mac);
}

} // verus!
