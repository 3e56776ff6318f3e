//! What the neighbour cache promises.

use crate::bytes;
use crate::net::arp::{self, EntryView, OP_REPLY, OP_REQUEST};
use crate::net::ether;
use crate::net::ip::Ipv4Addr;
use crate::net::link::LinkView;
use crate::net::tcp;
use vstd::prelude::*;

verus! {

/// The frames a list of datagrams becomes on its way to one card.
pub open spec fn frames(l: LinkView, mac: Seq<u8>, datagrams: Seq<Seq<u8>>) -> Seq<Seq<u8>> {
    Seq::new(
        datagrams.len(),
        |i: int| ether::frame_bytes(mac, l.mac()@, ether::ETHERTYPE_IPV4, datagrams[i]),
    )
}

/// Sending touches neither the cache nor the configuration.
proof fn sending_keeps_the_cache(l: LinkView, mac: Seq<u8>, datagrams: Seq<Seq<u8>>)
    ensures
        arp::sent_all(l, mac, datagrams).cache == l.cache,
        arp::sent_all(l, mac, datagrams).config == l.config,
        arp::sent_all(l, mac, datagrams).card == l.card,
        arp::sent_all(l, mac, datagrams).loss == l.loss,
    decreases datagrams.len(),
{
    if datagrams.len() > 0 {
        sending_keeps_the_cache(l, mac, datagrams.drop_last());
    }
}

/// Through a card on a link that loses nothing, datagrams go out in the order
/// they were given.
pub proof fn datagrams_go_out_in_order(l: LinkView, mac: Seq<u8>, datagrams: Seq<Seq<u8>>)
    requires
        l.card is Some,
        l.loss == 0,
    ensures
        arp::sent_all(l, mac, datagrams).outbox == l.outbox + frames(l, mac, datagrams),
    decreases datagrams.len(),
{
    if datagrams.len() == 0 {
        assert(l.outbox + frames(l, mac, datagrams) =~= l.outbox);
    } else {
        let before = datagrams.drop_last();
        datagrams_go_out_in_order(l, mac, before);
        sending_keeps_the_cache(l, mac, before);
        assert(l.outbox + frames(l, mac, datagrams) =~= (l.outbox + frames(l, mac, before)).push(
            ether::frame_bytes(mac, l.mac()@, ether::ETHERTYPE_IPV4, datagrams.last()),
        ));
    }
}

/// An address's entry, where there is one, is at its place, and no entry for
/// it comes earlier.
proof fn position_finds(cache: Seq<EntryView>, address: Ipv4Addr)
    ensures
        0 <= arp::position(cache, address) <= cache.len(),
        arp::position(cache, address) < cache.len() ==> cache[arp::position(
            cache,
            address,
        )].address == address,
        forall|k: int|
            0 <= k < arp::position(cache, address) ==> (#[trigger] cache[k]).address != address,
    decreases cache.len(),
{
    if cache.len() > 0 && cache[0].address != address {
        let rest = cache.skip(1);
        position_finds(rest, address);
        let at = arp::position(rest, address);
        assert forall|k: int| 0 <= k < 1 + at implies (#[trigger] cache[k]).address != address by {
            if k > 0 {
                assert(cache[k] == rest[k - 1]);
            }
        }
    }
}

/// The first entry for an address is where it is looked for.
proof fn position_is_first(cache: Seq<EntryView>, address: Ipv4Addr, at: int)
    requires
        0 <= at < cache.len(),
        cache[at].address == address,
        forall|k: int| 0 <= k < at ==> (#[trigger] cache[k]).address != address,
    ensures
        arp::position(cache, address) == at,
{
    position_finds(cache, address);
    let found = arp::position(cache, address);
    if found < at {
        assert(cache[found].address != address);
    }
}

/// A full cache has an oldest entry.
proof fn oldest_is_one_of_them(cache: Seq<EntryView>)
    requires
        cache.len() > 0,
    ensures
        0 <= arp::oldest_of(cache) < cache.len(),
    decreases cache.len(),
{
    if cache.len() > 1 {
        oldest_is_one_of_them(cache.drop_last());
    }
}

/// What was learned is what is looked up: after a believable pair is recorded,
/// the cache's entry for the address is resolved to that hardware address, and
/// holds nothing back.
pub proof fn what_was_learned_is_found(l: LinkView, address: Ipv4Addr, mac: [u8; 6], now: u64)
    requires
        arp::believable(l, address, mac@),
    ensures
        ({
            let cache = arp::learned(l, address, mac, now).cache;
            let at = arp::position(cache, address);
            &&& 0 <= at < cache.len()
            &&& cache[at] == arp::resolved(address, mac, now)
        }),
{
    let at = arp::position(l.cache, address);
    position_finds(l.cache, address);
    let entry = arp::resolved(address, mac, now);
    if at < l.cache.len() {
        let cache = l.cache.update(at, entry);
        sending_keeps_the_cache(LinkView { cache, ..l }, mac@, l.cache[at].queued);
        position_is_first(cache, address, at);
    } else {
        let room = arp::with_room(l.cache);
        let cache = room.push(entry);
        if l.cache.len() >= arp::MAX_ENTRIES {
            oldest_is_one_of_them(l.cache);
            let gone = arp::oldest_of(l.cache);
            assert forall|k: int| 0 <= k < room.len() implies (#[trigger] cache[k]).address
                != address by {
                let from = if k < gone {
                    k
                } else {
                    k + 1
                };
                assert(cache[k] == l.cache[from]);
            }
        } else {
            assert forall|k: int| 0 <= k < room.len() implies (#[trigger] cache[k]).address
                != address by {
                assert(cache[k] == l.cache[k]);
            }
        }
        position_is_first(cache, address, room.len() as int);
    }
}

/// A learned address is believed for as long as an entry lives and not a tick
/// longer: until then it is what is looked up, and from then on nothing is.
pub proof fn what_was_learned_is_believed_for_its_lifetime(
    l: LinkView,
    address: Ipv4Addr,
    mac: [u8; 6],
    learned_at: u64,
    now: u64,
)
    requires
        arp::believable(l, address, mac@),
        learned_at <= tcp::LAST_TICK,
    ensures
        arp::looked_up(arp::learned(l, address, mac, learned_at).cache, address, now) == (if now
            < learned_at + arp::ENTRY_LIFETIME {
            Some(mac)
        } else {
            None
        }),
{
    what_was_learned_is_found(l, address, mac, learned_at);
}

/// A datagram is never sent to an address that is believed no longer: past the
/// entry's lifetime it is held, and what goes out is a question.
pub proof fn an_aged_address_is_asked_again(
    l: LinkView,
    next_hop: Ipv4Addr,
    datagram: Seq<u8>,
    now: u64,
)
    requires
        !next_hop.limited_broadcast(),
        !next_hop.multicast(),
        arp::position(l.cache, next_hop) < l.cache.len(),
        l.cache[arp::position(l.cache, next_hop)].mac is Some,
        now >= l.cache[arp::position(l.cache, next_hop)].deadline,
        l.card is Some,
        l.loss == 0,
    ensures
        ({
            let at = arp::position(l.cache, next_hop);
            let after = arp::datagram_sent(l, next_hop, datagram, now).0;
            &&& after.cache == l.cache.update(at, arp::unresolved(next_hop, datagram, now))
            &&& after.outbox == l.outbox.push(
                ether::frame_bytes(
                    ether::BROADCAST@,
                    l.mac()@,
                    ether::ETHERTYPE_ARP,
                    arp::request_packet(l, next_hop),
                ),
            )
        }),
{
}

/// The answer to a question lets go of everything that waited for it, in the
/// order it came.
pub proof fn what_waited_goes_out_in_order(l: LinkView, address: Ipv4Addr, mac: [u8; 6], now: u64)
    requires
        arp::believable(l, address, mac@),
        arp::position(l.cache, address) < l.cache.len(),
        l.card is Some,
        l.loss == 0,
    ensures
        arp::learned(l, address, mac, now).outbox == l.outbox + frames(
            l,
            mac@,
            l.cache[arp::position(l.cache, address)].queued,
        ),
{
    let at = arp::position(l.cache, address);
    let filled = LinkView { cache: l.cache.update(at, arp::resolved(address, mac, now)), ..l };
    datagrams_go_out_in_order(filled, mac@, l.cache[at].queued);
    assert(frames(filled, mac@, l.cache[at].queued) =~= frames(l, mac@, l.cache[at].queued));
}

/// Nobody else can claim an address of this machine's own: such a claim
/// changes nothing.
pub proof fn nobody_can_claim_our_address(l: LinkView, address: Ipv4Addr, mac: [u8; 6], now: u64)
    requires
        l.is_ours(address),
    ensures
        arp::learned(l, address, mac, now) == l,
{
}

/// A packet that is written is read back: it is a packet about Ethernet and
/// IPv4, with the operation and the two pairs that went into it.
#[verifier::spinoff_prover]
pub proof fn packet_round_trip(
    operation: u16,
    sender_mac: [u8; 6],
    sender_ip: Ipv4Addr,
    target_mac: [u8; 6],
    target_ip: Ipv4Addr,
)
    ensures
        ({
            let p = arp::packet(operation, sender_mac@, sender_ip, target_mac@, target_ip);
            &&& arp::is_packet(p)
            &&& p.len() == arp::PACKET_LEN
            &&& bytes::be16(p, 6) == operation
            &&& ether::mac_of(p, 8)@ == sender_mac@
            &&& bytes::be32(p, 14) == sender_ip.0
            &&& ether::mac_of(p, 18)@ == target_mac@
            &&& bytes::be32(p, 24) == target_ip.0
        }),
{
    let p = arp::packet(operation, sender_mac@, sender_ip, target_mac@, target_ip);
    assert(p.subrange(0, 2) =~= bytes::be16_bytes(arp::HARDWARE_ETHERNET as int));
    bytes::be16_at(p, 0, arp::HARDWARE_ETHERNET as int);
    assert(p.subrange(2, 4) =~= bytes::be16_bytes(ether::ETHERTYPE_IPV4 as int));
    bytes::be16_at(p, 2, ether::ETHERTYPE_IPV4 as int);
    assert(p.subrange(6, 8) =~= bytes::be16_bytes(operation as int));
    bytes::be16_at(p, 6, operation as int);
    assert(p.subrange(14, 18) =~= sender_ip.octets());
    bytes::be32_at(p, 14, sender_ip.0 as int);
    assert(p.subrange(24, 28) =~= target_ip.octets());
    bytes::be32_at(p, 24, target_ip.0 as int);
    assert(ether::mac_of(p, 8)@ =~= sender_mac@);
    assert(ether::mac_of(p, 18)@ =~= target_mac@);
}

/// A request for this machine's address is answered: the last frame the link
/// is asked to send is a reply, to the one that asked, naming this machine's
/// card.
pub proof fn a_request_for_us_is_answered(
    l: LinkView,
    asker_mac: [u8; 6],
    asker_ip: Ipv4Addr,
    target_mac: [u8; 6],
    ours: Ipv4Addr,
    now: u64,
)
    requires
        l.card is Some,
        l.loss == 0,
        l.is_ours(ours),
    ensures
        ({
            let p = arp::packet(OP_REQUEST, asker_mac@, asker_ip, target_mac@, ours);
            let out = arp::packet_taken(l, p, now).outbox;
            &&& out.len() > l.outbox.len()
            &&& out.last() == ether::frame_bytes(
                asker_mac@,
                l.mac()@,
                ether::ETHERTYPE_ARP,
                arp::packet(OP_REPLY, l.mac()@, ours, asker_mac@, asker_ip),
            )
        }),
{
    let p = arp::packet(OP_REQUEST, asker_mac@, asker_ip, target_mac@, ours);
    packet_round_trip(OP_REQUEST, asker_mac, asker_ip, target_mac, ours);
    assert(ether::mac_of(p, 8) =~= asker_mac);
    let at = arp::position(l.cache, asker_ip);
    let after = arp::learned(l, asker_ip, asker_mac, now);
    if arp::believable(l, asker_ip, asker_mac@) && at < l.cache.len() {
        position_finds(l.cache, asker_ip);
        let filled = LinkView {
            cache: l.cache.update(at, arp::resolved(asker_ip, asker_mac, now)),
            ..l
        };
        sending_keeps_the_cache(filled, asker_mac@, l.cache[at].queued);
        datagrams_go_out_in_order(filled, asker_mac@, l.cache[at].queued);
    }
    assert(after.outbox.len() >= l.outbox.len());
}

} // verus!
