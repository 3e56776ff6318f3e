//! Address resolution: which hardware address is at a given IPv4 address.
//!
//! The cache answers two questions. Outbound, it turns the next hop into a
//! destination for the Ethernet header, holding the datagram and asking the
//! link while the answer is outstanding. Inbound, it answers requests for our
//! own address, which is how anything on the segment finds us at all.

use crate::bytes::{self, extend, push_be16, read_be16};
use crate::errno::Errno;
use crate::net::ether::{self, is_group, mac_at};
use crate::net::ip::{address_at, push_address, Ipv4Addr};
use crate::net::link::{self, Link, LinkView};
use crate::net::tcp;
use vstd::prelude::*;

verus! {

pub const PACKET_LEN: usize = 28;

pub const HARDWARE_ETHERNET: u16 = 1;

pub const OP_REQUEST: u16 = 1;

pub const OP_REPLY: u16 = 2;

/// How long a resolved entry is believed, in timer ticks.
pub const ENTRY_LIFETIME: u64 = 6000;

/// How long to wait for a reply before asking again.
pub const REQUEST_INTERVAL: u64 = 100;

/// How many times to ask before giving up and dropping what was queued.
pub const MAX_REQUESTS: u32 = 4;

/// Datagrams held per unresolved address.
pub const MAX_QUEUED: usize = 4;

pub const MAX_ENTRIES: usize = 64;

pub struct Entry {
    pub address: Ipv4Addr,
    pub mac: Option<[u8; 6]>,
    /// Tick at which a resolved entry stops being believed, or at which an
    /// unresolved one asks again.
    pub deadline: u64,
    pub requests: u32,
    /// Datagrams waiting for the answer, without their Ethernet header.
    pub queued: Vec<Vec<u8>>,
}

#[verifier::ext_equal]
pub struct EntryView {
    pub address: Ipv4Addr,
    pub mac: Option<[u8; 6]>,
    pub deadline: u64,
    pub requests: u32,
    pub queued: Seq<Seq<u8>>,
}

impl View for Entry {
    type V = EntryView;

    open spec fn view(&self) -> EntryView {
        EntryView {
            address: self.address,
            mac: self.mac,
            deadline: self.deadline,
            requests: self.requests,
            queued: link::texts(self.queued@),
        }
    }
}

impl EntryView {
    /// An entry holds a few datagrams at most, and none once it is resolved.
    pub open spec fn valid(self) -> bool {
        &&& self.queued.len() <= MAX_QUEUED
        &&& self.mac is Some ==> self.queued.len() == 0
        &&& self.requests <= MAX_REQUESTS
    }

    /// Whether an entry is worth keeping. A resolved entry that has aged out is
    /// simply forgotten; the next datagram through it asks again.
    pub open spec fn kept(self, now: u64) -> bool {
        now < self.deadline || (self.mac is None && self.requests < MAX_REQUESTS)
    }

    /// The hardware address an entry gives, while it is believed.
    pub open spec fn believed(self, now: u64) -> Option<[u8; 6]> {
        if now < self.deadline {
            self.mac
        } else {
            None
        }
    }

    /// Whether an entry asks again.
    pub open spec fn asks(self, now: u64) -> bool {
        now >= self.deadline && self.mac is None
    }

    /// An entry after it has asked again, if it does.
    pub open spec fn asked(self, now: u64) -> EntryView {
        if self.asks(now) {
            EntryView {
                requests: (self.requests + 1) as u32,
                deadline: (now + REQUEST_INTERVAL) as u64,
                ..self
            }
        } else {
            self
        }
    }
}

pub open spec fn views(entries: Seq<Entry>) -> Seq<EntryView> {
    Seq::new(entries.len(), |i: int| entries[i]@)
}

/// 00:00:00:00:00:00, which a request puts where the answer goes.
pub open spec fn no_mac() -> [u8; 6] {
    [0u8, 0u8, 0u8, 0u8, 0u8, 0u8]
}

pub fn zero_mac() -> (mac: [u8; 6])
    ensures
        mac == no_mac(),
{
    [0u8, 0u8, 0u8, 0u8, 0u8, 0u8]
}

/// Where an address's entry is in the cache, or the cache's length if there is
/// none.
pub open spec fn position(cache: Seq<EntryView>, address: Ipv4Addr) -> int
    decreases cache.len(),
{
    if cache.len() == 0 {
        0
    } else if cache[0].address == address {
        0
    } else {
        1 + position(cache.skip(1), address)
    }
}

proof fn position_is(cache: Seq<EntryView>, address: Ipv4Addr, at: int)
    requires
        0 <= at <= cache.len(),
        forall|k: int| 0 <= k < at ==> (#[trigger] cache[k]).address != address,
        at < cache.len() ==> cache[at].address == address,
    ensures
        position(cache, address) == at,
    decreases cache.len(),
{
    if at > 0 {
        assert forall|k: int| 0 <= k < at - 1 implies (#[trigger] cache.skip(1)[k]).address
            != address by {
            assert(cache.skip(1)[k] == cache[k + 1]);
        }
        position_is(cache.skip(1), address, at - 1);
    }
}

/// The entry that expires soonest, and the first of them if several do.
pub open spec fn oldest_of(cache: Seq<EntryView>) -> int
    decreases cache.len(),
{
    if cache.len() <= 1 {
        0
    } else {
        let before = oldest_of(cache.drop_last());
        if cache.last().deadline < cache[before].deadline {
            cache.len() - 1
        } else {
            before
        }
    }
}

/// The cache with room for one more: a full one loses what expires soonest.
pub open spec fn with_room(cache: Seq<EntryView>) -> Seq<EntryView> {
    if cache.len() >= MAX_ENTRIES {
        cache.remove(oldest_of(cache))
    } else {
        cache
    }
}

/// Asking the segment who holds an address.
pub open spec fn request_packet(l: LinkView, address: Ipv4Addr) -> Seq<u8> {
    packet(OP_REQUEST, l.mac()@, own_address(l), no_mac()@, address)
}

/// This machine's address, or 0.0.0.0 while it has none.
pub open spec fn own_address(l: LinkView) -> Ipv4Addr {
    match l.config {
        Some(config) => config.spec_address(),
        None => Ipv4Addr(0),
    }
}

/// One ARP packet.
pub open spec fn packet(
    operation: u16,
    sender_mac: Seq<u8>,
    sender_ip: Ipv4Addr,
    target_mac: Seq<u8>,
    target_ip: Ipv4Addr,
) -> Seq<u8> {
    bytes::be16_bytes(HARDWARE_ETHERNET as int) + bytes::be16_bytes(ether::ETHERTYPE_IPV4 as int)
        + seq![6u8, 4u8] + bytes::be16_bytes(operation as int) + sender_mac + sender_ip.octets()
        + target_mac + target_ip.octets()
}

/// A payload sent to a hardware address.
pub open spec fn sent_frame(l: LinkView, mac: Seq<u8>, ethertype: u16, payload: Seq<u8>) -> (
    LinkView,
    Result<(), Errno>,
) {
    l.transmitted(ether::frame_bytes(mac, l.mac()@, ethertype, payload))
}

/// Datagrams sent to a hardware address, one after another.
pub open spec fn sent_all(l: LinkView, mac: Seq<u8>, datagrams: Seq<Seq<u8>>) -> LinkView
    decreases datagrams.len(),
{
    if datagrams.len() == 0 {
        l
    } else {
        sent_frame(
            sent_all(l, mac, datagrams.drop_last()),
            mac,
            ether::ETHERTYPE_IPV4,
            datagrams.last(),
        ).0
    }
}

/// Asking about one address after another.
pub open spec fn asked_all(l: LinkView, addresses: Seq<Ipv4Addr>) -> LinkView
    decreases addresses.len(),
{
    if addresses.len() == 0 {
        l
    } else {
        asked_for(asked_all(l, addresses.drop_last()), addresses.last()).0
    }
}

/// Asking about one address.
pub open spec fn asked_for(l: LinkView, address: Ipv4Addr) -> (LinkView, Result<(), Errno>) {
    sent_frame(l, ether::BROADCAST@, ether::ETHERTYPE_ARP, request_packet(l, address))
}

/// A pair worth recording: a real address at a single card, and not somebody
/// else's claim to hold this machine's own address.
pub open spec fn believable(l: LinkView, address: Ipv4Addr, mac: Seq<u8>) -> bool {
    &&& !address.unspecified()
    &&& !ether::is_group_address(mac)
    &&& !l.is_ours(address)
}

/// An entry that has just been resolved.
pub open spec fn resolved(address: Ipv4Addr, mac: [u8; 6], now: u64) -> EntryView {
    EntryView {
        address,
        mac: Some(mac),
        deadline: (now + ENTRY_LIFETIME) as u64,
        requests: 0,
        queued: Seq::empty(),
    }
}

/// An address pair recorded, and whatever was waiting for it sent.
pub open spec fn learned(l: LinkView, address: Ipv4Addr, mac: [u8; 6], now: u64) -> LinkView {
    let at = position(l.cache, address);
    if !believable(l, address, mac@) {
        l
    } else if at < l.cache.len() {
        sent_all(
            LinkView { cache: l.cache.update(at, resolved(address, mac, now)), ..l },
            mac@,
            l.cache[at].queued,
        )
    } else {
        LinkView { cache: with_room(l.cache).push(resolved(address, mac, now)), ..l }
    }
}

/// The hardware address cached for an address, if there is one that is still
/// believed.
pub open spec fn looked_up(cache: Seq<EntryView>, address: Ipv4Addr, now: u64) -> Option<[u8; 6]> {
    let at = position(cache, address);
    if at < cache.len() && now < cache[at].deadline {
        cache[at].mac
    } else {
        None
    }
}

/// The hardware address a multicast group is reached at.
pub open spec fn multicast_mac(address: Ipv4Addr) -> Seq<u8> {
    let octets = address.octets();
    seq![0x01u8, 0x00u8, 0x5Eu8, (octets[1] % 128) as u8, octets[2], octets[3]]
}

/// An address asked about for the first time, with the datagram that waits for
/// the answer.
pub open spec fn unresolved(address: Ipv4Addr, datagram: Seq<u8>, now: u64) -> EntryView {
    EntryView {
        address,
        mac: None,
        deadline: (now + REQUEST_INTERVAL) as u64,
        requests: 1,
        queued: seq![datagram],
    }
}

/// One datagram towards its next hop: straight out if the hardware address is
/// known and still believed, and otherwise held, if there is room, while the
/// link is asked.
pub open spec fn datagram_sent(l: LinkView, next_hop: Ipv4Addr, datagram: Seq<u8>, now: u64) -> (
    LinkView,
    Result<(), Errno>,
) {
    let at = position(l.cache, next_hop);
    if next_hop.limited_broadcast() {
        sent_frame(l, ether::BROADCAST@, ether::ETHERTYPE_IPV4, datagram)
    } else if next_hop.multicast() {
        sent_frame(l, multicast_mac(next_hop), ether::ETHERTYPE_IPV4, datagram)
    } else if at < l.cache.len() && l.cache[at].believed(now) is Some {
        sent_frame(l, l.cache[at].believed(now)->0@, ether::ETHERTYPE_IPV4, datagram)
    } else if at < l.cache.len() && l.cache[at].mac is Some {
        asked_for(
            LinkView { cache: l.cache.update(at, unresolved(next_hop, datagram, now)), ..l },
            next_hop,
        )
    } else if at < l.cache.len() {
        let entry = l.cache[at];
        let held = if entry.queued.len() < MAX_QUEUED {
            EntryView { queued: entry.queued.push(datagram), ..entry }
        } else {
            entry
        };
        asked_for(LinkView { cache: l.cache.update(at, held), ..l }, next_hop)
    } else {
        asked_for(
            LinkView {
                cache: with_room(l.cache).push(unresolved(next_hop, datagram, now)),
                ..l
            },
            next_hop,
        )
    }
}

/// An ARP packet about Ethernet and IPv4.
pub open spec fn is_packet(p: Seq<u8>) -> bool {
    &&& p.len() >= PACKET_LEN
    &&& bytes::be16(p, 0) == HARDWARE_ETHERNET
    &&& bytes::be16(p, 2) == ether::ETHERTYPE_IPV4
    &&& p[4] == 6
    &&& p[5] == 4
}

/// What an arriving ARP packet does. Both a request and a reply carry the
/// sender's pair, and both are worth remembering; a request for this machine's
/// own address is answered.
pub open spec fn packet_taken(l: LinkView, p: Seq<u8>, now: u64) -> LinkView {
    if !is_packet(p) {
        l
    } else {
        let sender_mac = ether::mac_of(p, 8);
        let sender_ip = Ipv4Addr(bytes::be32(p, 14) as u32);
        let target_ip = Ipv4Addr(bytes::be32(p, 24) as u32);
        let after = learned(l, sender_ip, sender_mac, now);
        if bytes::be16(p, 6) == OP_REQUEST && l.is_ours(target_ip) {
            sent_frame(
                after,
                sender_mac@,
                ether::ETHERTYPE_ARP,
                packet(OP_REPLY, l.mac()@, target_ip, sender_mac@, sender_ip),
            ).0
        } else {
            after
        }
    }
}

/// The entries worth keeping, those that ask again already counted as asking.
pub open spec fn survivors(cache: Seq<EntryView>, now: u64) -> Seq<EntryView>
    decreases cache.len(),
{
    if cache.len() == 0 {
        Seq::empty()
    } else {
        let before = survivors(cache.drop_last(), now);
        if cache.last().kept(now) {
            before.push(cache.last().asked(now))
        } else {
            before
        }
    }
}

/// The addresses that are asked about again, in the cache's order.
pub open spec fn questions(cache: Seq<EntryView>, now: u64) -> Seq<Ipv4Addr>
    decreases cache.len(),
{
    if cache.len() == 0 {
        Seq::empty()
    } else {
        let before = questions(cache.drop_last(), now);
        if cache.last().kept(now) && cache.last().asks(now) {
            before.push(cache.last().address)
        } else {
            before
        }
    }
}

/// What looking at the clock does to the cache.
pub open spec fn aged(l: LinkView, now: u64) -> LinkView {
    asked_all(LinkView { cache: survivors(l.cache, now), ..l }, questions(l.cache, now))
}

/// The earliest deadline in the cache, or the end of time.
pub open spec fn earliest(cache: Seq<EntryView>) -> u64
    decreases cache.len(),
{
    if cache.len() == 0 {
        u64::MAX
    } else {
        let before = earliest(cache.drop_last());
        if cache.last().deadline < before {
            cache.last().deadline
        } else {
            before
        }
    }
}

// ---- what runs -----------------------------------------------------------------

pub fn clear(link: &mut Link)
    ensures
        final(link)@ == (LinkView { cache: Seq::empty(), ..old(link)@ }),
{
    link.cache.clear();
    assert(link@.cache =~= Seq::empty());
}

fn find(cache: &Vec<Entry>, address: Ipv4Addr) -> (at: usize)
    ensures
        at == position(views(cache@), address),
        at <= cache@.len(),
        at < cache@.len() ==> cache@[at as int].address == address,
{
    let mut at: usize = 0;
    while at < cache.len()
        invariant
            at <= cache@.len(),
            forall|k: int| 0 <= k < at ==> (#[trigger] views(cache@)[k]).address != address,
        decreases cache@.len() - at,
    {
        assert(views(cache@)[at as int] == cache@[at as int]@);
        if cache[at].address == address {
            proof {
                position_is(views(cache@), address, at as int);
            }
            return at;
        }
        at += 1;
    }
    proof {
        position_is(views(cache@), address, at as int);
    }
    at
}

/// The hardware address for `address`, if one is cached and still believed.
pub fn lookup(link: &Link, address: Ipv4Addr, now: u64) -> (mac: Option<[u8; 6]>)
    ensures
        mac == looked_up(link@.cache, address, now),
{
    let at: usize = find(&link.cache, address);
    if at < link.cache.len() && now < link.cache[at].deadline {
        link.cache[at].mac
    } else {
        None
    }
}

fn oldest(cache: &Vec<Entry>) -> (at: usize)
    requires
        cache@.len() > 0,
    ensures
        at == oldest_of(views(cache@)),
        at < cache@.len(),
{
    let mut best: usize = 0;
    let mut i: usize = 1;
    assert(views(cache@).take(1).len() == 1);
    while i < cache.len()
        invariant
            1 <= i <= cache@.len(),
            best < i,
            best == oldest_of(views(cache@).take(i as int)),
        decreases cache@.len() - i,
    {
        assert(views(cache@).take(i + 1).drop_last() =~= views(cache@).take(i as int));
        assert(views(cache@)[i as int] == cache@[i as int]@);
        assert(views(cache@)[best as int] == cache@[best as int]@);
        if cache[i].deadline < cache[best].deadline {
            best = i;
        }
        i += 1;
    }
    assert(views(cache@).take(i as int) =~= views(cache@));
    best
}

/// Put a new entry in the cache. A full one throws out whatever expires
/// soonest rather than refuse to learn anything new.
fn add_entry(link: &mut Link, entry: Entry)
    requires
        old(link)@.valid(),
        entry@.valid(),
    ensures
        final(link)@ == (LinkView { cache: with_room(old(link)@.cache).push(entry@), ..old(link)@ }),
        final(link)@.valid(),
{
    if link.cache.len() >= MAX_ENTRIES {
        let at: usize = oldest(&link.cache);
        link.cache.remove(at);
        assert(views(link.cache@) =~= old(link)@.cache.remove(at as int));
    }
    link.cache.push(entry);
    proof {
        let expected = with_room(old(link)@.cache).push(entry@);
        assert(link@.cache =~= expected);
        assert forall|i: int| 0 <= i < link@.cache.len() implies (
        #[trigger] link@.cache[i]).valid() by {
            if i < expected.len() - 1 {
                let o = old(link)@.cache;
                let k = oldest_of(o);
                if o.len() >= MAX_ENTRIES {
                    assert(expected[i] == o[i] || expected[i] == o[i + 1]);
                } else {
                    assert(expected[i] == o[i]);
                }
            }
        }
    }
}

fn transmit_to(link: &mut Link, mac: [u8; 6], ethertype: u16, payload: &[u8]) -> (result: Result<
    (),
    Errno,
>)
    requires
        old(link)@.valid(),
    ensures
        (final(link)@, result) == sent_frame(old(link)@, mac@, ethertype, payload@),
        final(link)@.valid(),
{
    let frame = ether::build(mac, link::mac(link), ethertype, payload);
    link::transmit(link, frame)
}

/// Record an address pair, and release anything that was waiting for it.
pub fn learn(link: &mut Link, address: Ipv4Addr, mac: [u8; 6], now: u64)
    requires
        old(link)@.valid(),
        now <= tcp::LAST_TICK,
    ensures
        final(link)@ == learned(old(link)@, address, mac, now),
        final(link)@.valid(),
{
    if address.is_unspecified() || is_group(&mac) {
        return;
    }
    // Someone else on the segment saying they hold this machine's address is
    // either a conflict or a lie. Believing it would send everything meant for
    // us to their card.
    if let Some(config) = link.config {
        if config.address() == address {
            return;
        }
    }
    let at: usize = find(&link.cache, address);
    let nothing: Vec<Vec<u8>> = Vec::new();
    assert(link::texts(nothing@) =~= Seq::empty());
    let entry = Entry {
        address,
        mac: Some(mac),
        deadline: now + ENTRY_LIFETIME,
        requests: 0,
        queued: nothing,
    };
    assert(entry@ =~= resolved(address, mac, now));
    if at < link.cache.len() {
        let mut slot = entry;
        let ghost waiting = link@.cache[at as int].queued;
        assert(views(link.cache@)[at as int] == link.cache@[at as int]@);
        std::mem::swap(&mut link.cache[at], &mut slot);
        let released = slot.queued;
        assert(link@.cache =~= old(link)@.cache.update(at as int, resolved(address, mac, now)));
        let ghost start = link@;
        let mut i: usize = 0;
        assert(waiting == link::texts(released@));
        assert(waiting.take(0) =~= Seq::empty());
        while i < released.len()
            invariant
                i <= released@.len(),
                waiting == link::texts(released@),
                link@ == sent_all(start, mac@, waiting.take(i as int)),
                link@.valid(),
            decreases released@.len() - i,
        {
            assert(waiting.take(i + 1).drop_last() =~= waiting.take(i as int));
            assert(waiting.take(i + 1).last() == released@[i as int]@);
            let _ = transmit_to(link, mac, ether::ETHERTYPE_IPV4, released[i].as_slice());
            i += 1;
        }
        assert(waiting.take(i as int) =~= waiting);
    } else {
        add_entry(link, entry);
    }
}

/// The entry of an address asked about for the first time.
fn first_asked(address: Ipv4Addr, datagram: Vec<u8>, now: u64) -> (entry: Entry)
    requires
        now <= tcp::LAST_TICK,
    ensures
        entry@ == unresolved(address, datagram@, now),
{
    let mut queued: Vec<Vec<u8>> = Vec::new();
    let ghost text = datagram@;
    queued.push(datagram);
    assert(link::texts(queued@) =~= seq![text]);
    Entry { address, mac: None, deadline: now + REQUEST_INTERVAL, requests: 1, queued }
}

/// Put one IPv4 datagram on the wire, resolving `next_hop` first if need be.
///
/// An unresolved address is asked about and the datagram held. TCP would
/// retransmit anyway, but a datagram protocol has nothing that would, and the
/// first packet of a connection is the one that matters most.
pub fn send_datagram(link: &mut Link, next_hop: Ipv4Addr, datagram: Vec<u8>, now: u64) -> (result:
    Result<(), Errno>)
    requires
        old(link)@.valid(),
        now <= tcp::LAST_TICK,
    ensures
        (final(link)@, result) == datagram_sent(old(link)@, next_hop, datagram@, now),
        final(link)@.valid(),
{
    if next_hop.is_broadcast() {
        return transmit_to(
            link,
            ether::BROADCAST,
            ether::ETHERTYPE_IPV4,
            datagram.as_slice(),
        );
    }
    if next_hop.is_multicast() {
        let octets = next_hop.to_be_bytes();
        let mac: [u8; 6] = [0x01, 0x00, 0x5E, octets[1] % 128, octets[2], octets[3]];
        assert(mac@ =~= multicast_mac(next_hop));
        return transmit_to(link, mac, ether::ETHERTYPE_IPV4, datagram.as_slice());
    }
    let at: usize = find(&link.cache, next_hop);
    if at < link.cache.len() {
        assert(views(link.cache@)[at as int] == link.cache@[at as int]@);
        if let Some(mac) = link.cache[at].mac {
            if now < link.cache[at].deadline {
                return transmit_to(link, mac, ether::ETHERTYPE_IPV4, datagram.as_slice());
            }
            // Believed no longer: forgotten, and asked about as if it had
            // never been known.
            let entry = first_asked(next_hop, datagram, now);
            proof {
                assert(link@.cache.update(at as int, entry@) =~= views(
                    link.cache@.update(at as int, entry),
                ));
            }
            link.cache.set(at, entry);
            return request(link, next_hop);
        }
        if link.cache[at].queued.len() < MAX_QUEUED {
            proof {
                link::texts_push(link.cache@[at as int].queued@, datagram);
            }
            link.cache[at].queued.push(datagram);
        }
        proof {
            let entry = old(link)@.cache[at as int];
            let held = if entry.queued.len() < MAX_QUEUED {
                EntryView { queued: entry.queued.push(datagram@), ..entry }
            } else {
                entry
            };
            assert(link@.cache =~= old(link)@.cache.update(at as int, held));
        }
    } else {
        let entry = first_asked(next_hop, datagram, now);
        add_entry(link, entry);
    }
    request(link, next_hop)
}

/// Build one ARP packet.
pub fn build(
    operation: u16,
    sender_mac: [u8; 6],
    sender_ip: Ipv4Addr,
    target_mac: [u8; 6],
    target_ip: Ipv4Addr,
) -> (out: Vec<u8>)
    ensures
        out@ == packet(operation, sender_mac@, sender_ip, target_mac@, target_ip),
        out@.len() == PACKET_LEN,
{
    let mut out: Vec<u8> = Vec::new();
    push_be16(&mut out, HARDWARE_ETHERNET);
    push_be16(&mut out, ether::ETHERTYPE_IPV4);
    out.push(6);
    out.push(4);
    push_be16(&mut out, operation);
    extend(&mut out, sender_mac.as_slice());
    push_address(&mut out, sender_ip);
    extend(&mut out, target_mac.as_slice());
    push_address(&mut out, target_ip);
    assert(out@ =~= packet(operation, sender_mac@, sender_ip, target_mac@, target_ip));
    out
}

/// Ask the segment who holds `address`.
pub fn request(link: &mut Link, address: Ipv4Addr) -> (result: Result<(), Errno>)
    requires
        old(link)@.valid(),
    ensures
        (final(link)@, result) == asked_for(old(link)@, address),
        final(link)@.valid(),
{
    let ours = match link.config {
        Some(config) => config.address(),
        None => Ipv4Addr(0),
    };
    let packet = build(OP_REQUEST, link::mac(link), ours, zero_mac(), address);
    transmit_to(link, ether::BROADCAST, ether::ETHERTYPE_ARP, packet.as_slice())
}

/// One received ARP packet.
pub fn receive(link: &mut Link, packet: &[u8], now: u64)
    requires
        old(link)@.valid(),
        now <= tcp::LAST_TICK,
    ensures
        final(link)@.valid(),
        final(link)@ == packet_taken(old(link)@, packet@, now),
{
    if packet.len() < PACKET_LEN {
        return;
    }
    let sender_mac = mac_at(packet, 8);
    if read_be16(packet, 0) != HARDWARE_ETHERNET || read_be16(packet, 2) != ether::ETHERTYPE_IPV4
        || packet[4] != 6 || packet[5] != 4 {
        return;
    }
    let operation: u16 = read_be16(packet, 6);
    let sender_ip = address_at(packet, 14);
    let target_ip = address_at(packet, 24);
    let ours = match link.config {
        Some(config) => config.address() == target_ip,
        None => false,
    };
    let our_mac = link::mac(link);
    learn(link, sender_ip, sender_mac, now);
    if operation == OP_REQUEST && ours {
        let reply = build(OP_REPLY, our_mac, target_ip, sender_mac, sender_ip);
        let _ = transmit_to(link, sender_mac, ether::ETHERTYPE_ARP, reply.as_slice());
    }
}

/// The next tick at which `expire` has something to do.
pub fn next_deadline(link: &Link) -> (tick: u64)
    ensures
        tick == earliest(link@.cache),
{
    let mut tick: u64 = u64::MAX;
    let mut i: usize = 0;
    assert(link@.cache.take(0) =~= Seq::empty());
    while i < link.cache.len()
        invariant
            i <= link.cache@.len(),
            tick == earliest(link@.cache.take(i as int)),
        decreases link.cache@.len() - i,
    {
        assert(link@.cache.take(i + 1).drop_last() =~= link@.cache.take(i as int));
        if link.cache[i].deadline < tick {
            tick = link.cache[i].deadline;
        }
        i += 1;
    }
    assert(link@.cache.take(i as int) =~= link@.cache);
    tick
}

/// Drop entries that have aged out, and ask again about the ones still
/// unanswered.
pub fn expire(link: &mut Link, now: u64)
    requires
        old(link)@.valid(),
        now <= tcp::LAST_TICK,
    ensures
        final(link)@ == aged(old(link)@, now),
        final(link)@.valid(),
{
    let ghost all = link@.cache;
    let ghost before = link@;
    let mut entries: Vec<Entry> = Vec::new();
    std::mem::swap(&mut entries, &mut link.cache);
    let ghost originals = entries@;
    let mut left: usize = 0;
    let total: usize = entries.len();
    let mut kept: Vec<Entry> = Vec::new();
    let mut ask: Vec<Ipv4Addr> = Vec::new();
    assert(all.take(0) =~= Seq::empty());
    assert(views(kept@) =~= survivors(all.take(0), now));
    assert(ask@ =~= questions(all.take(0), now));
    while left < total
        invariant
            left <= total,
            total == originals.len(),
            all == views(originals),
            entries@ == originals.skip(left as int),
            views(kept@) == survivors(all.take(left as int), now),
            ask@ == questions(all.take(left as int), now),
            kept@.len() <= left,
            forall|i: int| 0 <= i < all.len() ==> (#[trigger] all[i]).valid(),
            forall|i: int| 0 <= i < views(kept@).len() ==> (#[trigger] views(kept@)[i]).valid(),
            now <= tcp::LAST_TICK,
        decreases total - left,
    {
        assert(all.take(left + 1).drop_last() =~= all.take(left as int));
        assert(all[left as int] == originals[left as int]@);
        assert(all[left as int].valid());
        let ghost sofar = kept@;
        let mut entry = entries.remove(0);
        assert(entry@ == all[left as int]);
        assert(entries@ =~= originals.skip(left + 1));
        let due = now >= entry.deadline;
        let unresolved = entry.mac.is_none();
        if !due || (unresolved && entry.requests < MAX_REQUESTS) {
            if due && unresolved {
                entry.requests = entry.requests + 1;
                entry.deadline = now + REQUEST_INTERVAL;
                ask.push(entry.address);
            }
            assert(entry@ =~= all[left as int].asked(now));
            assert(views(sofar.push(entry)) =~= views(sofar).push(entry@));
            kept.push(entry);
        }
        left += 1;
    }
    assert(all.take(left as int) =~= all);
    link.cache = kept;
    assert(link@ =~= LinkView { cache: survivors(all, now), ..before });
    let ghost start = link@;
    let mut i: usize = 0;
    assert(ask@.take(0) =~= Seq::empty());
    while i < ask.len()
        invariant
            i <= ask@.len(),
            link@ == asked_all(start, ask@.take(i as int)),
            link@.valid(),
        decreases ask@.len() - i,
    {
        assert(ask@.take(i + 1).drop_last() =~= ask@.take(i as int));
        let _ = request(link, ask[i]);
        i += 1;
    }
    assert(ask@.take(i as int) =~= ask@);
}

} // verus!
