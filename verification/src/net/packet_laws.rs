//! Where packets go, what they look like on the wire, which of them are for
//! this machine, and how the next machine on the way is found.

use crate::bytes;
use crate::errno::Errno;
use crate::net::arp::{self, EntryView};
use crate::net::config::{self, Config};
use crate::net::ether;
use crate::net::ip::{self, Header, Ipv4Addr, Origin};
use crate::net::link::LinkView;
use vstd::prelude::*;

verus! {

// ---- subnets ------------------------------------------------------------------------------

/// The first address of the subnet an address is on.
pub open spec fn base_of(address: Ipv4Addr, netmask: Ipv4Addr) -> int {
    let size: int = 0x1_0000_0000 - netmask.0;
    address.0 - address.0 as int % size
}

/// A subnet is a run of addresses: it holds those from its first on, as many
/// as the netmask leaves, and no other. The last of them is its broadcast
/// address, and the first and the last are no host's where there are more than
/// two.
pub proof fn a_subnet_is_a_run_of_addresses(a: Ipv4Addr, b: Ipv4Addr, netmask: Ipv4Addr)
    requires
        config::is_netmask(netmask),
    ensures
        ({
            let size: int = 0x1_0000_0000 - netmask.0;
            let base = base_of(b, netmask);
            &&& config::same_subnet(a, b, netmask) == (base <= a.0 < base + size)
            &&& config::names_subnet(b, netmask) == (size > 2 && (b.0 == base || b.0 == base + size
                - 1))
            &&& base + size <= 0x1_0000_0000 ==> config::subnet_broadcast(b, netmask).0 == base
                + size - 1
        }),
{
    let size: int = 0x1_0000_0000 - netmask.0;
    let x = a.0 as int;
    let y = b.0 as int;
    vstd::arithmetic::div_mod::lemma_fundamental_div_mod(x, size);
    vstd::arithmetic::div_mod::lemma_fundamental_div_mod(y, size);
    let q = y / size;
    let base = base_of(b, netmask);
    assert(base == size * q);
    assert(q * size == size * q) by (nonlinear_arith);
    if base <= x < base + size {
        assert(x == size * q + (x - base));
        vstd::arithmetic::div_mod::lemma_fundamental_div_mod_converse(x, size, q, x - base);
    }
}

/// A netmask is one where the addresses it leaves are a power of two of them,
/// from one up to half of all there are.
pub proof fn what_a_netmask_is(netmask: Ipv4Addr, bits: nat)
    ensures
        bits < 32 && netmask.0 == 0x1_0000_0000 - vstd::arithmetic::power2::pow2(bits)
            ==> config::is_netmask(netmask),
        config::is_netmask(netmask) ==> exists|k: nat|
            k < 32 && netmask.0 == 0x1_0000_0000 - #[trigger] vstd::arithmetic::power2::pow2(k),
{
    if bits < 32 && netmask.0 == 0x1_0000_0000 - vstd::arithmetic::power2::pow2(bits) {
        a_power_is_one(bits);
        below_the_top(bits, 31);
        two_to_the_31();
    }
    if config::is_netmask(netmask) {
        let k = one_is_a_power(0x1_0000_0000 - netmask.0);
        if k >= 32 {
            below_the_top(32, k);
            two_to_the_31();
            vstd::arithmetic::power2::lemma_pow2_unfold(32);
        }
        assert(netmask.0 == 0x1_0000_0000 - vstd::arithmetic::power2::pow2(k));
    }
}

proof fn two_to_the_31()
    ensures
        vstd::arithmetic::power2::pow2(31) == 0x8000_0000,
{
    vstd::arithmetic::power2::lemma2_to64();
}

proof fn below_the_top(low: nat, high: nat)
    requires
        low <= high,
    ensures
        vstd::arithmetic::power2::pow2(low) <= vstd::arithmetic::power2::pow2(high),
{
    if low < high {
        vstd::arithmetic::power2::lemma_pow2_strictly_increases(low, high);
    }
}

proof fn a_power_is_one(k: nat)
    ensures
        config::power_of_two(vstd::arithmetic::power2::pow2(k) as int),
    decreases k,
{
    if k == 0 {
        vstd::arithmetic::power2::lemma2_to64();
    } else {
        a_power_is_one((k - 1) as nat);
        vstd::arithmetic::power2::lemma_pow2_unfold(k);
        vstd::arithmetic::power2::lemma_pow2_pos((k - 1) as nat);
    }
}

proof fn one_is_a_power(n: int) -> (k: nat)
    requires
        config::power_of_two(n),
    ensures
        n == vstd::arithmetic::power2::pow2(k),
    decreases n,
{
    if n == 1 {
        vstd::arithmetic::power2::lemma2_to64();
        0
    } else {
        let k = one_is_a_power(n / 2);
        vstd::arithmetic::power2::lemma_pow2_unfold(k + 1);
        k + 1
    }
}

/// The netmask of an address's class, from its first byte.
pub proof fn what_an_address_class_is(address: Ipv4Addr)
    ensures
        ({
            let first = address.0 as int / 0x100_0000;
            &&& first < 128 ==> config::class_mask(address).0 == 0xFF00_0000
            &&& 128 <= first < 192 ==> config::class_mask(address).0 == 0xFFFF_0000
            &&& 192 <= first ==> config::class_mask(address).0 == 0xFFFF_FF00
        }),
{
}

/// An address a host can have: not in the first sixteen million, nor one of
/// the machine talking to itself, nor a group's nor one kept back.
pub proof fn what_a_host_address_is(address: Ipv4Addr)
    ensures
        ({
            let first = address.0 as int / 0x100_0000;
            config::host_address(address) == (first != 0 && first != 127 && first < 224)
        }),
{
}

/// What can be configured: a host's address that is not its subnet's own, a
/// netmask, and a gateway that is another host on the same subnet.
pub proof fn what_can_be_configured(
    address: Ipv4Addr,
    netmask: Ipv4Addr,
    gateway: Option<Ipv4Addr>,
)
    ensures
        ({
            let size: int = 0x1_0000_0000 - netmask.0;
            let base = base_of(address, netmask);
            config::configurable(address, netmask, gateway) == {
                &&& config::host_address(address)
                &&& config::is_netmask(netmask)
                &&& size > 2 ==> address.0 != base && address.0 != base + size - 1
                &&& gateway is Some ==> gateway->0 != address && config::host_address(gateway->0)
                    && base <= (gateway->0).0 < base + size
            }
        }),
{
    if config::is_netmask(netmask) {
        a_subnet_is_a_run_of_addresses(address, address, netmask);
        if gateway is Some {
            a_subnet_is_a_run_of_addresses(gateway->0, address, netmask);
        }
    }
}

/// Of a list of name servers the first three that could answer are kept: one
/// more is kept where fewer than three are and it could, and what could not is
/// passed over.
pub proof fn which_name_servers_are_kept(servers: Seq<Ipv4Addr>, next: Ipv4Addr)
    ensures
        ({
            let kept = config::kept_servers(servers);
            let more = config::kept_servers(servers.push(next));
            let answers = next.0 != 0 && next.0 != 0xFFFF_FFFF && !(0xE000_0000 <= next.0
                < 0xF000_0000);
            &&& kept.len() <= 3
            &&& answers && kept.len() < 3 ==> more == kept.push(next)
            &&& !answers || kept.len() == 3 ==> more == kept
            &&& config::kept_servers(Seq::empty()).len() == 0
        }),
{
    config::kept_servers_fit(servers);
    assert(servers.push(next).drop_last() =~= servers);
}

/// What a machine is reached through: itself where it is on the same subnet,
/// or is everybody or a group, and otherwise the gateway.
pub proof fn what_the_next_hop_is(c: Config, destination: Ipv4Addr)
    requires
        config::is_netmask(c.spec_netmask()),
    ensures
        ({
            let size: int = 0x1_0000_0000 - c.spec_netmask().0;
            let base = base_of(c.spec_address(), c.spec_netmask());
            let direct = base <= destination.0 < base + size || destination.0 == 0xFFFF_FFFF
                || 0xE000_0000 <= destination.0 < 0xF000_0000;
            &&& direct ==> config::next_hop_of(c, destination) == Some(destination)
            &&& !direct ==> config::next_hop_of(c, destination) == c.spec_gateway()
        }),
{
    a_subnet_is_a_run_of_addresses(destination, c.spec_address(), c.spec_netmask());
}

// ---- checksums ----------------------------------------------------------------------------

/// A checksum holds where the sixteen-bit words it covers come to nothing
/// modulo 65535, and they are not all zero.
pub proof fn when_a_checksum_holds(s: Seq<u8>)
    ensures
        (ip::checksum_of(s) == 0) == (ip::word_sum(s) > 0 && ip::word_sum(s) % 0xFFFF == 0),
        0 <= ip::checksum_of(s) <= 0xFFFF,
{
    ip::word_sum_bound(s);
    let t = ip::word_sum(s);
    if t > 0 {
        let r = (t - 1) % 0xFFFF;
        assert(t % 0xFFFF == (r + 1) % 0xFFFF);
    }
}

/// The sum of the words of a byte string, two bytes at a time and the last
/// alone where there is one: each byte counts once, in its own half.
pub proof fn what_a_word_sum_is(a: u8, b: u8, rest: Seq<u8>)
    ensures
        ip::word_sum(Seq::empty()) == 0,
        ip::word_sum(seq![a]) == a * 256,
        ip::word_sum(seq![a, b] + rest) == a * 256 + b + ip::word_sum(rest),
{
    assert((seq![a, b] + rest).skip(2) =~= rest);
}

/// The checksum of a segment or a datagram covers its two addresses, its
/// protocol and its length as well, as if they stood in front of it.
pub proof fn what_a_transport_checksum_covers(
    source: Ipv4Addr,
    destination: Ipv4Addr,
    protocol: u8,
    packet: Seq<u8>,
)
    requires
        packet.len() <= 0xFFFF,
    ensures
        ip::transport_checksum(source, destination, protocol, packet) == ip::checksum_of(
            source.octets() + destination.octets() + seq![0u8, protocol] + bytes::be16_bytes(
                packet.len() as int,
            ) + packet,
        ),
{
    let a = source.octets();
    let b = destination.octets();
    let c = seq![0u8, protocol];
    let d = bytes::be16_bytes(packet.len() as int);
    let n = packet.len() as int;
    four_make_two(source);
    four_make_two(destination);
    what_a_word_sum_is(0, protocol, Seq::empty());
    assert(c + Seq::<u8>::empty() =~= c);
    what_a_word_sum_is((n / 0x100 % 0x100) as u8, (n % 0x100) as u8, Seq::empty());
    assert(d =~= seq![(n / 0x100 % 0x100) as u8, (n % 0x100) as u8] + Seq::<u8>::empty());
    ip::word_sum_concat(a, b);
    ip::word_sum_concat(a + b, c);
    ip::word_sum_concat(a + b + c, d);
    ip::word_sum_concat(a + b + c + d, packet);
}

proof fn four_make_two(address: Ipv4Addr)
    ensures
        ip::word_sum(address.octets()) == address.0 / 0x1_0000 + address.0 % 0x1_0000,
        address.octets().len() == 4,
{
    let s = address.octets();
    let v = address.0 as int;
    let tail = seq![s[2], s[3]];
    assert(s =~= seq![s[0], s[1]] + tail);
    what_a_word_sum_is(s[0], s[1], tail);
    what_a_word_sum_is(s[2], s[3], Seq::empty());
    assert(tail + Seq::<u8>::empty() =~= tail);
    assert(s[0] == v / 0x100_0000 % 0x100);
    assert(s[1] == v / 0x1_0000 % 0x100);
    assert(v / 0x1_0000 == v / 0x100_0000 * 0x100 + v / 0x1_0000 % 0x100);
    assert(v % 0x1_0000 == v / 0x100 % 0x100 * 0x100 + v % 0x100);
}

// ---- datagrams ----------------------------------------------------------------------------

/// What a datagram looks like: version four and a header of twenty bytes, the
/// length of all of it, its number, not to be fragmented, good for 64 hops, the
/// protocol, the two addresses, and then what it carries.
pub proof fn where_a_datagram_has_its_fields(
    source: Ipv4Addr,
    destination: Ipv4Addr,
    protocol: u8,
    payload: Seq<u8>,
    identification: u16,
    i: int,
)
    requires
        20 + payload.len() <= 0xFFFF,
    ensures
        ({
            let s = ip::datagram_bytes(source, destination, protocol, payload, identification);
            &&& s.len() == 20 + payload.len()
            &&& s[0] == 0x45 && s[1] == 0
            &&& bytes::be16(s, 2) == 20 + payload.len()
            &&& bytes::be16(s, 4) == identification
            &&& bytes::be16(s, 6) == 0x4000
            &&& s[8] == 64
            &&& s[9] == protocol
            &&& bytes::be32(s, 12) == source.0
            &&& bytes::be32(s, 16) == destination.0
            &&& 0 <= i < payload.len() ==> s[20 + i] == payload[i]
            &&& ip::checksum_of(s.take(20)) == 0
        }),
{
    let s = ip::datagram_bytes(source, destination, protocol, payload, identification);
    let n = 20 + payload.len();
    ip::datagram_round_trip(source, destination, protocol, payload, identification, Seq::empty());
    assert(s + Seq::<u8>::empty() =~= s);
    let bare = ip::bare_header(
        source,
        destination,
        protocol,
        payload.len() as int,
        identification,
    );
    assert(bare.len() == 20);
    assert(s.subrange(2, 4) =~= bytes::be16_bytes(n as int));
    assert(s.subrange(4, 6) =~= bytes::be16_bytes(identification as int));
    assert(s.subrange(6, 8) =~= bytes::be16_bytes(0x4000));
    assert(s.subrange(12, 16) =~= source.octets());
    assert(s.subrange(16, 20) =~= destination.octets());
    bytes::be16_at(s, 2, n as int);
    bytes::be16_at(s, 4, identification as int);
    bytes::be16_at(s, 6, 0x4000);
    bytes::be32_at(s, 12, source.0 as int);
    bytes::be32_at(s, 16, destination.0 as int);
    assert(s.take(20) =~= s.take(ip::announced_ihl(s)));
}

/// What is read out of a datagram, each field from its place, and which
/// datagrams can be read: whole ones of version four whose header is as long
/// as it says, whose checksum holds, and which are all there.
pub proof fn what_is_read_out_of_a_datagram(s: Seq<u8>)
    requires
        s.len() >= 20,
    ensures
        ({
            let head = s[0] as int % 16 * 4;
            let length = s[2] * 256 + s[3];
            let h = ip::header_of(s);
            &&& ip::well_formed(s) == (s[0] as int / 16 == 4 && 20 <= head <= length && length
                <= s.len() && ip::checksum_of(s.take(head)) == 0)
            &&& h.protocol == s[9] && h.ttl == s[8]
            &&& h.source.0 == s[12] * 0x100_0000 + s[13] * 0x1_0000 + s[14] * 0x100 + s[15]
            &&& h.destination.0 == s[16] * 0x100_0000 + s[17] * 0x1_0000 + s[18] * 0x100 + s[19]
            &&& h.ihl == head && h.total_length == length
            &&& ip::well_formed(s) ==> ip::payload_of(s) == s.subrange(head, length)
            &&& h.fragment() == ((s[6] * 256 + s[7]) / 0x2000 % 2 == 1 || (s[6] * 256 + s[7])
                % 0x2000 != 0)
        }),
{
}

/// Which packets are for this machine. Off the card: what is sent to its
/// address, to everybody, or to everybody on its subnet, and never from itself
/// or with an address of a machine talking to itself at either end. From
/// itself: what is sent to it.
pub proof fn which_packets_are_for_us(l: LinkView, header: Header)
    requires
        l.config matches Some(c) ==> c.sound(),
    ensures
        ({
            let own = l.config is Some && l.config->0.spec_address() == header.destination;
            let forged = l.config is Some && l.config->0.spec_address() == header.source;
            let from_itself = header.source.0 as int / 0x100_0000 == 127;
            let to_itself = header.destination.0 as int / 0x100_0000 == 127;
            let size: int = 0x1_0000_0000 - l.config->0.spec_netmask().0;
            let base = base_of(l.config->0.spec_address(), l.config->0.spec_netmask());
            let everybody = header.destination.0 == 0xFFFF_FFFF;
            let neighbours = l.config is Some && base + size <= 0x1_0000_0000
                && header.destination.0 == base + size - 1;
            &&& forged || from_itself || to_itself ==> !ip::is_for_us(l, header, Origin::Card)
            &&& !(forged || from_itself || to_itself) && (own || everybody || neighbours)
                ==> ip::is_for_us(l, header, Origin::Card)
            &&& !own && !everybody && (l.config is None || base + size <= 0x1_0000_0000
                && !neighbours) ==> !ip::is_for_us(l, header, Origin::Card)
            &&& ip::is_for_us(l, header, Origin::Loopback) == (own || to_itself)
        }),
{
    if let Some(c) = l.config {
        a_subnet_is_a_run_of_addresses(c.spec_address(), c.spec_address(), c.spec_netmask());
    }
}

/// The sender of a packet off the card is learnt where it is on the machine's
/// own subnet: who sent it is then the card it came from.
pub proof fn whose_card_is_learnt(
    l: LinkView,
    s: Seq<u8>,
    source_mac: [u8; 6],
    origin: Origin,
    now: u64,
)
    ensures
        ({
            let h = ip::header_of(s);
            let taken = ip::well_formed(s) && ip::is_for_us(l, h, origin);
            let neighbour = origin == Origin::Card && h.source.0 != 0 && l.config is Some
                && config::same_subnet(
                h.source,
                l.config->0.spec_address(),
                l.config->0.spec_netmask(),
            );
            &&& taken && neighbour ==> ip::admitted(l, s, source_mac, origin, now) == arp::learned(
                l,
                h.source,
                source_mac,
                now,
            )
            &&& !(taken && neighbour) ==> ip::admitted(l, s, source_mac, origin, now) == l
            &&& ip::is_admitted(l, s, origin) == (taken && !h.fragment())
        }),
{
}

/// Sending: what does not fit in a frame is too long, what claims to come from
/// another machine is not sent, and what there is no way to is not reachable.
/// What is for the machine itself comes round to it; everything else goes to
/// the next hop. Each datagram sent has the next number.
pub proof fn what_sending_a_packet_comes_to(
    l: LinkView,
    source: Ipv4Addr,
    destination: Ipv4Addr,
    protocol: u8,
    payload: Seq<u8>,
    now: u64,
)
    ensures
        ({
            let (after, result) = ip::payload_sent(l, source, destination, protocol, payload, now);
            let own = l.config is Some && l.config->0.spec_address() == source;
            let itself = source.0 as int / 0x100_0000 == 127;
            let nobody = source.0 == 0 && l.config is None && destination.0 == 0xFFFF_FFFF;
            let allowed = own || itself || nobody;
            let home = destination.0 as int / 0x100_0000 == 127 || l.config is Some
                && l.config->0.spec_address() == destination;
            let datagram = ip::datagram_bytes(source, destination, protocol, payload, l.next_id);
            let numbered = LinkView {
                next_id: if l.next_id == 0xFFFF {
                    0
                } else {
                    (l.next_id + 1) as u16
                },
                ..l
            };
            &&& payload.len() > 1480 ==> after == l && result == Err::<(), Errno>(Errno::EMSGSIZE)
            &&& payload.len() <= 1480 && !allowed ==> after == l && result == Err::<(), Errno>(
                Errno::EADDRNOTAVAIL,
            )
            &&& payload.len() <= 1480 && allowed && home ==> result is Ok && after
                == numbered.looped_back(datagram)
            &&& payload.len() <= 1480 && allowed && !home && l.config is Some ==> {
                match config::next_hop_of(l.config->0, destination) {
                    Some(hop) => (after, result) == arp::datagram_sent(
                        numbered,
                        hop,
                        datagram,
                        now,
                    ),
                    None => after == numbered && result == Err::<(), Errno>(Errno::ENETUNREACH),
                }
            }
            &&& payload.len() <= 1480 && allowed && !home && l.config is None && destination.0
                == 0xFFFF_FFFF ==> (after, result) == arp::datagram_sent(
                numbered,
                destination,
                datagram,
                now,
            )
            &&& payload.len() <= 1480 && allowed && !home && l.config is None && destination.0
                != 0xFFFF_FFFF ==> after == numbered && result == Err::<(), Errno>(
                Errno::ENETUNREACH,
            )
        }),
{
}

// ---- finding the next machine --------------------------------------------------------------

/// A frame with a datagram in it, on its way to a card.
pub open spec fn framed(l: LinkView, mac: Seq<u8>, kind: u16, payload: Seq<u8>) -> (
    LinkView,
    Result<(), Errno>,
) {
    l.transmitted(ether::frame_bytes(mac, l.mac()@, kind, payload))
}

/// A question about an address, on its way to everybody.
pub open spec fn asking(l: LinkView, address: Ipv4Addr) -> (LinkView, Result<(), Errno>) {
    framed(
        l,
        seq![0xFFu8, 0xFFu8, 0xFFu8, 0xFFu8, 0xFFu8, 0xFFu8],
        0x0806,
        arp::packet(
            1,
            l.mac()@,
            if l.config is Some {
                l.config->0.spec_address()
            } else {
                Ipv4Addr(0)
            },
            seq![0u8, 0u8, 0u8, 0u8, 0u8, 0u8],
            address,
        ),
    )
}

proof fn asking_is_asking(l: LinkView, address: Ipv4Addr)
    ensures
        arp::asked_for(l, address) == asking(l, address),
{
    assert(ether::BROADCAST@ =~= seq![0xFFu8, 0xFFu8, 0xFFu8, 0xFFu8, 0xFFu8, 0xFFu8]);
    assert(arp::no_mac()@ =~= seq![0u8, 0u8, 0u8, 0u8, 0u8, 0u8]);
}

/// What becomes of a datagram for the next hop. For everybody it goes to every
/// card, and for a group to the group's. For a machine whose card is known and
/// still believed it goes to that card. Otherwise it waits, behind at most
/// three others, and the machine is asked for.
pub proof fn how_a_datagram_finds_its_way(
    l: LinkView,
    hop: Ipv4Addr,
    datagram: Seq<u8>,
    now: u64,
    k: int,
)
    requires
        now + 100 <= u64::MAX,
    ensures
        ({
            let sent = arp::datagram_sent(l, hop, datagram, now);
            let o = hop.octets();
            let known = 0 <= k < l.cache.len() && l.cache[k].address == hop && forall|j: int|
                0 <= j < k ==> (#[trigger] l.cache[j]).address != hop;
            let unknown = forall|j: int|
                0 <= j < l.cache.len() ==> (#[trigger] l.cache[j]).address != hop;
            let group = 0xE000_0000 <= hop.0 < 0xF000_0000;
            let single = hop.0 != 0xFFFF_FFFF && !group;
            let waits = EntryView {
                address: hop,
                mac: None,
                deadline: (now + 100) as u64,
                requests: 1,
                queued: seq![datagram],
            };
            &&& hop.0 == 0xFFFF_FFFF ==> sent == framed(
                l,
                seq![0xFFu8, 0xFFu8, 0xFFu8, 0xFFu8, 0xFFu8, 0xFFu8],
                0x0800,
                datagram,
            )
            &&& group ==> sent == framed(
                l,
                seq![0x01u8, 0x00u8, 0x5Eu8, (o[1] % 128) as u8, o[2], o[3]],
                0x0800,
                datagram,
            )
            &&& single && known && l.cache[k].mac is Some && now < l.cache[k].deadline ==> sent
                == framed(l, l.cache[k].mac->0@, 0x0800, datagram)
            &&& single && known && l.cache[k].mac is Some && now >= l.cache[k].deadline ==> sent
                == asking(LinkView { cache: l.cache.update(k, waits), ..l }, hop)
            &&& single && known && l.cache[k].mac is None && l.cache[k].queued.len() < 4 ==> sent
                == asking(
                LinkView {
                    cache: l.cache.update(
                        k,
                        EntryView { queued: l.cache[k].queued.push(datagram), ..l.cache[k] },
                    ),
                    ..l
                },
                hop,
            )
            &&& single && known && l.cache[k].mac is None && l.cache[k].queued.len() >= 4 ==> sent
                == asking(LinkView { cache: l.cache.update(k, l.cache[k]), ..l }, hop)
            &&& single && unknown && l.cache.len() < 64 ==> sent == asking(
                LinkView { cache: l.cache.push(waits), ..l },
                hop,
            )
        }),
{
    assert(ether::BROADCAST@ =~= seq![0xFFu8, 0xFFu8, 0xFFu8, 0xFFu8, 0xFFu8, 0xFFu8]);
    let waits = arp::unresolved(hop, datagram, now);
    if 0 <= k < l.cache.len() && l.cache[k].address == hop && forall|j: int|
        0 <= j < k ==> (#[trigger] l.cache[j]).address != hop {
        found_at(l.cache, hop, k);
        asking_is_asking(LinkView { cache: l.cache.update(k, waits), ..l }, hop);
        asking_is_asking(
            LinkView {
                cache: l.cache.update(
                    k,
                    EntryView { queued: l.cache[k].queued.push(datagram), ..l.cache[k] },
                ),
                ..l
            },
            hop,
        );
        asking_is_asking(LinkView { cache: l.cache.update(k, l.cache[k]), ..l }, hop);
    }
    if forall|j: int| 0 <= j < l.cache.len() ==> (#[trigger] l.cache[j]).address != hop {
        found_nowhere(l.cache, hop);
        asking_is_asking(LinkView { cache: l.cache.push(waits), ..l }, hop);
    }
}

proof fn found_at(cache: Seq<EntryView>, address: Ipv4Addr, k: int)
    requires
        0 <= k < cache.len(),
        cache[k].address == address,
        forall|j: int| 0 <= j < k ==> (#[trigger] cache[j]).address != address,
    ensures
        arp::position(cache, address) == k,
    decreases cache.len(),
{
    if k > 0 {
        let rest = cache.skip(1);
        assert(cache[0].address != address);
        assert(rest[k - 1] == cache[k]);
        assert forall|j: int| 0 <= j < k - 1 implies (#[trigger] rest[j]).address != address by {
            assert(rest[j] == cache[j + 1]);
        }
        found_at(rest, address, k - 1);
    }
}

proof fn found_nowhere(cache: Seq<EntryView>, address: Ipv4Addr)
    requires
        forall|j: int| 0 <= j < cache.len() ==> (#[trigger] cache[j]).address != address,
    ensures
        arp::position(cache, address) == cache.len(),
    decreases cache.len(),
{
    if cache.len() > 0 {
        let rest = cache.skip(1);
        assert(cache[0].address != address);
        assert forall|j: int| 0 <= j < rest.len() implies (#[trigger] rest[j]).address
            != address by {
            assert(rest[j] == cache[j + 1]);
        }
        found_nowhere(rest, address);
    }
}

/// A full cache makes room by forgetting one entry, and that is one that would
/// be believed no longer than any other.
pub proof fn what_is_forgotten_first(cache: Seq<EntryView>, k: int)
    requires
        0 <= k < cache.len(),
    ensures
        cache.len() < 64 ==> arp::with_room(cache) == cache,
        cache.len() >= 64 ==> {
            let gone = arp::oldest_of(cache);
            &&& 0 <= gone < cache.len()
            &&& arp::with_room(cache) == cache.remove(gone)
            &&& cache[gone].deadline <= cache[k].deadline
        },
{
    the_oldest(cache, k);
}

proof fn the_oldest(cache: Seq<EntryView>, k: int)
    requires
        0 <= k < cache.len(),
    ensures
        0 <= arp::oldest_of(cache) < cache.len(),
        cache[arp::oldest_of(cache)].deadline <= cache[k].deadline,
    decreases cache.len(),
{
    if cache.len() > 1 {
        let rest = cache.drop_last();
        if k < rest.len() {
            the_oldest(rest, k);
            assert(rest[k] == cache[k]);
        } else {
            the_oldest(rest, 0);
        }
        assert(rest[arp::oldest_of(rest)] == cache[arp::oldest_of(rest)]);
    }
}

/// Who is believed about an address: anybody but nobody, a group, or somebody
/// who claims an address of this machine's.
pub proof fn who_is_believed(l: LinkView, address: Ipv4Addr, mac: Seq<u8>)
    requires
        mac.len() == 6,
    ensures
        arp::believable(l, address, mac) == (address.0 != 0 && mac[0] % 2 == 0 && !(
        l.config is Some && l.config->0.spec_address() == address)),
{
}

/// What becomes of an entry as time goes by. One that is still good is left
/// alone; one whose answer is no longer believed is forgotten, and so is one
/// that was asked for four times; any other is asked for again, a second later
/// at the earliest.
pub proof fn what_becomes_of_an_entry(e: EntryView, now: u64)
    requires
        now + 100 <= u64::MAX,
    ensures
        arp::survivors(seq![e], now) == (if now < e.deadline {
            seq![e]
        } else if e.mac is Some || e.requests >= 4 {
            Seq::empty()
        } else {
            seq![
                EntryView {
                    requests: (e.requests + 1) as u32,
                    deadline: (now + 100) as u64,
                    ..e
                },
            ]
        }),
        arp::questions(seq![e], now) == (if now < e.deadline || e.mac is Some || e.requests >= 4 {
            Seq::empty()
        } else {
            seq![e.address]
        }),
{
    assert(seq![e].drop_last() =~= Seq::<EntryView>::empty());
    assert(arp::survivors(seq![e].drop_last(), now) =~= Seq::<EntryView>::empty());
    assert(arp::questions(seq![e].drop_last(), now) =~= Seq::<Ipv4Addr>::empty());
}

/// Each entry grows old by itself, and those that are left are in the order
/// they were in.
pub proof fn entries_age_one_by_one(first: Seq<EntryView>, second: Seq<EntryView>, now: u64)
    ensures
        arp::survivors(first + second, now) == arp::survivors(first, now) + arp::survivors(
            second,
            now,
        ),
        arp::questions(first + second, now) == arp::questions(first, now) + arp::questions(
            second,
            now,
        ),
    decreases second.len(),
{
    if second.len() == 0 {
        assert(first + second =~= first);
        assert(arp::survivors(first, now) + arp::survivors(second, now) =~= arp::survivors(
            first,
            now,
        ));
        assert(arp::questions(first, now) + arp::questions(second, now) =~= arp::questions(
            first,
            now,
        ));
    } else {
        assert((first + second).drop_last() =~= first + second.drop_last());
        entries_age_one_by_one(first, second.drop_last(), now);
        assert(arp::survivors(first + second, now) =~= arp::survivors(first, now)
            + arp::survivors(second, now));
        assert(arp::questions(first + second, now) =~= arp::questions(first, now)
            + arp::questions(second, now));
    }
}

/// Growing old leaves the entries that survive and asks about those that are
/// asked for again, in their order.
pub proof fn what_ageing_does(l: LinkView, addresses: Seq<Ipv4Addr>, next: Ipv4Addr, now: u64)
    ensures
        arp::aged(l, now) == arp::asked_all(
            LinkView { cache: arp::survivors(l.cache, now), ..l },
            arp::questions(l.cache, now),
        ),
        arp::asked_all(l, Seq::empty()) == l,
        arp::asked_all(l, addresses.push(next)) == asking(
            arp::asked_all(l, addresses),
            next,
        ).0,
{
    assert(addresses.push(next).drop_last() =~= addresses);
    asking_is_asking(arp::asked_all(l, addresses), next);
}

/// What an ARP packet does: its sender is learnt, where it is believed, and a
/// question about this machine's own address is answered, to the card it came
/// from. Anything that is not such a packet does nothing.
pub proof fn what_an_arp_packet_does(l: LinkView, p: Seq<u8>, now: u64)
    requires
        p.len() >= 28,
    ensures
        ({
            let after = arp::packet_taken(l, p, now);
            let sound = p[0] == 0 && p[1] == 1 && p[2] == 8 && p[3] == 0 && p[4] == 6 && p[5] == 4;
            let sender = Ipv4Addr(bytes::be32(p, 14) as u32);
            let target = Ipv4Addr(bytes::be32(p, 24) as u32);
            let mac = ether::mac_of(p, 8);
            let learnt = arp::learned(l, sender, mac, now);
            let for_us = p[6] == 0 && p[7] == 1 && l.config is Some
                && l.config->0.spec_address() == target;
            &&& !sound ==> after == l
            &&& sound && !for_us ==> after == learnt
            &&& sound && for_us ==> after == framed_after(
                learnt,
                mac@,
                0x0806,
                arp::packet(2, l.mac()@, target, mac@, sender),
            )
        }),
{
}

/// A link with one more frame on its way to a card.
pub open spec fn framed_after(l: LinkView, mac: Seq<u8>, kind: u16, payload: Seq<u8>) -> LinkView {
    framed(l, mac, kind, payload).0
}

} // verus!
