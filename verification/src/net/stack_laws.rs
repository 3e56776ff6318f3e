//! What holds between machines: what one sends is what the other takes, and
//! what is not for a machine does nothing to it.

use crate::errno::Errno;
use crate::net::arp;
use crate::net::icmp;
use crate::net::ip::{self, Ipv4Addr, Origin};
use crate::net::link::LinkView;
use crate::net::socket::{Endpoint, ProtocolView};
use crate::net::stack::NetView;
use crate::net::tcp::{self, OutgoingView};
use crate::net::tcp_laws;
use crate::net::udp;
use vstd::prelude::*;

verus! {

/// Sending what waited changes no address of this machine's.
proof fn sending_keeps_the_configuration(l: LinkView, mac: Seq<u8>, datagrams: Seq<Seq<u8>>)
    ensures
        arp::sent_all(l, mac, datagrams).config == l.config,
    decreases datagrams.len(),
{
    if datagrams.len() > 0 {
        sending_keeps_the_configuration(l, mac, datagrams.drop_last());
    }
}

/// Looking at a datagram's header changes no address of this machine's.
proof fn admitting_keeps_the_configuration(
    l: LinkView,
    bytes: Seq<u8>,
    source_mac: [u8; 6],
    origin: Origin,
    now: u64,
)
    ensures
        ip::admitted(l, bytes, source_mac, origin, now).config == l.config,
{
    let address = ip::header_of(bytes).source;
    let at = arp::position(l.cache, address);
    if at < l.cache.len() {
        sending_keeps_the_configuration(
            LinkView { cache: l.cache.update(at, arp::resolved(address, source_mac, now)), ..l },
            source_mac@,
            l.cache[at].queued,
        );
    }
}

/// What a datagram that is taken in, and holds what it should, does to the
/// sockets.
proof fn an_admitted_datagram(
    net: NetView,
    packet: Seq<u8>,
    from: Endpoint,
    to: Endpoint,
    data: Seq<u8>,
    source_mac: [u8; 6],
    now: u64,
    clock_ns: u64,
    id: usize,
)
    requires
        ip::is_admitted(net.link, packet, Origin::Card),
        ip::header_of(packet).protocol == ip::PROTO_UDP,
        ip::header_of(packet).source == from.address,
        ip::header_of(packet).destination == to.address,
        udp::is_datagram(from.address, to.address, ip::payload_of(packet)),
        udp::sender_of(from.address, ip::payload_of(packet)) == from,
        udp::receiver_of(to.address, ip::payload_of(packet)) == to,
        udp::data_of(ip::payload_of(packet)) == data,
        net.sockets.recipient(to, from) == Some(id),
    ensures
        net.packet_taken(packet, source_mac, Origin::Card, now, clock_ns).sockets
            == net.sockets.with(
            id,
            net.sockets.at(id).with_udp(net.sockets.at(id).inner->Udp_0.enqueued(from, data)),
        ),
{
}

/// How long a built datagram is.
proof fn length_of_a_datagram(from: Endpoint, to: Endpoint, data: Seq<u8>)
    ensures
        udp::datagram_bytes(from, to, data).len() == udp::HEADER_LEN + data.len(),
{
}

/// A datagram one machine sends to a port of another is the one its socket
/// there takes: the same bytes, from the same place, behind whatever waits
/// already. Padding the link put behind it makes no difference.
#[verifier::spinoff_prover]
pub proof fn a_datagram_arrives_as_it_was_sent(
    net: NetView,
    from: Endpoint,
    to: Endpoint,
    data: Seq<u8>,
    identification: u16,
    padding: Seq<u8>,
    source_mac: [u8; 6],
    now: u64,
    clock_ns: u64,
    id: usize,
)
    requires
        net.link.is_ours(to.address),
        !to.address.loopback(),
        !net.link.is_ours(from.address),
        !from.address.loopback(),
        ip::HEADER_LEN + udp::HEADER_LEN + data.len() <= ip::MAX_DATAGRAM,
        net.sockets.recipient(to, from) == Some(id),
    ensures
        ({
            let packet = ip::datagram_bytes(
                from.address,
                to.address,
                ip::PROTO_UDP,
                udp::datagram_bytes(from, to, data),
                identification,
            ) + padding;
            let socket = net.sockets.at(id);
            let after = net.packet_taken(packet, source_mac, Origin::Card, now, clock_ns);
            after.sockets == net.sockets.with(
                id,
                socket.with_udp(socket.inner->Udp_0.enqueued(from, data)),
            )
        }),
{
    let payload = udp::datagram_bytes(from, to, data);
    let packet = ip::datagram_bytes(
        from.address,
        to.address,
        ip::PROTO_UDP,
        payload,
        identification,
    ) + padding;
    length_of_a_datagram(from, to, data);
    udp::datagram_round_trip(from, to, data);
    ip::datagram_round_trip(
        from.address,
        to.address,
        ip::PROTO_UDP,
        payload,
        identification,
        padding,
    );
    an_admitted_datagram(net, packet, from, to, data, source_mac, now, clock_ns, id);
}

/// A datagram put on an empty queue is what the next read gives, whole where
/// there is room for it, and from where it came.
pub proof fn what_was_queued_is_read(socket: udp::UdpView, from: Endpoint, data: Seq<u8>, size: int)
    requires
        socket.queue.len() == 0,
        data.len() <= udp::QUEUE_BYTES,
        data.len() <= size,
    ensures
        socket.enqueued(from, data).readable(size) == data,
        socket.enqueued(from, data).read_result(size) == Ok::<(usize, Endpoint), Errno>(
            (data.len() as usize, from),
        ),
        socket.enqueued(from, data).taken().queue == socket.queue,
{
    assert(udp::made_room(socket.queue, data.len() as int) == socket.queue);
    assert(socket.enqueued(from, data).taken().queue =~= socket.queue);
}

/// A socket is readable exactly where a read would not have to wait: one that
/// is not listening reports something to read, an end or an error, and
/// otherwise the read would be told to try again.
pub proof fn readable_is_where_a_read_would_not_wait(
    net: NetView,
    id: usize,
    size: int,
    peek: bool,
    now: u64,
)
    requires
        net.sockets.valid(),
        net.sockets.has(id),
        net.sockets.at(id).inner matches ProtocolView::Tcp(tcb) ==> !(tcb.state is Listen),
        size > 0,
    ensures
        net.sockets.readable(id) <==> net.received_from(id, size, peek, now).1 != Err::<
            (usize, Endpoint),
            Errno,
        >(Errno::EAGAIN),
{
    assert(net.sockets.slots[id as int]->0.valid());
}

/// A datagram's send asks the card about one frame at most, and about none
/// where the send has failed already: one answer settles it.
pub proof fn a_send_asks_about_one_frame(
    state: udp::UdpView,
    l: LinkView,
    buf: Seq<u8>,
    to: Option<Endpoint>,
    now: u64,
)
    ensures
        ({
            let (after, result) = state.sent(l, buf, to, now);
            ||| after.outbox == l.outbox
            ||| result is Ok && after.outbox.len() == l.outbox.len() + 1 && after.outbox.drop_last()
                == l.outbox
        }),
{
    let (after, result) = state.sent(l, buf, to, now);
    if after.outbox.len() == l.outbox.len() + 1 {
        assert(after.outbox.drop_last() =~= l.outbox);
    }
}

/// A segment one machine sends is the one the connection at the other takes:
/// its flags, its numbers and its data.
pub proof fn a_segment_arrives_as_it_was_sent(
    net: NetView,
    o: OutgoingView,
    identification: u16,
    padding: Seq<u8>,
    source_mac: [u8; 6],
    now: u64,
    clock_ns: u64,
    id: usize,
)
    requires
        net.link.is_ours(o.destination.address),
        !o.destination.address.loopback(),
        !net.link.is_ours(o.source.address),
        !o.source.address.loopback(),
        o.payload.len() <= tcp::MAX_PAYLOAD,
        ip::HEADER_LEN + tcp::segment_bytes(o).len() <= ip::MAX_DATAGRAM,
        net.sockets.conversation(o.destination, o.source) == Some(id),
    ensures
        ({
            let packet = ip::datagram_bytes(
                o.source.address,
                o.destination.address,
                ip::PROTO_TCP,
                tcp::segment_bytes(o),
                identification,
            ) + padding;
            let after = net.packet_taken(packet, source_mac, Origin::Card, now, clock_ns);
            after.sockets == net.sockets.with(
                id,
                net.sockets.at(id).with_tcb(
                    net.tcb(id).on_arrival(tcp_laws::arriving(o), now).tcb,
                ),
            )
        }),
{
    let packet = ip::datagram_bytes(
        o.source.address,
        o.destination.address,
        ip::PROTO_TCP,
        tcp::segment_bytes(o),
        identification,
    ) + padding;
    tcp::segment_round_trip(o);
    ip::datagram_round_trip(
        o.source.address,
        o.destination.address,
        ip::PROTO_TCP,
        tcp::segment_bytes(o),
        identification,
        padding,
    );
    admitting_keeps_the_configuration(net.link, packet, source_mac, Origin::Card, now);
}

/// What is sent to everyone, and not to this machine by name, opens no
/// connection, moves none and draws no answer from TCP or ICMP: all it can do
/// is show where a neighbour is.
pub proof fn a_broadcast_draws_no_answer(
    net: NetView,
    packet: Seq<u8>,
    source_mac: [u8; 6],
    now: u64,
    clock_ns: u64,
)
    requires
        !net.link.is_ours(ip::header_of(packet).destination),
        ip::header_of(packet).protocol != ip::PROTO_UDP,
    ensures
        net.packet_taken(packet, source_mac, Origin::Card, now, clock_ns) == (NetView {
            link: ip::admitted(net.link, packet, source_mac, Origin::Card, now),
            ..net
        }),
{
    admitting_keeps_the_configuration(net.link, packet, source_mac, Origin::Card, now);
}

/// Nothing off the card that claims to come from this machine, or names a
/// loopback address at either end, does anything.
pub proof fn forged_addresses_do_nothing(
    net: NetView,
    packet: Seq<u8>,
    source_mac: [u8; 6],
    now: u64,
    clock_ns: u64,
)
    requires
        net.link.is_ours(ip::header_of(packet).source) || ip::header_of(packet).source.loopback()
            || ip::header_of(packet).destination.loopback(),
    ensures
        net.packet_taken(packet, source_mac, Origin::Card, now, clock_ns) == net,
{
}

/// A machine with no address takes nothing off the card but what is sent to
/// everyone.
pub proof fn without_an_address_only_broadcasts_arrive(
    net: NetView,
    packet: Seq<u8>,
    source_mac: [u8; 6],
    now: u64,
    clock_ns: u64,
)
    requires
        net.link.config is None,
        !ip::header_of(packet).destination.limited_broadcast(),
    ensures
        net.packet_taken(packet, source_mac, Origin::Card, now, clock_ns) == net,
{
}

/// A ping for this machine is answered with what it carried: the identifier,
/// the sequence number and the body go back unchanged.
pub proof fn a_ping_is_answered_with_what_it_carried(
    l: LinkView,
    source: Ipv4Addr,
    destination: Ipv4Addr,
    rest: Seq<u8>,
    body: Seq<u8>,
    now: u64,
)
    requires
        rest.len() == 4,
        destination.loopback() || l.is_ours(destination),
    ensures
        icmp::answered(
            l,
            source,
            destination,
            icmp::message_bytes(icmp::TYPE_ECHO_REQUEST, 0, rest, body),
            now,
        ) == ip::payload_sent(
            l,
            destination,
            source,
            ip::PROTO_ICMP,
            icmp::message_bytes(icmp::TYPE_ECHO_REPLY, 0, rest, body),
            now,
        ).0,
{
    icmp::message_sums_to_zero(icmp::TYPE_ECHO_REQUEST, 0, rest, body);
}

} // verus!
