//! What becomes of a frame that arrives: whom it is for, which protocol takes
//! it, and what a segment does that belongs to no connection.

use crate::errno::Errno;
use crate::net::arp;
use crate::net::ether;
use crate::net::icmp;
use crate::net::ip::{self, Ipv4Addr, Origin};
use crate::net::link::LinkView;
use crate::net::socket::{self, Endpoint, ProtocolView, SocketView, SocketsView};
use crate::net::stack::NetView;
use crate::net::tcp::{self, OutgoingView, SegmentView, TcbView};
use crate::net::tcp_laws;
use crate::net::tcp_table;
use vstd::prelude::*;

verus! {

// ---- segments ----------------------------------------------------------------------------

/// A segment that arrives whole and is for this machine.
pub open spec fn is_taken(
    net: NetView,
    source: Ipv4Addr,
    destination: Ipv4Addr,
    bytes: Seq<u8>,
) -> bool {
    &&& tcp::is_segment(bytes)
    &&& ip::transport_checksum(source, destination, 6, bytes) == 0
    &&& destination.0 as int / 0x100_0000 == 127 || net.link.config is Some
        && net.link.config->0.spec_address() == destination
}

/// A segment that is damaged, or for another machine, does nothing. One of a
/// connection is its connection's, and what the connection sends goes out. One
/// that asks for a connection where somebody listens makes one. Anything else
/// is answered with a reset, but for a reset, which never is.
pub proof fn whose_a_segment_is(
    net: NetView,
    source: Ipv4Addr,
    destination: Ipv4Addr,
    bytes: Seq<u8>,
    now: u64,
    clock_ns: u64,
)
    ensures
        ({
            let after = net.segment_taken(source, destination, bytes, now, clock_ns);
            let segment = tcp::segment_of(bytes);
            let local = Endpoint { address: destination, port: segment.destination_port };
            let remote = Endpoint { address: source, port: segment.source_port };
            let found = net.sockets.conversation(local, remote);
            let listener = net.sockets.listener(local);
            let syn = segment.flags & 2 != 0;
            let ack = segment.flags & 16 != 0;
            let rst = segment.flags & 4 != 0;
            &&& !is_taken(net, source, destination, bytes) ==> after == net
            &&& is_taken(net, source, destination, bytes) && found is Some ==> {
                let step = net.sockets.at(found->0).inner->Tcp_0.on_arrival(segment, now);
                &&& after.sockets == net.sockets.with(
                    found->0,
                    (SocketView {
                        inner: ProtocolView::Tcp(step.tcb),
                        ..net.sockets.at(found->0)
                    }),
                )
                &&& after.link == (LinkView {
                    woken: tcp_table::segments_sent(net.link, step.sent, now).woken || step.woke,
                    ..tcp_table::segments_sent(net.link, step.sent, now)
                })
            }
            &&& is_taken(net, source, destination, bytes) && found is None && syn && !ack && !rst
                && listener is Some ==> after == net.connection_accepted(
                listener->0,
                local,
                remote,
                segment,
                now,
                clock_ns,
            )
            &&& is_taken(net, source, destination, bytes) && found is None && rst ==> after == net
            &&& is_taken(net, source, destination, bytes) && found is None && !rst && !(syn && !ack
                && listener is Some) ==> after.sockets == net.sockets && after.link
                == tcp_table::segments_sent(
                net.link,
                seq![tcp_table::reset_for(local, remote, segment)],
                now,
            )
        }),
{
}

/// The reset a segment to nobody draws: back where it came from, and numbered
/// so that its sender believes it. One that acknowledged something gets a
/// reset at the number it acknowledged; any other gets one that acknowledges
/// all of it.
pub proof fn what_a_reset_says(local: Endpoint, remote: Endpoint, segment: SegmentView)
    ensures
        ({
            let o = tcp_table::reset_for(local, remote, segment);
            let ack = segment.flags & 16 != 0;
            let syn: int = if segment.flags & 2 != 0 {
                1
            } else {
                0
            };
            let fin: int = if segment.flags & 1 != 0 {
                1
            } else {
                0
            };
            &&& o.source == local
            &&& o.destination == remote
            &&& o.payload.len() == 0
            &&& o.mss is None
            &&& o.flags & 4 != 0
            &&& ack ==> o.flags == 4 && o.sequence == segment.acknowledgement
            &&& !ack ==> o.flags & 16 != 0 && o.sequence == 0
            &&& !ack && segment.payload.len() <= 0xFFFF ==> o.acknowledgement == (segment.sequence
                + segment.payload.len() + syn + fin) % 0x1_0000_0000
        }),
{
    tcp_laws::flag_bits();
    assert(4u8 & 4u8 == 4u8) by (bit_vector);
}

/// A connection request at a listener with room makes a socket of its own: a
/// stream between the two ends, half open, that packets find and the listener
/// waits for, behind those that came before it. It is answered at once. A
/// listener without room does not hear the request.
pub proof fn what_a_connection_request_does(
    net: NetView,
    listener: usize,
    local: Endpoint,
    remote: Endpoint,
    segment: SegmentView,
    now: u64,
    clock_ns: u64,
)
    requires
        net.sockets.valid(),
        net.sockets.has(listener),
        net.sockets.at(listener).listening(),
        now <= tcp::LAST_TICK,
        net.sockets.slots.len() < usize::MAX,
    ensures
        ({
            let after = net.connection_accepted(listener, local, remote, segment, now, clock_ns);
            let parent = net.sockets.at(listener).inner->Tcp_0;
            let id = net.sockets.slots.len() as usize;
            &&& parent.children.len() >= parent.backlog ==> after == net
            &&& parent.children.len() < parent.backlog ==> {
                let child = after.sockets.at(id).inner->Tcp_0;
                let iss = tcp::first_sequence(local, remote, clock_ns, net.link.secret);
                &&& after.sockets.has(id)
                &&& after.sockets.at(id).stream
                &&& !after.sockets.at(id).detached
                &&& after.sockets.at(id).inner is Tcp
                &&& child.state is SynReceived
                &&& child.local == local && child.remote == remote && child.bound
                &&& child.irs == segment.sequence
                &&& child.receive_next == segment.sequence.wrapping_add(1)
                &&& child.iss == iss
                &&& child.send_unacknowledged == iss
                &&& child.send_next == iss.wrapping_add(1)
                &&& child.send_window == segment.window
                &&& child.retransmit_at == now + 50
                &&& child.children.len() == 0 && child.pending.len() == 0 && child.received.len()
                    == 0
                &&& after.sockets.at(listener) == SocketView {
                    inner: ProtocolView::Tcp(
                        TcbView { children: parent.children.push(id), ..parent },
                    ),
                    ..net.sockets.at(listener)
                }
                &&& forall|i: int|
                    0 <= i < net.sockets.slots.len() && i != listener
                        ==> #[trigger] after.sockets.slots[i] == net.sockets.slots[i]
                &&& after.sockets.slots.len() == net.sockets.slots.len() + 1
                &&& after.sockets.table == net.sockets.table.push(id)
                &&& after.sockets.next_ephemeral == net.sockets.next_ephemeral
                &&& after.link == tcp_table::segments_sent(
                    net.link,
                    seq![
                        OutgoingView {
                            source: local,
                            destination: remote,
                            sequence: iss,
                            acknowledgement: segment.sequence.wrapping_add(1),
                            flags: tcp::SYN | tcp::ACK,
                            window: 32768,
                            mss: Some(1460u16),
                            payload: Seq::empty(),
                        },
                    ],
                    now,
                )
            }
        }),
{
    tcp_laws::flag_bits();
    let parent = net.sockets.at(listener).inner->Tcp_0;
    let id = net.sockets.slots.len() as usize;
    assert(!net.sockets.table.contains(id)) by {
        if net.sockets.table.contains(id) {
            let k = choose|k: int| 0 <= k < net.sockets.table.len() && net.sockets.table[k] == id;
            assert(net.sockets.has(net.sockets.table[k]));
        }
    }
    let child = (TcbView { local, remote, bound: true, ..TcbView::fresh() }).accepted(
        segment,
        clock_ns,
        net.link.secret,
    );
    assert(child.control(tcp::SYN | tcp::ACK, child.iss, true).window == 32768);
}

/// What a segment is sent from: the address it names, and otherwise the one
/// packets for its destination leave from. It goes out as a datagram of
/// protocol six; where there is no way to its destination it does not.
pub proof fn how_a_segment_goes_out(l: LinkView, o: OutgoingView, now: u64)
    requires
        o.payload.len() <= 1460,
    ensures
        ({
            let source = if o.source.address.0 != 0 {
                Ok::<Ipv4Addr, Errno>(o.source.address)
            } else {
                l.source_towards(o.destination.address)
            };
            &&& tcp_table::segments_sent(l, Seq::empty(), now) == l
            &&& tcp_table::segments_sent(l, seq![o], now) == tcp_table::segment_sent(l, o, now)
            &&& source is Err ==> tcp_table::segment_sent(l, o, now) == l
            &&& source is Ok ==> tcp_table::segment_sent(l, o, now) == ip::payload_sent(
                l,
                source->Ok_0,
                o.destination.address,
                6,
                tcp::segment_bytes(
                    OutgoingView {
                        source: Endpoint { address: source->Ok_0, port: o.source.port },
                        ..o
                    },
                ),
                now,
            ).0
        }),
{
    assert(seq![o].drop_last() =~= Seq::<OutgoingView>::empty());
    assert(tcp_table::segments_sent(l, seq![o].drop_last(), now) == l);
}

/// Segments go out one after another, in their order.
pub proof fn segments_go_out_in_order(
    l: LinkView,
    first: Seq<OutgoingView>,
    second: Seq<OutgoingView>,
    now: u64,
)
    ensures
        tcp_table::segments_sent(l, first + second, now) == tcp_table::segments_sent(
            tcp_table::segments_sent(l, first, now),
            second,
            now,
        ),
    decreases second.len(),
{
    if second.len() == 0 {
        assert(first + second =~= first);
    } else {
        assert((first + second).drop_last() =~= first + second.drop_last());
        segments_go_out_in_order(l, first, second.drop_last(), now);
    }
}

// ---- the clock --------------------------------------------------------------------------

/// A step of one connection is none of any other socket's.
proof fn a_step_is_one_sockets(net: NetView, stepping: usize, id: usize, step: tcp::Step, now: u64)
    requires
        stepping != id,
        net.sockets.has(id),
    ensures
        net.stepped(stepping, step, now).sockets.has(id),
        net.stepped(stepping, step, now).sockets.at(id) == net.sockets.at(id),
{
}

/// One more socket on a list of those that are over.
proof fn one_more_is_over(finished: Seq<usize>, last: usize, id: usize)
    requires
        last != id,
    ensures
        finished.push(last).contains(id) == finished.contains(id),
{
    let after = finished.push(last);
    if after.contains(id) {
        let k = choose|k: int| 0 <= k < after.len() && after[k] == id;
        assert(finished[k] == id);
    }
    if finished.contains(id) {
        let k = choose|k: int| 0 <= k < finished.len() && finished[k] == id;
        assert(after[k] == id);
    }
}

proof fn others_are_left_alone(net: NetView, ids: Seq<usize>, id: usize, now: u64)
    requires
        !ids.contains(id),
        net.sockets.has(id),
    ensures
        net.timers_run(ids, now).0.sockets.has(id),
        net.timers_run(ids, now).0.sockets.at(id) == net.sockets.at(id),
        !net.timers_run(ids, now).1.contains(id),
    decreases ids.len(),
{
    if ids.len() > 0 {
        let rest = ids.drop_last();
        assert(ids[ids.len() - 1] == ids.last());
        assert forall|k: int| 0 <= k < rest.len() implies rest[k] != id by {
            assert(rest[k] == ids[k]);
        }
        others_are_left_alone(net, rest, id, now);
        let (before, finished) = net.timers_run(rest, now);
        let last = ids.last();
        assert(last != id);
        a_step_is_one_sockets(before, last, id, before.tcb(last).on_deadline(now), now);
        one_more_is_over(finished, last, id);
    }
}

proof fn each_is_run_once(net: NetView, ids: Seq<usize>, k: int, now: u64)
    requires
        0 <= k < ids.len(),
        forall|i: int, j: int| 0 <= i < j < ids.len() ==> ids[i] != ids[j],
        net.has_stream(ids[k]),
    ensures
        ({
            let (after, finished) = net.timers_run(ids, now);
            let step = net.tcb(ids[k]).on_deadline(now);
            &&& after.sockets.at(ids[k]) == net.sockets.at(ids[k]).with_tcb(step.tcb)
            &&& after.sockets.has(ids[k])
            &&& finished.contains(ids[k]) <==> step.tcb.state is Closed && net.sockets.at(
                ids[k],
            ).detached
        }),
    decreases ids.len(),
{
    let rest = ids.drop_last();
    let last = ids.len() - 1;
    let (before, finished) = net.timers_run(rest, now);
    let (after, all) = net.timers_run(ids, now);
    if k == last {
        assert(!rest.contains(ids[k])) by {
            if rest.contains(ids[k]) {
                let j = choose|j: int| 0 <= j < rest.len() && rest[j] == ids[k];
                assert(ids[j] == ids[k]);
            }
        }
        others_are_left_alone(net, rest, ids[k], now);
        let step = net.tcb(ids[k]).on_deadline(now);
        if step.tcb.state is Closed && net.sockets.at(ids[k]).detached {
            assert(all[finished.len() as int] == ids[k]);
        }
    } else {
        assert forall|i: int, j: int| 0 <= i < j < rest.len() implies rest[i] != rest[j] by {
            assert(ids[i] != ids[j]);
        }
        each_is_run_once(net, rest, k, now);
        assert(rest[k] == ids[k]);
        assert(ids[k] != ids[last]);
        if all != finished {
            assert(all == finished.push(ids[last]));
            if finished.contains(ids[k]) {
                let j = choose|j: int| 0 <= j < finished.len() && finished[j] == ids[k];
                assert(all[j] == ids[k]);
            }
            if all.contains(ids[k]) {
                let j = choose|j: int| 0 <= j < all.len() && all[j] == ids[k];
                assert(finished[j] == ids[k]);
            }
        }
    }
}

pub(crate) proof fn forgetting_many(sockets: SocketsView, ids: Seq<usize>, id: usize)
    requires
        id < sockets.slots.len(),
    ensures
        tcp_table::all_forgotten(sockets, ids).slots.len() == sockets.slots.len(),
        ids.contains(id) ==> !tcp_table::all_forgotten(sockets, ids).has(id),
        !ids.contains(id) ==> tcp_table::all_forgotten(sockets, ids).slots[id as int]
            == sockets.slots[id as int],
    decreases ids.len(),
{
    if ids.len() > 0 {
        let rest = ids.drop_last();
        forgetting_many(sockets, rest, id);
        assert(ids[ids.len() - 1] == ids.last());
        if ids.contains(id) {
            let k = choose|k: int| 0 <= k < ids.len() && ids[k] == id;
            if k < rest.len() {
                assert(rest[k] == id);
            }
        }
        if rest.contains(id) {
            let k = choose|k: int| 0 <= k < rest.len() && rest[k] == id;
            assert(ids[k] == id);
        }
    }
}

/// The clock runs every connection packets can find, once: each is left as its
/// own deadline has it, and one that is over and that nobody holds a
/// descriptor for is gone.
pub proof fn the_clock_runs_every_connection(net: NetView, k: int, now: u64)
    requires
        net.sockets.valid(),
        forall|i: int, j: int|
            0 <= i < j < net.sockets.table.len() ==> net.sockets.table[i] != net.sockets.table[j],
        0 <= k < net.sockets.table.len(),
        net.has_stream(net.sockets.table[k]),
    ensures
        ({
            let after = net.connections_ticked(now);
            let id = net.sockets.table[k];
            let step = net.sockets.at(id).inner->Tcp_0.on_deadline(now);
            let over = step.tcb.state is Closed && net.sockets.at(id).detached;
            &&& over ==> !after.sockets.has(id)
            &&& !over ==> after.sockets.has(id) && after.sockets.at(id) == SocketView {
                inner: ProtocolView::Tcp(step.tcb),
                ..net.sockets.at(id)
            }
        }),
{
    let id = net.sockets.table[k];
    assert(net.sockets.has(net.sockets.table[k]));
    each_is_run_once(net, net.sockets.table, k, now);
    let (after, finished) = net.timers_run(net.sockets.table, now);
    forgetting_many(after.sockets, finished, id);
}

/// The next thing due is the earliest of what the connections have due.
pub proof fn the_earliest_deadline_comes_first(net: NetView, ids: Seq<usize>, k: int)
    ensures
        0 <= k < ids.len() && net.has_stream(ids[k]) ==> net.earliest_of(ids) <= net.sockets.at(
            ids[k],
        ).inner->Tcp_0.deadline(),
        net.earliest_of(ids) != u64::MAX ==> exists|j: int|
            0 <= j < ids.len() && net.has_stream(#[trigger] ids[j]) && net.earliest_of(ids)
                == net.sockets.at(ids[j]).inner->Tcp_0.deadline(),
    decreases ids.len(),
{
    if ids.len() > 0 {
        let rest = ids.drop_last();
        the_earliest_deadline_comes_first(net, rest, k);
        assert(ids[ids.len() - 1] == ids.last());
        if 0 <= k < rest.len() {
            assert(rest[k] == ids[k]);
        }
        if net.earliest_of(ids) == net.earliest_of(rest) && net.earliest_of(rest) != u64::MAX {
            let j = choose|j: int|
                0 <= j < rest.len() && net.has_stream(#[trigger] rest[j]) && net.earliest_of(rest)
                    == net.sockets.at(rest[j]).inner->Tcp_0.deadline();
            assert(ids[j] == rest[j]);
        }
    }
}

// ---- datagrams and frames -------------------------------------------------------------------

/// A datagram that is whole waits at the socket it is for, with who sent it
/// and what it holds; one that is damaged, or for nobody, does nothing.
pub proof fn where_a_datagram_waits(
    net: NetView,
    source: Ipv4Addr,
    destination: Ipv4Addr,
    packet: Seq<u8>,
)
    requires
        packet.len() >= 8,
    ensures
        ({
            let after = net.datagram_taken(source, destination, packet);
            let length = packet[4] * 0x100 + packet[5];
            let from = Endpoint { address: source, port: (packet[0] * 0x100 + packet[1]) as u16 };
            let to = Endpoint { address: destination, port: (packet[2] * 0x100 + packet[3]) as u16 };
            let whole = 8 <= length <= packet.len() && (packet[6] * 0x100 + packet[7] == 0
                || ip::transport_checksum(source, destination, 17, packet.take(length)) == 0);
            let id = net.sockets.recipient(to, from);
            &&& !whole || id is None ==> after == net
            &&& whole && id is Some ==> {
                &&& after.sockets == net.sockets.with(
                    id->0,
                    (SocketView {
                        inner: ProtocolView::Udp(
                            net.sockets.at(id->0).inner->Udp_0.enqueued(
                                from,
                                packet.subrange(8, length),
                            ),
                        ),
                        ..net.sockets.at(id->0)
                    }),
                )
                &&& after.link == (LinkView { woken: true, ..net.link })
            }
        }),
{
}

/// A packet that is let in goes to the protocol it names, with what it
/// carries; one that is not, or that names another, does nothing more.
pub proof fn which_protocol_takes_a_packet(
    net: NetView,
    packet: Seq<u8>,
    source_mac: [u8; 6],
    origin: Origin,
    now: u64,
    clock_ns: u64,
)
    ensures
        ({
            let after = net.packet_taken(packet, source_mac, origin, now, clock_ns);
            let let_in = ip::is_admitted(net.link, packet, origin);
            let link = ip::admitted(net.link, packet, source_mac, origin, now);
            let noted = NetView { link, ..net };
            let header = ip::header_of(packet);
            let payload = ip::payload_of(packet);
            &&& !let_in ==> after == noted
            &&& let_in && header.protocol == 1 ==> after.sockets == net.sockets && after.link
                == icmp::answered(link, header.source, header.destination, payload, now)
            &&& let_in && header.protocol == 17 ==> after == noted.datagram_taken(
                header.source,
                header.destination,
                payload,
            )
            &&& let_in && header.protocol == 6 ==> after == noted.segment_taken(
                header.source,
                header.destination,
                payload,
                now,
                clock_ns,
            )
            &&& let_in && header.protocol != 1 && header.protocol != 6 && header.protocol != 17
                ==> after == noted
        }),
{
}

/// A frame for another card is passed over, and one for this card or for a
/// group goes to the protocol it names. Then the clock is looked at.
pub proof fn which_frames_are_taken(net: NetView, frame: Seq<u8>, now: u64, clock_ns: u64)
    requires
        net.link.loss == 0,
        frame.len() >= 14,
    ensures
        ({
            let after = net.frame_taken(frame, now, clock_ns);
            let group = frame[0] % 2 == 1;
            let mine = forall|i: int| 0 <= i < 6 ==> frame[i] == #[trigger] net.link.mac()@[i];
            let kind = frame[12] * 0x100 + frame[13];
            let payload = frame.subrange(14, frame.len() as int);
            &&& !group && !mine ==> after == net
            &&& (group || mine) && kind == 0x0806 ==> after == NetView {
                link: arp::packet_taken(net.link, payload, now),
                ..net
            }.ticked(now, clock_ns)
            &&& (group || mine) && kind == 0x0800 ==> after == net.packet_taken(
                payload,
                ether::mac_of(frame, 6),
                Origin::Card,
                now,
                clock_ns,
            ).ticked(now, clock_ns)
            &&& (group || mine) && kind != 0x0800 && kind != 0x0806 ==> after == net.ticked(
                now,
                clock_ns,
            )
        }),
{
    which_card(net, frame);
    assert(frame.skip(14) =~= frame.subrange(14, frame.len() as int));
}

/// A frame is addressed to this machine where its first six bytes are the
/// card's address or a group's.
proof fn which_card(net: NetView, frame: Seq<u8>)
    requires
        frame.len() >= 14,
    ensures
        net.is_addressed(frame) == (frame[0] % 2 == 1 || forall|i: int|
            0 <= i < 6 ==> frame[i] == #[trigger] net.link.mac()@[i]),
{
    let mac = ether::mac_of(frame, 0);
    let mine = forall|i: int| 0 <= i < 6 ==> frame[i] == #[trigger] net.link.mac()@[i];
    assert(mac@.len() == 6 && net.link.mac()@.len() == 6);
    if mine {
        assert forall|i: int| 0 <= i < 6 implies mac@[i] == net.link.mac()@[i] by {
            assert(frame[i] == net.link.mac()@[i]);
        }
        assert(mac@ =~= net.link.mac()@);
        assert(mac =~= net.link.mac());
    }
    if mac == net.link.mac() {
        assert forall|i: int| 0 <= i < 6 implies frame[i] == #[trigger] net.link.mac()@[i] by {
            assert(mac@[i] == frame[i]);
        }
    }
    assert(frame.subrange(0, 6)[0] == frame[0]);
}

/// What the machine sends itself arrives in the order it was sent, and what
/// that in turn sends arrives behind it.
pub proof fn what_goes_round_arrives_in_order(net: NetView, count: nat, now: u64, clock_ns: u64)
    ensures
        net.link.loopback.len() == 0 ==> net.loopback_delivered(count, now, clock_ns) == net,
        net.link.loopback.len() > 0 && count > 0 ==> net.loopback_delivered(count, now, clock_ns)
            == (NetView {
            link: LinkView {
                loopback: net.link.loopback.subrange(1, net.link.loopback.len() as int),
                ..net.link
            },
            ..net
        }).packet_taken(net.link.loopback[0], net.link.mac(), Origin::Loopback, now, clock_ns)
            .loopback_delivered((count - 1) as nat, now, clock_ns),
{
    if net.link.loopback.len() > 0 {
        assert(net.link.loopback.skip(1) =~= net.link.loopback.subrange(
            1,
            net.link.loopback.len() as int,
        ));
    }
}

/// What the machine sends itself waits behind what is waiting already. There
/// is room for 256, and the oldest makes room for the newest.
pub proof fn what_goes_round_waits(l: LinkView, datagram: Seq<u8>)
    ensures
        ({
            let after = l.looped_back(datagram);
            &&& after.loopback.len() > 0 && after.loopback.last() == datagram
            &&& l.loopback.len() < 256 ==> after.loopback.drop_last() == l.loopback
            &&& l.loopback.len() >= 256 ==> after.loopback.drop_last() == l.loopback.subrange(
                1,
                l.loopback.len() as int,
            )
            &&& after.woken
            &&& after == LinkView { loopback: after.loopback, woken: true, ..l }
        }),
{
    let after = l.looped_back(datagram);
    if l.loopback.len() < 256 {
        assert(after.loopback.drop_last() =~= l.loopback);
    } else {
        assert(after.loopback.drop_last() =~= l.loopback.subrange(1, l.loopback.len() as int));
    }
}

/// A frame goes to the card where there is one, behind those that are on their
/// way; without one it goes nowhere. A link that is made to lose frames loses
/// every so many of them, and says nothing.
pub proof fn where_a_frame_goes(l: LinkView, frame: Seq<u8>)
    ensures
        ({
            let (after, result) = l.transmitted(frame);
            let lost = l.loss != 0 && (l.sent + 1) % (l.loss as int) == 0;
            &&& l.loss == 0 && l.card is Some ==> result is Ok && after == LinkView {
                outbox: l.outbox.push(frame),
                ..l
            }
            &&& l.loss == 0 && l.card is None ==> result == Err::<(), Errno>(Errno::ENODEV)
                && after == l
            &&& lost ==> result is Ok && after.outbox == l.outbox
            &&& !lost && l.card is Some ==> result is Ok && after.outbox == l.outbox.push(frame)
            &&& l.loss != 0 && l.sent < u32::MAX ==> after.sent == l.sent + 1
        }),
{
    if l.loss != 0 {
        let n = l.loss as int;
        let c = l.sent as int;
        assert(((c + 1) % n == 0) == (c % n == n - 1)) by (nonlinear_arith)
            requires
                n > 0,
                c >= 0,
        {
            vstd::arithmetic::div_mod::lemma_fundamental_div_mod(c, n);
            let q = c / n;
            let r = c % n;
            assert(c == n * q + r && 0 <= r < n);
            if r == n - 1 {
                assert(c + 1 == n * (q + 1) + 0);
                vstd::arithmetic::div_mod::lemma_fundamental_div_mod_converse(
                    c + 1,
                    n,
                    q + 1,
                    0,
                );
            } else {
                assert(c + 1 == n * q + (r + 1));
                vstd::arithmetic::div_mod::lemma_fundamental_div_mod_converse(
                    c + 1,
                    n,
                    q,
                    r + 1,
                );
            }
        }
    }
}

/// A new configuration takes the place of the old one, and what was learnt
/// about the old network is forgotten. The name servers are published where
/// they are not the ones published last; the same configuration again changes
/// nothing.
pub proof fn what_configuring_does(l: LinkView, config: Option<crate::net::config::Config>)
    ensures
        ({
            let after = l.configured(config);
            &&& after.config == config
            &&& config == l.config ==> after == l
            &&& config != l.config ==> after.cache.len() == 0
            &&& config != l.config && config is Some ==> after.published == Some(
                config->0.spec_nameservers(),
            )
            &&& config != l.config && config is Some && l.published != Some(
                config->0.spec_nameservers(),
            ) ==> after.resolver == Some(
                crate::net::config::resolver_text(config->0.spec_nameservers()),
            )
            &&& config is None ==> after.published == l.published && after.resolver == l.resolver
            &&& after == LinkView {
                config,
                cache: after.cache,
                published: after.published,
                resolver: after.resolver,
                ..l
            }
        }),
{
}

} // verus!
