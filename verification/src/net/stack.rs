//! The network stack as one value: the link and the sockets, and what frames,
//! datagrams and the clock do to them.

use crate::bytes;
use crate::net::arp;
use crate::net::ether::{self, is_group, same_mac, Frame};
use crate::net::icmp;
use crate::net::ip::{self, Ipv4Addr, Origin};
use crate::net::link::{self, loopback_pending, lost, Link, LinkView, LOOPBACK_LIMIT};
use crate::net::socket::{Endpoint, SocketView, Sockets, SocketsView};
use crate::net::tcp;
use crate::net::tcp_table;
use crate::net::udp;
use vstd::prelude::*;

verus! {

pub struct Net {
    pub link: Link,
    pub sockets: Sockets,
}

#[verifier::ext_equal]
pub struct NetView {
    pub link: LinkView,
    pub sockets: SocketsView,
}

impl View for Net {
    type V = NetView;

    open spec fn view(&self) -> NetView {
        NetView { link: self.link@, sockets: self.sockets@ }
    }
}

impl NetView {
    pub open spec fn valid(self) -> bool {
        self.link.valid() && self.sockets.valid()
    }

    /// There is a stream socket at this place.
    pub open spec fn has_stream(self, id: usize) -> bool {
        self.sockets.has(id) && self.sockets.at(id).stream
    }
}

impl Net {
    /// A stack with nothing in it. The secret is a number drawn at random.
    pub fn new(secret: u64) -> (net: Net)
        ensures
            net@ == (NetView {
                link: LinkView::bare(secret),
                sockets: SocketsView::none(),
            }),
            net@.valid(),
    {
        Net { link: Link::new(secret), sockets: Sockets::new() }
    }
}

impl NetView {
    /// What an arriving UDP datagram does: it waits at the socket it is for. A
    /// port unreachable message belongs where there is none; this stack does
    /// not send one.
    pub open spec fn datagram_taken(
        self,
        source: Ipv4Addr,
        destination: Ipv4Addr,
        packet: Seq<u8>,
    ) -> NetView {
        let from = udp::sender_of(source, packet);
        let to = udp::receiver_of(destination, packet);
        if !udp::is_datagram(source, destination, packet) {
            self
        } else {
            match self.sockets.recipient(to, from) {
                None => self,
                Some(id) => {
                    let socket = self.sockets.at(id);
                    NetView {
                        sockets: self.sockets.with(
                            id,
                            socket.with_udp(
                                socket.inner->Udp_0.enqueued(from, udp::data_of(packet)),
                            ),
                        ),
                        link: self.link.waking(true),
                    }
                },
            }
        }
    }

    /// What an arriving IPv4 datagram does.
    pub open spec fn packet_taken(
        self,
        bytes: Seq<u8>,
        source_mac: [u8; 6],
        origin: Origin,
        now: u64,
        clock_ns: u64,
    ) -> NetView {
        let net = NetView {
            link: ip::admitted(self.link, bytes, source_mac, origin, now),
            ..self
        };
        let header = ip::header_of(bytes);
        let payload = ip::payload_of(bytes);
        if !ip::is_admitted(self.link, bytes, origin) {
            net
        } else if header.protocol == ip::PROTO_ICMP {
            NetView {
                link: icmp::answered(net.link, header.source, header.destination, payload, now),
                ..net
            }
        } else if header.protocol == ip::PROTO_UDP {
            net.datagram_taken(header.source, header.destination, payload)
        } else if header.protocol == ip::PROTO_TCP {
            net.segment_taken(header.source, header.destination, payload, now, clock_ns)
        } else {
            net
        }
    }

    /// At most `count` of the datagrams waiting for this machine itself
    /// delivered. Delivering one can produce another -- an acknowledgement for
    /// what was just delivered -- so this runs bounded rather than until empty.
    pub open spec fn loopback_delivered(self, count: nat, now: u64, clock_ns: u64) -> NetView
        decreases count,
    {
        if count == 0 || self.link.loopback.len() == 0 {
            self
        } else {
            NetView {
                link: LinkView { loopback: self.link.loopback.skip(1), ..self.link },
                ..self
            }.packet_taken(
                self.link.loopback[0],
                self.link.mac(),
                Origin::Loopback,
                now,
                clock_ns,
            ).loopback_delivered((count - 1) as nat, now, clock_ns)
        }
    }

    /// Anything that has come due: what this machine sent itself, what the
    /// neighbours have not answered, and the connections' timers.
    pub open spec fn ticked(self, now: u64, clock_ns: u64) -> NetView {
        let delivered = self.loopback_delivered(LOOPBACK_LIMIT as nat, now, clock_ns);
        NetView { link: arp::aged(delivered.link, now), ..delivered }.connections_ticked(now)
    }

    /// Whether a frame is addressed to this machine. The card may be in
    /// promiscuous mode, and a hub or a bridge will hand over frames addressed
    /// elsewhere. Only ours and the broadcasts count.
    pub open spec fn is_addressed(self, frame: Seq<u8>) -> bool {
        &&& frame.len() >= ether::HEADER_LEN
        &&& ether::mac_of(frame, 0) == self.link.mac() || ether::is_group_address(
            frame.subrange(0, 6),
        )
    }

    /// What a frame's payload does.
    pub open spec fn payload_taken(self, frame: Seq<u8>, now: u64, clock_ns: u64) -> NetView {
        let payload = frame.skip(ether::HEADER_LEN as int);
        if bytes::be16(frame, 12) == ether::ETHERTYPE_ARP {
            NetView { link: arp::packet_taken(self.link, payload, now), ..self }
        } else if bytes::be16(frame, 12) == ether::ETHERTYPE_IPV4 {
            self.packet_taken(payload, ether::mac_of(frame, 6), Origin::Card, now, clock_ns)
        } else {
            self
        }
    }

    /// What an arriving frame does. One that the link loses does nothing but
    /// let time pass, and one addressed elsewhere not even that.
    pub open spec fn frame_taken(self, frame: Seq<u8>, now: u64, clock_ns: u64) -> NetView {
        let counted = if self.link.loss == 0 {
            self
        } else {
            NetView {
                link: LinkView { arrived: self.link.arrived.wrapping_add(1), ..self.link },
                ..self
            }
        };
        if link::goes_missing(self.link.loss, self.link.arrived) {
            counted.ticked(now, clock_ns)
        } else if !self.is_addressed(frame) {
            counted
        } else {
            counted.payload_taken(frame, now, clock_ns).ticked(now, clock_ns)
        }
    }
}

/// Replacing one socket takes none away.
proof fn replacing_keeps_sockets(sockets: SocketsView, place: usize, socket: SocketView, id: usize)
    requires
        sockets.has(id),
    ensures
        sockets.with(place, socket).has(id),
{
}

/// Accepting a connection takes no socket away.
proof fn accepting_keeps_sockets(
    net: NetView,
    listener: usize,
    local: Endpoint,
    remote: Endpoint,
    segment: tcp::SegmentView,
    now: u64,
    clock_ns: u64,
    id: usize,
)
    requires
        net.sockets.has(id),
    ensures
        net.connection_accepted(listener, local, remote, segment, now, clock_ns).sockets.has(id),
{
    let parent = net.tcb(listener);
    if parent.children.len() < parent.backlog {
        let child = tcp::TcbView { local, remote, bound: true, ..tcp::TcbView::fresh() }.accepted(
            segment,
            clock_ns,
            net.link.secret,
        );
        let place = net.sockets.slots.len() as usize;
        let newcomer = SocketView::fresh(true).with_tcb(child);
        let grown = net.sockets.grown(newcomer).registered(place);
        assert(grown.has(id));
        let adopter = net.sockets.at(listener).with_tcb(
            tcp::TcbView { children: parent.children.push(place), ..parent },
        );
        replacing_keeps_sockets(grown, listener, adopter, id);
        replacing_keeps_sockets(
            grown.with(listener, adopter),
            place,
            SocketView::fresh(true).with_tcb(child.armed(now)),
            id,
        );
    }
}

/// A segment takes no socket away.
proof fn a_segment_keeps_sockets(
    net: NetView,
    source: Ipv4Addr,
    destination: Ipv4Addr,
    bytes: Seq<u8>,
    now: u64,
    clock_ns: u64,
    id: usize,
)
    requires
        net.sockets.has(id),
    ensures
        net.segment_taken(source, destination, bytes, now, clock_ns).sockets.has(id),
{
    let segment = tcp::segment_of(bytes);
    let local = Endpoint { address: destination, port: segment.destination_port };
    let remote = Endpoint { address: source, port: segment.source_port };
    match net.sockets.conversation(local, remote) {
        Some(place) => {
            let step = net.tcb(place).on_arrival(segment, now);
            replacing_keeps_sockets(
                net.sockets,
                place,
                net.sockets.at(place).with_tcb(step.tcb),
                id,
            );
        },
        None => {
            if net.sockets.listener(local) is Some {
                accepting_keeps_sockets(
                    net,
                    net.sockets.listener(local)->0,
                    local,
                    remote,
                    segment,
                    now,
                    clock_ns,
                    id,
                );
            }
        },
    }
}

/// Nothing that arrives takes a socket away.
pub proof fn arriving_keeps_sockets(
    net: NetView,
    bytes: Seq<u8>,
    source_mac: [u8; 6],
    origin: Origin,
    now: u64,
    clock_ns: u64,
    id: usize,
)
    requires
        net.sockets.has(id),
    ensures
        net.packet_taken(bytes, source_mac, origin, now, clock_ns).sockets.has(id),
{
    let entered = NetView {
        link: ip::admitted(net.link, bytes, source_mac, origin, now),
        ..net
    };
    let header = ip::header_of(bytes);
    let payload = ip::payload_of(bytes);
    if ip::is_admitted(net.link, bytes, origin) {
        if header.protocol == ip::PROTO_UDP {
            let from = udp::sender_of(header.source, payload);
            let to = udp::receiver_of(header.destination, payload);
            if entered.sockets.recipient(to, from) is Some {
                let place = entered.sockets.recipient(to, from)->0;
                let socket = entered.sockets.at(place);
                replacing_keeps_sockets(
                    entered.sockets,
                    place,
                    socket.with_udp(socket.inner->Udp_0.enqueued(from, udp::data_of(payload))),
                    id,
                );
            }
        } else if header.protocol == ip::PROTO_TCP {
            a_segment_keeps_sockets(
                entered,
                header.source,
                header.destination,
                payload,
                now,
                clock_ns,
                id,
            );
        }
    }
}

/// Delivering what this machine sent itself takes no socket away.
pub proof fn polling_keeps_sockets(net: NetView, count: nat, now: u64, clock_ns: u64, id: usize)
    requires
        net.sockets.has(id),
    ensures
        net.loopback_delivered(count, now, clock_ns).sockets.has(id),
    decreases count,
{
    if count > 0 && net.link.loopback.len() > 0 {
        let shorter = NetView {
            link: LinkView { loopback: net.link.loopback.skip(1), ..net.link },
            ..net
        };
        let datagram = net.link.loopback[0];
        let mac = net.link.mac();
        arriving_keeps_sockets(shorter, datagram, mac, Origin::Loopback, now, clock_ns, id);
        polling_keeps_sockets(
            shorter.packet_taken(datagram, mac, Origin::Loopback, now, clock_ns),
            (count - 1) as nat,
            now,
            clock_ns,
            id,
        );
    }
}

/// Deliver what is waiting for this machine itself, within reason.
fn deliver_loopback(net: &mut Net, now: u64, clock_ns: u64)
    requires
        old(net)@.valid(),
        now <= tcp::LAST_TICK,
    ensures
        final(net)@ == old(net)@.loopback_delivered(LOOPBACK_LIMIT as nat, now, clock_ns),
        final(net)@.valid(),
{
    let mut left: usize = LOOPBACK_LIMIT;
    while left > 0
        invariant
            left <= LOOPBACK_LIMIT,
            net@.valid(),
            now <= tcp::LAST_TICK,
            net@.loopback_delivered(left as nat, now, clock_ns) == old(net)@.loopback_delivered(
                LOOPBACK_LIMIT as nat,
                now,
                clock_ns,
            ),
        decreases left,
    {
        if net.link.loopback.len() == 0 {
            return;
        }
        let ghost before = net@;
        assert(before.link.loopback[0] == net.link.loopback@[0]@);
        let our_mac = link::mac(&net.link);
        let datagram = net.link.loopback.remove(0);
        assert(net@.link.loopback =~= before.link.loopback.skip(1));
        assert(net@ =~= NetView {
            link: LinkView { loopback: before.link.loopback.skip(1), ..before.link },
            ..before
        });
        ip::receive(net, datagram.as_slice(), our_mac, Origin::Loopback, now, clock_ns);
        left -= 1;
    }
}

/// Deliver anything addressed to this machine. Cheap when there is nothing, so
/// a socket system call can call it on the way in.
pub fn poll(net: &mut Net, now: u64, clock_ns: u64)
    requires
        old(net)@.valid(),
        now <= tcp::LAST_TICK,
    ensures
        final(net)@ == old(net)@.loopback_delivered(LOOPBACK_LIMIT as nat, now, clock_ns),
        final(net)@.valid(),
{
    if loopback_pending(&net.link) {
        deliver_loopback(net, now, clock_ns);
    }
}

/// One received Ethernet frame.
pub fn receive(net: &mut Net, frame: &[u8], now: u64, clock_ns: u64)
    requires
        old(net)@.valid(),
        now <= tcp::LAST_TICK,
    ensures
        final(net)@ == old(net)@.frame_taken(frame@, now, clock_ns),
        final(net)@.valid(),
{
    let (missing, counter) = lost(net.link.loss, net.link.arrived);
    net.link.arrived = counter;
    if missing {
        // Gone, and nothing above is told. Time has still passed, and the
        // timers are what recovers from this.
        tick(net, now, clock_ns);
        return;
    }
    let parsed = match Frame::parse(frame) {
        Some(parsed) => parsed,
        None => {
            return;
        },
    };
    let our_mac = link::mac(&net.link);
    if !same_mac(&parsed.destination, &our_mac) && !is_group(&parsed.destination) {
        return;
    }
    if parsed.ethertype == ether::ETHERTYPE_ARP {
        arp::receive(&mut net.link, parsed.payload, now);
    } else if parsed.ethertype == ether::ETHERTYPE_IPV4 {
        ip::receive(net, parsed.payload, parsed.source, Origin::Card, now, clock_ns);
    }
    // Traffic arriving is as good a moment as any to look at the clock, so a
    // stack whose timer is not being driven still makes progress whenever the
    // other end says anything.
    tick(net, now, clock_ns);
}

/// Anything that has come due: retransmissions, timeouts. Called once per
/// timer tick from the network task.
pub fn tick(net: &mut Net, now: u64, clock_ns: u64)
    requires
        old(net)@.valid(),
        now <= tcp::LAST_TICK,
    ensures
        final(net)@ == old(net)@.ticked(now, clock_ns),
        final(net)@.valid(),
{
    deliver_loopback(net, now, clock_ns);
    arp::expire(&mut net.link, now);
    tcp_table::on_tick(net, now);
}

/// The next tick at which `tick` would have something to do, so a task that is
/// blocked on a socket knows how long it may sleep.
pub fn next_deadline(net: &Net, now: u64) -> (tick: u64)
    requires
        net@.valid(),
    ensures
        tick == (if net@.link.loopback.len() > 0 {
            now
        } else if arp::earliest(net@.link.cache) < net@.earliest_of(net@.sockets.table) {
            arp::earliest(net@.link.cache)
        } else {
            net@.earliest_of(net@.sockets.table)
        }),
{
    if loopback_pending(&net.link) {
        // Already due: something is waiting to be handed to a socket here.
        return now;
    }
    let neighbours: u64 = arp::next_deadline(&net.link);
    let connections: u64 = tcp_table::next_deadline(net);
    if neighbours < connections {
        neighbours
    } else {
        connections
    }
}

} // verus!
