//! What connecting, sending, receiving, shutting down and closing a socket
//! come to.

use crate::errno::Errno;
use crate::net::ip::{self, Ipv4Addr};
use crate::net::link::LinkView;
use crate::net::socket::{Endpoint, ProtocolView, SocketView};
use crate::net::stack::NetView;
use crate::net::tcp::{self, Step, TcbView};
use crate::net::tcp_laws;
use crate::net::tcp_stream_laws;
use crate::net::tcp_table;
use crate::net::udp::{self, HeldView, UdpView};
use vstd::prelude::*;

verus! {

/// A net with one of its sockets replaced, and nothing else changed.
pub open spec fn replaced(net: NetView, id: usize, socket: SocketView) -> NetView {
    NetView {
        sockets: crate::net::socket::SocketsView {
            slots: net.sockets.slots.update(id as int, Some(socket)),
            ..net.sockets
        },
        ..net
    }
}

// ---- where a packet comes from ---------------------------------------------------------

/// What is sent to the machine itself leaves from 127.0.0.1, everything else
/// from the machine's address. Without one, only what goes to everybody can be
/// sent, and from no address.
pub proof fn where_a_packet_leaves_from(l: LinkView, destination: Ipv4Addr)
    ensures
        ({
            let source = l.source_towards(destination);
            let to_itself = destination.0 as int / 0x100_0000 == 127;
            &&& to_itself ==> source == Ok::<Ipv4Addr, Errno>(Ipv4Addr(0x7F00_0001))
            &&& !to_itself && l.config is Some ==> source == Ok::<Ipv4Addr, Errno>(
                l.config->0.spec_address(),
            )
            &&& !to_itself && l.config is None && destination.0 == 0xFFFF_FFFF ==> source == Ok::<
                Ipv4Addr,
                Errno,
            >(Ipv4Addr(0))
            &&& !to_itself && l.config is None && destination.0 != 0xFFFF_FFFF ==> source == Err::<
                Ipv4Addr,
                Errno,
            >(Errno::ENETUNREACH)
        }),
{
}

// ---- connecting -------------------------------------------------------------------------

/// Connecting a datagram socket records whom it talks to, and sends nothing.
pub proof fn what_connecting_a_datagram_socket_does(
    net: NetView,
    id: usize,
    remote: Endpoint,
    now: u64,
    clock_ns: u64,
)
    requires
        net.sockets.has(id),
        net.sockets.at(id).inner is Udp,
        net.sockets.at(id).local().port != 0,
    ensures
        ({
            let (after, result) = net.connected(id, remote, now, clock_ns);
            &&& remote.port == 0 || remote.address.0 == 0 ==> after == net && result == Err::<
                (),
                Errno,
            >(Errno::EINVAL)
            &&& remote.port != 0 && remote.address.0 != 0 ==> result is Ok && after == replaced(
                net,
                id,
                (SocketView {
                    inner: ProtocolView::Udp(
                        UdpView { remote: Some(remote), ..net.sockets.at(id).inner->Udp_0 },
                    ),
                    ..net.sockets.at(id)
                }),
            )
        }),
{
}

/// Connecting a stream: one that is closed asks for a connection, from the
/// address packets for the other end leave from; one that has asked already is
/// still at it, a listener cannot, and one that is connected is connected.
pub proof fn what_connecting_a_stream_does(
    net: NetView,
    id: usize,
    remote: Endpoint,
    now: u64,
    clock_ns: u64,
)
    requires
        net.sockets.has(id),
        net.sockets.at(id).inner is Tcp,
        net.sockets.at(id).local().port != 0,
        remote.port != 0,
        remote.address.0 != 0,
    ensures
        ({
            let (after, result) = net.connected(id, remote, now, clock_ns);
            let t = net.sockets.at(id).inner->Tcp_0;
            let source = net.link.source_towards(remote.address);
            &&& t.state is SynSent ==> after == net && result == Err::<(), Errno>(Errno::EALREADY)
            &&& t.state is Listen ==> after == net && result == Err::<(), Errno>(Errno::EINVAL)
            &&& !(t.state is SynSent) && !(t.state is Listen) && !(t.state is Closed) ==> after
                == net && result == Err::<(), Errno>(Errno::EISCONN)
            &&& t.state is Closed && source is Err ==> after == net && result is Err
            &&& t.state is Closed && source is Ok && source->Ok_0.0 == 0 ==> after == net && result
                == Err::<(), Errno>(Errno::ENETUNREACH)
            &&& t.state is Closed && source is Ok && source->Ok_0.0 != 0 ==> {
                let (asked, sent) = TcbView {
                    local: Endpoint { address: source->Ok_0, port: t.local.port },
                    remote,
                    ..t
                }.opened(now, clock_ns, net.link.secret);
                &&& result is Ok
                &&& after == NetView {
                    link: tcp_table::segments_sent(net.link, sent, now),
                    ..replaced(
                        net,
                        id,
                        (SocketView { inner: ProtocolView::Tcp(asked), ..net.sockets.at(id) }),
                    )
                }.loopback_delivered(256, now, clock_ns)
            }
        }),
{
    let t = net.sockets.at(id).inner->Tcp_0;
    let source = net.link.source_towards(remote.address);
    if t.state is Closed && source is Ok && source->Ok_0.0 != 0 {
        let (asked, sent) = TcbView {
            local: Endpoint { address: source->Ok_0, port: t.local.port },
            remote,
            ..t
        }.opened(now, clock_ns, net.link.secret);
        let step = Step { tcb: asked, sent, woke: false };
        assert(net.stepped(id, step, now).link == tcp_table::segments_sent(net.link, sent, now));
    }
}

// ---- datagrams ---------------------------------------------------------------------------

/// Sending a datagram: nothing more is sent once writing is shut down, there
/// has to be somebody to send to and a port at both ends, and it has to fit in
/// one frame. Then it goes out as it is, whole, and from the machine's address
/// towards whoever it is for unless the socket has one of its own.
pub proof fn what_sending_a_datagram_comes_to(
    net: NetView,
    id: usize,
    buf: Seq<u8>,
    to: Option<Endpoint>,
    now: u64,
)
    requires
        net.sockets.has(id),
        net.sockets.at(id).inner is Udp,
    ensures
        ({
            let (after, result) = net.sent_on(id, buf, to, now);
            let u = net.sockets.at(id).inner->Udp_0;
            let peer = if to is Some {
                to
            } else {
                u.remote
            };
            let source = if u.local.address.0 != 0 {
                Ok::<Ipv4Addr, Errno>(u.local.address)
            } else {
                net.link.source_towards(peer->0.address)
            };
            let refused = u.write_shutdown || peer is None || peer->0.port == 0 || buf.len() > 1472
                || u.local.port == 0 || source is Err;
            &&& after.sockets == net.sockets
            &&& refused ==> after == net && result is Err
            &&& u.write_shutdown ==> result == Err::<usize, Errno>(Errno::EPIPE)
            &&& !u.write_shutdown && peer is None ==> result == Err::<usize, Errno>(
                Errno::EDESTADDRREQ,
            )
            &&& !u.write_shutdown && peer is Some && peer->0.port == 0 ==> result == Err::<
                usize,
                Errno,
            >(Errno::EINVAL)
            &&& !u.write_shutdown && peer is Some && peer->0.port != 0 && buf.len() > 1472
                ==> result == Err::<usize, Errno>(Errno::EMSGSIZE)
            &&& !refused ==> {
                let (link, outcome) = ip::payload_sent(
                    net.link,
                    source->Ok_0,
                    peer->0.address,
                    17,
                    udp::datagram_bytes(
                        Endpoint { address: source->Ok_0, port: u.local.port },
                        peer->0,
                        buf,
                    ),
                    now,
                );
                &&& after.link == link
                &&& outcome is Ok ==> result == Ok::<usize, Errno>(buf.len() as usize)
                &&& outcome is Err ==> result is Err
            }
        }),
{
}

/// A datagram that arrives is the last to be read, behind those that were
/// waiting: all of them where there is room for it, and otherwise the newest.
pub proof fn a_datagram_waits_its_turn(u: UdpView, from: Endpoint, data: Seq<u8>)
    requires
        u.valid(),
        data.len() <= 65536,
    ensures
        ({
            let after = u.enqueued(from, data);
            let gone = u.queue.len() + 1 - after.queue.len();
            &&& after.queue.len() > 0
            &&& after.queue.last() == HeldView { from, data }
            &&& 0 <= gone <= u.queue.len()
            &&& after.queue.drop_last() == u.queue.skip(gone)
            &&& u.queue.len() < 64 && u.queued_bytes + data.len() <= 65536 ==> gone == 0
            &&& after.queue.len() <= 64 && after.queued_bytes <= 65536
            &&& after.local == u.local && after.remote == u.remote && after.bound == u.bound
            &&& after.write_shutdown == u.write_shutdown && after.read_shutdown == u.read_shutdown
            &&& after.error == u.error
        }),
{
    let left = udp::made_room(u.queue, data.len() as int);
    udp::room_is_made_from_the_front(u.queue, data.len() as int);
    let after = u.enqueued(from, data);
    assert(after.queue.drop_last() =~= left);
    udp::total_push(left, HeldView { from, data });
}

/// Receiving on a datagram socket gives the oldest datagram, as much of it as
/// there is room for and the rest of it not at all, with who sent it; peeking
/// leaves it there. Where there is none a read waits, or reports the end once
/// reading is shut down.
pub proof fn what_receiving_a_datagram_comes_to(
    net: NetView,
    id: usize,
    size: int,
    peek: bool,
    now: u64,
)
    requires
        net.sockets.valid(),
        net.sockets.has(id),
        net.sockets.at(id).inner is Udp,
        0 <= size,
    ensures
        ({
            let (after, result) = net.received_from(id, size, peek, now);
            let u = net.sockets.at(id).inner->Udp_0;
            let bytes = net.readable_bytes(id, size);
            &&& u.queue.len() == 0 ==> after == net && bytes.len() == 0
            &&& u.queue.len() == 0 && !u.read_shutdown ==> result == Err::<
                (usize, Endpoint),
                Errno,
            >(Errno::EAGAIN)
            &&& u.queue.len() == 0 && u.read_shutdown ==> result == Ok::<(usize, Endpoint), Errno>(
                (0, Endpoint { address: Ipv4Addr(0), port: 0 }),
            )
            &&& u.queue.len() > 0 ==> {
                let data = u.queue[0].data;
                let n = if size < data.len() {
                    size
                } else {
                    data.len() as int
                };
                &&& bytes == data.take(n)
                &&& result == Ok::<(usize, Endpoint), Errno>((n as usize, u.queue[0].from))
                &&& peek ==> after == net
                &&& !peek ==> after.link == net.link && after.sockets.table == net.sockets.table
                    && after.sockets.at(id).inner->Udp_0.queue == u.queue.skip(1)
            }
        }),
{
    assert(net.sockets.slots[id as int]->0.valid());
    let u = net.sockets.at(id).inner->Udp_0;
    let (after, result) = net.received_from(id, size, peek, now);
    assert(net.sockets.at(id).with_udp(u) == net.sockets.at(id));
    if peek || u.queue.len() == 0 {
        assert(after.sockets.slots =~= net.sockets.slots);
    }
    if u.queue.len() > 0 {
        let data = u.queue[0].data;
        assert(data.take(data.len() as int) =~= data);
    }
}

// ---- streams -----------------------------------------------------------------------------

/// Writing to a stream, and reading from one, is what its connection makes of
/// it: what the connection sends goes out, and the caller is told how many
/// bytes were taken, or given out and from whom.
pub proof fn a_stream_is_its_connection(
    net: NetView,
    id: usize,
    buf: Seq<u8>,
    to: Option<Endpoint>,
    size: int,
    peek: bool,
    now: u64,
)
    requires
        net.sockets.has(id),
        net.sockets.at(id).inner is Tcp,
    ensures
        ({
            let t = net.sockets.at(id).inner->Tcp_0;
            let (written, sent, told) = t.written(buf, now);
            let (after, result) = net.sent_on(id, buf, to, now);
            &&& result == told
            &&& after == NetView {
                link: tcp_table::segments_sent(net.link, sent, now),
                ..replaced(
                    net,
                    id,
                    (SocketView { inner: ProtocolView::Tcp(written), ..net.sockets.at(id) }),
                )
            }
        }),
        ({
            let t = net.sockets.at(id).inner->Tcp_0;
            let (read, sent, told) = t.read_out(size, peek);
            let (after, result) = net.received_from(id, size, peek, now);
            &&& told is Err ==> result is Err && result->Err_0 == told->Err_0
            &&& told is Ok ==> result == Ok::<(usize, Endpoint), Errno>((told->Ok_0, t.remote))
            &&& net.readable_bytes(id, size) == t.readable(size)
            &&& after == NetView {
                link: tcp_table::segments_sent(net.link, sent, now),
                ..replaced(
                    net,
                    id,
                    (SocketView { inner: ProtocolView::Tcp(read), ..net.sockets.at(id) }),
                )
            }
        }),
{
}

/// One try at reading or writing: what would have to wait is waited for,
/// unless the caller does not wait; anything else is told to the caller as it
/// is, a datagram the card refused included.
pub proof fn who_waits(
    net: NetView,
    id: usize,
    size: int,
    peek: bool,
    result: Result<usize, Errno>,
    refusal: Option<Errno>,
    nonblock: bool,
    now: u64,
    clock_ns: u64,
)
    ensures
        ({
            let (after, told) = net.read_tried(id, size, nonblock, peek, now, clock_ns);
            let (read, outcome) = net.received_from(id, size, peek, now);
            let waits = outcome == Err::<(usize, Endpoint), Errno>(Errno::EAGAIN);
            &&& waits && !nonblock ==> told is Wait && after == read
            &&& waits && nonblock ==> told == crate::net::socket_ops::Attempt::Done(outcome)
                && after == read
            &&& !waits ==> told == crate::net::socket_ops::Attempt::Done(outcome) && after
                == read.loopback_delivered(256, now, clock_ns)
        }),
        ({
            let (after, told) = net.write_settled(id, result, refusal, nonblock, now, clock_ns);
            let refused = net.sockets.at(id).inner is Udp && result is Ok && refusal is Some;
            let outcome = if refused {
                Err::<usize, Errno>(refusal->0)
            } else {
                result
            };
            let waits = outcome == Err::<usize, Errno>(Errno::EAGAIN);
            &&& waits && !nonblock ==> told is Wait && after == net
            &&& !(waits && !nonblock) ==> told == crate::net::socket_ops::Attempt::Done(outcome)
            &&& outcome is Err ==> after == net
            &&& outcome is Ok ==> after == net.loopback_delivered(256, now, clock_ns)
        }),
{
}

// ---- shutting down and closing --------------------------------------------------------------

/// Shutting a datagram socket down: once reading is, what was waiting is gone;
/// once writing is, nothing more is sent. Neither is ever undone.
pub proof fn what_shutting_a_datagram_socket_does(
    net: NetView,
    id: usize,
    read: bool,
    write: bool,
    now: u64,
)
    requires
        net.sockets.valid(),
        net.sockets.has(id),
        net.sockets.at(id).inner is Udp,
    ensures
        ({
            let (after, result) = net.shut(id, read, write, now);
            let u = net.sockets.at(id).inner->Udp_0;
            let v = after.sockets.at(id).inner->Udp_0;
            &&& result is Ok
            &&& after.link == net.link
            &&& after == replaced(
                net,
                id,
                (SocketView { inner: ProtocolView::Udp(v), ..net.sockets.at(id) }),
            )
            &&& v.write_shutdown == (u.write_shutdown || write)
            &&& v.read_shutdown == (u.read_shutdown || read)
            &&& v.queue == (if read {
                Seq::empty()
            } else {
                u.queue
            })
            &&& v.local == u.local && v.remote == u.remote && v.bound == u.bound && v.error
                == u.error
        }),
{
}

/// Shutting a stream down: reading is remembered to be over, and finishing to
/// write is what the connection makes of it. A stream that is neither
/// connected nor connecting has nothing to shut down.
pub proof fn what_shutting_a_stream_does(
    net: NetView,
    id: usize,
    read: bool,
    write: bool,
    now: u64,
)
    requires
        net.sockets.has(id),
        net.sockets.at(id).inner is Tcp,
    ensures
        ({
            let (after, result) = net.shut(id, read, write, now);
            let t = net.sockets.at(id).inner->Tcp_0;
            let reading = TcbView { read_shutdown: t.read_shutdown || read, ..t };
            &&& t.state is Closed || t.state is Listen || t.state is SynReceived ==> after == net
                && result == Err::<(), Errno>(Errno::ENOTCONN)
            &&& !(t.state is Closed || t.state is Listen || t.state is SynReceived) ==> {
                let (closed, sent) = reading.write_shut(now);
                &&& result is Ok
                &&& !write ==> after == replaced(
                    net,
                    id,
                    (SocketView { inner: ProtocolView::Tcp(reading), ..net.sockets.at(id) }),
                )
                &&& write ==> after == NetView {
                    link: tcp_table::segments_sent(net.link, sent, now),
                    ..replaced(
                        net,
                        id,
                        (SocketView { inner: ProtocolView::Tcp(closed), ..net.sockets.at(id) }),
                    )
                }
            }
        }),
{
}

/// What closing a descriptor does to its connection. A listener stops; a
/// connection with bytes nobody has read, and now nobody will, is reset, and
/// says so to an end that is there to hear it; any other finishes as if it had
/// stopped writing. Nobody reads it any more, and a connection that waits for
/// the other end to finish does so for a minute at most.
pub proof fn what_letting_go_does(t: TcbView, now: u64)
    requires
        t.valid(),
        now <= tcp::LAST_TICK,
    ensures
        ({
            let (after, sent) = NetView::let_go(t, now);
            let alone = TcbView {
                children: Seq::empty(),
                abandoned: true,
                expire_at: if t.state is FinWait2 && t.expire_at == 0 {
                    (now + 6000) as u64
                } else {
                    t.expire_at
                },
                ..t
            };
            let heard = !(t.state is Closed || t.state is Listen || t.state is SynSent);
            &&& after.abandoned
            &&& t.state is Listen ==> after == TcbView { state: tcp::State::Closed, ..alone }
                && sent.len() == 0
            &&& !(t.state is Listen) && t.received.len() > 0 ==> {
                &&& after.state is Closed
                &&& after.pending.len() == 0
                &&& after.retransmit_at == 0
                &&& sent.len() == (if heard {
                    1int
                } else {
                    0
                })
                &&& heard ==> {
                    &&& sent[0].flags == tcp::RST | tcp::ACK
                    &&& sent[0].sequence == t.send_next
                    &&& sent[0].acknowledgement == t.receive_next
                    &&& sent[0].payload.len() == 0
                    &&& sent[0].source == t.local && sent[0].destination == t.remote
                }
            }
            &&& !(t.state is Listen) && t.received.len() == 0 ==> (after, sent)
                == alone.write_shut(now)
        }),
{
    tcp_laws::flag_bits();
    let alone = TcbView { children: Seq::empty(), ..t }.orphaned(now);
    if !(t.state is Listen) && t.received.len() == 0 {
        finishing_stays_alone(alone, now);
    }
}

proof fn finishing_stays_alone(t: TcbView, now: u64)
    requires
        t.abandoned,
    ensures
        t.write_shut(now).0.abandoned,
{
    let waiting = TcbView { fin_queued: true, state: tcp::State::FinWait1, ..t };
    let last = TcbView { fin_queued: true, state: tcp::State::LastAck, ..t };
    tcp_stream_laws::sending_keeps_the_rest(waiting, waiting.send_limit(), now);
    tcp_stream_laws::sending_keeps_the_rest(last, last.send_limit(), now);
}

/// Closing a datagram socket leaves it gone: no packet finds it, and it holds
/// no port. Every other socket is as it was.
pub proof fn what_closing_a_datagram_socket_does(
    net: NetView,
    id: usize,
    other: usize,
    now: u64,
    clock_ns: u64,
)
    requires
        net.sockets.has(id),
        net.sockets.at(id).inner is Udp,
    ensures
        ({
            let after = net.closed(id, now, clock_ns);
            &&& !after.sockets.has(id)
            &&& !after.sockets.table.contains(id)
            &&& other != id ==> after.sockets.has(other) == net.sockets.has(other)
            &&& other != id && net.sockets.has(other) ==> after.sockets.at(other)
                == net.sockets.at(other)
            &&& other != id ==> after.sockets.table.contains(other) == net.sockets.table.contains(
                other,
            )
            &&& after.link == (LinkView { woken: true, ..net.link })
        }),
{
    let gone = net.sockets.with(id, SocketView { detached: true, ..net.sockets.at(id) });
    crate::net::socket_laws::what_forgetting_a_socket_does(gone, id, other);
}

/// Closing a stream: it is let go of, what that sends goes out, and packets
/// find it for as long as it still has something to say. Nobody holds it any
/// more. Connections that waited at it to be accepted are reset and gone.
pub proof fn what_closing_a_stream_does(net: NetView, id: usize, now: u64, clock_ns: u64)
    requires
        net.sockets.has(id),
        net.sockets.at(id).inner is Tcp,
    ensures
        ({
            let after = net.closed(id, now, clock_ns);
            let children = net.sockets.at(id).inner->Tcp_0.children;
            let (t, sent) = NetView::let_go(net.sockets.at(id).inner->Tcp_0, now);
            let left = NetView {
                link: tcp_table::segments_sent(net.link, sent, now),
                ..replaced(
                    net,
                    id,
                    (SocketView {
                        stream: net.sockets.at(id).stream,
                        inner: ProtocolView::Tcp(t),
                        detached: true,
                    }),
                )
            }.children_reset(children, now);
            let kept = if t.state is Closed {
                NetView { sockets: left.sockets.forgotten(id), ..left }
            } else {
                left
            }.loopback_delivered(256, now, clock_ns);
            after.sockets == kept.sockets && after.link == (LinkView { woken: true, ..kept.link })
        }),
{
    let (t, sent) = NetView::let_go(net.sockets.at(id).inner->Tcp_0, now);
    let gone = SocketView { detached: true, ..net.sockets.at(id) };
    let detached = NetView { sockets: net.sockets.with(id, gone), ..net };
    let step = Step { tcb: t, sent, woke: false };
    let stepped = detached.stepped(id, step, now);
    let socket = SocketView {
        stream: net.sockets.at(id).stream,
        inner: ProtocolView::Tcp(t),
        detached: true,
    };
    assert(stepped.sockets.slots =~= net.sockets.slots.update(id as int, Some(socket)));
    assert(stepped == NetView {
        link: tcp_table::segments_sent(net.link, sent, now),
        ..replaced(net, id, socket)
    });
}

/// A connection nobody accepted is reset and gone when its listener is closed,
/// one after another.
pub proof fn what_becomes_of_those_that_waited(
    net: NetView,
    children: Seq<usize>,
    child: usize,
    now: u64,
)
    requires
        net.sockets.has(child),
        net.sockets.at(child).inner is Tcp,
        net.sockets.at(child).stream,
    ensures
        ({
            let after = net.child_reset(child, now);
            let (_, sent) = net.sockets.at(child).inner->Tcp_0.aborted();
            &&& !after.sockets.has(child)
            &&& !after.sockets.table.contains(child)
            &&& after.link == tcp_table::segments_sent(net.link, sent, now)
            &&& net.children_reset(children.push(child), now) == net.children_reset(
                children,
                now,
            ).child_reset(child, now)
        }),
{
    crate::net::socket_laws::what_forgetting_a_socket_does(net.sockets, child, child);
    assert(children.push(child).drop_last() =~= children);
}

/// A look at the clock: what the machine sent itself arrives, what is known
/// about the machines around grows older, and then every connection is run.
pub proof fn what_a_tick_does(net: NetView, now: u64, clock_ns: u64)
    ensures
        ({
            let delivered = net.loopback_delivered(256, now, clock_ns);
            net.ticked(now, clock_ns) == (NetView {
                link: crate::net::arp::aged(delivered.link, now),
                sockets: delivered.sockets,
            }).connections_ticked(now)
        }),
{
}

/// A try at writing is a send that is then settled, with nothing refused yet.
pub proof fn what_a_try_at_writing_is(
    net: NetView,
    id: usize,
    buf: Seq<u8>,
    nonblock: bool,
    to: Option<Endpoint>,
    now: u64,
    clock_ns: u64,
)
    ensures
        ({
            let (sent, result) = net.sent_on(id, buf, to, now);
            net.write_tried(id, buf, nonblock, to, now, clock_ns) == sent.write_settled(
                id,
                result,
                None,
                nonblock,
                now,
                clock_ns,
            )
        }),
{
}

// ---- what is asked about a socket ---------------------------------------------------------------

/// A stream somebody can write to is writable exactly where a write would not
/// have to wait. One that is closed is always, so that a write can say why it
/// is; a datagram socket is too.
pub proof fn writable_is_where_a_write_would_not_wait(s: SocketView, byte: u8, now: u64)
    requires
        s.valid(),
    ensures
        s.inner is Udp ==> s.can_be_written(),
        s.inner matches ProtocolView::Tcp(t) ==> {
            &&& (t.state is Established || t.state is CloseWait) && !t.fin_queued ==> (
            s.can_be_written() <==> t.written(seq![byte], now).2 != Err::<usize, Errno>(
                Errno::EAGAIN,
            ))
            &&& t.state is Closed ==> s.can_be_written()
            &&& t.state is Listen || t.state is SynSent || t.state is SynReceived ==> (
            s.can_be_written() <==> t.error is Some)
        },
{
}

/// As many bytes wait as a read with room for all of them gives out.
pub proof fn what_waits_is_what_a_read_gives(s: SocketView, size: int, peek: bool)
    requires
        s.valid(),
        s.waiting() > 0,
        size >= s.waiting(),
    ensures
        s.inner matches ProtocolView::Tcp(t) ==> {
            &&& t.readable(size).len() == s.waiting()
            &&& t.read_out(size, peek).2 == Ok::<usize, Errno>(s.waiting() as usize)
        },
        s.inner matches ProtocolView::Udp(u) ==> {
            &&& u.readable(size).len() == s.waiting()
            &&& u.read_result(size) matches Ok((n, _)) && n == s.waiting()
        },
{
    if let ProtocolView::Udp(u) = s.inner {
        udp::total_covers_the_first(u.queue);
    }
}

/// Nothing waits where there is nothing to read.
pub proof fn nothing_waits_where_there_is_nothing(s: SocketView)
    ensures
        s.inner matches ProtocolView::Tcp(t) ==> (s.waiting() == 0 <==> t.received.len() == 0),
        s.inner matches ProtocolView::Udp(u) ==> (u.queue.len() == 0 ==> s.waiting() == 0),
{
}

/// Whom a socket talks to: a stream to the other end of its connection, once
/// the handshake is over and as long as it lasts; a datagram socket to whom it
/// is connected to. Anything else talks to nobody.
pub proof fn whom_a_socket_talks_to(s: SocketView)
    ensures
        s.inner matches ProtocolView::Tcp(t) ==> {
            let open = !(t.state is Closed || t.state is Listen || t.state is SynSent
                || t.state is SynReceived);
            &&& open ==> s.peer() == Ok::<Endpoint, Errno>(t.remote)
            &&& !open ==> s.peer() == Err::<Endpoint, Errno>(Errno::ENOTCONN)
        },
        s.inner matches ProtocolView::Udp(u) ==> {
            &&& u.remote is Some ==> s.peer() == Ok::<Endpoint, Errno>(u.remote->0)
            &&& u.remote is None ==> s.peer() == Err::<Endpoint, Errno>(Errno::ENOTCONN)
        },
{
}

/// How connecting goes: under way, done, or failed with the reason, which is
/// then told once; a refusal where there is none. A listener connects nowhere.
pub proof fn how_connecting_goes(s: SocketView)
    ensures
        s.inner matches ProtocolView::Tcp(t) ==> {
            let (after, told) = s.progressed();
            &&& s.is_connecting() == (t.state is SynSent || t.state is SynReceived)
            &&& s.is_connecting() ==> after == s && told == Ok::<bool, Errno>(false)
            &&& t.state is Closed && t.error is Some ==> told == Err::<bool, Errno>(t.error->0)
            &&& t.state is Closed && t.error is None ==> told == Err::<bool, Errno>(
                Errno::ECONNREFUSED,
            )
            &&& t.state is Closed ==> after == SocketView {
                inner: ProtocolView::Tcp(TcbView { error: None, ..t }),
                ..s
            }
            &&& t.state is Listen ==> after == s && told == Err::<bool, Errno>(Errno::EINVAL)
            &&& !s.is_connecting() && !(t.state is Closed) && !(t.state is Listen) ==> after == s
                && told == Ok::<bool, Errno>(true)
        },
        s.inner matches ProtocolView::Udp(u) ==> s.progressed() == (
            s,
            Ok::<bool, Errno>(u.remote is Some),
        ) && !s.is_connecting(),
{
}

/// An error is told once: taking it leaves none, and everything else as it was.
pub proof fn an_error_is_told_once(s: SocketView)
    ensures
        ({
            let (after, error) = s.without_error();
            &&& after.without_error().1 is None
            &&& after.stream == s.stream && after.detached == s.detached
            &&& s.inner matches ProtocolView::Tcp(t) ==> error == t.error && after.inner
                == ProtocolView::Tcp(TcbView { error: None, ..t })
            &&& s.inner matches ProtocolView::Udp(u) ==> error == u.error && after.inner
                == ProtocolView::Udp(UdpView { error: None, ..u })
        }),
{
}

/// A connection is over where it failed, is closed, or has only the end of its
/// own closing to wait for; a datagram socket never is.
pub proof fn when_a_socket_is_over(s: SocketView)
    ensures
        s.inner is Udp ==> !s.is_over(),
        s.inner matches ProtocolView::Tcp(t) ==> s.is_over() == (t.error is Some
            || t.state is Closed || t.state is TimeWait || t.state is LastAck),
{
}

} // verus!
