//! TCP across every connection: which socket a segment belongs to, what
//! answers one that belongs to none, and the timers of all of them.

use crate::net::ip::{self, Ipv4Addr};
use crate::net::link::{source_for, Link, LinkView};
use crate::net::socket::{
    self, lookup_listener, lookup_stream, register, unregister, Endpoint, InetSocket, Protocol,
    SocketView, Sockets, SocketsView,
};
use crate::net::stack::{Net, NetView};
use crate::net::tcp::{
    self, Outgoing, OutgoingView, Segment, SegmentView, State, Step, Tcb, TcbView, ACK, RST, SYN,
};
use vstd::prelude::*;

verus! {

/// One segment sent. A socket bound to every address still has to name one on
/// the wire; with none to name, nothing is sent.
pub open spec fn segment_sent(l: LinkView, o: OutgoingView, now: u64) -> LinkView {
    let source = if o.source.address.unspecified() {
        l.source_towards(o.destination.address)
    } else {
        Ok(o.source.address)
    };
    match source {
        Err(_) => l,
        Ok(address) => if o.payload.len() > tcp::MAX_PAYLOAD {
            l
        } else {
            ip::payload_sent(
                l,
                address,
                o.destination.address,
                ip::PROTO_TCP,
                tcp::segment_bytes(
                    OutgoingView { source: Endpoint { address, port: o.source.port }, ..o },
                ),
                now,
            ).0
        },
    }
}

/// Segments sent, one after another.
pub open spec fn segments_sent(l: LinkView, segments: Seq<OutgoingView>, now: u64) -> LinkView
    decreases segments.len(),
{
    if segments.len() == 0 {
        l
    } else {
        segment_sent(segments_sent(l, segments.drop_last(), now), segments.last(), now)
    }
}

fn send_one(link: &mut Link, segment: &Outgoing, now: u64)
    requires
        old(link)@.valid(),
        now <= tcp::LAST_TICK,
    ensures
        final(link)@ == segment_sent(old(link)@, segment@, now),
        final(link)@.valid(),
{
    let address = if segment.source.address.is_unspecified() {
        match source_for(link, segment.destination.address) {
            Ok(address) => address,
            Err(_) => {
                return;
            },
        }
    } else {
        segment.source.address
    };
    if segment.payload.len() > tcp::MAX_PAYLOAD {
        return;
    }
    let bytes = tcp::build(
        Endpoint::new(address, segment.source.port),
        segment.destination,
        segment.sequence,
        segment.acknowledgement,
        segment.flags,
        segment.window,
        segment.mss,
        segment.payload.as_slice(),
    );
    let _ = ip::send_from(
        link,
        address,
        segment.destination.address,
        ip::PROTO_TCP,
        bytes.as_slice(),
        now,
    );
}

/// Send what an operation on a connection wanted sent.
pub fn send_segments(link: &mut Link, segments: &Vec<Outgoing>, now: u64)
    requires
        old(link)@.valid(),
        now <= tcp::LAST_TICK,
    ensures
        final(link)@ == segments_sent(old(link)@, tcp::views(segments@), now),
        final(link)@.valid(),
{
    let ghost all = tcp::views(segments@);
    let mut i: usize = 0;
    assert(all.take(0) =~= Seq::empty());
    while i < segments.len()
        invariant
            i <= segments@.len(),
            all == tcp::views(segments@),
            link@ == segments_sent(old(link)@, all.take(i as int), now),
            link@.valid(),
            now <= tcp::LAST_TICK,
        decreases segments@.len() - i,
    {
        assert(all.take(i + 1).drop_last() =~= all.take(i as int));
        assert(all.take(i + 1).last() == segments@[i as int]@);
        send_one(link, &segments[i], now);
        i += 1;
    }
    assert(all.take(i as int) =~= all);
}

/// The answer to a segment that belongs to no socket. RFC 793's rule: a
/// segment with an acknowledgement is answered from that number, one without
/// is answered with an acknowledgement of everything it carried.
pub open spec fn reset_for(local: Endpoint, remote: Endpoint, segment: SegmentView) -> OutgoingView {
    if segment.has(ACK) {
        OutgoingView {
            source: local,
            destination: remote,
            sequence: segment.acknowledgement,
            acknowledgement: 0,
            flags: RST,
            window: 0,
            mss: None,
            payload: Seq::empty(),
        }
    } else {
        OutgoingView {
            source: local,
            destination: remote,
            sequence: 0,
            acknowledgement: segment.sequence.wrapping_add(segment.length() as u32),
            flags: RST | ACK,
            window: 0,
            mss: None,
            payload: Seq::empty(),
        }
    }
}

impl NetView {
    /// What one stream socket remembers.
    pub open spec fn tcb(self, id: usize) -> TcbView {
        self.sockets.at(id).inner->Tcp_0
    }

    /// One connection's step carried out.
    pub open spec fn stepped(self, id: usize, step: Step, now: u64) -> NetView {
        NetView {
            link: segments_sent(self.link, step.sent, now).waking(step.woke),
            sockets: self.sockets.with(id, self.sockets.at(id).with_tcb(step.tcb)),
        }
    }

    /// A connection request answered for a listener: a child that will become
    /// the accepted connection, in the table before the answer goes out. A
    /// listener whose queue is full drops the request, which lets the other
    /// end try again when the server has caught up.
    pub open spec fn connection_accepted(
        self,
        listener: usize,
        local: Endpoint,
        remote: Endpoint,
        segment: SegmentView,
        now: u64,
        clock_ns: u64,
    ) -> NetView {
        let parent = self.tcb(listener);
        if parent.children.len() >= parent.backlog {
            self
        } else {
            let child = TcbView { local, remote, bound: true, ..TcbView::fresh() }.accepted(
                segment,
                clock_ns,
                self.link.secret,
            );
            let id = self.sockets.slots.len() as usize;
            let grown = self.sockets.grown(SocketView::fresh(true).with_tcb(child)).registered(id);
            let adopted = grown.with(
                listener,
                self.sockets.at(listener).with_tcb(
                    TcbView { children: parent.children.push(id), ..parent },
                ),
            );
            NetView {
                sockets: adopted.with(
                    id,
                    SocketView::fresh(true).with_tcb(child.armed(now)),
                ),
                link: segments_sent(
                    self.link,
                    seq![child.control(SYN | ACK, child.iss, true)],
                    now,
                ),
                ..self
            }
        }
    }

    /// What an arriving segment does to the stack. One addressed to anything
    /// but this machine itself, a broadcast above all, is thrown away
    /// (RFC 1122).
    pub open spec fn segment_taken(
        self,
        source: Ipv4Addr,
        destination: Ipv4Addr,
        bytes: Seq<u8>,
        now: u64,
        clock_ns: u64,
    ) -> NetView {
        if !tcp::is_segment(bytes) || ip::transport_checksum(
            source,
            destination,
            ip::PROTO_TCP,
            bytes,
        ) != 0 {
            self
        } else if !destination.loopback() && !self.link.is_ours(destination) {
            self
        } else {
            let segment = tcp::segment_of(bytes);
            let local = Endpoint { address: destination, port: segment.destination_port };
            let remote = Endpoint { address: source, port: segment.source_port };
            match self.sockets.conversation(local, remote) {
                Some(id) => self.stepped(id, self.tcb(id).on_arrival(segment, now), now),
                None => {
                    let asks = segment.has(SYN) && !segment.has(ACK) && !segment.has(RST);
                    if asks && self.sockets.listener(local) is Some {
                        self.connection_accepted(
                            self.sockets.listener(local)->0,
                            local,
                            remote,
                            segment,
                            now,
                            clock_ns,
                        )
                    } else if segment.has(RST) {
                        self
                    } else {
                        NetView {
                            link: segments_sent(
                                self.link,
                                seq![reset_for(local, remote, segment)],
                                now,
                            ),
                            ..self
                        }
                    }
                },
            }
        }
    }

    /// The timers of some sockets looked at in turn. The second result is the
    /// sockets that nothing more can come of: their descriptor is gone and
    /// their protocol has nothing left to do.
    pub open spec fn timers_run(self, ids: Seq<usize>, now: u64) -> (NetView, Seq<usize>)
        decreases ids.len(),
    {
        if ids.len() == 0 {
            (self, Seq::empty())
        } else {
            let (net, finished) = self.timers_run(ids.drop_last(), now);
            let id = ids.last();
            if !net.has_stream(id) {
                (net, finished)
            } else {
                let step = net.tcb(id).on_deadline(now);
                (
                    net.stepped(id, step, now),
                    if step.tcb.state is Closed && net.sockets.at(id).detached {
                        finished.push(id)
                    } else {
                        finished
                    },
                )
            }
        }
    }

    /// Looking at the clock for every connection.
    pub open spec fn connections_ticked(self, now: u64) -> NetView {
        let (net, finished) = self.timers_run(self.sockets.table, now);
        NetView { sockets: all_forgotten(net.sockets, finished), ..net }
    }

    /// The earliest deadline of some sockets.
    pub open spec fn earliest_of(self, ids: Seq<usize>) -> u64
        decreases ids.len(),
    {
        if ids.len() == 0 {
            u64::MAX
        } else {
            let before = self.earliest_of(ids.drop_last());
            let id = ids.last();
            if self.has_stream(id) && self.tcb(id).deadline() < before {
                self.tcb(id).deadline()
            } else {
                before
            }
        }
    }
}

/// Sockets let go, one after another.
pub open spec fn all_forgotten(sockets: SocketsView, ids: Seq<usize>) -> SocketsView
    decreases ids.len(),
{
    if ids.len() == 0 {
        sockets
    } else {
        all_forgotten(sockets, ids.drop_last()).forgotten(ids.last())
    }
}

/// Answer a segment that belongs to no socket.
fn send_reset(link: &mut Link, local: Endpoint, remote: Endpoint, segment: &Segment, now: u64)
    requires
        old(link)@.valid(),
        segment@.payload.len() <= ip::MAX_DATAGRAM,
        now <= tcp::LAST_TICK,
    ensures
        final(link)@ == segments_sent(old(link)@, seq![reset_for(local, remote, segment@)], now),
        final(link)@.valid(),
{
    let reply = if segment.flags & ACK != 0 {
        Outgoing {
            source: local,
            destination: remote,
            sequence: segment.acknowledgement,
            acknowledgement: 0,
            flags: RST,
            window: 0,
            mss: None,
            payload: Vec::new(),
        }
    } else {
        Outgoing {
            source: local,
            destination: remote,
            sequence: 0,
            acknowledgement: segment.sequence.wrapping_add(segment.length()),
            flags: RST | ACK,
            window: 0,
            mss: None,
            payload: Vec::new(),
        }
    };
    let mut out: Vec<Outgoing> = Vec::new();
    out.push(reply);
    assert(tcp::views(out@)[0] =~= reset_for(local, remote, segment@));
    assert(tcp::views(out@) =~= seq![reset_for(local, remote, segment@)]);
    send_segments(link, &out, now);
}

/// Step one connection and put it back, with what it wanted sent in `out`.
pub proof fn stepping_keeps_order(net: NetView, id: usize, tcb: TcbView)
    requires
        net.sockets.valid(),
        net.has_stream(id),
        tcb.valid(),
    ensures
        net.sockets.with(id, net.sockets.at(id).with_tcb(tcb)).valid(),
        net.sockets.emptied(id).with(id, net.sockets.at(id).with_tcb(tcb)) == net.sockets.with(
            id,
            net.sockets.at(id).with_tcb(tcb),
        ),
{
    assert(net.sockets.slots[id as int]->0.valid());
    socket::replacing_keeps_order(net.sockets, id, net.sockets.at(id).with_tcb(tcb));
}

/// Hand a segment to the connection it belongs to.
fn deliver(net: &mut Net, id: usize, segment: &Segment, now: u64)
    requires
        old(net)@.valid(),
        old(net)@.has_stream(id),
        segment@.payload.len() <= ip::MAX_DATAGRAM,
        now <= tcp::LAST_TICK,
    ensures
        final(net)@ == old(net)@.stepped(id, old(net)@.tcb(id).on_arrival(segment@, now), now),
        final(net)@.valid(),
{
    assert(net.sockets@.slots[id as int]->0.valid());
    let mut out: Vec<Outgoing> = Vec::new();
    assert(tcp::views(out@) =~= Seq::empty());
    let mut socket = net.sockets.take(id);
    let mut woke: bool = false;
    if let Protocol::Tcp(tcb) = &mut socket.inner {
        woke = tcb.on_segment(segment, now, &mut out);
    }
    proof {
        let step = old(net)@.tcb(id).on_arrival(segment@, now);
        assert(tcp::views(out@) =~= step.sent);
        stepping_keeps_order(old(net)@, id, step.tcb);
        assert((*socket)@ =~= old(net)@.sockets.at(id).with_tcb(step.tcb));
    }
    net.sockets.put(id, socket);
    send_segments(&mut net.link, &out, now);
    if woke {
        net.link.woken = true;
    }
}

/// The socket a connection request makes.
fn make_child(
    local: Endpoint,
    remote: Endpoint,
    segment: &Segment,
    clock_ns: u64,
    secret: u64,
) -> (child: InetSocket)
    ensures
        child@ == SocketView::fresh(true).with_tcb(
            (TcbView { local, remote, bound: true, ..TcbView::fresh() }).accepted(
                segment@,
                clock_ns,
                secret,
            ),
        ),
        child@.valid(),
{
    let mut tcb = Tcb::new();
    tcb.local = local;
    tcb.remote = remote;
    tcb.bound = true;
    assert(tcb@ =~= TcbView { local, remote, bound: true, ..TcbView::fresh() });
    tcb.accept_open(segment, clock_ns, secret);
    InetSocket { stream: true, inner: Protocol::Tcp(tcb), detached: false }
}

/// Put a child on a listener's queue.
fn adopt(sockets: &mut Sockets, listener: usize, child: usize)
    requires
        old(sockets)@.valid(),
        old(sockets)@.has(listener),
        old(sockets)@.at(listener).stream,
    ensures
        ({
            let parent = old(sockets)@.at(listener).inner->Tcp_0;
            final(sockets)@ == old(sockets)@.with(
                listener,
                old(sockets)@.at(listener).with_tcb(
                    TcbView { children: parent.children.push(child), ..parent },
                ),
            )
        }),
        final(sockets)@.valid(),
{
    let ghost before = sockets@;
    assert(before.slots[listener as int]->0.valid());
    let mut parent = sockets.take(listener);
    if let Protocol::Tcp(tcb) = &mut parent.inner {
        tcb.children.push(child);
    }
    proof {
        let tcb = before.at(listener).inner->Tcp_0;
        let adopted = TcbView { children: tcb.children.push(child), ..tcb };
        assert((*parent)@ =~= before.at(listener).with_tcb(adopted));
        socket::replacing_keeps_order(before, listener, (*parent)@);
    }
    sockets.put(listener, parent);
}

/// Answer a connection request from the child it made.
fn answer(net: &mut Net, id: usize, now: u64)
    requires
        old(net)@.valid(),
        old(net)@.has_stream(id),
        !old(net)@.tcb(id).idle(),
        now <= tcp::LAST_TICK,
    ensures
        ({
            let child = old(net)@.tcb(id);
            final(net)@ == NetView {
                sockets: old(net)@.sockets.with(
                    id,
                    old(net)@.sockets.at(id).with_tcb(child.armed(now)),
                ),
                link: segments_sent(
                    old(net)@.link,
                    seq![child.control(SYN | ACK, child.iss, true)],
                    now,
                ),
                ..old(net)@
            }
        }),
        final(net)@.valid(),
{
    assert(net.sockets@.slots[id as int]->0.valid());
    let mut out: Vec<Outgoing> = Vec::new();
    assert(tcp::views(out@) =~= Seq::empty());
    let mut socket = net.sockets.take(id);
    if let Protocol::Tcp(tcb) = &mut socket.inner {
        tcb.send_syn_ack(now, &mut out);
    }
    proof {
        let child = old(net)@.tcb(id);
        stepping_keeps_order(old(net)@, id, child.armed(now));
        assert((*socket)@ =~= old(net)@.sockets.at(id).with_tcb(child.armed(now)));
        assert(tcp::views(out@) =~= seq![child.control(SYN | ACK, child.iss, true)]);
    }
    net.sockets.put(id, socket);
    send_segments(&mut net.link, &out, now);
}

/// A connection request for a listening socket: make the child that will
/// become the accepted connection and answer.
fn accept_connection(
    net: &mut Net,
    listener: usize,
    local: Endpoint,
    remote: Endpoint,
    segment: &Segment,
    now: u64,
    clock_ns: u64,
)
    requires
        old(net)@.valid(),
        old(net)@.has_stream(listener),
        now <= tcp::LAST_TICK,
    ensures
        final(net)@ == old(net)@.connection_accepted(
            listener,
            local,
            remote,
            segment@,
            now,
            clock_ns,
        ),
        final(net)@.valid(),
{
    let ghost start = net@;
    assert(start.sockets.slots[listener as int]->0.valid());
    let room = match net.sockets.get(listener) {
        Some(socket) => match &socket.inner {
            Protocol::Tcp(tcb) => tcb.children.len() < tcb.backlog,
            Protocol::Udp(_) => false,
        },
        None => false,
    };
    if !room {
        // The queue is full. Dropping the request rather than refusing it lets
        // the other end try again when the server has caught up.
        return;
    }
    let child = make_child(local, remote, segment, clock_ns, net.link.secret);
    let id: usize = net.sockets.slots.len();
    assert(id == start.sockets.slots.len());
    net.sockets.insert(child);
    // In the table before the answer goes out, so the acknowledgement that
    // completes the handshake finds it.
    register(&mut net.sockets, id);
    adopt(&mut net.sockets, listener, id);
    answer(net, id, now);
}

/// One received segment.
pub fn receive(
    net: &mut Net,
    source: Ipv4Addr,
    destination: Ipv4Addr,
    bytes: &[u8],
    now: u64,
    clock_ns: u64,
)
    requires
        old(net)@.valid(),
        bytes@.len() <= ip::MAX_DATAGRAM,
        now <= tcp::LAST_TICK,
    ensures
        final(net)@ == old(net)@.segment_taken(source, destination, bytes@, now, clock_ns),
        final(net)@.valid(),
{
    let segment = match Segment::parse(bytes) {
        Some(segment) => segment,
        None => {
            return;
        },
    };
    if ip::transport_sum(source, destination, ip::PROTO_TCP, bytes) != 0 {
        return;
    }
    let ours = destination.is_loopback() || match net.link.config {
        Some(config) => config.address() == destination,
        None => false,
    };
    if !ours {
        return;
    }
    let local = Endpoint::new(destination, segment.destination_port);
    let remote = Endpoint::new(source, segment.source_port);
    if let Some(id) = lookup_stream(&net.sockets, local, remote) {
        assert(net.sockets@.slots[id as int]->0.valid());
        deliver(net, id, &segment, now);
        return;
    }
    if segment.flags & SYN != 0 && segment.flags & ACK == 0 && segment.flags & RST == 0 {
        if let Some(listener) = lookup_listener(&net.sockets, local) {
            assert(net.sockets@.slots[listener as int]->0.valid());
            accept_connection(net, listener, local, remote, &segment, now, clock_ns);
            return;
        }
    }
    if segment.flags & RST == 0 {
        send_reset(&mut net.link, local, remote, &segment, now);
    }
}

// ---- timers across every connection --------------------------------------------

/// The next tick at which `on_tick` has something to do.
pub fn next_deadline(net: &Net) -> (tick: u64)
    requires
        net@.valid(),
    ensures
        tick == net@.earliest_of(net@.sockets.table),
{
    let ghost table = net@.sockets.table;
    let mut earliest: u64 = u64::MAX;
    let mut i: usize = 0;
    assert(table.take(0) =~= Seq::empty());
    while i < net.sockets.table.len()
        invariant
            i <= net.sockets.table@.len(),
            table == net@.sockets.table,
            net@.valid(),
            earliest == net@.earliest_of(table.take(i as int)),
        decreases net.sockets.table@.len() - i,
    {
        assert(table.take(i + 1).drop_last() =~= table.take(i as int));
        let id: usize = net.sockets.table[i];
        assert(net@.sockets.has(net@.sockets.table[i as int]));
        if let Some(socket) = net.sockets.get(id) {
            assert(net@.sockets.slots[id as int]->0.valid());
            if let Protocol::Tcp(tcb) = &socket.inner {
                let tick: u64 = tcb.next_deadline();
                if tick < earliest {
                    earliest = tick;
                }
            }
        }
        i += 1;
    }
    assert(table.take(i as int) =~= table);
    earliest
}

/// Look at the clock for one connection. True when nothing more can come of
/// it.
fn run_timer(net: &mut Net, id: usize, now: u64) -> (done: bool)
    requires
        old(net)@.valid(),
        old(net)@.has_stream(id),
        now <= tcp::LAST_TICK,
    ensures
        ({
            let step = old(net)@.tcb(id).on_deadline(now);
            &&& final(net)@ == old(net)@.stepped(id, step, now)
            &&& done == (step.tcb.state is Closed && old(net)@.sockets.at(id).detached)
        }),
        final(net)@.valid(),
{
    assert(net.sockets@.slots[id as int]->0.valid());
    let mut out: Vec<Outgoing> = Vec::new();
    assert(tcp::views(out@) =~= Seq::empty());
    let mut socket = net.sockets.take(id);
    let mut woke: bool = false;
    let mut closed: bool = false;
    let detached = socket.detached;
    if let Protocol::Tcp(tcb) = &mut socket.inner {
        woke = tcb.on_timer(now, &mut out);
        closed = tcb.state == State::Closed;
    }
    proof {
        let step = old(net)@.tcb(id).on_deadline(now);
        assert(tcp::views(out@) =~= step.sent);
        stepping_keeps_order(old(net)@, id, step.tcb);
        assert((*socket)@ =~= old(net)@.sockets.at(id).with_tcb(step.tcb));
    }
    net.sockets.put(id, socket);
    send_segments(&mut net.link, &out, now);
    if woke {
        net.link.woken = true;
    }
    closed && detached
}

/// Look at the clock for every connection.
pub fn on_tick(net: &mut Net, now: u64)
    requires
        old(net)@.valid(),
        now <= tcp::LAST_TICK,
    ensures
        final(net)@ == old(net)@.connections_ticked(now),
        final(net)@.valid(),
{
    let table = socket::all(&net.sockets);
    let mut finished: Vec<usize> = Vec::new();
    let mut i: usize = 0;
    assert(table@.take(0) =~= Seq::empty());
    assert(finished@ =~= Seq::empty());
    while i < table.len()
        invariant
            i <= table@.len(),
            net@.valid(),
            now <= tcp::LAST_TICK,
            (net@, finished@) == old(net)@.timers_run(table@.take(i as int), now),
        decreases table@.len() - i,
    {
        assert(table@.take(i + 1).drop_last() =~= table@.take(i as int));
        let id: usize = table[i];
        let stream = match net.sockets.get(id) {
            Some(socket) => socket.stream,
            None => false,
        };
        if stream {
            if run_timer(net, id, now) {
                finished.push(id);
            }
        }
        i += 1;
    }
    assert(table@.take(i as int) =~= table@);
    let ghost ran = net@;
    let mut k: usize = 0;
    assert(finished@.take(0) =~= Seq::empty());
    while k < finished.len()
        invariant
            k <= finished@.len(),
            net@.valid(),
            net@ == (NetView {
                sockets: all_forgotten(ran.sockets, finished@.take(k as int)),
                ..ran
            }),
        decreases finished@.len() - k,
    {
        assert(finished@.take(k + 1).drop_last() =~= finished@.take(k as int));
        unregister(&mut net.sockets, finished[k]);
        k += 1;
    }
    assert(finished@.take(k as int) =~= finished@);
}

} // verus!
