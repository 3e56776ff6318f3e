//! What a program does with a socket: listening, connecting, accepting,
//! transferring and closing.
//!
//! Nothing here sleeps. An operation that would have to wait says so, and the
//! caller waits and asks again.

use crate::errno::Errno;
use crate::net::config::Config;
use crate::net::link::{source_for, LOOPBACK_LIMIT};
use crate::net::socket::{
    self, unregister, Endpoint, InetSocket, Protocol, ProtocolView, SocketView, Sockets,
    SocketsView,
};
use crate::net::stack::{self, Net, NetView};
use crate::net::tcp::{self, Outgoing, OutgoingView, Step, TcbView};
use crate::net::tcp_table::{self, send_segments};
use crate::net::udp::UdpView;
use vstd::prelude::*;

verus! {

/// The most connections a listener will hold that nobody has accepted.
pub const MAX_BACKLOG: usize = 128;

impl SocketsView {
    /// A connection that came to nothing before anyone accepted it.
    pub open spec fn is_dead(self, id: usize) -> bool {
        !self.has(id) || (self.at(id).inner matches ProtocolView::Tcp(tcb) && tcb.state is Closed)
    }

    /// A connection accept may hand out.
    pub open spec fn is_ready(self, id: usize) -> bool {
        self.has(id) && self.at(id).open()
    }

    /// The children that stay on a listener's queue once `ready` is handed
    /// out.
    pub open spec fn still_waiting(self, children: Seq<usize>, ready: Option<usize>) -> Seq<usize>
        decreases children.len(),
    {
        if children.len() == 0 {
            Seq::empty()
        } else {
            let before = self.still_waiting(children.drop_last(), ready);
            if self.is_dead(children.last()) || ready == Some(children.last()) {
                before
            } else {
                before.push(children.last())
            }
        }
    }

    /// The children that came to nothing.
    pub open spec fn dead_among(self, children: Seq<usize>) -> Seq<usize>
        decreases children.len(),
    {
        if children.len() == 0 {
            Seq::empty()
        } else {
            let before = self.dead_among(children.drop_last());
            if self.is_dead(children.last()) {
                before.push(children.last())
            } else {
                before
            }
        }
    }

    /// A poll would report this socket readable: there is something to read,
    /// or something to accept, or a read would report an end rather than
    /// block.
    pub open spec fn readable(self, id: usize) -> bool {
        match self.at(id).inner {
            ProtocolView::Tcp(tcb) => if tcb.state is Listen {
                exists|k: int|
                    0 <= k < tcb.children.len() && self.is_ready(#[trigger] tcb.children[k])
            } else {
                tcb.received.len() > 0 || tcb.fin_received || tcb.read_shutdown
                    || tcb.state is Closed
            },
            ProtocolView::Udp(state) => state.queue.len() > 0 || state.read_shutdown,
        }
    }

    /// What a send comes to once the card has answered for the frame it put
    /// out. A datagram the card did not take was not sent; a stream sends the
    /// bytes again, so it does not ask.
    pub open spec fn answered(
        self,
        id: usize,
        result: Result<usize, Errno>,
        refusal: Option<Errno>,
    ) -> Result<usize, Errno> {
        match (self.at(id).inner, result, refusal) {
            (ProtocolView::Udp(_), Ok(_), Some(reason)) => Err(reason),
            _ => result,
        }
    }

    /// Start listening.
    pub open spec fn listened(self, id: usize, backlog: usize, config: Option<Config>) -> (
        SocketsView,
        Result<(), Errno>,
    ) {
        if !self.at(id).stream {
            (self, Err(Errno::EOPNOTSUPP))
        } else {
            let (after, result) = self.bound_somewhere(id, config);
            match result {
                Err(reason) => (after, Err(reason)),
                Ok(_) => {
                    let tcb = after.at(id).inner->Tcp_0;
                    if !tcb.idle() {
                        (after, Err(Errno::EINVAL))
                    } else {
                        (
                            after.with(
                                id,
                                after.at(id).with_tcb(
                                    TcbView {
                                        state: tcp::State::Listen,
                                        backlog: clamped(backlog),
                                        ..tcb
                                    },
                                ),
                            ),
                            Ok(()),
                        )
                    }
                },
            }
        }
    }
}

/// A backlog within bounds.
pub open spec fn clamped(backlog: usize) -> usize {
    if backlog < 1 {
        1
    } else if backlog > MAX_BACKLOG {
        MAX_BACKLOG
    } else {
        backlog
    }
}

impl NetView {
    /// Whatever this machine sent itself delivered.
    pub open spec fn polled(self, now: u64, clock_ns: u64) -> NetView {
        self.loopback_delivered(LOOPBACK_LIMIT as nat, now, clock_ns)
    }

    /// Take one finished connection off a listener's queue. A handshake that
    /// was reset before anyone accepted it is nobody's to report, so it is
    /// simply forgotten.
    pub open spec fn accepted_from(self, id: usize) -> (NetView, Result<Option<usize>, Errno>) {
        match self.sockets.at(id).inner {
            ProtocolView::Udp(_) => (self, Err(Errno::EOPNOTSUPP)),
            ProtocolView::Tcp(tcb) => if !(tcb.state is Listen) {
                (self, Err(Errno::EINVAL))
            } else {
                let ready = socket::first(tcb.children, |c: usize| self.sockets.is_ready(c));
                let waiting = self.sockets.still_waiting(tcb.children, ready);
                let dead = self.sockets.dead_among(tcb.children);
                let trimmed = self.sockets.with(
                    id,
                    self.sockets.at(id).with_tcb(TcbView { children: waiting, ..tcb }),
                );
                (
                    NetView { sockets: tcp_table::all_forgotten(trimmed, dead), ..self },
                    Ok(ready),
                )
            },
        }
    }

    /// Where a connection to `remote` is opened from, or why it cannot be. A
    /// connection needs an address of this machine's own.
    pub open spec fn connects_from(self, remote: Endpoint) -> Result<crate::net::ip::Ipv4Addr, Errno> {
        match self.link.source_towards(remote.address) {
            Ok(address) => if address.unspecified() {
                Err(Errno::ENETUNREACH)
            } else {
                Ok(address)
            },
            Err(reason) => Err(reason),
        }
    }

    /// Connect a socket, up to where the answer is waited for. A datagram
    /// socket's connect only records where to send.
    pub open spec fn connected(self, id: usize, remote: Endpoint, now: u64, clock_ns: u64) -> (
        NetView,
        Result<(), Errno>,
    ) {
        if remote.port == 0 || remote.address.unspecified() {
            (self, Err(Errno::EINVAL))
        } else {
            let (sockets, result) = self.sockets.bound_somewhere(id, self.link.config);
            let net = NetView { sockets, ..self };
            match result {
                Err(reason) => (net, Err(reason)),
                Ok(_) => match sockets.at(id).inner {
                    ProtocolView::Udp(state) => (
                        NetView {
                            sockets: sockets.with(
                                id,
                                sockets.at(id).with_udp(UdpView { remote: Some(remote), ..state }),
                            ),
                            ..net
                        },
                        Ok(()),
                    ),
                    ProtocolView::Tcp(tcb) => match tcb.state {
                        tcp::State::SynSent => (net, Err(Errno::EALREADY)),
                        tcp::State::Listen => (net, Err(Errno::EINVAL)),
                        tcp::State::Closed => match net.connects_from(remote) {
                            Err(reason) => (net, Err(reason)),
                            Ok(address) => {
                                let (opened, sent) = TcbView {
                                    local: Endpoint { address, port: tcb.local.port },
                                    remote,
                                    ..tcb
                                }.opened(now, clock_ns, net.link.secret);
                                (
                                    net.stepped(
                                        id,
                                        Step { tcb: opened, sent, woke: false },
                                        now,
                                    ).polled(now, clock_ns),
                                    Ok(()),
                                )
                            },
                        },
                        _ => (net, Err(Errno::EISCONN)),
                    },
                },
            }
        }
    }

    /// Send on a socket.
    pub open spec fn sent_on(self, id: usize, buf: Seq<u8>, to: Option<Endpoint>, now: u64) -> (
        NetView,
        Result<usize, Errno>,
    ) {
        match self.sockets.at(id).inner {
            ProtocolView::Tcp(tcb) => {
                let (after, sent, result) = tcb.written(buf, now);
                (self.stepped(id, Step { tcb: after, sent, woke: false }, now), result)
            },
            ProtocolView::Udp(state) => {
                let (link, result) = state.sent(self.link, buf, to, now);
                (NetView { link, ..self }, result)
            },
        }
    }

    /// The bytes a read of up to `size` copies out.
    pub open spec fn readable_bytes(self, id: usize, size: int) -> Seq<u8> {
        match self.sockets.at(id).inner {
            ProtocolView::Tcp(tcb) => tcb.readable(size),
            ProtocolView::Udp(state) => state.readable(size),
        }
    }

    /// Read from a socket.
    pub open spec fn received_from(self, id: usize, size: int, peek: bool, now: u64) -> (
        NetView,
        Result<(usize, Endpoint), Errno>,
    ) {
        match self.sockets.at(id).inner {
            ProtocolView::Tcp(tcb) => {
                let (after, sent, result) = tcb.read_out(size, peek);
                (
                    self.stepped(id, Step { tcb: after, sent, woke: false }, now),
                    match result {
                        Ok(n) => Ok((n, tcb.remote)),
                        Err(reason) => Err(reason),
                    },
                )
            },
            ProtocolView::Udp(state) => (
                NetView {
                    sockets: self.sockets.with(
                        id,
                        self.sockets.at(id).with_udp(
                            if peek || state.queue.len() == 0 {
                                state
                            } else {
                                state.taken()
                            },
                        ),
                    ),
                    ..self
                },
                state.read_result(size),
            ),
        }
    }

    /// One try at reading, and what the caller is told.
    pub open spec fn read_tried(
        self,
        id: usize,
        size: int,
        nonblock: bool,
        peek: bool,
        now: u64,
        clock_ns: u64,
    ) -> (NetView, Attempt<(usize, Endpoint)>) {
        let (net, result) = self.received_from(id, size, peek, now);
        if result == Err::<(usize, Endpoint), Errno>(Errno::EAGAIN) {
            (
                net,
                if nonblock {
                    Attempt::Done(result)
                } else {
                    Attempt::Wait
                },
            )
        } else {
            (net.polled(now, clock_ns), Attempt::Done(result))
        }
    }

    /// One try at writing, and what the caller is told.
    pub open spec fn write_tried(
        self,
        id: usize,
        buf: Seq<u8>,
        nonblock: bool,
        to: Option<Endpoint>,
        now: u64,
        clock_ns: u64,
    ) -> (NetView, Attempt<usize>) {
        let (net, result) = self.sent_on(id, buf, to, now);
        net.write_settled(id, result, None, nonblock, now, clock_ns)
    }

    /// A try at writing settled: what was sent is delivered where it goes to
    /// this machine itself, and what was refused for now is tried again.
    pub open spec fn write_settled(
        self,
        id: usize,
        result: Result<usize, Errno>,
        refusal: Option<Errno>,
        nonblock: bool,
        now: u64,
        clock_ns: u64,
    ) -> (NetView, Attempt<usize>) {
        let told = self.sockets.answered(id, result, refusal);
        match told {
            Ok(_) => (self.polled(now, clock_ns), Attempt::Done(told)),
            Err(reason) => (
                self,
                if reason == Errno::EAGAIN && !nonblock {
                    Attempt::Wait
                } else {
                    Attempt::Done(told)
                },
            ),
        }
    }

    /// Shut one or both directions of a socket.
    pub open spec fn shut(self, id: usize, read: bool, write: bool, now: u64) -> (
        NetView,
        Result<(), Errno>,
    ) {
        match self.sockets.at(id).inner {
            ProtocolView::Tcp(tcb) => if !tcb.state.synchronised() && !(tcb.state is SynSent) {
                (self, Err(Errno::ENOTCONN))
            } else {
                let reading = TcbView { read_shutdown: tcb.read_shutdown || read, ..tcb };
                let (after, sent) = if write {
                    reading.write_shut(now)
                } else {
                    (reading, Seq::<OutgoingView>::empty())
                };
                (self.stepped(id, Step { tcb: after, sent, woke: false }, now), Ok(()))
            },
            ProtocolView::Udp(state) => {
                let reading = if read {
                    state.read_shut()
                } else {
                    state
                };
                (
                    NetView {
                        sockets: self.sockets.with(
                            id,
                            self.sockets.at(id).with_udp(
                                UdpView {
                                    write_shutdown: state.write_shutdown || write,
                                    ..reading
                                },
                            ),
                        ),
                        ..self
                    },
                    Ok(()),
                )
            },
        }
    }

    /// What closing a connection's descriptor does to the connection. Data
    /// that arrived and nobody will ever read is answered with a reset rather
    /// than leaving the other end to time out.
    pub open spec fn let_go(tcb: TcbView, now: u64) -> (TcbView, Seq<OutgoingView>) {
        let alone = TcbView { children: Seq::empty(), ..tcb }.orphaned(now);
        if alone.state is Listen {
            (TcbView { state: tcp::State::Closed, ..alone }, Seq::empty())
        } else if alone.received.len() > 0 {
            alone.aborted()
        } else {
            alone.write_shut(now)
        }
    }

    /// A connection that was never accepted, reset and forgotten: there is no
    /// descriptor that could ever read what it has to say.
    pub open spec fn child_reset(self, id: usize, now: u64) -> NetView {
        if !self.has_stream(id) {
            NetView { sockets: self.sockets.forgotten(id), ..self }
        } else {
            let (_, sent) = self.tcb(id).aborted();
            NetView {
                sockets: self.sockets.forgotten(id),
                link: tcp_table::segments_sent(self.link, sent, now),
            }
        }
    }

    /// Connections that were never accepted, reset one after another.
    pub open spec fn children_reset(self, children: Seq<usize>, now: u64) -> NetView
        decreases children.len(),
    {
        if children.len() == 0 {
            self
        } else {
            self.children_reset(children.drop_last(), now).child_reset(children.last(), now)
        }
    }

    /// The descriptor is gone. Whatever the protocol still owes the other end
    /// is started, and the table holds the socket until that is finished.
    pub open spec fn closed(self, id: usize, now: u64, clock_ns: u64) -> NetView {
        let detached = NetView {
            sockets: self.sockets.with(id, SocketView { detached: true, ..self.sockets.at(id) }),
            ..self
        };
        match self.sockets.at(id).inner {
            ProtocolView::Udp(_) => NetView {
                sockets: detached.sockets.forgotten(id),
                link: self.link.waking(true),
            },
            ProtocolView::Tcp(tcb) => {
                let (after, sent) = NetView::let_go(tcb, now);
                let stepped = detached.stepped(id, Step { tcb: after, sent, woke: false }, now);
                let alone = stepped.children_reset(tcb.children, now);
                let kept = if after.state is Closed {
                    NetView { sockets: alone.sockets.forgotten(id), ..alone }
                } else {
                    alone
                }.polled(now, clock_ns);
                NetView { link: kept.link.waking(true), ..kept }
            },
        }
    }
}

/// What a caller that may sleep does next.
#[derive(Clone, Copy, PartialEq, Eq, Debug, Structural)]
pub enum Waiting {
    /// What was waited for has come.
    Ready,
    /// A signal is pending, which ends the wait.
    Interrupted,
    /// Sleep until something changes, or until this tick.
    SleepUntil(u64),
}

/// One look at what a sleeper waits for.
pub fn wait_for(ready: bool, pending_signal: bool, deadline: u64) -> (waiting: Waiting)
    ensures
        waiting == (if ready {
            Waiting::Ready
        } else if pending_signal {
            Waiting::Interrupted
        } else {
            Waiting::SleepUntil(deadline)
        }),
{
    if ready {
        return Waiting::Ready;
    }
    if pending_signal {
        return Waiting::Interrupted;
    }
    Waiting::SleepUntil(deadline)
}

/// What became of an operation that may have to wait.
pub enum Attempt<T> {
    /// It is over, one way or the other.
    Done(Result<T, Errno>),
    /// It has to be tried again once the socket is ready for it.
    Wait,
}

impl InetSocket {
    /// A poll would report this readable: there is something to read, or
    /// something to accept, or a read would report an end or an error rather
    /// than block.
    pub fn readable(sockets: &Sockets, id: usize) -> (r: bool)
        requires
            sockets@.valid(),
            sockets@.has(id),
        ensures
            r == sockets@.readable(id),
    {
        match sockets.get(id) {
            Some(socket) => match &socket.inner {
                Protocol::Tcp(tcb) => {
                    if tcb.state == tcp::State::Listen {
                        let mut i: usize = 0;
                        while i < tcb.children.len()
                            invariant
                                i <= tcb.children@.len(),
                                sockets@.has(id),
                                sockets@.at(id) == socket@,
                                socket.inner == Protocol::Tcp(*tcb),
                                tcb@.state is Listen,
                                forall|k: int|
                                    0 <= k < i ==> !sockets@.is_ready(
                                        #[trigger] tcb.children@[k],
                                    ),
                            decreases tcb.children@.len() - i,
                        {
                            let ready = match sockets.get(tcb.children[i]) {
                                Some(child) => child.handshake_done(),
                                None => false,
                            };
                            if ready {
                                assert(sockets@.at(id).inner->Tcp_0.children[i as int]
                                    == tcb.children@[i as int]);
                                return true;
                            }
                            i += 1;
                        }
                        return false;
                    }
                    tcb.received.len() > 0 || tcb.fin_received || tcb.read_shutdown
                        || tcb.state == tcp::State::Closed
                },
                Protocol::Udp(state) => state.queue.len() > 0 || state.read_shutdown,
            },
            None => false,
        }
    }

    pub fn listen(sockets: &mut Sockets, id: usize, backlog: usize, config: Option<Config>) -> (result:
        Result<(), Errno>)
        requires
            old(sockets)@.valid(),
            old(sockets)@.has(id),
        ensures
            (final(sockets)@, result) == old(sockets)@.listened(id, backlog, config),
            final(sockets)@.valid(),
            final(sockets)@.has(id),
    {
        assert(sockets@.slots[id as int]->0.valid());
        let stream = match sockets.get(id) {
            Some(socket) => socket.stream,
            None => false,
        };
        if !stream {
            return Err(Errno::EOPNOTSUPP);
        }
        match InetSocket::bind_ephemeral(sockets, id, config) {
            Ok(_) => {},
            Err(reason) => {
                return Err(reason);
            },
        }
        let ghost before = sockets@;
        assert(before.slots[id as int]->0.valid());
        let mut socket = sockets.take(id);
        let mut idle: bool = false;
        if let Protocol::Tcp(tcb) = &mut socket.inner {
            idle = matches!(tcb.state, tcp::State::Closed | tcp::State::Listen);
            if idle {
                tcb.state = tcp::State::Listen;
                tcb.backlog = if backlog < 1 {
                    1
                } else if backlog > MAX_BACKLOG {
                    MAX_BACKLOG
                } else {
                    backlog
                };
            }
        }
        proof {
            let tcb = before.at(id).inner->Tcp_0;
            if idle {
                assert((*socket)@ =~= before.at(id).with_tcb(
                    TcbView {
                        state: tcp::State::Listen,
                        backlog: clamped(backlog),
                        ..tcb
                    },
                ));
            } else {
                assert((*socket)@ =~= before.at(id));
                assert(before.with(id, before.at(id)) =~= before);
            }
            socket::replacing_keeps_order(before, id, (*socket)@);
        }
        sockets.put(id, socket);
        if idle {
            Ok(())
        } else {
            Err(Errno::EINVAL)
        }
    }

    /// The descriptor is gone from a datagram socket, or from a connection:
    /// mark it so.
    fn detach(sockets: &mut Sockets, id: usize)
        requires
            old(sockets)@.valid(),
            old(sockets)@.has(id),
        ensures
            final(sockets)@ == old(sockets)@.with(
                id,
                SocketView { detached: true, ..old(sockets)@.at(id) },
            ),
            final(sockets)@.valid(),
            final(sockets)@.has(id),
    {
        let ghost before = sockets@;
        assert(before.slots[id as int]->0.valid());
        let mut socket = sockets.take(id);
        socket.detached = true;
        proof {
            assert((*socket)@ =~= SocketView { detached: true, ..before.at(id) });
            socket::replacing_keeps_order(before, id, (*socket)@);
        }
        sockets.put(id, socket);
    }

    /// Split a listener's queue into what stays on it and what came to
    /// nothing.
    fn sort_children(sockets: &Sockets, children: &Vec<usize>, ready: Option<usize>) -> (result: (
        Vec<usize>,
        Vec<usize>,
    ))
        requires
            sockets@.valid(),
        ensures
            result.0@ == sockets@.still_waiting(children@, ready),
            result.1@ == sockets@.dead_among(children@),
    {
        let mut waiting: Vec<usize> = Vec::new();
        let mut dead: Vec<usize> = Vec::new();
        let mut i: usize = 0;
        assert(children@.take(0) =~= Seq::empty());
        assert(waiting@ =~= sockets@.still_waiting(children@.take(0), ready));
        assert(dead@ =~= sockets@.dead_among(children@.take(0)));
        while i < children.len()
            invariant
                i <= children@.len(),
                sockets@.valid(),
                waiting@ == sockets@.still_waiting(children@.take(i as int), ready),
                dead@ == sockets@.dead_among(children@.take(i as int)),
            decreases children@.len() - i,
        {
            assert(children@.take(i + 1).drop_last() =~= children@.take(i as int));
            let child: usize = children[i];
            let over = match sockets.get(child) {
                Some(socket) => match &socket.inner {
                    Protocol::Tcp(tcb) => tcb.state == tcp::State::Closed,
                    Protocol::Udp(_) => false,
                },
                None => true,
            };
            assert(over == sockets@.is_dead(child));
            let handed_out = match ready {
                Some(r) => r == child,
                None => false,
            };
            if over {
                dead.push(child);
            } else if !handed_out {
                waiting.push(child);
            }
            i += 1;
        }
        assert(children@.take(i as int) =~= children@);
        (waiting, dead)
    }

    /// The first child of a listener that accept may hand out.
    fn first_ready(sockets: &Sockets, children: &Vec<usize>) -> (ready: Option<usize>)
        ensures
            ready == socket::first(children@, |c: usize| sockets@.is_ready(c)),
    {
        let ghost hit = |c: usize| sockets@.is_ready(c);
        let mut i: usize = 0;
        assert(children@.skip(0) =~= children@);
        while i < children.len()
            invariant
                i <= children@.len(),
                hit == (|c: usize| sockets@.is_ready(c)),
                socket::first(children@.skip(i as int), hit) == socket::first(children@, hit),
            decreases children@.len() - i,
        {
            let child: usize = children[i];
            assert(children@.skip(i as int).skip(1) =~= children@.skip(i + 1));
            let done = match sockets.get(child) {
                Some(socket) => socket.handshake_done(),
                None => false,
            };
            assert(done == hit(child));
            if done {
                return Some(child);
            }
            i += 1;
        }
        None
    }

    /// Replace a listener's queue.
    fn set_children(sockets: &mut Sockets, id: usize, children: Vec<usize>)
        requires
            old(sockets)@.valid(),
            old(sockets)@.has(id),
            old(sockets)@.at(id).stream,
        ensures
            final(sockets)@ == old(sockets)@.with(
                id,
                old(sockets)@.at(id).with_tcb(
                    TcbView { children: children@, ..old(sockets)@.at(id).inner->Tcp_0 },
                ),
            ),
            final(sockets)@.valid(),
    {
        let ghost before = sockets@;
        assert(before.slots[id as int]->0.valid());
        let ghost list = children@;
        let mut socket = sockets.take(id);
        if let Protocol::Tcp(tcb) = &mut socket.inner {
            tcb.children = children;
        }
        proof {
            assert((*socket)@ =~= before.at(id).with_tcb(
                TcbView { children: list, ..before.at(id).inner->Tcp_0 },
            ));
            socket::replacing_keeps_order(before, id, (*socket)@);
        }
        sockets.put(id, socket);
    }

    /// The connections on a socket's queue, copied.
    fn children_of(sockets: &Sockets, id: usize) -> (children: Vec<usize>)
        requires
            sockets@.valid(),
            sockets@.has(id),
            sockets@.at(id).stream,
        ensures
            children@ == sockets@.at(id).inner->Tcp_0.children,
    {
        assert(sockets@.slots[id as int]->0.valid());
        let mut children: Vec<usize> = Vec::new();
        if let Some(socket) = sockets.get(id) {
            if let Protocol::Tcp(tcb) = &socket.inner {
                let mut i: usize = 0;
                while i < tcb.children.len()
                    invariant
                        i <= tcb.children@.len(),
                        children@ == tcb.children@.take(i as int),
                    decreases tcb.children@.len() - i,
                {
                    children.push(tcb.children[i]);
                    i += 1;
                    assert(children@ =~= tcb.children@.take(i as int));
                }
                assert(children@ =~= tcb.children@);
            }
        }
        children
    }

    /// Take one finished connection off the queue, or report that there is
    /// none yet.
    pub fn accept_ready(net: &mut Net, id: usize, now: u64, clock_ns: u64) -> (result: Result<
        Option<usize>,
        Errno,
    >)
        requires
            old(net)@.valid(),
            old(net)@.sockets.has(id),
            now <= tcp::LAST_TICK,
        ensures
            (final(net)@, result) == old(net)@.polled(now, clock_ns).accepted_from(id),
            final(net)@.valid(),
    {
        proof {
            stack::polling_keeps_sockets(net@, LOOPBACK_LIMIT as nat, now, clock_ns, id);
        }
        stack::poll(net, now, clock_ns);
        let ghost start = net@;
        assert(start.sockets.slots[id as int]->0.valid());
        let (stream, listening) = match net.sockets.get(id) {
            Some(socket) => (socket.stream, socket.is_listening()),
            None => (false, false),
        };
        if !stream {
            return Err(Errno::EOPNOTSUPP);
        }
        if !listening {
            return Err(Errno::EINVAL);
        }
        let children = InetSocket::children_of(&net.sockets, id);
        let ready = InetSocket::first_ready(&net.sockets, &children);
        let (waiting, dead) = InetSocket::sort_children(&net.sockets, &children, ready);
        InetSocket::set_children(&mut net.sockets, id, waiting);
        let ghost trimmed = net@;
        let mut i: usize = 0;
        assert(dead@.take(0) =~= Seq::empty());
        while i < dead.len()
            invariant
                i <= dead@.len(),
                net@.valid(),
                net@ == (NetView {
                    sockets: tcp_table::all_forgotten(trimmed.sockets, dead@.take(i as int)),
                    ..trimmed
                }),
            decreases dead@.len() - i,
        {
            assert(dead@.take(i + 1).drop_last() =~= dead@.take(i as int));
            unregister(&mut net.sockets, dead[i]);
            i += 1;
        }
        assert(dead@.take(i as int) =~= dead@);
        Ok(ready)
    }

    /// Open a connection from `address`.
    fn open_from(
        net: &mut Net,
        id: usize,
        address: crate::net::ip::Ipv4Addr,
        remote: Endpoint,
        now: u64,
        clock_ns: u64,
    )
        requires
            old(net)@.valid(),
            old(net)@.has_stream(id),
            now <= tcp::LAST_TICK,
        ensures
            ({
                let tcb = old(net)@.tcb(id);
                let (opened, sent) = TcbView {
                    local: Endpoint { address, port: tcb.local.port },
                    remote,
                    ..tcb
                }.opened(now, clock_ns, old(net)@.link.secret);
                final(net)@ == old(net)@.stepped(id, Step { tcb: opened, sent, woke: false }, now)
            }),
            final(net)@.valid(),
    {
        assert(net.sockets@.slots[id as int]->0.valid());
        let mut out: Vec<Outgoing> = Vec::new();
        assert(tcp::views(out@) =~= Seq::empty());
        let mut socket = net.sockets.take(id);
        let ghost tcb0 = old(net)@.tcb(id);
        if let Protocol::Tcp(tcb) = &mut socket.inner {
            tcb.local = Endpoint::new(address, tcb.local.port);
            tcb.remote = remote;
            tcb.open(now, clock_ns, net.link.secret, &mut out);
        }
        proof {
            let from = TcbView {
                local: Endpoint { address, port: tcb0.local.port },
                remote,
                ..tcb0
            };
            let (opened, sent) = from.opened(now, clock_ns, old(net)@.link.secret);
            assert(tcp::views(out@) =~= sent);
            assert((*socket)@ =~= old(net)@.sockets.at(id).with_tcb(opened));
            socket::replacing_keeps_order(old(net)@.sockets, id, (*socket)@);
        }
        net.sockets.put(id, socket);
        send_segments(&mut net.link, &out, now);
    }

    pub fn connect(net: &mut Net, id: usize, remote: Endpoint, now: u64, clock_ns: u64) -> (result:
        Result<(), Errno>)
        requires
            old(net)@.valid(),
            old(net)@.sockets.has(id),
            now <= tcp::LAST_TICK,
        ensures
            (final(net)@, result) == old(net)@.connected(id, remote, now, clock_ns),
            final(net)@.valid(),
    {
        if remote.port == 0 || remote.address.is_unspecified() {
            return Err(Errno::EINVAL);
        }
        match InetSocket::bind_ephemeral(&mut net.sockets, id, net.link.config) {
            Ok(_) => {},
            Err(reason) => {
                return Err(reason);
            },
        }
        let ghost before = net@;
        assert(before.sockets.slots[id as int]->0.valid());
        let state = match net.sockets.get(id) {
            Some(socket) => match &socket.inner {
                Protocol::Tcp(tcb) => Some(tcb.state),
                Protocol::Udp(_) => None,
            },
            None => None,
        };
        match state {
            None => {
                let mut socket = net.sockets.take(id);
                if let Protocol::Udp(udp) = &mut socket.inner {
                    udp.remote = Some(remote);
                }
                proof {
                    let udp = before.sockets.at(id).inner->Udp_0;
                    assert((*socket)@ =~= before.sockets.at(id).with_udp(
                        UdpView { remote: Some(remote), ..udp },
                    ));
                    socket::replacing_keeps_order(before.sockets, id, (*socket)@);
                }
                net.sockets.put(id, socket);
                Ok(())
            },
            Some(tcp::State::SynSent) => Err(Errno::EALREADY),
            Some(tcp::State::Listen) => Err(Errno::EINVAL),
            Some(tcp::State::Closed) => {
                let address = match source_for(&net.link, remote.address) {
                    Ok(address) => address,
                    Err(reason) => {
                        return Err(reason);
                    },
                };
                if address.is_unspecified() {
                    return Err(Errno::ENETUNREACH);
                }
                InetSocket::open_from(net, id, address, remote, now, clock_ns);
                stack::poll(net, now, clock_ns);
                Ok(())
            },
            Some(_) => Err(Errno::EISCONN),
        }
    }

    pub fn send(net: &mut Net, id: usize, buf: &[u8], to: Option<Endpoint>, now: u64) -> (result:
        Result<usize, Errno>)
        requires
            old(net)@.valid(),
            old(net)@.sockets.has(id),
            now <= tcp::LAST_TICK,
        ensures
            (final(net)@, result) == old(net)@.sent_on(id, buf@, to, now),
            final(net)@.valid(),
            final(net)@.sockets.has(id),
    {
        let ghost before = net@;
        assert(before.sockets.slots[id as int]->0.valid());
        let mut out: Vec<Outgoing> = Vec::new();
        assert(tcp::views(out@) =~= Seq::empty());
        let mut socket = net.sockets.take(id);
        let stream = socket.stream;
        let result = match &mut socket.inner {
            Protocol::Tcp(tcb) => tcb.write(buf, now, &mut out),
            Protocol::Udp(state) => state.send(&mut net.link, buf, to, now),
        };
        proof {
            match before.sockets.at(id).inner {
                ProtocolView::Tcp(tcb) => {
                    let (after, sent, _) = tcb.written(buf@, now);
                    assert(tcp::views(out@) =~= sent);
                    assert((*socket)@ =~= before.sockets.at(id).with_tcb(after));
                },
                ProtocolView::Udp(state) => {
                    assert((*socket)@ =~= before.sockets.at(id));
                    assert(before.sockets.with(id, before.sockets.at(id)) =~= before.sockets);
                },
            }
            socket::replacing_keeps_order(before.sockets, id, (*socket)@);
        }
        net.sockets.put(id, socket);
        if stream {
            send_segments(&mut net.link, &out, now);
        }
        result
    }

    /// Returns the bytes taken and, for a datagram socket, where they came
    /// from.
    pub fn receive_into(net: &mut Net, id: usize, buf: &mut [u8], peek: bool, now: u64) -> (result:
        Result<(usize, Endpoint), Errno>)
        requires
            old(net)@.valid(),
            old(net)@.sockets.has(id),
            now <= tcp::LAST_TICK,
        ensures
            (final(net)@, result) == old(net)@.received_from(
                id,
                old(buf)@.len() as int,
                peek,
                now,
            ),
            final(net)@.valid(),
            final(net)@.sockets.has(id),
            ({
                let copied = old(net)@.readable_bytes(id, old(buf)@.len() as int);
                final(buf)@ == copied + old(buf)@.skip(copied.len() as int)
            }),
    {
        let ghost before = net@;
        let ghost size = buf@.len() as int;
        assert(before.sockets.slots[id as int]->0.valid());
        let mut out: Vec<Outgoing> = Vec::new();
        assert(tcp::views(out@) =~= Seq::empty());
        let mut socket = net.sockets.take(id);
        let stream = socket.stream;
        let result = match &mut socket.inner {
            Protocol::Tcp(tcb) => {
                let remote = tcb.remote;
                match tcb.read(buf, peek, &mut out) {
                    Ok(n) => Ok((n, remote)),
                    Err(reason) => Err(reason),
                }
            },
            Protocol::Udp(state) => state.receive(buf, peek),
        };
        proof {
            match before.sockets.at(id).inner {
                ProtocolView::Tcp(tcb) => {
                    let (after, sent, _) = tcb.read_out(size, peek);
                    assert(tcp::views(out@) =~= sent);
                    assert((*socket)@ =~= before.sockets.at(id).with_tcb(after));
                },
                ProtocolView::Udp(state) => {
                    let after = if peek || state.queue.len() == 0 {
                        state
                    } else {
                        state.taken()
                    };
                    assert((*socket)@ =~= before.sockets.at(id).with_udp(after));
                },
            }
            socket::replacing_keeps_order(before.sockets, id, (*socket)@);
        }
        net.sockets.put(id, socket);
        if stream {
            send_segments(&mut net.link, &out, now);
        }
        result
    }

    pub fn shutdown(net: &mut Net, id: usize, read: bool, write: bool, now: u64) -> (result: Result<
        (),
        Errno,
    >)
        requires
            old(net)@.valid(),
            old(net)@.sockets.has(id),
            now <= tcp::LAST_TICK,
        ensures
            (final(net)@, result) == old(net)@.shut(id, read, write, now),
            final(net)@.valid(),
    {
        let ghost before = net@;
        assert(before.sockets.slots[id as int]->0.valid());
        let stream = match net.sockets.get(id) {
            Some(socket) => match &socket.inner {
                Protocol::Tcp(tcb) => {
                    if !tcb.state.is_synchronised() && tcb.state != tcp::State::SynSent {
                        return Err(Errno::ENOTCONN);
                    }
                    true
                },
                Protocol::Udp(_) => false,
            },
            None => false,
        };
        if stream {
            InetSocket::shutdown_stream(net, id, read, write, now);
            return Ok(());
        }
        let mut socket = net.sockets.take(id);
        if let Protocol::Udp(state) = &mut socket.inner {
            if read {
                state.shutdown_read();
            }
            if write {
                state.write_shutdown = true;
            }
        }
        proof {
            let state = before.sockets.at(id).inner->Udp_0;
            let reading = if read {
                state.read_shut()
            } else {
                state
            };
            assert((*socket)@ =~= before.sockets.at(id).with_udp(
                UdpView { write_shutdown: state.write_shutdown || write, ..reading },
            ));
            socket::replacing_keeps_order(before.sockets, id, (*socket)@);
        }
        net.sockets.put(id, socket);
        Ok(())
    }

    /// Shut one or both directions of a connection that is open.
    #[verifier::rlimit(40)]
    fn shutdown_stream(net: &mut Net, id: usize, read: bool, write: bool, now: u64)
        requires
            old(net)@.valid(),
            old(net)@.has_stream(id),
            now <= tcp::LAST_TICK,
            ({
                let state = old(net)@.tcb(id).state;
                state.synchronised() || state is SynSent
            }),
        ensures
            final(net)@ == old(net)@.shut(id, read, write, now).0,
            final(net)@.valid(),
    {
        let ghost before = net@;
        assert(before.sockets.slots[id as int]->0.valid());
        let mut out: Vec<Outgoing> = Vec::new();
        assert(tcp::views(out@) =~= Seq::empty());
        let mut socket = net.sockets.take(id);
        if let Protocol::Tcp(tcb) = &mut socket.inner {
            if read {
                tcb.read_shutdown = true;
            }
            assert(tcb@ =~= TcbView {
                read_shutdown: before.tcb(id).read_shutdown || read,
                ..before.tcb(id)
            });
            if write {
                tcb.shutdown_write(now, &mut out);
            }
        }
        proof {
            let tcb = before.tcb(id);
            let reading = TcbView { read_shutdown: tcb.read_shutdown || read, ..tcb };
            let (after, sent) = if write {
                reading.write_shut(now)
            } else {
                (reading, Seq::<OutgoingView>::empty())
            };
            assert(tcp::views(out@) =~= sent);
            assert((*socket)@ =~= before.sockets.at(id).with_tcb(after));
            socket::replacing_keeps_order(before.sockets, id, (*socket)@);
        }
        net.sockets.put(id, socket);
        send_segments(&mut net.link, &out, now);
    }

    /// One try at reading. What was read may have reopened the window, which
    /// sends an acknowledgement the other end is waiting for.
    pub fn try_read(
        net: &mut Net,
        id: usize,
        buf: &mut [u8],
        nonblock: bool,
        peek: bool,
        now: u64,
        clock_ns: u64,
    ) -> (attempt: Attempt<(usize, Endpoint)>)
        requires
            old(net)@.valid(),
            old(net)@.sockets.has(id),
            now <= tcp::LAST_TICK,
        ensures
            (final(net)@, attempt) == old(net)@.read_tried(
                id,
                old(buf)@.len() as int,
                nonblock,
                peek,
                now,
                clock_ns,
            ),
            final(net)@.valid(),
            ({
                let copied = old(net)@.readable_bytes(id, old(buf)@.len() as int);
                final(buf)@ == copied + old(buf)@.skip(copied.len() as int)
            }),
    {
        match InetSocket::receive_into(net, id, buf, peek, now) {
            Err(Errno::EAGAIN) => {
                if nonblock {
                    Attempt::Done(Err(Errno::EAGAIN))
                } else {
                    Attempt::Wait
                }
            },
            other => {
                stack::poll(net, now, clock_ns);
                Attempt::Done(other)
            },
        }
    }

    /// Read. What comes back says whether the caller has to sleep until there
    /// is something to read and try again.
    pub fn read_blocking(
        net: &mut Net,
        id: usize,
        buf: &mut [u8],
        nonblock: bool,
        peek: bool,
        now: u64,
        clock_ns: u64,
    ) -> (attempt: Attempt<(usize, Endpoint)>)
        requires
            old(net)@.valid(),
            old(net)@.sockets.has(id),
            now <= tcp::LAST_TICK,
        ensures
            (final(net)@, attempt) == old(net)@.polled(now, clock_ns).read_tried(
                id,
                old(buf)@.len() as int,
                nonblock,
                peek,
                now,
                clock_ns,
            ),
            final(net)@.valid(),
            ({
                let copied = old(net)@.polled(now, clock_ns).readable_bytes(
                    id,
                    old(buf)@.len() as int,
                );
                final(buf)@ == copied + old(buf)@.skip(copied.len() as int)
            }),
    {
        proof {
            stack::polling_keeps_sockets(net@, LOOPBACK_LIMIT as nat, now, clock_ns, id);
        }
        stack::poll(net, now, clock_ns);
        InetSocket::try_read(net, id, buf, nonblock, peek, now, clock_ns)
    }

    /// One try at writing. The second result is whether SIGPIPE is raised:
    /// writing to a connection the other end has finished with raises it,
    /// exactly as it does on a pipe.
    pub fn try_write(
        net: &mut Net,
        id: usize,
        buf: &[u8],
        nonblock: bool,
        to: Option<Endpoint>,
        raise_sigpipe: bool,
        now: u64,
        clock_ns: u64,
    ) -> (result: (Attempt<usize>, bool))
        requires
            old(net)@.valid(),
            old(net)@.sockets.has(id),
            now <= tcp::LAST_TICK,
        ensures
            (final(net)@, result.0) == old(net)@.write_tried(id, buf@, nonblock, to, now, clock_ns),
            result.1 == (raise_sigpipe && result.0 == Attempt::<usize>::Done(Err(Errno::EPIPE))),
            final(net)@.valid(),
    {
        let result = InetSocket::send(net, id, buf, to, now);
        InetSocket::settle_write(net, id, result, None, nonblock, raise_sigpipe, now, clock_ns)
    }

    /// Settle a try at writing once the card has answered for the frame the
    /// send put out, with its reason where it did not take the frame. The
    /// second result is whether SIGPIPE is raised.
    pub fn settle_write(
        net: &mut Net,
        id: usize,
        result: Result<usize, Errno>,
        refusal: Option<Errno>,
        nonblock: bool,
        raise_sigpipe: bool,
        now: u64,
        clock_ns: u64,
    ) -> (settled: (Attempt<usize>, bool))
        requires
            old(net)@.valid(),
            old(net)@.sockets.has(id),
            now <= tcp::LAST_TICK,
        ensures
            (final(net)@, settled.0) == old(net)@.write_settled(
                id,
                result,
                refusal,
                nonblock,
                now,
                clock_ns,
            ),
            settled.1 == (raise_sigpipe && settled.0 == Attempt::<usize>::Done(Err(Errno::EPIPE))),
            final(net)@.valid(),
    {
        match InetSocket::send_answered(&net.sockets, id, result, refusal) {
            Ok(n) => {
                stack::poll(net, now, clock_ns);
                (Attempt::Done(Ok(n)), false)
            },
            Err(Errno::EAGAIN) => {
                if nonblock {
                    (Attempt::Done(Err(Errno::EAGAIN)), false)
                } else {
                    (Attempt::Wait, false)
                }
            },
            Err(Errno::EPIPE) => (Attempt::Done(Err(Errno::EPIPE)), raise_sigpipe),
            Err(reason) => (Attempt::Done(Err(reason)), false),
        }
    }

    /// What a send comes to once the card has answered for the frame it put
    /// out, with its reason where it did not take the frame.
    pub fn send_answered(
        sockets: &Sockets,
        id: usize,
        result: Result<usize, Errno>,
        refusal: Option<Errno>,
    ) -> (told: Result<usize, Errno>)
        requires
            sockets@.valid(),
            sockets@.has(id),
        ensures
            told == sockets@.answered(id, result, refusal),
    {
        let stream = match sockets.get(id) {
            Some(socket) => matches!(socket.inner, Protocol::Tcp(_)),
            None => true,
        };
        match (result, refusal) {
            (Ok(_), Some(reason)) if !stream => Err(reason),
            _ => result,
        }
    }

    /// Write. What comes back says whether the caller has to sleep until the
    /// socket will take something and try again, and whether SIGPIPE is
    /// raised. A short count is what a stream socket reports when the send
    /// buffer fills, and callers come back for the rest.
    pub fn write_blocking(
        net: &mut Net,
        id: usize,
        buf: &[u8],
        nonblock: bool,
        to: Option<Endpoint>,
        raise_sigpipe: bool,
        now: u64,
        clock_ns: u64,
    ) -> (result: (Attempt<usize>, bool))
        requires
            old(net)@.valid(),
            old(net)@.sockets.has(id),
            now <= tcp::LAST_TICK,
        ensures
            (final(net)@, result.0) == (if buf@.len() == 0 {
                (old(net)@, Attempt::<usize>::Done(Ok(0)))
            } else {
                old(net)@.polled(now, clock_ns).write_tried(id, buf@, nonblock, to, now, clock_ns)
            }),
            result.1 == (raise_sigpipe && result.0 == Attempt::<usize>::Done(Err(Errno::EPIPE))),
            final(net)@.valid(),
    {
        if buf.len() == 0 {
            return (Attempt::Done(Ok(0)), false);
        }
        proof {
            stack::polling_keeps_sockets(net@, LOOPBACK_LIMIT as nat, now, clock_ns, id);
        }
        stack::poll(net, now, clock_ns);
        InetSocket::try_write(net, id, buf, nonblock, to, raise_sigpipe, now, clock_ns)
    }

    /// Reset a connection that was never accepted, and forget it.
    fn reset_child(net: &mut Net, id: usize, now: u64)
        requires
            old(net)@.valid(),
            now <= tcp::LAST_TICK,
        ensures
            final(net)@ == old(net)@.child_reset(id, now),
            final(net)@.valid(),
    {
        let mut out: Vec<Outgoing> = Vec::new();
        assert(tcp::views(out@) =~= Seq::empty());
        let stream = match net.sockets.get(id) {
            Some(socket) => socket.stream,
            None => false,
        };
        let ghost before = net@;
        if stream {
            assert(before.sockets.slots[id as int]->0.valid());
            let mut socket = net.sockets.take(id);
            if let Protocol::Tcp(tcb) = &mut socket.inner {
                tcb.abort(&mut out);
            }
            proof {
                let (after, sent) = before.tcb(id).aborted();
                assert(tcp::views(out@) =~= sent);
                assert((*socket)@ =~= before.sockets.at(id).with_tcb(after));
                socket::replacing_keeps_order(before.sockets, id, (*socket)@);
            }
            net.sockets.put(id, socket);
            send_segments(&mut net.link, &out, now);
        }
        unregister(&mut net.sockets, id);
        proof {
            if stream {
                let (after, _) = before.tcb(id).aborted();
                assert(before.sockets.with(id, before.sockets.at(id).with_tcb(after)).forgotten(id)
                    =~= before.sockets.forgotten(id));
            }
        }
    }

    /// The half of closing a connection that concerns the connection itself.
    fn let_go(net: &mut Net, id: usize, now: u64) -> (finished: bool)
        requires
            old(net)@.valid(),
            old(net)@.has_stream(id),
            now <= tcp::LAST_TICK,
        ensures
            ({
                let (after, sent) = NetView::let_go(old(net)@.tcb(id), now);
                &&& final(net)@ == old(net)@.stepped(id, Step { tcb: after, sent, woke: false }, now)
                &&& finished == (after.state is Closed)
            }),
            final(net)@.valid(),
    {
        let ghost before = net@;
        assert(before.sockets.slots[id as int]->0.valid());
        let mut out: Vec<Outgoing> = Vec::new();
        assert(tcp::views(out@) =~= Seq::empty());
        let mut finished = true;
        let mut socket = net.sockets.take(id);
        if let Protocol::Tcp(tcb) = &mut socket.inner {
            tcb.children = Vec::new();
            assert(tcb@ =~= TcbView { children: Seq::empty(), ..before.tcb(id) });
            // Said before anything else, because it is what bounds the states
            // that go on waiting after this returns.
            tcb.abandon(now);
            if tcb.state == tcp::State::Listen {
                tcb.state = tcp::State::Closed;
            } else if tcb.received.len() > 0 {
                tcb.abort(&mut out);
            } else {
                tcb.shutdown_write(now, &mut out);
            }
            finished = tcb.state == tcp::State::Closed;
        }
        proof {
            let (after, sent) = NetView::let_go(before.tcb(id), now);
            assert(tcp::views(out@) =~= sent);
            assert((*socket)@ =~= before.sockets.at(id).with_tcb(after));
            socket::replacing_keeps_order(before.sockets, id, (*socket)@);
        }
        net.sockets.put(id, socket);
        send_segments(&mut net.link, &out, now);
        finished
    }
}

/// The descriptor is gone. Start whatever the protocol still owes the other
/// end, and let the table hold the socket until that is finished.
pub fn close(net: &mut Net, id: usize, now: u64, clock_ns: u64)
    requires
        old(net)@.valid(),
        old(net)@.sockets.has(id),
        now <= tcp::LAST_TICK,
    ensures
        final(net)@ == old(net)@.closed(id, now, clock_ns),
        final(net)@.valid(),
{
    assert(net@.sockets.slots[id as int]->0.valid());
    let stream = match net.sockets.get(id) {
        Some(socket) => socket.stream,
        None => false,
    };
    if !stream {
        InetSocket::detach(&mut net.sockets, id);
        unregister(&mut net.sockets, id);
        net.link.woken = true;
        assert(net@.link =~= old(net)@.link.waking(true));
        return;
    }
    let children = InetSocket::children_of(&net.sockets, id);
    InetSocket::detach(&mut net.sockets, id);
    let finished = InetSocket::let_go(net, id, now);
    let ghost stepped = net@;
    let mut i: usize = 0;
    assert(children@.take(0) =~= Seq::empty());
    while i < children.len()
        invariant
            i <= children@.len(),
            net@.valid(),
            now <= tcp::LAST_TICK,
            net@ == stepped.children_reset(children@.take(i as int), now),
        decreases children@.len() - i,
    {
        assert(children@.take(i + 1).drop_last() =~= children@.take(i as int));
        InetSocket::reset_child(net, children[i], now);
        i += 1;
    }
    assert(children@.take(i as int) =~= children@);
    if finished {
        unregister(&mut net.sockets, id);
    }
    // The finish this just sent goes to the other end now if that end is on
    // this machine.
    stack::poll(net, now, clock_ns);
    net.link.woken = true;
}

} // verus!
