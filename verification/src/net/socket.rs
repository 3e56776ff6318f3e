//! Internet sockets: the object a descriptor points at, and the table the
//! arriving packet is matched against.
//!
//! A socket is named by its place in `Sockets`, which no other socket ever
//! takes. Being in the table is something else: a socket enters it when it is
//! bound and leaves it when nothing more can come of it, and only a socket in
//! the table is found by a packet.

use crate::errno::Errno;
use crate::net::config::Config;
use crate::net::ip::Ipv4Addr;
use crate::net::tcp::{self, Tcb, TcbView};
use crate::net::udp::{UdpState, UdpView};
use vstd::prelude::*;

verus! {

/// An address and a port: one end of a conversation.
#[derive(Clone, Copy, PartialEq, Eq, Debug, Default, Structural)]
pub struct Endpoint {
    pub address: Ipv4Addr,
    pub port: u16,
}

impl Endpoint {
    /// 0.0.0.0:0, which names nobody.
    pub open spec fn nobody() -> Endpoint {
        Endpoint { address: Ipv4Addr(0), port: 0 }
    }

    /// 0.0.0.0:0.
    pub fn unspecified() -> (endpoint: Endpoint)
        ensures
            endpoint == Endpoint::nobody(),
    {
        Endpoint { address: Ipv4Addr(0), port: 0 }
    }

    pub fn new(address: Ipv4Addr, port: u16) -> (endpoint: Endpoint)
        ensures
            endpoint == (Endpoint { address, port }),
    {
        Endpoint { address, port }
    }

    pub fn is_unspecified(&self) -> (r: bool)
        ensures
            r == (*self == Endpoint::nobody()),
    {
        self.address.is_unspecified() && self.port == 0
    }
}

pub enum Protocol {
    Tcp(Tcb),
    Udp(UdpState),
}

#[verifier::ext_equal]
pub enum ProtocolView {
    Tcp(TcbView),
    Udp(UdpView),
}

impl View for Protocol {
    type V = ProtocolView;

    open spec fn view(&self) -> ProtocolView {
        match self {
            Protocol::Tcp(tcb) => ProtocolView::Tcp(tcb@),
            Protocol::Udp(state) => ProtocolView::Udp(state@),
        }
    }
}

pub struct InetSocket {
    pub stream: bool,
    pub inner: Protocol,
    /// Set when the last descriptor naming this socket has gone. The socket
    /// itself may outlive that: a closed connection still has to see its own
    /// FIN acknowledged, and then sit in TIME-WAIT.
    pub detached: bool,
}

#[verifier::ext_equal]
pub struct SocketView {
    pub stream: bool,
    pub inner: ProtocolView,
    pub detached: bool,
}

impl View for InetSocket {
    type V = SocketView;

    open spec fn view(&self) -> SocketView {
        SocketView { stream: self.stream, inner: self.inner@, detached: self.detached }
    }
}

impl SocketView {
    /// A socket nothing has happened to yet.
    pub open spec fn fresh(stream: bool) -> SocketView {
        SocketView {
            stream,
            inner: if stream {
                ProtocolView::Tcp(TcbView::fresh())
            } else {
                ProtocolView::Udp(UdpView::fresh())
            },
            detached: false,
        }
    }

    /// A stream socket speaks TCP and a datagram socket UDP, and what either
    /// remembers is in order.
    pub open spec fn valid(self) -> bool {
        match self.inner {
            ProtocolView::Tcp(tcb) => self.stream && tcb.valid(),
            ProtocolView::Udp(state) => !self.stream && state.valid(),
        }
    }

    pub open spec fn with_tcb(self, tcb: TcbView) -> SocketView {
        SocketView { inner: ProtocolView::Tcp(tcb), ..self }
    }

    pub open spec fn with_udp(self, state: UdpView) -> SocketView {
        SocketView { inner: ProtocolView::Udp(state), ..self }
    }

    pub open spec fn local(self) -> Endpoint {
        match self.inner {
            ProtocolView::Tcp(tcb) => tcb.local,
            ProtocolView::Udp(state) => state.local,
        }
    }

    pub open spec fn bound(self) -> bool {
        match self.inner {
            ProtocolView::Tcp(tcb) => tcb.bound,
            ProtocolView::Udp(state) => state.bound,
        }
    }

    /// A handshake is complete.
    pub open spec fn open(self) -> bool {
        self.inner matches ProtocolView::Tcp(tcb) && tcb.state.synchronised()
    }

    pub open spec fn listening(self) -> bool {
        self.inner matches ProtocolView::Tcp(tcb) && tcb.state is Listen
    }

    /// Whom the socket talks to, if it talks to anybody.
    pub open spec fn peer(self) -> Result<Endpoint, Errno> {
        match self.inner {
            ProtocolView::Tcp(tcb) => if tcb.state.synchronised() {
                Ok(tcb.remote)
            } else {
                Err(Errno::ENOTCONN)
            },
            ProtocolView::Udp(state) => match state.remote {
                Some(remote) => Ok(remote),
                None => Err(Errno::ENOTCONN),
            },
        }
    }

    /// A poll would report this writable: there is room, or a write would
    /// report an error rather than block.
    pub open spec fn can_be_written(self) -> bool {
        match self.inner {
            ProtocolView::Tcp(tcb) => if tcb.state is Established || tcb.state is CloseWait {
                tcb.pending.len() < tcp::SEND_BUFFER
            } else {
                tcb.state is Closed || tcb.error is Some
            },
            ProtocolView::Udp(_) => true,
        }
    }

    /// How many bytes a read would return without blocking.
    pub open spec fn waiting(self) -> nat {
        match self.inner {
            ProtocolView::Tcp(tcb) => tcb.received.len(),
            ProtocolView::Udp(state) => if state.queue.len() == 0 {
                0
            } else {
                state.queue[0].data.len()
            },
        }
    }

    /// Nothing more will arrive and nothing more can be sent.
    pub open spec fn is_over(self) -> bool {
        self.inner matches ProtocolView::Tcp(tcb) && (tcb.error is Some || tcb.state is Closed
            || tcb.state is TimeWait || tcb.state is LastAck)
    }

    /// A handshake is under way.
    pub open spec fn is_connecting(self) -> bool {
        self.inner matches ProtocolView::Tcp(tcb) && (tcb.state is SynSent
            || tcb.state is SynReceived)
    }

    /// The socket once its error has been taken, and the error.
    pub open spec fn without_error(self) -> (SocketView, Option<Errno>) {
        match self.inner {
            ProtocolView::Tcp(tcb) => (
                self.with_tcb(TcbView { error: None, ..tcb }),
                tcb.error,
            ),
            ProtocolView::Udp(state) => (
                self.with_udp(UdpView { error: None, ..state }),
                state.error,
            ),
        }
    }

    /// The socket once it has been asked where its connecting has got to, and
    /// what it answers.
    pub open spec fn progressed(self) -> (SocketView, Result<bool, Errno>) {
        match self.inner {
            ProtocolView::Tcp(tcb) => match tcb.state {
                tcp::State::SynSent | tcp::State::SynReceived => (self, Ok(false)),
                tcp::State::Closed => (
                    self.with_tcb(TcbView { error: None, ..tcb }),
                    match tcb.error {
                        Some(reason) => Err(reason),
                        None => Err(Errno::ECONNREFUSED),
                    },
                ),
                tcp::State::Listen => (self, Err(Errno::EINVAL)),
                _ => (self, Ok(true)),
            },
            ProtocolView::Udp(state) => (self, Ok(state.remote is Some)),
        }
    }

    /// The socket of a conversation: one that is open, or opening, between
    /// these two ends.
    pub open spec fn converses(self, local: Endpoint, remote: Endpoint) -> bool {
        self.inner matches ProtocolView::Tcp(tcb) && !tcb.idle() && tcb.remote == remote
            && answers_to(tcb.local, local)
    }

    /// A socket waiting for connections at this end.
    pub open spec fn listens(self, local: Endpoint) -> bool {
        self.listening() && answers_to(self.local(), local)
    }

    /// A datagram socket at this end, connected to nobody.
    pub open spec fn takes_from_anyone(self, local: Endpoint) -> bool {
        self.inner matches ProtocolView::Udp(state) && state.bound && answers_to(
            state.local,
            local,
        ) && state.remote is None
    }

    /// A datagram socket at this end, connected to that one.
    pub open spec fn takes_from(self, local: Endpoint, remote: Endpoint) -> bool {
        self.inner matches ProtocolView::Udp(state) && state.bound && answers_to(
            state.local,
            local,
        ) && state.remote == Some(remote)
    }

    /// A socket that keeps others off its port. A connection on its way out
    /// does not: this is what SO_REUSEADDR buys on Linux, and every server
    /// that restarts sets it.
    pub open spec fn holds_port(self, stream: bool, port: u16) -> bool {
        self.stream == stream && !self.detached && self.bound() && self.local().port == port
    }
}

/// Whether a socket bound to `bound` answers to `local`.
pub open spec fn answers_to(bound: Endpoint, local: Endpoint) -> bool {
    bound.port == local.port && (bound.address.unspecified() || bound.address == local.address)
}

pub fn matches_local(bound: Endpoint, local: Endpoint) -> (r: bool)
    ensures
        r == answers_to(bound, local),
{
    bound.port == local.port && (bound.address.is_unspecified() || bound.address == local.address)
}

impl InetSocket {
    pub fn new(stream: bool) -> (socket: InetSocket)
        ensures
            socket@ == SocketView::fresh(stream),
            socket@.valid(),
    {
        let inner = if stream {
            Protocol::Tcp(Tcb::new())
        } else {
            Protocol::Udp(UdpState::new())
        };
        InetSocket { stream, inner, detached: false }
    }

    pub fn is_detached(&self) -> (r: bool)
        ensures
            r == self@.detached,
    {
        self.detached
    }

    pub fn local_endpoint(&self) -> (endpoint: Endpoint)
        ensures
            endpoint == self@.local(),
    {
        match &self.inner {
            Protocol::Tcp(tcb) => tcb.local,
            Protocol::Udp(state) => state.local,
        }
    }

    pub fn peer_endpoint(&self) -> (result: Result<Endpoint, Errno>)
        ensures
            result == self@.peer(),
    {
        match &self.inner {
            Protocol::Tcp(tcb) => {
                if tcb.state.is_synchronised() {
                    Ok(tcb.remote)
                } else {
                    Err(Errno::ENOTCONN)
                }
            },
            Protocol::Udp(state) => match state.remote {
                Some(remote) => Ok(remote),
                None => Err(Errno::ENOTCONN),
            },
        }
    }

    pub fn writable(&self) -> (r: bool)
        ensures
            r == self@.can_be_written(),
    {
        match &self.inner {
            Protocol::Tcp(tcb) => match tcb.state {
                tcp::State::Established | tcp::State::CloseWait => tcb.pending.len()
                    < tcp::SEND_BUFFER,
                // A socket that can never take data again is reported writable
                // so the write reports the error rather than the poll blocking
                // forever.
                tcp::State::Closed => true,
                _ => tcb.error.is_some(),
            },
            Protocol::Udp(_) => true,
        }
    }

    /// Bytes a read would return without blocking, for FIONREAD.
    pub fn available(&self) -> (count: usize)
        ensures
            count == self@.waiting(),
    {
        match &self.inner {
            Protocol::Tcp(tcb) => tcb.received.len(),
            Protocol::Udp(state) => if state.queue.len() == 0 {
                0
            } else {
                assert(state@.queue[0] == state.queue@[0]@);
                state.queue[0].data.len()
            },
        }
    }

    /// The connection is over in both directions: nothing more will arrive
    /// and nothing more can be sent.
    pub fn hung_up(&self) -> (r: bool)
        ensures
            r == self@.is_over(),
    {
        match &self.inner {
            Protocol::Tcp(tcb) => tcb.error.is_some() || matches!(
                tcb.state,
                tcp::State::Closed | tcp::State::TimeWait | tcp::State::LastAck
            ),
            Protocol::Udp(_) => false,
        }
    }

    pub fn is_listening(&self) -> (r: bool)
        ensures
            r == self@.listening(),
    {
        match &self.inner {
            Protocol::Tcp(tcb) => tcb.state == tcp::State::Listen,
            Protocol::Udp(_) => false,
        }
    }

    /// True once this socket has completed a handshake it did not start, so
    /// accept may hand it out.
    pub fn handshake_done(&self) -> (r: bool)
        ensures
            r == self@.open(),
    {
        match &self.inner {
            Protocol::Tcp(tcb) => tcb.state.is_synchronised(),
            Protocol::Udp(_) => false,
        }
    }

    /// The pending error, taken, for SO_ERROR.
    pub fn take_error(&mut self) -> (error: Option<Errno>)
        requires
            old(self)@.valid(),
        ensures
            final(self)@.valid(),
            (final(self)@, error) == old(self)@.without_error(),
    {
        match &mut self.inner {
            Protocol::Tcp(tcb) => tcb.error.take(),
            Protocol::Udp(state) => state.error.take(),
        }
    }

    /// True while an active open is still waiting for an answer. Asked from
    /// inside a sleep, so it takes nothing: the error belongs to whoever
    /// wakes up and calls `connection_progress`.
    pub fn connecting(&self) -> (r: bool)
        ensures
            r == self@.is_connecting(),
    {
        match &self.inner {
            Protocol::Tcp(tcb) => matches!(
                tcb.state,
                tcp::State::SynSent | tcp::State::SynReceived
            ),
            Protocol::Udp(_) => false,
        }
    }

    /// Where an active open has got to: not yet, connected, or failed.
    pub fn connection_progress(&mut self) -> (result: Result<bool, Errno>)
        requires
            old(self)@.valid(),
        ensures
            final(self)@.valid(),
            (final(self)@, result) == old(self)@.progressed(),
    {
        match &mut self.inner {
            Protocol::Tcp(tcb) => match tcb.state {
                tcp::State::SynSent | tcp::State::SynReceived => Ok(false),
                tcp::State::Closed => match tcb.error.take() {
                    Some(reason) => Err(reason),
                    None => Err(Errno::ECONNREFUSED),
                },
                tcp::State::Listen => Err(Errno::EINVAL),
                _ => Ok(true),
            },
            Protocol::Udp(state) => Ok(state.remote.is_some()),
        }
    }
}

// ---- the table of sockets ------------------------------------------------------

pub const EPHEMERAL_FIRST: u16 = 49152;

pub const EPHEMERAL_LAST: u16 = 65535;

/// Every socket there is, and which of them a packet can find.
pub struct Sockets {
    pub slots: Vec<Option<Box<InetSocket>>>,
    /// The places of the sockets a packet can find, in the order they became
    /// findable.
    pub table: Vec<usize>,
    pub next_ephemeral: u16,
}

#[verifier::ext_equal]
pub struct SocketsView {
    pub slots: Seq<Option<SocketView>>,
    pub table: Seq<usize>,
    pub next_ephemeral: u16,
}

pub open spec fn slot_view(slot: Option<Box<InetSocket>>) -> Option<SocketView> {
    match slot {
        Some(socket) => Some((*socket)@),
        None => None,
    }
}

impl View for Sockets {
    type V = SocketsView;

    open spec fn view(&self) -> SocketsView {
        SocketsView {
            slots: Seq::new(self.slots@.len(), |i: int| slot_view(self.slots@[i])),
            table: self.table@,
            next_ephemeral: self.next_ephemeral,
        }
    }
}

/// The first of some places at which a condition holds.
pub open spec fn first(table: Seq<usize>, condition: spec_fn(usize) -> bool) -> Option<usize>
    decreases table.len(),
{
    if table.len() == 0 {
        None
    } else if condition(table[0]) {
        Some(table[0])
    } else {
        first(table.skip(1), condition)
    }
}

/// Some places without one of them.
pub open spec fn without(table: Seq<usize>, id: usize) -> Seq<usize>
    decreases table.len(),
{
    if table.len() == 0 {
        table
    } else {
        let rest = without(table.drop_last(), id);
        if table.last() == id {
            rest
        } else {
            rest.push(table.last())
        }
    }
}

proof fn without_members(table: Seq<usize>, id: usize, i: int)
    requires
        0 <= i < without(table, id).len(),
    ensures
        table.contains(without(table, id)[i]),
        without(table, id)[i] != id,
        without(table, id).len() <= table.len(),
    decreases table.len(),
{
    let rest = without(table.drop_last(), id);
    if i < rest.len() {
        without_members(table.drop_last(), id, i);
        let k = choose|k: int|
            0 <= k < table.drop_last().len() && table.drop_last()[k] == rest[i];
        assert(table[k] == rest[i]);
    } else {
        assert(table[table.len() - 1] == table.last());
        if rest.len() > 0 {
            without_members(table.drop_last(), id, 0);
        }
    }
}

impl SocketsView {
    pub open spec fn none() -> SocketsView {
        SocketsView { slots: Seq::empty(), table: Seq::empty(), next_ephemeral: EPHEMERAL_FIRST }
    }

    /// There is a socket at this place.
    pub open spec fn has(self, id: usize) -> bool {
        id < self.slots.len() && self.slots[id as int] is Some
    }

    /// The socket at a place.
    pub open spec fn at(self, id: usize) -> SocketView {
        self.slots[id as int]->0
    }

    /// Every socket is in order, and everything in the table is a socket.
    pub open spec fn valid(self) -> bool {
        &&& forall|i: int|
            0 <= i < self.slots.len() && self.slots[i] is Some ==> (
            #[trigger] self.slots[i])->0.valid()
        &&& forall|k: int| 0 <= k < self.table.len() ==> self.has(#[trigger] self.table[k])
    }

    /// One socket replaced.
    pub open spec fn with(self, id: usize, socket: SocketView) -> SocketsView {
        if id < self.slots.len() {
            SocketsView { slots: self.slots.update(id as int, Some(socket)), ..self }
        } else {
            self
        }
    }

    /// One place left empty while its socket is worked on.
    pub open spec fn emptied(self, id: usize) -> SocketsView {
        SocketsView { slots: self.slots.update(id as int, None), ..self }
    }

    /// One more socket, at a place of its own.
    pub open spec fn grown(self, socket: SocketView) -> SocketsView {
        SocketsView { slots: self.slots.push(Some(socket)), ..self }
    }

    /// A socket in the table, once.
    pub open spec fn registered(self, id: usize) -> SocketsView {
        if self.table.contains(id) {
            self
        } else {
            SocketsView { table: self.table.push(id), ..self }
        }
    }

    /// A socket out of the table and gone.
    pub open spec fn forgotten(self, id: usize) -> SocketsView {
        SocketsView {
            slots: if id < self.slots.len() {
                self.slots.update(id as int, None)
            } else {
                self.slots
            },
            table: without(self.table, id),
            ..self
        }
    }

    /// The socket an arriving segment belongs to.
    pub open spec fn conversation(self, local: Endpoint, remote: Endpoint) -> Option<usize> {
        first(self.table, |id: usize| self.at(id).converses(local, remote))
    }

    /// The socket that answers connection requests for an end. A socket bound
    /// to this address beats one bound to all of them.
    pub open spec fn listener(self, local: Endpoint) -> Option<usize> {
        match first(
            self.table,
            |id: usize| self.at(id).listens(local) && self.at(id).local().address == local.address,
        ) {
            Some(id) => Some(id),
            None => first(self.table, |id: usize| self.at(id).listens(local)),
        }
    }

    /// The socket a datagram belongs to. One connected to the sender beats one
    /// connected to nobody.
    pub open spec fn recipient(self, local: Endpoint, remote: Endpoint) -> Option<usize> {
        match first(self.table, |id: usize| self.at(id).takes_from(local, remote)) {
            Some(id) => Some(id),
            None => first(self.table, |id: usize| self.at(id).takes_from_anyone(local)),
        }
    }

    /// Whether a port is held by a socket other than `except`.
    pub open spec fn taken(self, stream: bool, port: u16, except: Option<usize>) -> bool {
        exists|k: int|
            0 <= k < self.table.len() && except != Some(#[trigger] self.table[k]) && self.at(
                self.table[k],
            ).holds_port(stream, port)
    }

    /// The port the cursor names, which starts over at the first.
    pub open spec fn candidate(self) -> u16 {
        if self.next_ephemeral < EPHEMERAL_FIRST {
            EPHEMERAL_FIRST
        } else {
            self.next_ephemeral
        }
    }

    /// The cursor one further on.
    pub open spec fn advanced(self) -> SocketsView {
        SocketsView { next_ephemeral: self.candidate().wrapping_add(1), ..self }
    }

    /// The next port that nobody holds, looking at no more than `tries` of
    /// them.
    pub open spec fn allocated(self, stream: bool, tries: nat) -> (
        SocketsView,
        Result<u16, Errno>,
    )
        decreases tries,
    {
        if tries == 0 {
            (self, Err(Errno::EADDRINUSE))
        } else if !self.taken(stream, self.candidate(), None) {
            (self.advanced(), Ok(self.candidate()))
        } else {
            self.advanced().allocated(stream, (tries - 1) as nat)
        }
    }

    /// A socket given a local end.
    pub open spec fn placed(self, id: usize, local: Endpoint) -> SocketsView {
        let socket = self.at(id);
        self.with(
            id,
            match socket.inner {
                ProtocolView::Tcp(tcb) => socket.with_tcb(TcbView { local, bound: true, ..tcb }),
                ProtocolView::Udp(state) => socket.with_udp(UdpView { local, bound: true, ..state }),
            },
        ).registered(id)
    }

    /// Whether a socket can still be given a local end.
    pub open spec fn placeable(self, id: usize) -> bool {
        match self.at(id).inner {
            ProtocolView::Tcp(tcb) => tcb.state is Closed && !tcb.bound,
            ProtocolView::Udp(state) => !state.bound,
        }
    }

    /// Bind a socket: what becomes of the sockets, and what is reported.
    pub open spec fn bound(self, id: usize, requested: Endpoint, config: Option<Config>) -> (
        SocketsView,
        Result<(), Errno>,
    ) {
        if !bindable(requested.address, config) {
            (self, Err(Errno::EADDRNOTAVAIL))
        } else if requested.port != 0 {
            if self.taken(self.at(id).stream, requested.port, Some(id)) {
                (self, Err(Errno::EADDRINUSE))
            } else if !self.placeable(id) {
                (self, Err(Errno::EINVAL))
            } else {
                (self.placed(id, requested), Ok(()))
            }
        } else {
            let (after, port) = self.allocated(self.at(id).stream, EPHEMERAL_TRIES as nat);
            match port {
                Err(reason) => (after, Err(reason)),
                Ok(port) => if !self.placeable(id) {
                    (after, Err(Errno::EINVAL))
                } else {
                    (
                        after.placed(id, Endpoint { address: requested.address, port }),
                        Ok(()),
                    )
                },
            }
        }
    }

    /// Give a socket a local port if it does not have one yet.
    pub open spec fn bound_somewhere(self, id: usize, config: Option<Config>) -> (
        SocketsView,
        Result<(), Errno>,
    ) {
        if self.at(id).local().port != 0 {
            (self, Ok(()))
        } else {
            self.bound(id, Endpoint::nobody(), config)
        }
    }
}

/// How many ports are looked at before giving up.
pub const EPHEMERAL_TRIES: usize = 16383;

/// An address a socket can be bound to: every address, this machine's own, the
/// broadcast address, or a loopback address.
pub open spec fn bindable(address: Ipv4Addr, config: Option<Config>) -> bool {
    ||| address.unspecified()
    ||| (config matches Some(c) && c.spec_address() == address)
    ||| address.limited_broadcast()
    ||| address.loopback()
}

/// A port handed out is an ephemeral one that nobody holds, and looking for it
/// changes no socket.
pub proof fn an_allocated_port_is_free(sockets: SocketsView, stream: bool, tries: nat)
    ensures
        ({
            let (after, port) = sockets.allocated(stream, tries);
            &&& after.slots == sockets.slots
            &&& after.table == sockets.table
            &&& port matches Ok(p) ==> p >= EPHEMERAL_FIRST && !sockets.taken(stream, p, None)
        }),
    decreases tries,
{
    if tries > 0 && sockets.taken(stream, sockets.candidate(), None) {
        an_allocated_port_is_free(sockets.advanced(), stream, (tries - 1) as nat);
        let (after, port) = sockets.allocated(stream, tries);
        if let Ok(p) = port {
            assert(!sockets.advanced().taken(stream, p, None));
            if sockets.taken(stream, p, None) {
                let k = choose|k: int|
                    0 <= k < sockets.table.len() && None::<usize> != Some(#[trigger] sockets.table[k])
                        && sockets.at(sockets.table[k]).holds_port(stream, p);
                assert(sockets.advanced().table[k] == sockets.table[k]);
                assert(sockets.advanced().at(sockets.table[k]).holds_port(stream, p));
            }
        }
    }
}

impl Sockets {
    pub fn new() -> (sockets: Sockets)
        ensures
            sockets@ == SocketsView::none(),
            sockets@.valid(),
    {
        let sockets = Sockets {
            slots: Vec::new(),
            table: Vec::new(),
            next_ephemeral: EPHEMERAL_FIRST,
        };
        assert(sockets@ =~= SocketsView::none());
        sockets
    }

    /// Make a socket, which nothing can find yet.
    pub fn create(&mut self, stream: bool) -> (id: usize)
        requires
            old(self)@.valid(),
        ensures
            id == old(self)@.slots.len(),
            final(self)@ == old(self)@.grown(SocketView::fresh(stream)),
            final(self)@.valid(),
            final(self)@.has(id),
    {
        let id: usize = self.slots.len();
        self.insert(InetSocket::new(stream));
        id
    }

    /// Give a socket a place.
    pub fn insert(&mut self, socket: InetSocket)
        requires
            old(self)@.valid(),
            socket@.valid(),
        ensures
            final(self)@ == old(self)@.grown(socket@),
            final(self)@.valid(),
    {
        self.slots.push(Some(Box::new(socket)));
        proof {
            assert(self@ =~= old(self)@.grown(socket@));
            assert forall|i: int|
                0 <= i < self@.slots.len() && self@.slots[i] is Some implies (
            #[trigger] self@.slots[i])->0.valid() by {
                if i < old(self)@.slots.len() {
                    assert(self@.slots[i] == old(self)@.slots[i]);
                }
            }
            assert forall|k: int| 0 <= k < self@.table.len() implies self@.has(
                #[trigger] self@.table[k],
            ) by {
                assert(old(self)@.has(old(self)@.table[k]));
            }
        }
    }

    /// The socket at a place, if there is one.
    pub fn get(&self, id: usize) -> (socket: Option<&InetSocket>)
        ensures
            socket is Some <==> self@.has(id),
            socket matches Some(s) ==> s@ == self@.at(id),
    {
        if id >= self.slots.len() {
            return None;
        }
        assert(self@.slots[id as int] == slot_view(self.slots@[id as int]));
        match &self.slots[id] {
            Some(socket) => Some(&**socket),
            None => None,
        }
    }

    /// Take a socket out of its place to work on it. `put` puts it back.
    pub fn take(&mut self, id: usize) -> (socket: Box<InetSocket>)
        requires
            old(self)@.has(id),
        ensures
            (*socket)@ == old(self)@.at(id),
            final(self)@ == old(self)@.emptied(id),
    {
        assert(self@.slots[id as int] == slot_view(self.slots@[id as int]));
        let mut slot: Option<Box<InetSocket>> = None;
        std::mem::swap(&mut self.slots[id], &mut slot);
        assert(self@.slots =~= old(self)@.slots.update(id as int, None));
        slot.unwrap()
    }

    pub fn put(&mut self, id: usize, socket: Box<InetSocket>)
        requires
            id < old(self)@.slots.len(),
        ensures
            final(self)@ == old(self)@.with(id, (*socket)@),
    {
        self.slots.set(id, Some(socket));
        assert(self@.slots =~= old(self)@.with(id, (*socket)@).slots);
    }
}

/// Replacing one socket by another that is in order keeps everything in order.
pub proof fn replacing_keeps_order(sockets: SocketsView, id: usize, socket: SocketView)
    requires
        sockets.valid(),
        sockets.has(id),
        socket.valid(),
    ensures
        sockets.with(id, socket).valid(),
        sockets.with(id, socket).has(id),
        sockets.with(id, socket).at(id) == socket,
        sockets.emptied(id).with(id, socket) == sockets.with(id, socket),
{
    let after = sockets.with(id, socket);
    assert forall|i: int| 0 <= i < after.slots.len() && after.slots[i] is Some implies (
    #[trigger] after.slots[i])->0.valid() by {
        if i != id {
            assert(after.slots[i] == sockets.slots[i]);
        }
    }
    assert forall|k: int| 0 <= k < after.table.len() implies after.has(#[trigger] after.table[k]) by {
        assert(sockets.has(sockets.table[k]));
    }
    assert(sockets.slots.update(id as int, None).update(id as int, Some(socket))
        =~= sockets.slots.update(id as int, Some(socket)));
}

pub fn register(sockets: &mut Sockets, id: usize)
    requires
        old(sockets)@.valid(),
        old(sockets)@.has(id),
    ensures
        final(sockets)@ == old(sockets)@.registered(id),
        final(sockets)@.valid(),
{
    let mut i: usize = 0;
    while i < sockets.table.len()
        invariant
            i <= sockets.table@.len(),
            sockets@ == old(sockets)@,
            sockets@.valid(),
            forall|k: int| 0 <= k < i ==> sockets.table@[k] != id,
        decreases sockets.table@.len() - i,
    {
        if sockets.table[i] == id {
            assert(sockets@.table.contains(id));
            return;
        }
        i += 1;
    }
    assert(!sockets@.table.contains(id));
    sockets.table.push(id);
    proof {
        assert(sockets@ =~= old(sockets)@.registered(id));
        assert forall|k: int| 0 <= k < sockets@.table.len() implies sockets@.has(
            #[trigger] sockets@.table[k],
        ) by {
            if k < old(sockets)@.table.len() {
                assert(old(sockets)@.has(old(sockets)@.table[k]));
            }
        }
        assert forall|i: int|
            0 <= i < sockets@.slots.len() && sockets@.slots[i] is Some implies (
        #[trigger] sockets@.slots[i])->0.valid() by {
            assert(old(sockets)@.slots[i] == sockets@.slots[i]);
        }
    }
}

/// Take a socket out of the table and let it go.
pub fn unregister(sockets: &mut Sockets, id: usize)
    requires
        old(sockets)@.valid(),
    ensures
        final(sockets)@ == old(sockets)@.forgotten(id),
        final(sockets)@.valid(),
{
    let ghost all = sockets.table@;
    let mut kept: Vec<usize> = Vec::new();
    let mut i: usize = 0;
    assert(all.take(0) =~= Seq::empty());
    assert(kept@ =~= without(all.take(0), id));
    while i < sockets.table.len()
        invariant
            i <= all.len(),
            all == sockets.table@,
            sockets@ == old(sockets)@,
            kept@ == without(all.take(i as int), id),
        decreases all.len() - i,
    {
        assert(all.take(i + 1).drop_last() =~= all.take(i as int));
        if sockets.table[i] != id {
            kept.push(sockets.table[i]);
        }
        i += 1;
    }
    assert(all.take(i as int) =~= all);
    sockets.table = kept;
    if id < sockets.slots.len() {
        sockets.slots.set(id, None);
    }
    proof {
        assert(sockets@ =~= old(sockets)@.forgotten(id));
        assert forall|k: int| 0 <= k < sockets@.table.len() implies sockets@.has(
            #[trigger] sockets@.table[k],
        ) by {
            without_members(all, id, k);
            let j = choose|j: int| 0 <= j < all.len() && all[j] == sockets@.table[k];
            assert(old(sockets)@.has(old(sockets)@.table[j]));
        }
        assert forall|i: int|
            0 <= i < sockets@.slots.len() && sockets@.slots[i] is Some implies (
        #[trigger] sockets@.slots[i])->0.valid() by {
            assert(old(sockets)@.slots[i] == sockets@.slots[i]);
        }
    }
}

/// A snapshot of the table.
pub fn all(sockets: &Sockets) -> (table: Vec<usize>)
    ensures
        table@ == sockets@.table,
{
    let mut table: Vec<usize> = Vec::new();
    let mut i: usize = 0;
    while i < sockets.table.len()
        invariant
            i <= sockets.table@.len(),
            table@ == sockets.table@.take(i as int),
        decreases sockets.table@.len() - i,
    {
        table.push(sockets.table[i]);
        i += 1;
        assert(table@ =~= sockets.table@.take(i as int));
    }
    assert(table@ =~= sockets.table@);
    table
}

pub fn count(sockets: &Sockets) -> (n: usize)
    ensures
        n == sockets@.table.len(),
{
    sockets.table.len()
}

/// Nothing is using the network.
pub fn is_empty(sockets: &Sockets) -> (r: bool)
    ensures
        r == (sockets@.table.len() == 0),
{
    sockets.table.len() == 0
}

/// Take everything out of the table.
pub fn reset(sockets: &mut Sockets)
    requires
        old(sockets)@.valid(),
    ensures
        final(sockets)@ == (SocketsView { table: Seq::empty(), ..old(sockets)@ }),
        final(sockets)@.valid(),
{
    sockets.table.clear();
    proof {
        assert(sockets@ =~= SocketsView { table: Seq::empty(), ..old(sockets)@ });
        assert forall|i: int|
            0 <= i < sockets@.slots.len() && sockets@.slots[i] is Some implies (
        #[trigger] sockets@.slots[i])->0.valid() by {
            assert(old(sockets)@.slots[i] == sockets@.slots[i]);
        }
    }
}

/// The socket an arriving segment belongs to: the exact conversation first,
/// and only then something listening on the port.
pub fn lookup_stream(sockets: &Sockets, local: Endpoint, remote: Endpoint) -> (id: Option<usize>)
    requires
        sockets@.valid(),
    ensures
        id == sockets@.conversation(local, remote),
        id matches Some(i) ==> sockets@.has(i) && sockets@.at(i).converses(local, remote),
{
    let ghost hit = |id: usize| sockets@.at(id).converses(local, remote);
    let mut i: usize = 0;
    assert(sockets@.table.skip(0) =~= sockets@.table);
    while i < sockets.table.len()
        invariant
            i <= sockets.table@.len(),
            sockets@.valid(),
            hit == (|id: usize| sockets@.at(id).converses(local, remote)),
            first(sockets@.table.skip(i as int), hit) == first(sockets@.table, hit),
        decreases sockets.table@.len() - i,
    {
        let id: usize = sockets.table[i];
        assert(sockets@.has(sockets@.table[i as int]));
        assert(sockets@.table.skip(i as int).skip(1) =~= sockets@.table.skip(i + 1));
        match sockets.get(id) {
            Some(socket) => {
                let found = match &socket.inner {
                    Protocol::Tcp(tcb) => tcb.state != tcp::State::Listen && tcb.state
                        != tcp::State::Closed && tcb.remote == remote && matches_local(
                        tcb.local,
                        local,
                    ),
                    Protocol::Udp(_) => false,
                };
                if found {
                    assert(hit(id));
                    return Some(id);
                }
                assert(!hit(id));
            },
            None => {},
        }
        i += 1;
    }
    None
}

pub fn lookup_listener(sockets: &Sockets, local: Endpoint) -> (id: Option<usize>)
    requires
        sockets@.valid(),
    ensures
        id == sockets@.listener(local),
        id matches Some(i) ==> sockets@.has(i) && sockets@.at(i).listening(),
{
    let ghost exact = |id: usize|
        sockets@.at(id).listens(local) && sockets@.at(id).local().address == local.address;
    let ghost any = |id: usize| sockets@.at(id).listens(local);
    let mut best: Option<usize> = None;
    let mut i: usize = 0;
    assert(sockets@.table.skip(0) =~= sockets@.table);
    while i < sockets.table.len()
        invariant
            i <= sockets.table@.len(),
            sockets@.valid(),
            exact == (|id: usize|
                sockets@.at(id).listens(local) && sockets@.at(id).local().address
                    == local.address),
            any == (|id: usize| sockets@.at(id).listens(local)),
            first(sockets@.table.skip(i as int), exact) == first(sockets@.table, exact),
            best is None ==> first(sockets@.table.skip(i as int), any) == first(
                sockets@.table,
                any,
            ),
            best is Some ==> first(sockets@.table, any) == best,
            best matches Some(b) ==> sockets@.has(b) && sockets@.at(b).listening(),
        decreases sockets.table@.len() - i,
    {
        let id: usize = sockets.table[i];
        assert(sockets@.has(sockets@.table[i as int]));
        assert(sockets@.table.skip(i as int).skip(1) =~= sockets@.table.skip(i + 1));
        match sockets.get(id) {
            Some(socket) => {
                if socket.is_listening() && matches_local(socket.local_endpoint(), local) {
                    assert(any(id));
                    // A socket bound to this address beats one bound to all of
                    // them.
                    if socket.local_endpoint().address == local.address {
                        assert(exact(id));
                        return Some(id);
                    }
                    assert(!exact(id));
                    if best.is_none() {
                        best = Some(id);
                    }
                } else {
                    assert(!any(id));
                    assert(!exact(id));
                }
            },
            None => {},
        }
        i += 1;
    }
    best
}

pub fn lookup_datagram(sockets: &Sockets, local: Endpoint, remote: Endpoint) -> (id: Option<usize>)
    requires
        sockets@.valid(),
    ensures
        id == sockets@.recipient(local, remote),
        id matches Some(i) ==> sockets@.has(i) && !sockets@.at(i).stream,
{
    let ghost connected = |id: usize| sockets@.at(id).takes_from(local, remote);
    let ghost any = |id: usize| sockets@.at(id).takes_from_anyone(local);
    let mut best: Option<usize> = None;
    let mut i: usize = 0;
    assert(sockets@.table.skip(0) =~= sockets@.table);
    while i < sockets.table.len()
        invariant
            i <= sockets.table@.len(),
            sockets@.valid(),
            connected == (|id: usize| sockets@.at(id).takes_from(local, remote)),
            any == (|id: usize| sockets@.at(id).takes_from_anyone(local)),
            first(sockets@.table.skip(i as int), connected) == first(sockets@.table, connected),
            best is None ==> first(sockets@.table.skip(i as int), any) == first(
                sockets@.table,
                any,
            ),
            best is Some ==> first(sockets@.table, any) == best,
            best matches Some(b) ==> sockets@.has(b) && !sockets@.at(b).stream,
        decreases sockets.table@.len() - i,
    {
        let id: usize = sockets.table[i];
        assert(sockets@.has(sockets@.table[i as int]));
        assert(sockets@.table.skip(i as int).skip(1) =~= sockets@.table.skip(i + 1));
        match sockets.get(id) {
            Some(socket) => {
                assert(sockets@.slots[id as int]->0.valid());
                match &socket.inner {
                    Protocol::Udp(state) => {
                        if state.bound && matches_local(state.local, local) {
                            match state.remote {
                                Some(peer) => {
                                    assert(!any(id));
                                    if peer == remote {
                                        assert(connected(id));
                                        return Some(id);
                                    }
                                    assert(!connected(id));
                                },
                                None => {
                                    assert(any(id));
                                    assert(!connected(id));
                                    if best.is_none() {
                                        best = Some(id);
                                    }
                                },
                            }
                        } else {
                            assert(!any(id));
                            assert(!connected(id));
                        }
                    },
                    Protocol::Tcp(_) => {
                        assert(!any(id));
                        assert(!connected(id));
                    },
                }
            },
            None => {},
        }
        i += 1;
    }
    best
}

pub fn port_taken(sockets: &Sockets, stream: bool, port: u16, except: Option<usize>) -> (r: bool)
    requires
        sockets@.valid(),
    ensures
        r == sockets@.taken(stream, port, except),
{
    let mut i: usize = 0;
    while i < sockets.table.len()
        invariant
            i <= sockets.table@.len(),
            sockets@.valid(),
            forall|k: int|
                0 <= k < i && except != Some(#[trigger] sockets@.table[k]) ==> !sockets@.at(
                    sockets@.table[k],
                ).holds_port(stream, port),
        decreases sockets.table@.len() - i,
    {
        let id: usize = sockets.table[i];
        assert(sockets@.has(sockets@.table[i as int]));
        let other = match except {
            Some(e) => e != id,
            None => true,
        };
        match sockets.get(id) {
            Some(socket) => {
                let bound = match &socket.inner {
                    Protocol::Tcp(tcb) => tcb.bound,
                    Protocol::Udp(state) => state.bound,
                };
                if other && socket.stream == stream && !socket.detached && bound
                    && socket.local_endpoint().port == port {
                    assert(sockets@.at(sockets@.table[i as int]).holds_port(stream, port));
                    return true;
                }
            },
            None => {},
        }
        i += 1;
    }
    false
}

pub fn allocate_port(sockets: &mut Sockets, stream: bool) -> (result: Result<u16, Errno>)
    requires
        old(sockets)@.valid(),
    ensures
        (final(sockets)@, result) == old(sockets)@.allocated(stream, EPHEMERAL_TRIES as nat),
        final(sockets)@.valid(),
        final(sockets)@.slots == old(sockets)@.slots,
        final(sockets)@.table == old(sockets)@.table,
{
    let mut tries: usize = EPHEMERAL_TRIES;
    while tries > 0
        invariant
            tries <= EPHEMERAL_TRIES,
            sockets@.valid(),
            sockets@.slots == old(sockets)@.slots,
            sockets@.table == old(sockets)@.table,
            sockets@.allocated(stream, tries as nat) == old(sockets)@.allocated(
                stream,
                EPHEMERAL_TRIES as nat,
            ),
        decreases tries,
    {
        let port: u16 = if sockets.next_ephemeral < EPHEMERAL_FIRST {
            EPHEMERAL_FIRST
        } else {
            sockets.next_ephemeral
        };
        let taken = port_taken(sockets, stream, port, None);
        let ghost before = sockets@;
        sockets.next_ephemeral = port.wrapping_add(1);
        proof {
            assert(sockets@ =~= before.advanced());
            assert forall|i: int|
                0 <= i < sockets@.slots.len() && sockets@.slots[i] is Some implies (
            #[trigger] sockets@.slots[i])->0.valid() by {
                assert(before.slots[i] == sockets@.slots[i]);
            }
            assert forall|k: int| 0 <= k < sockets@.table.len() implies sockets@.has(
                #[trigger] sockets@.table[k],
            ) by {
                assert(before.has(before.table[k]));
            }
        }
        if !taken {
            return Ok(port);
        }
        tries -= 1;
    }
    Err(Errno::EADDRINUSE)
}

impl InetSocket {
    /// Whether a packet-finding socket can still be given a local end.
    fn can_be_placed(&self) -> (r: bool)
        ensures
            r == (match self@.inner {
                ProtocolView::Tcp(tcb) => tcb.state is Closed && !tcb.bound,
                ProtocolView::Udp(state) => !state.bound,
            }),
    {
        match &self.inner {
            Protocol::Tcp(tcb) => tcb.state == tcp::State::Closed && !tcb.bound,
            Protocol::Udp(state) => !state.bound,
        }
    }

    /// Give a socket a local end and put it in the table.
    fn place(sockets: &mut Sockets, id: usize, local: Endpoint)
        requires
            old(sockets)@.valid(),
            old(sockets)@.has(id),
        ensures
            final(sockets)@ == old(sockets)@.placed(id, local),
            final(sockets)@.valid(),
            final(sockets)@.has(id),
    {
        let ghost before = sockets@;
        assert(before.slots[id as int]->0.valid());
        let mut socket = sockets.take(id);
        match &mut socket.inner {
            Protocol::Tcp(tcb) => {
                tcb.local = local;
                tcb.bound = true;
            },
            Protocol::Udp(state) => {
                state.local = local;
                state.bound = true;
            },
        }
        let ghost placed = (*socket)@;
        sockets.put(id, socket);
        proof {
            replacing_keeps_order(before, id, placed);
        }
        register(sockets, id);
    }

    /// Give a socket a local address and port, and put it in the table.
    pub fn bind(
        sockets: &mut Sockets,
        id: usize,
        requested: Endpoint,
        config: Option<Config>,
    ) -> (result: Result<(), Errno>)
        requires
            old(sockets)@.valid(),
            old(sockets)@.has(id),
        ensures
            (final(sockets)@, result) == old(sockets)@.bound(id, requested, config),
            final(sockets)@.valid(),
            final(sockets)@.has(id),
            final(sockets)@.at(id).stream == old(sockets)@.at(id).stream,
    {
        let ours = match config {
            Some(c) => requested.address == c.address(),
            None => false,
        };
        if !requested.address.is_unspecified() && !ours && !requested.address.is_broadcast()
            && !requested.address.is_loopback() {
            return Err(Errno::EADDRNOTAVAIL);
        }
        let mut local = requested;
        let (stream, placeable) = match sockets.get(id) {
            Some(socket) => (socket.stream, socket.can_be_placed()),
            None => (false, false),
        };
        if local.port == 0 {
            match allocate_port(sockets, stream) {
                Ok(port) => {
                    local.port = port;
                },
                Err(reason) => {
                    return Err(reason);
                },
            }
        } else if port_taken(sockets, stream, local.port, Some(id)) {
            return Err(Errno::EADDRINUSE);
        }
        if !placeable {
            return Err(Errno::EINVAL);
        }
        InetSocket::place(sockets, id, local);
        Ok(())
    }

    /// Give the socket a local port if it does not have one yet.
    pub fn bind_ephemeral(sockets: &mut Sockets, id: usize, config: Option<Config>) -> (result:
        Result<(), Errno>)
        requires
            old(sockets)@.valid(),
            old(sockets)@.has(id),
        ensures
            (final(sockets)@, result) == old(sockets)@.bound_somewhere(id, config),
            final(sockets)@.valid(),
            final(sockets)@.has(id),
            final(sockets)@.at(id).stream == old(sockets)@.at(id).stream,
    {
        let port: u16 = match sockets.get(id) {
            Some(socket) => socket.local_endpoint().port,
            None => 0,
        };
        if port != 0 {
            return Ok(());
        }
        InetSocket::bind(sockets, id, Endpoint::unspecified(), config)
    }
}

} // verus!
