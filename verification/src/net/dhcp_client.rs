//! The DHCP client at its socket: what it reads, what it decides, and what is
//! done about it.

use crate::bytes::copy_range;
use crate::errno::Errno;
use crate::net::config::{self, Config};
use crate::net::dhcp::{
    self, Client, Draws, Effect, EffectView, Reply, State, Turn, CLIENT_PORT, SERVER_PORT,
    TIMER_PASSES,
};
use crate::net::ether;
use crate::net::ip::Ipv4Addr;
use crate::net::link::{self, configure, link_up};
use crate::net::socket::{unregister, Endpoint, InetSocket, SocketView};
use crate::net::socket_ops::close;
use crate::net::stack::{Net, NetView};
use crate::net::tcp;
use vstd::prelude::*;

verus! {

/// How many messages one look at the socket takes: as many as the socket can
/// hold, so a socket whose read side somebody shut down, which reads as empty
/// for ever, cannot hold the client up.
pub const MESSAGES: usize = 64;

/// How many random numbers one look at the socket and the clock can use.
pub const DRAWS: usize = 72;

/// There is a datagram socket at this place.
pub open spec fn has_datagram(net: NetView, id: usize) -> bool {
    net.sockets.has(id) && !net.sockets.at(id).stream
}

/// One thing after another.
pub open spec fn followed_by(turn: Turn, rest: Turn) -> Turn {
    Turn { state: rest.state, effects: turn.effects + rest.effects, draws: rest.draws }
}

/// What one datagram does to the client. Only a server's, from a server's
/// port, does anything.
pub open spec fn after_datagram(
    state: State,
    mac: Seq<u8>,
    nameserver: Option<Ipv4Addr>,
    from: Endpoint,
    data: Seq<u8>,
    now: u64,
    draws: Seq<u64>,
) -> Turn {
    if from.port == SERVER_PORT && dhcp::is_reply(data) {
        dhcp::after_reply(state, mac, nameserver, dhcp::reply_of(data), now, draws)
    } else {
        dhcp::unchanged(state, draws)
    }
}

/// What reading one datagram does to the stack and to the client, and whether
/// there was one.
#[verifier::opaque]
pub open spec fn datagram_read(
    net: NetView,
    socket: usize,
    state: State,
    mac: Seq<u8>,
    nameserver: Option<Ipv4Addr>,
    now: u64,
    draws: Seq<u64>,
) -> (NetView, Turn, bool) {
    let (after, result) = net.received_from(socket, ether::MTU as int, false, now);
    match result {
        Err(_) => (after, dhcp::unchanged(state, draws), false),
        Ok((_, from)) => (
            after,
            after_datagram(
                state,
                mac,
                nameserver,
                from,
                net.readable_bytes(socket, ether::MTU as int),
                now,
                draws,
            ),
            true,
        ),
    }
}

/// What reading up to `count` datagrams does to the stack and to the client.
pub open spec fn datagrams_read(
    net: NetView,
    socket: usize,
    state: State,
    mac: Seq<u8>,
    nameserver: Option<Ipv4Addr>,
    now: u64,
    draws: Seq<u64>,
    count: nat,
) -> (NetView, Turn)
    decreases count,
{
    if count == 0 {
        (net, dhcp::unchanged(state, draws))
    } else {
        let (after, turn, more) = datagram_read(net, socket, state, mac, nameserver, now, draws);
        if !more {
            (after, turn)
        } else {
            let (end, rest) = datagrams_read(
                after,
                socket,
                turn.state,
                mac,
                nameserver,
                now,
                turn.draws,
                (count - 1) as nat,
            );
            (end, followed_by(turn, rest))
        }
    }
}

/// The state a look begins from. Whatever went out while the link was down
/// arrived nowhere, and after a few unanswered DISCOVERs the timer may not
/// fire again for a minute: a link that has come up starts the client again.
pub open spec fn woken_by_link(client: Client, up: bool, now: u64) -> State {
    if up && !client.link_up && client.state.lease() is None {
        State::Init { at: now }
    } else {
        client.state
    }
}

/// What one look at the socket and the clock does.
pub open spec fn polled(net: NetView, client: Client, now: u64, draws: Seq<u64>) -> (NetView, Turn) {
    let (read, first) = datagrams_read(
        net,
        client.socket,
        woken_by_link(client, net.link.is_up(), now),
        client.mac@,
        client.nameserver,
        now,
        draws,
        MESSAGES as nat,
    );
    let second = dhcp::after_timer(first.state, client.mac@, now, first.draws);
    (read, followed_by(first, second))
}

/// A decision carried out. A message that cannot go out now -- the link is
/// down -- is lost the way one on a lossy link is, and the retransmission
/// timer covers both.
pub open spec fn carried_out(net: NetView, socket: usize, effect: EffectView, now: u64) -> NetView {
    match effect {
        EffectView::Configure(config) => NetView { link: net.link.configured(config), ..net },
        EffectView::Send { to, message } => net.sent_on(
            socket,
            message,
            Some(Endpoint { address: to, port: SERVER_PORT }),
            now,
        ).0,
    }
}

/// Decisions carried out in the order they were made.
pub open spec fn all_carried_out(
    net: NetView,
    socket: usize,
    effects: Seq<EffectView>,
    now: u64,
) -> NetView
    decreases effects.len(),
{
    if effects.len() == 0 {
        net
    } else {
        carried_out(
            all_carried_out(net, socket, effects.drop_last(), now),
            socket,
            effects.last(),
            now,
        )
    }
}

/// Every configuration among these decisions is one that can be used.
pub open spec fn all_sound(effects: Seq<EffectView>) -> bool {
    forall|i: int|
        0 <= i < effects.len() ==> (#[trigger] effects[i] matches EffectView::Configure(Some(c))
            ==> c.sound())
}

/// The client only ever asks for configurations that can be used, and a
/// message from a server takes at most one random number.
proof fn a_datagram_asks_for_what_can_be_used(
    state: State,
    mac: Seq<u8>,
    nameserver: Option<Ipv4Addr>,
    from: Endpoint,
    data: Seq<u8>,
    now: u64,
    draws: Seq<u64>,
)
    requires
        draws.len() > 0,
    ensures
        all_sound(after_datagram(state, mac, nameserver, from, data, now, draws).effects),
        after_datagram(state, mac, nameserver, from, data, now, draws).draws.len() >= draws.len()
            - 1,
{
    let reply = dhcp::reply_of(data);
    let netmask = dhcp::netmask_from(reply);
    let servers = match nameserver {
        Some(server) => seq![server],
        None => reply.nameservers,
    };
    config::kept_servers_fit(servers);
    Config::of_is_made_of(
        reply.yiaddr,
        netmask,
        dhcp::gateway_among(reply.routers, reply.yiaddr, netmask),
        config::kept_servers(servers),
    );
}

/// Looking at the clock asks for no configuration but none.
proof fn the_clock_only_takes_away(
    state: State,
    mac: Seq<u8>,
    now: u64,
    draws: Seq<u64>,
    passes: nat,
)
    ensures
        all_sound(dhcp::after_passes(state, mac, now, draws, passes).effects),
    decreases passes,
{
    if passes > 0 {
        let (turn, more) = dhcp::timer_pass(state, mac, now, draws);
        assert(all_sound(turn.effects));
        if more {
            the_clock_only_takes_away(turn.state, mac, now, turn.draws, (passes - 1) as nat);
            let rest = dhcp::after_passes(turn.state, mac, now, turn.draws, (passes - 1) as nat);
            assert(all_sound(turn.effects + rest.effects));
        }
    }
}

/// Do what `poll` decided, in the order it decided it.
pub fn apply(net: &mut Net, socket: usize, effects: &Vec<Effect>, now: u64)
    requires
        old(net)@.valid(),
        has_datagram(old(net)@, socket),
        all_sound(dhcp::views(effects@)),
        now <= tcp::LAST_TICK,
    ensures
        final(net)@ == all_carried_out(old(net)@, socket, dhcp::views(effects@), now),
        final(net)@.valid(),
        has_datagram(final(net)@, socket),
{
    let ghost list = dhcp::views(effects@);
    let mut i: usize = 0;
    assert(list.take(0) =~= Seq::empty());
    while i < effects.len()
        invariant
            i <= effects@.len(),
            list == dhcp::views(effects@),
            net@.valid(),
            has_datagram(net@, socket),
            all_sound(list),
            now <= tcp::LAST_TICK,
            net@ == all_carried_out(old(net)@, socket, list.take(i as int), now),
        decreases effects@.len() - i,
    {
        assert(list.take(i + 1).drop_last() =~= list.take(i as int));
        assert(list[i as int] == effects@[i as int]@);
        assert(net@.sockets.slots[socket as int]->0.valid());
        match &effects[i] {
            Effect::Configure(config) => {
                configure(&mut net.link, *config);
            },
            Effect::Send { to, message } => {
                let _ = InetSocket::send(
                    net,
                    socket,
                    message.as_slice(),
                    Some(Endpoint::new(*to, SERVER_PORT)),
                    now,
                );
            },
        }
        i += 1;
    }
    assert(list.take(i as int) =~= list);
}

/// A buffer for one datagram.
fn buffer() -> (buf: Vec<u8>)
    ensures
        buf@.len() == ether::MTU,
{
    let mut buf: Vec<u8> = Vec::new();
    while buf.len() < ether::MTU
        invariant
            buf@.len() <= ether::MTU,
        decreases ether::MTU - buf@.len(),
    {
        buf.push(0);
    }
    buf
}

impl Client {
    /// A client on a socket of its own, at the client's port. Nothing is left
    /// of the socket where the port cannot be had.
    pub fn new(net: &mut Net, mac: [u8; 6], nameserver: Option<Ipv4Addr>, now: u64) -> (result:
        Result<Client, Errno>)
        requires
            old(net)@.valid(),
        ensures
            ({
                let place = old(net)@.sockets.slots.len() as usize;
                let (bound, answer) = old(net)@.sockets.grown(SocketView::fresh(false)).bound(
                    place,
                    Endpoint { address: Ipv4Addr(0), port: CLIENT_PORT },
                    old(net)@.link.config,
                );
                match answer {
                    Ok(_) => {
                        &&& result == Ok::<Client, Errno>(
                            Client {
                                socket: place,
                                mac,
                                nameserver,
                                state: State::Init { at: now },
                                link_up: false,
                            },
                        )
                        &&& final(net)@ == NetView { sockets: bound, ..old(net)@ }
                        &&& has_datagram(final(net)@, place)
                    },
                    Err(reason) => {
                        &&& result == Err::<Client, Errno>(reason)
                        &&& final(net)@ == NetView { sockets: bound.forgotten(place), ..old(net)@ }
                    },
                }
            }),
            final(net)@.valid(),
    {
        let socket = net.sockets.create(false);
        match InetSocket::bind(
            &mut net.sockets,
            socket,
            Endpoint::new(Ipv4Addr(0), CLIENT_PORT),
            net.link.config,
        ) {
            Ok(_) => Ok(
                Client { socket, mac, nameserver, state: State::Init { at: now }, link_up: false },
            ),
            Err(reason) => {
                unregister(&mut net.sockets, socket);
                Err(reason)
            },
        }
    }

    /// The place of the client's socket.
    pub fn socket(&self) -> (place: usize)
        ensures
            place == self.socket,
    {
        self.socket
    }

    /// Take one datagram, wherever it came from.
    fn take(
        &mut self,
        from: Endpoint,
        data: &[u8],
        now: u64,
        draws: &mut Draws,
        effects: &mut Vec<Effect>,
    )
        requires
            old(self).state.valid(),
            now <= dhcp::LAST_POLL,
            old(draws).valid(),
            old(draws)@.len() > 0,
        ensures
            ({
                let turn = after_datagram(
                    old(self).state,
                    old(self).mac@,
                    old(self).nameserver,
                    from,
                    data@,
                    now,
                    old(draws)@,
                );
                &&& *final(self) == Client { state: turn.state, ..*old(self) }
                &&& dhcp::views(final(effects)@) == dhcp::views(old(effects)@) + turn.effects
                &&& final(draws)@ == turn.draws
            }),
            final(self).state.valid(),
            final(draws).valid(),
    {
        proof {
            assert(dhcp::views(effects@) + Seq::<EffectView>::empty() =~= dhcp::views(effects@));
        }
        if from.port == SERVER_PORT {
            if let Some(reply) = Reply::parse(data) {
                self.on_reply(&reply, now, draws, effects);
            }
        }
    }

    /// Read one datagram, if one has arrived.
    fn read_one(
        &mut self,
        net: &mut Net,
        now: u64,
        draws: &mut Draws,
        effects: &mut Vec<Effect>,
    ) -> (more: bool)
        requires
            old(net)@.valid(),
            has_datagram(old(net)@, old(self).socket),
            old(self).state.valid(),
            now <= dhcp::LAST_POLL,
            old(draws).valid(),
            old(draws)@.len() > 0,
        ensures
            ({
                let (after, turn, found) = datagram_read(
                    old(net)@,
                    old(self).socket,
                    old(self).state,
                    old(self).mac@,
                    old(self).nameserver,
                    now,
                    old(draws)@,
                );
                &&& more == found
                &&& final(net)@ == after
                &&& *final(self) == Client { state: turn.state, ..*old(self) }
                &&& dhcp::views(final(effects)@) == dhcp::views(old(effects)@) + turn.effects
                &&& final(draws)@ == turn.draws
                &&& all_sound(turn.effects)
                &&& turn.draws.len() >= old(draws)@.len() - 1
            }),
            final(net)@.valid(),
            has_datagram(final(net)@, old(self).socket),
            final(self).state.valid(),
            final(draws).valid(),
    {
        let ghost before = net@;
        assert(before.sockets.slots[self.socket as int]->0.valid());
        reveal(datagram_read);
        let mut buf = buffer();
        let (taken, from) = match InetSocket::receive_into(
            net,
            self.socket,
            buf.as_mut_slice(),
            false,
            now,
        ) {
            Ok(received) => received,
            Err(_) => {
                assert(dhcp::views(effects@) + Seq::<EffectView>::empty() =~= dhcp::views(
                    effects@,
                ));
                return false;
            },
        };
        let data = copy_range(buf.as_slice(), 0, taken);
        assert(data@ =~= before.readable_bytes(self.socket, ether::MTU as int));
        proof {
            a_datagram_asks_for_what_can_be_used(
                self.state,
                self.mac@,
                self.nameserver,
                from,
                data@,
                now,
                draws@,
            );
        }
        self.take(from, data.as_slice(), now, draws, effects);
        true
    }

    /// Read whatever has arrived.
    fn read(&mut self, net: &mut Net, now: u64, draws: &mut Draws, effects: &mut Vec<Effect>)
        requires
            old(net)@.valid(),
            has_datagram(old(net)@, old(self).socket),
            old(self).state.valid(),
            now <= dhcp::LAST_POLL,
            old(draws).valid(),
            old(draws)@.len() >= DRAWS,
            old(effects)@.len() == 0,
        ensures
            ({
                let (end, turn) = datagrams_read(
                    old(net)@,
                    old(self).socket,
                    old(self).state,
                    old(self).mac@,
                    old(self).nameserver,
                    now,
                    old(draws)@,
                    MESSAGES as nat,
                );
                &&& final(net)@ == end
                &&& *final(self) == Client { state: turn.state, ..*old(self) }
                &&& dhcp::views(final(effects)@) == turn.effects
                &&& final(draws)@ == turn.draws
            }),
            final(net)@.valid(),
            has_datagram(final(net)@, old(self).socket),
            final(self).state.valid(),
            final(draws).valid(),
            final(draws)@.len() >= TIMER_PASSES,
            all_sound(dhcp::views(final(effects)@)),
    {
        let ghost whole = datagrams_read(
            net@,
            self.socket,
            self.state,
            self.mac@,
            self.nameserver,
            now,
            draws@,
            MESSAGES as nat,
        );
        let mut left: usize = MESSAGES;
        assert(dhcp::views(effects@) =~= Seq::empty());
        proof {
            let none = Seq::<EffectView>::empty();
            assert(none + whole.1.effects =~= whole.1.effects);
        }
        while left > 0
            invariant
                left <= MESSAGES,
                whole == datagrams_read(
                    old(net)@,
                    old(self).socket,
                    old(self).state,
                    old(self).mac@,
                    old(self).nameserver,
                    now,
                    old(draws)@,
                    MESSAGES as nat,
                ),
                net@.valid(),
                has_datagram(net@, self.socket),
                self.state.valid(),
                *self == (Client { state: self.state, ..*old(self) }),
                now <= dhcp::LAST_POLL,
                draws.valid(),
                draws@.len() >= TIMER_PASSES + left,
                all_sound(dhcp::views(effects@)),
                ({
                    let (end, rest) = datagrams_read(
                        net@,
                        self.socket,
                        self.state,
                        self.mac@,
                        self.nameserver,
                        now,
                        draws@,
                        left as nat,
                    );
                    &&& end == whole.0
                    &&& rest.state == whole.1.state
                    &&& rest.draws == whole.1.draws
                    &&& dhcp::views(effects@) + rest.effects == whole.1.effects
                }),
            decreases left,
        {
            let ghost sofar = dhcp::views(effects@);
            let ghost all = datagrams_read(
                net@,
                self.socket,
                self.state,
                self.mac@,
                self.nameserver,
                now,
                draws@,
                left as nat,
            );
            let more = self.read_one(net, now, draws, effects);
            let ghost said = dhcp::views(effects@);
            if !more {
                assert(sofar + Seq::<EffectView>::empty() =~= sofar);
                assert(all_sound(dhcp::views(effects@)));
                return;
            }
            left -= 1;
            proof {
                let (_, rest) = datagrams_read(
                    net@,
                    self.socket,
                    self.state,
                    self.mac@,
                    self.nameserver,
                    now,
                    draws@,
                    left as nat,
                );
                let turn_effects = said.skip(sofar.len() as int);
                assert(said =~= sofar + turn_effects);
                assert(sofar + (turn_effects + rest.effects) =~= said + rest.effects);
            }
        }
        assert(dhcp::views(effects@) + Seq::<EffectView>::empty() =~= dhcp::views(effects@));
    }

    /// Look at the socket and at the clock, and decide what is to be done.
    /// `apply` does it.
    pub fn poll(&mut self, net: &mut Net, now: u64, draws: &mut Draws) -> (effects: Vec<Effect>)
        requires
            old(net)@.valid(),
            has_datagram(old(net)@, old(self).socket),
            old(self).state.valid(),
            now <= dhcp::LAST_POLL,
            old(draws).valid(),
            old(draws)@.len() >= DRAWS,
        ensures
            ({
                let (end, turn) = polled(old(net)@, *old(self), now, old(draws)@);
                &&& final(net)@ == end
                &&& *final(self) == Client {
                    state: turn.state,
                    link_up: old(net)@.link.is_up(),
                    ..*old(self)
                }
                &&& dhcp::views(effects@) == turn.effects
                &&& final(draws)@ == turn.draws
            }),
            final(net)@.valid(),
            has_datagram(final(net)@, old(self).socket),
            final(self).state.valid(),
            final(draws).valid(),
            all_sound(dhcp::views(effects@)),
    {
        let mut effects: Vec<Effect> = Vec::new();
        let up = link_up(&net.link);
        if up && !self.link_up && self.lease().is_none() {
            self.state = State::Init { at: now };
        }
        self.link_up = up;
        self.read(net, now, draws, &mut effects);
        let ghost first = dhcp::views(effects@);
        proof {
            the_clock_only_takes_away(self.state, self.mac@, now, draws@, TIMER_PASSES as nat);
        }
        self.on_timer(now, draws, &mut effects);
        effects
    }

    /// Look, decide and do it.
    pub fn run(&mut self, net: &mut Net, now: u64, draws: &mut Draws)
        requires
            old(net)@.valid(),
            has_datagram(old(net)@, old(self).socket),
            old(self).state.valid(),
            now <= dhcp::LAST_POLL,
            old(draws).valid(),
            old(draws)@.len() >= DRAWS,
        ensures
            ({
                let (end, turn) = polled(old(net)@, *old(self), now, old(draws)@);
                &&& final(net)@ == all_carried_out(end, old(self).socket, turn.effects, now)
                &&& *final(self) == Client {
                    state: turn.state,
                    link_up: old(net)@.link.is_up(),
                    ..*old(self)
                }
                &&& final(draws)@ == turn.draws
            }),
            final(net)@.valid(),
            has_datagram(final(net)@, old(self).socket),
            final(self).state.valid(),
            final(draws).valid(),
    {
        let effects = self.poll(net, now, draws);
        apply(net, self.socket, &effects, now);
    }

    /// The client is no longer wanted, and neither is its socket.
    pub fn stop(self, net: &mut Net, now: u64, clock_ns: u64)
        requires
            old(net)@.valid(),
            old(net)@.sockets.has(self.socket),
            now <= tcp::LAST_TICK,
        ensures
            final(net)@ == old(net)@.closed(self.socket, now, clock_ns),
            final(net)@.valid(),
    {
        close(net, self.socket, now, clock_ns);
    }
}

/// Start asking for an address for the machine's card. What follows happens in
/// `on_tick`, which the network task calls every tick.
pub fn start(net: &mut Net, nameserver: Option<Ipv4Addr>, now: u64) -> (result: Result<
    Client,
    Errno,
>)
    requires
        old(net)@.valid(),
    ensures
        ({
            let place = old(net)@.sockets.slots.len() as usize;
            let (bound, answer) = old(net)@.sockets.grown(SocketView::fresh(false)).bound(
                place,
                Endpoint { address: Ipv4Addr(0), port: CLIENT_PORT },
                old(net)@.link.config,
            );
            match answer {
                Ok(_) => {
                    &&& result == Ok::<Client, Errno>(
                        Client {
                            socket: place,
                            mac: old(net)@.link.mac(),
                            nameserver,
                            state: State::Init { at: now },
                            link_up: false,
                        },
                    )
                    &&& final(net)@ == NetView { sockets: bound, ..old(net)@ }
                    &&& has_datagram(final(net)@, place)
                },
                Err(reason) => {
                    &&& result == Err::<Client, Errno>(reason)
                    &&& final(net)@ == NetView { sockets: bound.forgotten(place), ..old(net)@ }
                },
            }
        }),
        final(net)@.valid(),
{
    let mac = link::mac(&net.link);
    Client::new(net, mac, nameserver, now)
}

/// The machine's client, where it has one, run once.
pub fn on_tick(net: &mut Net, client: &mut Option<Client>, now: u64, draws: &mut Draws)
    requires
        old(net)@.valid(),
        *old(client) matches Some(c) ==> has_datagram(old(net)@, c.socket) && c.state.valid(),
        now <= dhcp::LAST_POLL,
        old(draws).valid(),
        old(draws)@.len() >= DRAWS,
    ensures
        match *old(client) {
            None => final(net)@ == old(net)@ && *final(client) == None::<Client> && final(draws)@
                == old(draws)@,
            Some(c) => {
                let (end, turn) = polled(old(net)@, c, now, old(draws)@);
                &&& final(net)@ == all_carried_out(end, c.socket, turn.effects, now)
                &&& *final(client) == Some(
                    Client { state: turn.state, link_up: old(net)@.link.is_up(), ..c },
                )
                &&& final(draws)@ == turn.draws
                &&& has_datagram(final(net)@, c.socket)
                &&& turn.state.valid()
            },
        },
        final(net)@.valid(),
        final(draws).valid(),
{
    if let Some(client) = client {
        client.run(net, now, draws);
    }
}

/// The tick at which the machine's client next has something to do.
pub fn next_deadline(client: &Option<Client>) -> (tick: u64)
    ensures
        tick == (match client {
            Some(c) => c.state.deadline(),
            None => u64::MAX,
        }),
{
    match client {
        Some(client) => client.next_deadline(),
        None => u64::MAX,
    }
}

} // verus!
