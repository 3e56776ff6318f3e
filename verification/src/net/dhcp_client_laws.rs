//! What the client makes of its socket, its link and its effects.

use crate::net::dhcp::{self, Client, EffectView, State};
use crate::net::dhcp_client;
use crate::net::ip::Ipv4Addr;
use crate::net::socket::Endpoint;
use crate::net::stack::NetView;
use vstd::prelude::*;

verus! {

/// Only a server's port is listened to, and only what can be read as a
/// server's message.
pub proof fn whom_the_client_listens_to(
    state: State,
    mac: Seq<u8>,
    nameserver: Option<Ipv4Addr>,
    from: Endpoint,
    data: Seq<u8>,
    now: u64,
    draws: Seq<u64>,
)
    ensures
        ({
            let turn = dhcp_client::after_datagram(state, mac, nameserver, from, data, now, draws);
            let heard = from.port == 67 && dhcp::is_reply(data);
            &&& heard ==> turn == dhcp::after_reply(
                state,
                mac,
                nameserver,
                dhcp::reply_of(data),
                now,
                draws,
            )
            &&& !heard ==> turn.state == state && turn.effects.len() == 0 && turn.draws == draws
        }),
{
}

/// A link that comes up has a client without a lease ask at once; a client
/// that holds one goes on holding it, and a link that was up already or goes
/// down changes nothing.
pub proof fn what_a_link_coming_up_does(client: Client, up: bool, now: u64)
    ensures
        ({
            let state = dhcp_client::woken_by_link(client, up, now);
            let holds = client.state is Bound || client.state is Renewing
                || client.state is Rebinding;
            &&& up && !client.link_up && !holds ==> state == State::Init { at: now }
            &&& !up || client.link_up || holds ==> state == client.state
        }),
{
}

/// What the client wants done is done in its order: a configuration is the
/// machine's from there on, and a message goes to the servers' port.
pub proof fn what_is_wanted_is_done_in_order(
    net: NetView,
    socket: usize,
    effects: Seq<EffectView>,
    next: EffectView,
    now: u64,
)
    ensures
        dhcp_client::all_carried_out(net, socket, Seq::empty(), now) == net,
        ({
            let before = dhcp_client::all_carried_out(net, socket, effects, now);
            let after = dhcp_client::all_carried_out(net, socket, effects.push(next), now);
            &&& next matches EffectView::Configure(config) ==> after.sockets == before.sockets
                && after.link == before.link.configured(config)
            &&& next matches EffectView::Send { to, message } ==> after == before.sent_on(
                socket,
                message,
                Some(Endpoint { address: to, port: 67 }),
                now,
            ).0
        }),
{
    assert(effects.push(next).drop_last() =~= effects);
}

/// What has arrived is read before the clock is looked at, and what the two
/// want done is done in that order.
pub proof fn the_clock_comes_last(
    net: NetView,
    client: Client,
    now: u64,
    draws: Seq<u64>,
)
    ensures
        ({
            let (after, turn) = dhcp_client::polled(net, client, now, draws);
            let (read, first) = dhcp_client::datagrams_read(
                net,
                client.socket,
                dhcp_client::woken_by_link(client, net.link.card is Some && net.link.up, now),
                client.mac@,
                client.nameserver,
                now,
                draws,
                dhcp_client::MESSAGES as nat,
            );
            let last = dhcp::after_timer(first.state, client.mac@, now, first.draws);
            &&& after == read
            &&& turn.state == last.state
            &&& turn.effects == first.effects + last.effects
            &&& turn.draws == last.draws
        }),
{
}

} // verus!
