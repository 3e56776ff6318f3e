//! What each message from a server and each look at the clock comes to, for a
//! client that is asking for an address, holding one, or extending its lease.

use crate::bytes;
use crate::net::config::{self, Config};
use crate::net::dhcp::{self, EffectView, Exchange, Lease, Outgoing, ReplyView, State, LAST_POLL};
use crate::net::ip::Ipv4Addr;
use vstd::prelude::*;

verus! {

// ---- what a server's message is worth ---------------------------------------------

/// The netmask a message gives its address: the one it names, and otherwise
/// the one of the address's class.
pub open spec fn mask_named(reply: ReplyView) -> Ipv4Addr {
    if reply.netmask is Some {
        reply.netmask->0
    } else {
        config::class_mask(reply.yiaddr)
    }
}

proof fn no_router_serves(routers: Seq<Ipv4Addr>, address: Ipv4Addr, netmask: Ipv4Addr)
    requires
        forall|j: int|
            0 <= j < routers.len() ==> !config::configurable(
                address,
                netmask,
                Some(#[trigger] routers[j]),
            ),
    ensures
        dhcp::gateway_among(routers, address, netmask) is None,
    decreases routers.len(),
{
    if routers.len() > 0 {
        assert(!config::configurable(address, netmask, Some(routers[0])));
        let rest = routers.skip(1);
        assert forall|j: int| 0 <= j < rest.len() implies !config::configurable(
            address,
            netmask,
            Some(#[trigger] rest[j]),
        ) by {
            assert(rest[j] == routers[j + 1]);
        }
        no_router_serves(rest, address, netmask);
    }
}

proof fn the_first_router_serves(
    routers: Seq<Ipv4Addr>,
    address: Ipv4Addr,
    netmask: Ipv4Addr,
    k: int,
)
    requires
        0 <= k < routers.len(),
        config::configurable(address, netmask, Some(routers[k])),
        forall|j: int|
            0 <= j < k ==> !config::configurable(address, netmask, Some(#[trigger] routers[j])),
    ensures
        dhcp::gateway_among(routers, address, netmask) == Some(routers[k]),
    decreases routers.len(),
{
    if k > 0 {
        assert(!config::configurable(address, netmask, Some(routers[0])));
        let rest = routers.skip(1);
        assert(rest[k - 1] == routers[k]);
        assert forall|j: int| 0 <= j < k - 1 implies !config::configurable(
            address,
            netmask,
            Some(#[trigger] rest[j]),
        ) by {
            assert(rest[j] == routers[j + 1]);
        }
        the_first_router_serves(rest, address, netmask, k - 1);
    }
}

proof fn a_gateway_serves(routers: Seq<Ipv4Addr>, address: Ipv4Addr, netmask: Ipv4Addr)
    ensures
        dhcp::gateway_among(routers, address, netmask) matches Some(gateway)
            ==> config::configurable(address, netmask, Some(gateway)),
    decreases routers.len(),
{
    if routers.len() > 0 {
        a_gateway_serves(routers.skip(1), address, netmask);
    }
}

/// A message can be used where its address and netmask can, whatever its
/// routers are: a router that could not be the gateway is passed over.
pub proof fn routers_spoil_nothing(reply: ReplyView)
    ensures
        dhcp::is_usable(reply) == config::configurable(reply.yiaddr, mask_named(reply), None),
{
    a_gateway_serves(reply.routers, reply.yiaddr, mask_named(reply));
}

/// The configuration a message gives: its address, its netmask, and the name
/// servers that could answer, of the command line where it names one and of
/// the message where it does not. The gateway is the first router that is
/// another host on the subnet, if there is one.
pub proof fn what_a_message_configures(
    reply: ReplyView,
    nameserver: Option<Ipv4Addr>,
    k: int,
)
    ensures
        ({
            let config = dhcp::configured_by(reply, nameserver);
            let mask = mask_named(reply);
            &&& config.spec_address() == reply.yiaddr
            &&& config.spec_netmask() == mask
            &&& nameserver matches Some(named) ==> config.spec_nameservers()
                == config::kept_servers(seq![named])
            &&& nameserver is None ==> config.spec_nameservers() == config::kept_servers(
                reply.nameservers,
            )
            &&& 0 <= k < reply.routers.len() && config::configurable(
                reply.yiaddr,
                mask,
                Some(reply.routers[k]),
            ) && (forall|j: int|
                0 <= j < k ==> !config::configurable(
                    reply.yiaddr,
                    mask,
                    Some(#[trigger] reply.routers[j]),
                )) ==> config.spec_gateway() == Some(reply.routers[k])
            &&& (forall|j: int|
                0 <= j < reply.routers.len() ==> !config::configurable(
                    reply.yiaddr,
                    mask,
                    Some(#[trigger] reply.routers[j]),
                )) ==> config.spec_gateway() is None
        }),
{
    let mask = mask_named(reply);
    let servers = match nameserver {
        Some(server) => seq![server],
        None => reply.nameservers,
    };
    config::kept_servers_fit(servers);
    Config::of_is_made_of(
        reply.yiaddr,
        mask,
        dhcp::gateway_among(reply.routers, reply.yiaddr, mask),
        config::kept_servers(servers),
    );
    if 0 <= k < reply.routers.len() && config::configurable(
        reply.yiaddr,
        mask,
        Some(reply.routers[k]),
    ) && (forall|j: int|
        0 <= j < k ==> !config::configurable(
            reply.yiaddr,
            mask,
            Some(#[trigger] reply.routers[j]),
        )) {
        the_first_router_serves(reply.routers, reply.yiaddr, mask, k);
    }
    if forall|j: int|
        0 <= j < reply.routers.len() ==> !config::configurable(
            reply.yiaddr,
            mask,
            Some(#[trigger] reply.routers[j]),
        ) {
        no_router_serves(reply.routers, reply.yiaddr, mask);
    }
}

// ---- what a server's message does -------------------------------------------------

/// The exchange a client that has sent a REQUEST is in, with the server that
/// may answer it: the one that was asked, or anybody where everybody was.
pub open spec fn asked_of(state: State) -> Option<(Exchange, Option<Ipv4Addr>)> {
    match state {
        State::Requesting(exchange, offer) => Some((exchange, Some(offer.server))),
        State::Renewing(exchange, lease) => Some((exchange, Some(lease.server))),
        State::Rebinding(exchange, _) => Some((exchange, None)),
        _ => None,
    }
}

/// A message that answers the REQUEST a client has sent: it names the card and
/// the exchange, and comes from a server that was asked or does not say where
/// it comes from.
pub open spec fn answers(state: State, mac: Seq<u8>, reply: ReplyView) -> bool {
    &&& asked_of(state) is Some
    &&& reply.chaddr == mac
    &&& reply.xid == (asked_of(state)->0).0.xid
    &&& reply.server is None || (asked_of(state)->0).1 is None || reply.server
        == (asked_of(state)->0).1
}

/// The server an answer leaves a lease with: the one it names, and otherwise
/// the one that was asked, which for a client asking everybody is the one it
/// has its lease from.
pub open spec fn granting(state: State, reply: ReplyView) -> Ipv4Addr {
    if reply.server is Some {
        reply.server->0
    } else {
        match state {
            State::Requesting(_, offer) => offer.server,
            State::Renewing(_, lease) => lease.server,
            State::Rebinding(_, lease) => lease.server,
            _ => Ipv4Addr(0),
        }
    }
}

/// A client that asked for a lease, or for more time on one, holds it once it
/// is acknowledged: from the server that acknowledged it, for as long as that
/// server says and twenty seconds at least, counted from the first REQUEST.
/// The machine is configured with it, unless it was configured that way
/// already.
pub proof fn an_acknowledged_lease_is_held(
    state: State,
    mac: Seq<u8>,
    nameserver: Option<Ipv4Addr>,
    reply: ReplyView,
    now: u64,
    draws: Seq<u64>,
)
    requires
        state.valid(),
        now <= LAST_POLL,
        answers(state, mac, reply),
        reply.kind == 5,
        config::configurable(reply.yiaddr, mask_named(reply), None),
    ensures
        ({
            let turn = dhcp::after_reply(state, mac, nameserver, reply, now, draws);
            let start = (asked_of(state)->0).0.first_sent;
            let config = dhcp::configured_by(reply, nameserver);
            &&& turn.state matches State::Bound(lease) && {
                &&& lease.config == config
                &&& lease.server == granting(state, reply)
                &&& reply.lease_seconds matches Some(named) ==> lease.seconds == (if named < 20 {
                    20
                } else {
                    named
                })
                &&& reply.lease_seconds is None ==> lease.seconds == 3600
                &&& lease.seconds == 0xFFFF_FFFF ==> {
                    &&& lease.renew_at == u64::MAX
                    &&& lease.rebind_at == u64::MAX
                    &&& lease.expires_at == u64::MAX
                }
                &&& lease.seconds != 0xFFFF_FFFF ==> {
                    &&& lease.expires_at == start + lease.seconds * 100
                    &&& lease.rebind_at == start + t2_of(lease.seconds as int, reply) * 100
                    &&& lease.renew_at == start + t1_of(lease.seconds as int, reply) * 100
                }
            }
            &&& turn.draws == draws
            &&& turn.effects == (if state.lease() is Some && state.lease()->0.config == config {
                Seq::empty()
            } else {
                seq![EffectView::Configure(Some(config))]
            })
        }),
{
    routers_spoil_nothing(reply);
    let start = (asked_of(state)->0).0.first_sent;
    assert(start <= LAST_POLL);
}

/// When a lease of `seconds` is rebound: where the server says, if that is no
/// later than its end, and after seven eighths of it otherwise.
pub open spec fn t2_of(seconds: int, reply: ReplyView) -> int {
    if reply.rebinding_seconds is Some && reply.rebinding_seconds->0 <= seconds {
        reply.rebinding_seconds->0 as int
    } else {
        seconds * 7 / 8
    }
}

/// When a lease of `seconds` is renewed: where the server says, if that is no
/// later than when it is rebound, and otherwise after half of it or when it is
/// rebound, whichever is sooner.
pub open spec fn t1_of(seconds: int, reply: ReplyView) -> int {
    let t2 = t2_of(seconds, reply);
    if reply.renewal_seconds is Some && reply.renewal_seconds->0 <= t2 {
        reply.renewal_seconds->0 as int
    } else if seconds / 2 < t2 {
        seconds / 2
    } else {
        t2
    }
}

/// A client that is refused, or granted what it cannot use, starts over four
/// seconds later, give or take one, and gives up the address it holds.
pub proof fn a_refused_client_starts_over(
    state: State,
    mac: Seq<u8>,
    nameserver: Option<Ipv4Addr>,
    reply: ReplyView,
    now: u64,
    draws: Seq<u64>,
)
    requires
        now <= LAST_POLL,
        answers(state, mac, reply),
        reply.kind == 6 || reply.kind == 5 && !config::configurable(
            reply.yiaddr,
            mask_named(reply),
            None,
        ),
    ensures
        ({
            let turn = dhcp::after_reply(state, mac, nameserver, reply, now, draws);
            &&& turn.state matches State::Init { at } && at == now + 300 + draws[0] % 201
            &&& turn.effects == (if state is Requesting {
                Seq::empty()
            } else {
                seq![EffectView::Configure(None)]
            })
            &&& turn.draws == draws.skip(1)
        }),
{
    routers_spoil_nothing(reply);
}

/// The first offer a client can use is the one it takes: it asks the server
/// that made it for the address it offered, in the same exchange and at once.
pub proof fn an_offer_is_taken(
    exchange: Exchange,
    mac: Seq<u8>,
    nameserver: Option<Ipv4Addr>,
    reply: ReplyView,
    now: u64,
    draws: Seq<u64>,
)
    requires
        reply.chaddr == mac,
        reply.xid == exchange.xid,
        reply.kind == 2,
        reply.server is Some,
        config::configurable(reply.yiaddr, mask_named(reply), None),
    ensures
        ({
            let turn = dhcp::after_reply(
                State::Selecting(exchange),
                mac,
                nameserver,
                reply,
                now,
                draws,
            );
            &&& turn.effects == Seq::<EffectView>::empty()
            &&& turn.draws == draws
            &&& turn.state matches State::Requesting(asked, offer) && {
                &&& offer.address == reply.yiaddr
                &&& offer.server == reply.server->0
                &&& asked.xid == exchange.xid
                &&& asked.began == exchange.began
                &&& asked.first_sent == now
                &&& asked.sent == 0
                &&& asked.deadline == now
            }
        }),
{
    routers_spoil_nothing(reply);
}

/// Whatever else arrives changes nothing: a message that is not an answer to
/// what was asked, an offer that cannot be used or that comes when none was
/// asked for, and anything at all while nothing is being asked.
pub proof fn everything_else_is_ignored(
    state: State,
    mac: Seq<u8>,
    nameserver: Option<Ipv4Addr>,
    reply: ReplyView,
    now: u64,
    draws: Seq<u64>,
)
    requires
        !(answers(state, mac, reply) && (reply.kind == 5 || reply.kind == 6)),
        state matches State::Selecting(exchange) ==> !(reply.chaddr == mac && reply.xid
            == exchange.xid && reply.kind == 2 && reply.server is Some && config::configurable(
            reply.yiaddr,
            mask_named(reply),
            None,
        )),
    ensures
        ({
            let turn = dhcp::after_reply(state, mac, nameserver, reply, now, draws);
            &&& turn.state == state
            &&& turn.effects == Seq::<EffectView>::empty()
            &&& turn.draws == draws
        }),
{
    routers_spoil_nothing(reply);
}

// ---- what the client says ----------------------------------------------------------

/// What the bytes of a message of a client say, each at its place: a BOOTP
/// request from an Ethernet card, its transaction and how long it has been
/// under way, the address the client has, the card's address; and after the
/// cookie the kind of message it is, who the client is, the address it asks
/// for and the server it asks, where it names one, and what it wants to know.
#[verifier::opaque]
pub open spec fn says(message: Seq<u8>, o: Outgoing, mac: Seq<u8>) -> bool {
    let a: int = if o.requested is Some {
        258
    } else {
        252
    };
    let b: int = if o.server is Some {
        a + 6
    } else {
        a
    };
    &&& message.len() >= 300
    &&& message.len() >= b + 9
    &&& message[0] == 1 && message[1] == 1 && message[2] == 6 && message[3] == 0
    &&& bytes::be32(message, 4) == o.xid
    &&& bytes::be16(message, 8) == o.secs
    &&& bytes::be16(message, 10) == (if o.broadcast {
        0x8000int
    } else {
        0
    })
    &&& bytes::be32(message, 12) == o.ciaddr.0
    &&& forall|i: int| 16 <= i < 28 ==> #[trigger] message[i] == 0
    &&& forall|i: int| 0 <= i < 6 ==> message[28 + i] == #[trigger] mac[i]
    &&& forall|i: int| 34 <= i < 236 ==> #[trigger] message[i] == 0
    &&& message[236] == 99 && message[237] == 130 && message[238] == 83 && message[239] == 99
    &&& message[240] == 53 && message[241] == 1 && message[242] == o.kind
    &&& message[243] == 61 && message[244] == 7 && message[245] == 1
    &&& forall|i: int| 0 <= i < 6 ==> message[246 + i] == #[trigger] mac[i]
    &&& o.requested matches Some(address) ==> message[252] == 50 && message[253] == 4
        && bytes::be32(message, 254) == address.0
    &&& o.server matches Some(server) ==> message[a] == 54 && message[a + 1] == 4 && bytes::be32(
        message,
        a + 2,
    ) == server.0
    &&& message[b] == 55 && message[b + 1] == 6
    &&& message[b + 2] == 1 && message[b + 3] == 3 && message[b + 4] == 6
    &&& message[b + 5] == 51 && message[b + 6] == 58 && message[b + 7] == 59
    &&& message[b + 8] == 255
    &&& forall|i: int| b + 9 <= i < message.len() ==> #[trigger] message[i] == 0
}

/// The options of a message of the client, each at its place.
proof fn where_the_options_are(o: Outgoing, mac: Seq<u8>)
    requires
        mac.len() == 6,
    ensures
        ({
            let s = dhcp::request_options(o, mac);
            let a: int = if o.requested is Some {
                18
            } else {
                12
            };
            let b: int = if o.server is Some {
                a + 6
            } else {
                a
            };
            &&& s.len() == b + 9
            &&& s[0] == 53 && s[1] == 1 && s[2] == o.kind
            &&& s[3] == 61 && s[4] == 7 && s[5] == 1
            &&& s.subrange(6, 12) == mac
            &&& o.requested matches Some(address) ==> s[12] == 50 && s[13] == 4 && s.subrange(
                14,
                18,
            ) == address.octets()
            &&& o.server matches Some(server) ==> s[a] == 54 && s[a + 1] == 4 && s.subrange(
                a + 2,
                a + 6,
            ) == server.octets()
            &&& s[b] == 55 && s[b + 1] == 6
            &&& s[b + 2] == 1 && s[b + 3] == 3 && s[b + 4] == 6
            &&& s[b + 5] == 51 && s[b + 6] == 58 && s[b + 7] == 59
            &&& s[b + 8] == 255
        }),
{
    let s = dhcp::request_options(o, mac);
    let a: int = if o.requested is Some {
        18
    } else {
        12
    };
    assert(s.subrange(6, 12) =~= mac);
    if let Some(address) = o.requested {
        assert(s.subrange(14, 18) =~= address.octets());
    }
    if let Some(server) = o.server {
        assert(s.subrange(a + 2, a + 6) =~= server.octets());
    }
}

/// The header of a message of the client, each field at its place.
proof fn where_the_fields_are(o: Outgoing, mac: Seq<u8>)
    requires
        mac.len() == 6,
    ensures
        ({
            let s = dhcp::request_header(o, mac);
            &&& s.len() == 236
            &&& s[0] == 1 && s[1] == 1 && s[2] == 6 && s[3] == 0
            &&& s.subrange(4, 8) == bytes::be32_bytes(o.xid as int)
            &&& s.subrange(8, 10) == bytes::be16_bytes(o.secs as int)
            &&& s.subrange(10, 12) == bytes::be16_bytes(
                if o.broadcast {
                    0x8000
                } else {
                    0
                },
            )
            &&& s.subrange(12, 16) == o.ciaddr.octets()
            &&& forall|i: int| 16 <= i < 28 ==> #[trigger] s[i] == 0
            &&& s.subrange(28, 34) == mac
            &&& forall|i: int| 34 <= i < 236 ==> #[trigger] s[i] == 0
        }),
{
    let s = dhcp::request_header(o, mac);
    assert(s.subrange(4, 8) =~= bytes::be32_bytes(o.xid as int));
    assert(s.subrange(8, 10) =~= bytes::be16_bytes(o.secs as int));
    assert(s.subrange(10, 12) =~= bytes::be16_bytes(
        if o.broadcast {
            0x8000
        } else {
            0
        },
    ));
    assert(s.subrange(12, 16) =~= o.ciaddr.octets());
    assert(s.subrange(28, 34) =~= mac);
}

/// A message of the client says what it is made to say, each thing where RFC
/// 2131 has it, and is no shorter than the oldest servers take.
pub proof fn what_a_message_says(o: Outgoing, mac: Seq<u8>)
    requires
        mac.len() == 6,
    ensures
        says(dhcp::request_bytes(o, mac), o, mac),
{
    reveal(says);
    let message = dhcp::request_bytes(o, mac);
    let head = dhcp::request_header(o, mac);
    let options = dhcp::request_options(o, mac);
    let a: int = if o.requested is Some {
        258
    } else {
        252
    };
    where_the_fields_are(o, mac);
    where_the_options_are(o, mac);
    assert forall|i: int| 0 <= i < 236 implies #[trigger] message[i] == head[i] by {}
    assert forall|i: int| 0 <= i < options.len() implies message[240 + i] == #[trigger] options[i] by {}
    assert(message.subrange(4, 8) =~= head.subrange(4, 8));
    assert(message.subrange(8, 10) =~= head.subrange(8, 10));
    assert(message.subrange(10, 12) =~= head.subrange(10, 12));
    assert(message.subrange(12, 16) =~= head.subrange(12, 16));
    bytes::be32_at(message, 4, o.xid as int);
    bytes::be16_at(message, 8, o.secs as int);
    bytes::be16_at(
        message,
        10,
        if o.broadcast {
            0x8000
        } else {
            0
        },
    );
    bytes::be32_at(message, 12, o.ciaddr.0 as int);
    assert forall|i: int| 0 <= i < 6 implies message[28 + i] == #[trigger] mac[i] by {
        assert(head.subrange(28, 34)[i] == head[28 + i]);
    }
    assert forall|i: int| 0 <= i < 6 implies message[246 + i] == #[trigger] mac[i] by {
        assert(options.subrange(6, 12)[i] == options[6 + i]);
    }
    if let Some(address) = o.requested {
        assert(message.subrange(254, 258) =~= options.subrange(14, 18));
        bytes::be32_at(message, 254, address.0 as int);
    }
    if let Some(server) = o.server {
        assert(message.subrange(a + 2, a + 6) =~= options.subrange(a - 238, a - 234));
        bytes::be32_at(message, a + 2, server.0 as int);
    }
}

// ---- what the clock does ------------------------------------------------------------

/// Whole seconds from one tick to another, as far as the field that carries
/// them goes.
pub open spec fn whole_seconds(from: u64, to: u64) -> u16 {
    if to <= from {
        0
    } else if to - from >= 6553600 {
        0xFFFF
    } else {
        ((to - from) / 100) as u16
    }
}

/// One message sent to an address, and nothing else wanted.
#[verifier::opaque]
pub open spec fn one_message(
    effects: Seq<EffectView>,
    to: Ipv4Addr,
    o: Outgoing,
    mac: Seq<u8>,
) -> bool {
    &&& effects.len() == 1
    &&& effects[0] matches EffectView::Send { to: goes_to, message } && goes_to == to && says(
        message,
        o,
        mac,
    )
}

/// The wait for an answer to the message after `sent` of them: four seconds
/// after the first, twice as long after each further one as far as sixty-four,
/// and up to a second more or less.
pub open spec fn wait_for(sent: u32, draw: u64) -> int {
    let plain: int = if sent == 0 {
        400
    } else if sent == 1 {
        800
    } else if sent == 2 {
        1600
    } else if sent == 3 {
        3200
    } else {
        6400
    };
    plain - 100 + draw % 201
}

/// When an extension is asked for again: after half the time that is left, a
/// minute at least, and no later than the time runs out.
pub open spec fn half_way(now: u64, end: u64) -> int {
    let half: int = (end - now) / 2;
    let wait: int = if half < 6000 {
        6000
    } else {
        half
    };
    if now + wait < end {
        now + wait
    } else {
        end as int
    }
}

/// An exchange after one more of its messages.
pub open spec fn one_more_sent(exchange: Exchange, sent: Exchange) -> bool {
    &&& sent.xid == exchange.xid
    &&& sent.began == exchange.began
    &&& sent.first_sent == exchange.first_sent
    &&& sent.sent == (if exchange.sent == u32::MAX {
        u32::MAX as int
    } else {
        exchange.sent + 1
    })
}

/// The message that asks who has an address to give.
pub open spec fn asking_anyone(xid: u32, secs: u16) -> Outgoing {
    Outgoing {
        kind: 1,
        xid,
        secs,
        broadcast: true,
        ciaddr: Ipv4Addr(0),
        requested: None,
        server: None,
    }
}

/// The message that asks for more time, from the address the lease gives.
pub open spec fn asking_for_time(xid: u32, secs: u16, lease: Lease) -> Outgoing {
    Outgoing {
        kind: 3,
        xid,
        secs,
        broadcast: false,
        ciaddr: lease.config.spec_address(),
        requested: None,
        server: None,
    }
}

proof fn one_is_sent(to: Ipv4Addr, o: Outgoing, mac: Seq<u8>)
    requires
        mac.len() == 6,
    ensures
        one_message(seq![dhcp::sent_to(to, o, mac)], to, o, mac),
{
    reveal(one_message);
    what_a_message_says(o, mac);
}

proof fn counting_seconds(from: u64, to: u64)
    ensures
        dhcp::seconds_since(from, to) == whole_seconds(from, to),
{
}

/// Before anything is due, the clock changes nothing.
pub proof fn nothing_happens_early(state: State, mac: Seq<u8>, now: u64, draws: Seq<u64>)
    requires
        state matches State::Init { at } ==> now < at,
        state matches State::Selecting(exchange) ==> now < exchange.deadline,
        state matches State::Requesting(exchange, _) ==> now < exchange.deadline,
        state matches State::Bound(lease) ==> now < lease.renew_at,
        state matches State::Renewing(exchange, lease) ==> now < exchange.deadline && now
            < lease.rebind_at,
        state matches State::Rebinding(exchange, lease) ==> now < exchange.deadline && now
            < lease.expires_at,
    ensures
        ({
            let turn = dhcp::after_timer(state, mac, now, draws);
            turn.state == state && turn.effects == Seq::<EffectView>::empty() && turn.draws
                == draws
        }),
{
}

proof fn beginning(at: u64, mac: Seq<u8>, now: u64, draws: Seq<u64>, passes: nat)
    requires
        mac.len() == 6,
        at <= now <= LAST_POLL,
        passes >= 2,
    ensures
        ({
            let turn = dhcp::after_passes(State::Init { at }, mac, now, draws, passes);
            let xid = (draws[0] % 0x1_0000_0000) as u32;
            &&& one_message(turn.effects, Ipv4Addr(0xFFFF_FFFF), asking_anyone(xid, 0), mac)
            &&& turn.state matches State::Selecting(exchange) && {
                &&& exchange.xid == xid
                &&& exchange.began == now
                &&& exchange.sent == 1
                &&& exchange.deadline == now + wait_for(0, draws.skip(1)[0])
            }
            &&& turn.draws == draws.skip(1).skip(1)
        }),
{
    reveal_with_fuel(dhcp::after_passes, 3);
    let xid = (draws[0] % 0x1_0000_0000) as u32;
    one_is_sent(Ipv4Addr(0xFFFF_FFFF), asking_anyone(xid, 0), mac);
    let fresh = dhcp::begun(now, draws[0]);
    let sent = dhcp::sent_to(Ipv4Addr(0xFFFF_FFFF), dhcp::discover(fresh, now), mac);
    assert(dhcp::discover(fresh, now) == asking_anyone(xid, 0));
    assert(Seq::<EffectView>::empty() + seq![sent] =~= seq![sent]);
}

/// A client with nothing held and nothing asked asks everybody, once it is
/// time to, in an exchange of its own.
pub proof fn a_client_begins_by_asking(at: u64, mac: Seq<u8>, now: u64, draws: Seq<u64>)
    requires
        mac.len() == 6,
        at <= now <= LAST_POLL,
    ensures
        ({
            let turn = dhcp::after_timer(State::Init { at }, mac, now, draws);
            let xid = (draws[0] % 0x1_0000_0000) as u32;
            &&& one_message(turn.effects, Ipv4Addr(0xFFFF_FFFF), asking_anyone(xid, 0), mac)
            &&& turn.state matches State::Selecting(exchange) && {
                &&& exchange.xid == xid
                &&& exchange.began == now
                &&& exchange.sent == 1
                &&& exchange.deadline == now + wait_for(0, draws.skip(1)[0])
            }
            &&& turn.draws == draws.skip(1).skip(1)
        }),
{
    beginning(at, mac, now, draws, 8);
}

/// A client that has had no offer asks everybody again, in the same exchange,
/// and waits longer than it did.
pub proof fn a_discover_is_repeated(
    exchange: Exchange,
    mac: Seq<u8>,
    now: u64,
    draws: Seq<u64>,
)
    requires
        mac.len() == 6,
        exchange.deadline <= now <= LAST_POLL,
    ensures
        ({
            let turn = dhcp::after_timer(State::Selecting(exchange), mac, now, draws);
            let secs = whole_seconds(exchange.began, now);
            &&& one_message(
                turn.effects,
                Ipv4Addr(0xFFFF_FFFF),
                asking_anyone(exchange.xid, secs),
                mac,
            )
            &&& turn.state matches State::Selecting(sent) && one_more_sent(exchange, sent)
                && sent.deadline == now + wait_for(exchange.sent, draws[0])
            &&& turn.draws == draws.skip(1)
        }),
{
    let secs = whole_seconds(exchange.began, now);
    counting_seconds(exchange.began, now);
    one_is_sent(Ipv4Addr(0xFFFF_FFFF), asking_anyone(exchange.xid, secs), mac);
    assert(dhcp::discover(exchange, now) == asking_anyone(exchange.xid, secs));
}

/// A client that has taken an offer asks for it up to four times, telling
/// everybody whose it is, and then starts over with a new exchange.
pub proof fn an_offer_is_asked_for_four_times(
    exchange: Exchange,
    offer: dhcp::Offer,
    mac: Seq<u8>,
    now: u64,
    draws: Seq<u64>,
)
    requires
        mac.len() == 6,
        exchange.deadline <= now <= LAST_POLL,
    ensures
        ({
            let turn = dhcp::after_timer(State::Requesting(exchange, offer), mac, now, draws);
            let secs = whole_seconds(exchange.began, now);
            let xid = (draws[0] % 0x1_0000_0000) as u32;
            &&& exchange.sent < 4 ==> {
                &&& one_message(
                    turn.effects,
                    Ipv4Addr(0xFFFF_FFFF),
                    (Outgoing {
                        kind: 3,
                        xid: exchange.xid,
                        secs,
                        broadcast: true,
                        ciaddr: Ipv4Addr(0),
                        requested: Some(offer.address),
                        server: Some(offer.server),
                    }),
                    mac,
                )
                &&& turn.state matches State::Requesting(sent, still) && still == offer
                    && one_more_sent(exchange, sent) && sent.deadline == now + wait_for(
                    exchange.sent,
                    draws[0],
                )
                &&& turn.draws == draws.skip(1)
            }
            &&& exchange.sent >= 4 ==> {
                &&& one_message(turn.effects, Ipv4Addr(0xFFFF_FFFF), asking_anyone(xid, 0), mac)
                &&& turn.state matches State::Selecting(fresh) && fresh.xid == xid && fresh.sent
                    == 1
            }
        }),
{
    let secs = whole_seconds(exchange.began, now);
    if exchange.sent < 4 {
        counting_seconds(exchange.began, now);
        one_is_sent(Ipv4Addr(0xFFFF_FFFF), dhcp::request_for(exchange, offer, now), mac);
    } else {
        beginning(now, mac, now, draws, 7);
        let rest = dhcp::after_passes(State::Init { at: now }, mac, now, draws, 7);
        assert(Seq::<EffectView>::empty() + rest.effects =~= rest.effects);
    }
}

/// A lease is renewed with the server it is from, once it is time to and until
/// it is time to rebind it: the client goes on holding it, and asks that
/// server alone, from the address it holds.
pub proof fn a_lease_is_renewed_with_its_server(
    state: State,
    mac: Seq<u8>,
    now: u64,
    draws: Seq<u64>,
)
    requires
        mac.len() == 6,
        now <= LAST_POLL,
        state is Bound || state is Renewing,
        state.lease()->0.renew_at <= now < state.lease()->0.rebind_at,
        state matches State::Renewing(exchange, _) ==> exchange.deadline <= now,
    ensures
        ({
            let turn = dhcp::after_timer(state, mac, now, draws);
            let lease = state.lease()->0;
            let exchange = exchange_now(state, now, draws[0]);
            &&& one_message(
                turn.effects,
                lease.server,
                asking_for_time(exchange.xid, whole_seconds(exchange.began, now), lease),
                mac,
            )
            &&& turn.state matches State::Renewing(sent, held) && {
                &&& held == lease
                &&& one_more_sent(exchange, sent)
                &&& sent.deadline == half_way(now, lease.rebind_at)
            }
        }),
{
    reveal_with_fuel(dhcp::after_passes, 3);
    let lease = state.lease()->0;
    let exchange = exchange_now(state, now, draws[0]);
    counting_seconds(exchange.began, now);
    let message = asking_for_time(exchange.xid, whole_seconds(exchange.began, now), lease);
    one_is_sent(lease.server, message, mac);
    assert(dhcp::extension(exchange, lease, now) == message);
    let sent = dhcp::sent_to(lease.server, message, mac);
    assert(Seq::<EffectView>::empty() + seq![sent] =~= seq![sent]);
}

/// A lease that could not be renewed is rebound with anybody, until it runs
/// out: the client goes on holding it, and asks everybody, from the address it
/// holds.
pub proof fn a_lease_is_rebound_with_anybody(
    state: State,
    mac: Seq<u8>,
    now: u64,
    draws: Seq<u64>,
)
    requires
        mac.len() == 6,
        now <= LAST_POLL,
        state is Renewing || state is Rebinding,
        state.lease()->0.rebind_at <= now < state.lease()->0.expires_at,
        state matches State::Rebinding(exchange, _) ==> exchange.deadline <= now,
    ensures
        ({
            let turn = dhcp::after_timer(state, mac, now, draws);
            let lease = state.lease()->0;
            let exchange = if state is Rebinding {
                exchange_now(state, now, draws[0])
            } else {
                exchange_now(State::Bound(lease), now, draws[0])
            };
            &&& one_message(
                turn.effects,
                Ipv4Addr(0xFFFF_FFFF),
                asking_for_time(exchange.xid, whole_seconds(exchange.began, now), lease),
                mac,
            )
            &&& turn.state matches State::Rebinding(sent, held) && {
                &&& held == lease
                &&& one_more_sent(exchange, sent)
                &&& sent.deadline == half_way(now, lease.expires_at)
            }
        }),
{
    reveal_with_fuel(dhcp::after_passes, 3);
    let lease = state.lease()->0;
    let exchange = if state is Rebinding {
        exchange_now(state, now, draws[0])
    } else {
        exchange_now(State::Bound(lease), now, draws[0])
    };
    counting_seconds(exchange.began, now);
    let message = asking_for_time(exchange.xid, whole_seconds(exchange.began, now), lease);
    one_is_sent(Ipv4Addr(0xFFFF_FFFF), message, mac);
    assert(dhcp::extension(exchange, lease, now) == message);
    let sent = dhcp::sent_to(Ipv4Addr(0xFFFF_FFFF), message, mac);
    assert(Seq::<EffectView>::empty() + seq![sent] =~= seq![sent]);
}

/// The exchange a client is in, and otherwise one that begins now.
pub open spec fn exchange_now(state: State, now: u64, draw: u64) -> Exchange {
    match state {
        State::Renewing(exchange, _) => exchange,
        State::Rebinding(exchange, _) => exchange,
        _ => Exchange {
            xid: (draw % 0x1_0000_0000) as u32,
            began: now,
            first_sent: now,
            sent: 0,
            deadline: now,
        },
    }
}

/// A lease that has run out is given up, and the client then asks everybody
/// for another in an exchange of its own.
pub proof fn a_lease_that_has_run_out_is_given_up(
    exchange: Exchange,
    lease: Lease,
    mac: Seq<u8>,
    now: u64,
    draws: Seq<u64>,
)
    requires
        mac.len() == 6,
        lease.expires_at <= now <= LAST_POLL,
    ensures
        ({
            let turn = dhcp::after_timer(State::Rebinding(exchange, lease), mac, now, draws);
            let xid = (draws[0] % 0x1_0000_0000) as u32;
            &&& turn.effects.len() == 2
            &&& turn.effects[0] == EffectView::Configure(None)
            &&& one_message(
                turn.effects.skip(1),
                Ipv4Addr(0xFFFF_FFFF),
                asking_anyone(xid, 0),
                mac,
            )
            &&& turn.state matches State::Selecting(fresh) && fresh.xid == xid && fresh.sent == 1
        }),
{
    beginning(now, mac, now, draws, 7);
    let rest = dhcp::after_passes(State::Init { at: now }, mac, now, draws, 7);
    let effects = dhcp::after_timer(State::Rebinding(exchange, lease), mac, now, draws).effects;
    assert(effects == seq![EffectView::Configure(None)] + rest.effects);
    assert(effects.skip(1) =~= rest.effects);
    reveal(one_message);
}

// ---- reading options ----------------------------------------------------------------

/// An option written out: its code, its length and its value.
pub open spec fn written(code: u8, value: Seq<u8>) -> Seq<u8> {
    seq![code, value.len() as u8] + value
}

/// An option at the front of an area is read, and whatever follows it is read
/// after it. A value that is there already is added to.
pub proof fn an_option_is_read_back(
    code: u8,
    value: Seq<u8>,
    rest: Seq<u8>,
    so_far: Map<u8, Seq<u8>>,
)
    requires
        code != 0,
        code != 255,
        value.len() < 256,
    ensures
        dhcp::options_in(written(code, value) + rest, so_far) == dhcp::options_in(
            rest,
            so_far.insert(
                code,
                if so_far.contains_key(code) {
                    so_far[code] + value
                } else {
                    value
                },
            ),
        ),
{
    let area = written(code, value) + rest;
    assert(area.subrange(2, 2 + area[1]) =~= value);
    assert(area.skip(2 + area[1]) =~= rest);
}

/// Padding is passed over, an end is where reading stops whatever follows it,
/// and an option that says it is longer than what is left cannot be read.
pub proof fn where_reading_stops(rest: Seq<u8>, so_far: Map<u8, Seq<u8>>)
    ensures
        dhcp::options_in(Seq::empty(), so_far) == Some(so_far),
        dhcp::options_in(seq![255u8] + rest, so_far) == Some(so_far),
        dhcp::options_in(seq![0u8] + rest, so_far) == dhcp::options_in(rest, so_far),
        rest.len() == 1 && rest[0] != 0 && rest[0] != 255 ==> dhcp::options_in(rest, so_far) is None,
        rest.len() >= 2 && rest[0] != 0 && rest[0] != 255 && rest[1] > rest.len() - 2
            ==> dhcp::options_in(rest, so_far) is None,
{
    assert((seq![0u8] + rest).skip(1) =~= rest);
}

/// The fields option 52 says hold options are read after the options proper:
/// the boot file for one, the server's name for two, and for three the boot
/// file and then the server's name. Any other value of it cannot be read.
pub proof fn where_options_are_read(message: Seq<u8>, first: Map<u8, Seq<u8>>)
    requires
        message.len() >= 240,
        dhcp::options_in(message.skip(240), Map::empty()) == Some(first),
    ensures
        ({
            let all = dhcp::options_of(message);
            let file = message.subrange(108, 236);
            let sname = message.subrange(44, 108);
            &&& !first.contains_key(52) ==> all == Some(first)
            &&& first.contains_key(52) && first[52] == seq![1u8] ==> all == dhcp::options_in(
                file,
                first,
            )
            &&& first.contains_key(52) && first[52] == seq![2u8] ==> all == dhcp::options_in(
                sname,
                first,
            )
            &&& first.contains_key(52) && first[52] == seq![3u8] ==> all == (
            match dhcp::options_in(file, first) {
                Some(second) => dhcp::options_in(sname, second),
                None => None,
            })
            &&& first.contains_key(52) && first[52] != seq![1u8] && first[52] != seq![2u8]
                && first[52] != seq![3u8] ==> all is None
        }),
{
    if first.contains_key(52) && first[52].len() == 1 {
        assert(first[52] =~= seq![first[52][0]]);
    }
}

/// A server's message gives back what was written into it: the transaction,
/// the card and the address where the header has them, and each option it
/// carries as the number, the address or the addresses its bytes are.
pub proof fn what_is_read_out_of_a_message(message: Seq<u8>, i: int)
    requires
        dhcp::is_reply(message),
    ensures
        ({
            let reply = dhcp::reply_of(message);
            let options = dhcp::options_of(message)->0;
            &&& message.len() >= 240
            &&& message[0] == 2 && message[1] == 1 && message[2] == 6
            &&& message[236] == 99 && message[237] == 130 && message[238] == 83 && message[239]
                == 99
            &&& reply.xid == bytes::be32(message, 4)
            &&& reply.yiaddr.0 == bytes::be32(message, 16)
            &&& reply.chaddr.len() == 6
            &&& 0 <= i < 6 ==> reply.chaddr[i] == message[28 + i]
            &&& options.contains_key(53) && options[53] == seq![reply.kind]
            &&& (reply.server is Some) == options.contains_key(54)
            &&& options.contains_key(54) ==> options[54] == reply.server->0.octets()
            &&& (reply.netmask is Some) == options.contains_key(1)
            &&& options.contains_key(1) ==> options[1] == reply.netmask->0.octets()
            &&& (reply.lease_seconds is Some) == options.contains_key(51)
            &&& options.contains_key(51) ==> options[51] == bytes::be32_bytes(
                reply.lease_seconds->0 as int,
            )
            &&& (reply.renewal_seconds is Some) == options.contains_key(58)
            &&& options.contains_key(58) ==> options[58] == bytes::be32_bytes(
                reply.renewal_seconds->0 as int,
            )
            &&& (reply.rebinding_seconds is Some) == options.contains_key(59)
            &&& options.contains_key(59) ==> options[59] == bytes::be32_bytes(
                reply.rebinding_seconds->0 as int,
            )
            &&& reply.routers.len() * 4 == (if options.contains_key(3) {
                options[3].len()
            } else {
                0
            })
            &&& 0 <= i < reply.routers.len() ==> reply.routers[i].octets() == options[3].subrange(
                4 * i,
                4 * i + 4,
            )
            &&& reply.nameservers.len() * 4 == (if options.contains_key(6) {
                options[6].len()
            } else {
                0
            })
            &&& 0 <= i < reply.nameservers.len() ==> reply.nameservers[i].octets()
                == options[6].subrange(4 * i, 4 * i + 4)
        }),
{
    let reply = dhcp::reply_of(message);
    let options = dhcp::options_of(message)->0;
    let cookie = message.subrange(236, 240);
    assert(cookie[0] == message[236] && cookie[1] == message[237] && cookie[2] == message[238]
        && cookie[3] == message[239]);
    assert(options[53] =~= seq![reply.kind]);
    four_bytes(message, 4);
    four_bytes(message, 16);
    if options.contains_key(54) {
        four_bytes(options[54], 0);
        assert(options[54].subrange(0, 4) =~= options[54]);
    }
    if options.contains_key(1) {
        four_bytes(options[1], 0);
        assert(options[1].subrange(0, 4) =~= options[1]);
    }
    if options.contains_key(51) {
        four_bytes(options[51], 0);
        assert(options[51].subrange(0, 4) =~= options[51]);
    }
    if options.contains_key(58) {
        four_bytes(options[58], 0);
        assert(options[58].subrange(0, 4) =~= options[58]);
    }
    if options.contains_key(59) {
        four_bytes(options[59], 0);
        assert(options[59].subrange(0, 4) =~= options[59]);
    }
    if 0 <= i < reply.routers.len() {
        four_bytes(options[3], 4 * i);
    }
    if 0 <= i < reply.nameservers.len() {
        four_bytes(options[6], 4 * i);
    }
}

/// Four bytes are the number they are read as.
proof fn four_bytes(s: Seq<u8>, at: int)
    requires
        0 <= at,
        at + 4 <= s.len(),
    ensures
        0 <= bytes::be32(s, at) < 0x1_0000_0000,
        bytes::be32_bytes(bytes::be32(s, at)) == s.subrange(at, at + 4),
{
    bytes::be32_digits(s[at], s[at + 1], s[at + 2], s[at + 3]);
    assert(s.subrange(at, at + 4) =~= seq![s[at], s[at + 1], s[at + 2], s[at + 3]]);
}

} // verus!
