//! What holds of the DHCP client, whatever servers send it and whatever the
//! clock says.

use crate::net::config::Config;
use crate::net::dhcp::{
    self, EffectView, Exchange, Outgoing, ReplyView, State, Turn, HZ, LAST_POLL, TIMER_PASSES,
};
use crate::net::ip::Ipv4Addr;
use vstd::prelude::*;

verus! {

/// The machine's configuration once effects have been carried out in order.
pub open spec fn carried_out(before: Option<Config>, effects: Seq<EffectView>) -> Option<Config>
    decreases effects.len(),
{
    if effects.len() == 0 {
        before
    } else {
        match effects.last() {
            EffectView::Configure(config) => config,
            EffectView::Send { .. } => carried_out(before, effects.drop_last()),
        }
    }
}

proof fn carried_out_one(before: Option<Config>, effect: EffectView)
    ensures
        carried_out(before, seq![effect]) == (match effect {
            EffectView::Configure(config) => config,
            EffectView::Send { .. } => before,
        }),
{
    assert(seq![effect].drop_last() =~= Seq::empty());
    assert(carried_out(before, seq![effect].drop_last()) == before);
}

proof fn carried_out_in_turn(before: Option<Config>, a: Seq<EffectView>, b: Seq<EffectView>)
    ensures
        carried_out(before, a + b) == carried_out(carried_out(before, a), b),
    decreases b.len(),
{
    if b.len() == 0 {
        assert(a + b =~= a);
    } else {
        assert((a + b).drop_last() =~= a + b.drop_last());
        assert((a + b).last() == b.last());
        carried_out_in_turn(before, a, b.drop_last());
    }
}

/// The machine's configuration is always the one the lease gives: a message
/// from a server changes both or neither.
pub proof fn a_reply_keeps_the_configuration_with_the_lease(
    state: State,
    mac: Seq<u8>,
    nameserver: Option<Ipv4Addr>,
    reply: ReplyView,
    now: u64,
    draws: Seq<u64>,
)
    ensures
        ({
            let turn = dhcp::after_reply(state, mac, nameserver, reply, now, draws);
            carried_out(state.held(), turn.effects) == turn.state.held()
        }),
{
    let turn = dhcp::after_reply(state, mac, nameserver, reply, now, draws);
    if turn.effects.len() == 1 {
        carried_out_one(state.held(), turn.effects[0]);
        assert(turn.effects =~= seq![turn.effects[0]]);
    }
}

proof fn a_pass_keeps_the_configuration(state: State, mac: Seq<u8>, now: u64, draws: Seq<u64>)
    ensures
        ({
            let turn = dhcp::timer_pass(state, mac, now, draws).0;
            carried_out(state.held(), turn.effects) == turn.state.held()
        }),
{
    let turn = dhcp::timer_pass(state, mac, now, draws).0;
    if turn.effects.len() == 1 {
        carried_out_one(state.held(), turn.effects[0]);
        assert(turn.effects =~= seq![turn.effects[0]]);
    }
}

proof fn passes_keep_the_configuration(
    state: State,
    mac: Seq<u8>,
    now: u64,
    draws: Seq<u64>,
    passes: nat,
)
    ensures
        ({
            let turn = dhcp::after_passes(state, mac, now, draws, passes);
            carried_out(state.held(), turn.effects) == turn.state.held()
        }),
    decreases passes,
{
    if passes > 0 {
        let (turn, more) = dhcp::timer_pass(state, mac, now, draws);
        a_pass_keeps_the_configuration(state, mac, now, draws);
        if more {
            let rest = dhcp::after_passes(turn.state, mac, now, turn.draws, (passes - 1) as nat);
            passes_keep_the_configuration(turn.state, mac, now, turn.draws, (passes - 1) as nat);
            carried_out_in_turn(state.held(), turn.effects, rest.effects);
        }
    }
}

/// The machine's configuration is always the one the lease gives: the clock
/// takes both away together.
pub proof fn the_clock_keeps_the_configuration_with_the_lease(
    state: State,
    mac: Seq<u8>,
    now: u64,
    draws: Seq<u64>,
)
    ensures
        ({
            let turn = dhcp::after_timer(state, mac, now, draws);
            carried_out(state.held(), turn.effects) == turn.state.held()
        }),
{
    passes_keep_the_configuration(state, mac, now, draws, TIMER_PASSES as nat);
}

/// A message for another card, or in another exchange, changes nothing.
pub proof fn a_reply_for_somebody_else_is_ignored(
    state: State,
    mac: Seq<u8>,
    nameserver: Option<Ipv4Addr>,
    reply: ReplyView,
    now: u64,
    draws: Seq<u64>,
)
    requires
        reply.chaddr != mac || exchange_of(state) is None || exchange_of(state)->0.xid != reply.xid,
    ensures
        dhcp::after_reply(state, mac, nameserver, reply, now, draws) == (Turn {
            state,
            effects: Seq::empty(),
            draws,
        }),
{
}

/// The exchange under way, if one is.
pub open spec fn exchange_of(state: State) -> Option<Exchange> {
    match state {
        State::Selecting(exchange) => Some(exchange),
        State::Requesting(exchange, _) => Some(exchange),
        State::Renewing(exchange, _) => Some(exchange),
        State::Rebinding(exchange, _) => Some(exchange),
        _ => None,
    }
}

/// A DISCOVER, or a REQUEST of a client that holds nothing: it goes to
/// everyone, from no address, and asks to be answered the same way.
#[verifier::opaque]
pub open spec fn from_nobody(effect: EffectView, mac: Seq<u8>) -> bool {
    exists|message: Outgoing|
        #![trigger dhcp::sent_to(Ipv4Addr(0xFFFF_FFFF), message, mac)]
        effect == dhcp::sent_to(Ipv4Addr(0xFFFF_FFFF), message, mac) && message.broadcast
            && message.ciaddr == Ipv4Addr(0)
}

proof fn passes_without_a_lease(
    state: State,
    mac: Seq<u8>,
    now: u64,
    draws: Seq<u64>,
    passes: nat,
    i: int,
)
    requires
        state.lease() is None,
        0 <= i < dhcp::after_passes(state, mac, now, draws, passes).effects.len(),
    ensures
        from_nobody(dhcp::after_passes(state, mac, now, draws, passes).effects[i], mac),
    decreases passes,
{
    let (turn, more) = dhcp::timer_pass(state, mac, now, draws);
    if more {
        assert(turn.effects =~= Seq::empty());
        let rest = dhcp::after_passes(turn.state, mac, now, turn.draws, (passes - 1) as nat);
        assert(turn.effects + rest.effects =~= rest.effects);
        passes_without_a_lease(turn.state, mac, now, turn.draws, (passes - 1) as nat, i);
    } else {
        reveal(from_nobody);
        match state {
            State::Selecting(exchange) => {
                assert(dhcp::discover(exchange, now).broadcast);
            },
            State::Requesting(exchange, offer) => {
                assert(dhcp::request_for(exchange, offer, now).broadcast);
            },
            _ => {},
        }
    }
}

/// While no lease is held, everything sent goes to everyone, from no address,
/// with the broadcast flag set.
pub proof fn without_a_lease_everything_is_broadcast(
    state: State,
    mac: Seq<u8>,
    now: u64,
    draws: Seq<u64>,
    i: int,
)
    requires
        state.lease() is None,
        0 <= i < dhcp::after_timer(state, mac, now, draws).effects.len(),
    ensures
        from_nobody(dhcp::after_timer(state, mac, now, draws).effects[i], mac),
{
    passes_without_a_lease(state, mac, now, draws, TIMER_PASSES as nat, i);
}

/// Giving an address up, and then a message from no address.
pub open spec fn gives_up_and_asks_again(effects: Seq<EffectView>, mac: Seq<u8>) -> bool {
    &&& effects.len() == 2
    &&& effects[0] == EffectView::Configure(None)
    &&& from_nobody(effects[1], mac)
}

/// How many looks at the clock a state can need.
spec fn passes_left(state: State) -> nat {
    match state {
        State::Selecting(_) => 1,
        State::Init { .. } => 2,
        State::Requesting(_, _) => 3,
        State::Rebinding(_, _) => 3,
        State::Renewing(_, _) => 4,
        State::Bound(_) => 5,
    }
}

proof fn starting_over_asks(mac: Seq<u8>, now: u64, draws: Seq<u64>, passes: nat)
    requires
        passes >= 2,
    ensures
        ({
            let effects = dhcp::after_passes(State::Init { at: now }, mac, now, draws, passes)
                .effects;
            effects.len() == 1 && from_nobody(effects[0], mac)
        }),
{
    let fresh = dhcp::begun(now, draws[0]);
    let message = dhcp::discover(fresh, now);
    let second = dhcp::after_passes(
        State::Selecting(fresh),
        mac,
        now,
        draws.skip(1),
        (passes - 1) as nat,
    );
    assert(second.effects =~= seq![dhcp::sent_to(Ipv4Addr(0xFFFF_FFFF), message, mac)]);
    assert(message.broadcast && message.ciaddr == Ipv4Addr(0));
    reveal(from_nobody);
    let first = dhcp::after_passes(State::Init { at: now }, mac, now, draws, passes);
    assert(first.effects =~= second.effects);
}

/// A lease runs in order: it is renewed no sooner than it begins, rebound no
/// sooner than it is renewed, and ends no sooner than it is rebound. It lasts
/// as long as the server said and no less than the least there is, or an hour
/// where the server did not say. The server's own times are taken where they
/// are in order, and one that never ends is never renewed either.
pub proof fn a_lease_runs_in_order(
    config: Config,
    server: Ipv4Addr,
    reply: ReplyView,
    start: u64,
)
    requires
        start <= LAST_POLL,
    ensures
        ({
            let lease = dhcp::granted(config, server, reply, start);
            &&& start <= lease.renew_at <= lease.rebind_at <= lease.expires_at
            &&& lease.config == config && lease.server == server
            &&& lease.seconds >= 20
            &&& reply.lease_seconds matches Some(named) ==> lease.seconds == (if named < 20 {
                20
            } else {
                named
            })
            &&& reply.lease_seconds is None ==> lease.seconds == 3600
            &&& lease.seconds == u32::MAX ==> lease.renew_at == u64::MAX && lease.rebind_at
                == u64::MAX && lease.expires_at == u64::MAX
            &&& lease.seconds != u32::MAX ==> {
                &&& lease.expires_at == start + lease.seconds * HZ
                &&& lease.rebind_at == start + dhcp::rebinding_time(reply) * HZ
                &&& lease.renew_at == start + dhcp::renewal_time(reply) * HZ
                &&& reply.rebinding_seconds matches Some(t2) ==> t2 <= lease.seconds
                    ==> lease.rebind_at == start + t2 * HZ
                &&& reply.renewal_seconds matches Some(t1) ==> t1 <= dhcp::rebinding_time(reply)
                    ==> lease.renew_at == start + t1 * HZ
                &&& reply.rebinding_seconds is None ==> lease.rebind_at == start + lease.seconds * 7
                    / 8 * HZ
                &&& reply.rebinding_seconds is None && reply.renewal_seconds is None
                    ==> lease.renew_at == start + lease.seconds / 2 * HZ
            }
        }),
{
}

proof fn pass_after_the_end(state: State, mac: Seq<u8>, now: u64, draws: Seq<u64>)
    requires
        state.valid(),
        now <= LAST_POLL,
        state.lease() is Some,
        now >= state.lease()->0.expires_at,
    ensures
        ({
            let (turn, more) = dhcp::timer_pass(state, mac, now, draws);
            &&& more
            &&& state is Rebinding ==> {
                &&& turn.state == State::Init { at: now }
                &&& turn.effects == seq![EffectView::Configure(None)]
                &&& turn.draws == draws
            }
            &&& !(state is Rebinding) ==> {
                &&& turn.state.valid()
                &&& turn.state.lease() == state.lease()
                &&& passes_left(turn.state) < passes_left(state)
                &&& turn.effects == Seq::<EffectView>::empty()
            }
        }),
{
}

proof fn passes_after_the_end(
    state: State,
    mac: Seq<u8>,
    now: u64,
    draws: Seq<u64>,
    passes: nat,
)
    requires
        state.valid(),
        now <= LAST_POLL,
        state.lease() is Some,
        now >= state.lease()->0.expires_at,
        passes >= passes_left(state),
    ensures
        gives_up_and_asks_again(dhcp::after_passes(state, mac, now, draws, passes).effects, mac),
    decreases passes,
{
    let (turn, more) = dhcp::timer_pass(state, mac, now, draws);
    let rest = dhcp::after_passes(turn.state, mac, now, turn.draws, (passes - 1) as nat);
    let whole = dhcp::after_passes(state, mac, now, draws, passes);
    pass_after_the_end(state, mac, now, draws);
    assert(whole.effects == turn.effects + rest.effects);
    if state is Rebinding {
        starting_over_asks(mac, now, draws, (passes - 1) as nat);
        assert(whole.effects[1] == rest.effects[0]);
    } else {
        passes_after_the_end(turn.state, mac, now, turn.draws, (passes - 1) as nat);
        assert(whole.effects =~= rest.effects);
    }
}

/// A lease that has run out is given up before the DISCOVER that follows it is
/// sent, so that DISCOVER leaves from no address, however long ago the lease
/// ran out.
pub proof fn a_lease_is_given_up_before_the_discover(
    state: State,
    mac: Seq<u8>,
    now: u64,
    draws: Seq<u64>,
)
    requires
        state.valid(),
        now <= LAST_POLL,
        state.lease() is Some,
        now >= state.lease()->0.expires_at,
    ensures
        gives_up_and_asks_again(dhcp::after_timer(state, mac, now, draws).effects, mac),
{
    passes_after_the_end(state, mac, now, draws, TIMER_PASSES as nat);
}

proof fn enough_passes(state: State, mac: Seq<u8>, now: u64, draws: Seq<u64>, passes: nat)
    requires
        state.valid(),
        now <= LAST_POLL,
        passes >= passes_left(state),
    ensures
        dhcp::after_passes(state, mac, now, draws, passes).state.deadline() > now,
    decreases passes,
{
    let (turn, more) = dhcp::timer_pass(state, mac, now, draws);
    if more {
        assert(passes_left(turn.state) < passes_left(state));
        enough_passes(turn.state, mac, now, turn.draws, (passes - 1) as nat);
    } else {
        match state {
            State::Bound(lease) => {},
            State::Renewing(exchange, lease) => {},
            State::Rebinding(exchange, lease) => {},
            _ => {},
        }
    }
}

/// Once the clock has been looked at, nothing is due any more: the next thing
/// to do lies ahead, however long the clock was not looked at.
pub proof fn nothing_is_left_due(state: State, mac: Seq<u8>, now: u64, draws: Seq<u64>)
    requires
        state.valid(),
        now <= LAST_POLL,
    ensures
        dhcp::after_timer(state, mac, now, draws).state.deadline() > now,
{
    enough_passes(state, mac, now, draws, TIMER_PASSES as nat);
}

} // verus!
