//! Which socket a packet belongs to, which port a socket gets, and what the
//! calls on a socket come to.

use crate::errno::Errno;
use crate::net::config::Config;
use crate::net::ip::Ipv4Addr;
use crate::net::socket::{self, Endpoint, ProtocolView, SocketView, SocketsView};
use crate::net::stack::NetView;
use crate::net::tcp::{self, TcbView};
use crate::net::udp::UdpView;
use vstd::prelude::*;

verus! {

// ---- whose packet it is -------------------------------------------------------------

proof fn the_first(table: Seq<usize>, condition: spec_fn(usize) -> bool, k: int)
    requires
        0 <= k < table.len(),
        condition(table[k]),
        forall|j: int| 0 <= j < k ==> !condition(#[trigger] table[j]),
    ensures
        socket::first(table, condition) == Some(table[k]),
    decreases table.len(),
{
    if k > 0 {
        let rest = table.skip(1);
        assert(!condition(table[0]));
        assert(rest[k - 1] == table[k]);
        assert forall|j: int| 0 <= j < k - 1 implies !condition(#[trigger] rest[j]) by {
            assert(rest[j] == table[j + 1]);
        }
        the_first(rest, condition, k - 1);
    }
}

proof fn not_one(table: Seq<usize>, condition: spec_fn(usize) -> bool)
    requires
        forall|j: int| 0 <= j < table.len() ==> !condition(#[trigger] table[j]),
    ensures
        socket::first(table, condition) is None,
    decreases table.len(),
{
    if table.len() > 0 {
        let rest = table.skip(1);
        assert(!condition(table[0]));
        assert forall|j: int| 0 <= j < rest.len() implies !condition(#[trigger] rest[j]) by {
            assert(rest[j] == table[j + 1]);
        }
        not_one(rest, condition);
    }
}

/// An end that covers another: the same port, at the same address or at any.
pub open spec fn covers(bound: Endpoint, local: Endpoint) -> bool {
    bound.port == local.port && (bound.address.0 == 0 || bound.address == local.address)
}

/// A connection, open or on its way, between two ends.
pub open spec fn is_between(s: SocketView, local: Endpoint, remote: Endpoint) -> bool {
    s.inner matches ProtocolView::Tcp(t) && !(t.state is Closed) && !(t.state is Listen)
        && t.remote == remote && covers(t.local, local)
}

/// A listener at an end.
pub open spec fn waits_at(s: SocketView, local: Endpoint) -> bool {
    s.inner matches ProtocolView::Tcp(t) && t.state is Listen && covers(t.local, local)
}

/// A datagram socket at an end that hears from `peer`, or from anybody where
/// that is nobody in particular.
pub open spec fn hears(s: SocketView, local: Endpoint, peer: Option<Endpoint>) -> bool {
    s.inner matches ProtocolView::Udp(u) && u.bound && covers(u.local, local) && u.remote == peer
}

/// A segment belongs to the connection between its two ends, and to none where
/// there is no such connection: not to one of another sender, nor to one at
/// another port, nor to one that is over.
pub proof fn a_segment_belongs_to_its_connection(
    sockets: SocketsView,
    local: Endpoint,
    remote: Endpoint,
    k: int,
)
    ensures
        (forall|j: int|
            0 <= j < sockets.table.len() ==> !is_between(
                sockets.at(#[trigger] sockets.table[j]),
                local,
                remote,
            )) ==> sockets.conversation(local, remote) is None,
        0 <= k < sockets.table.len() && is_between(sockets.at(sockets.table[k]), local, remote) && (
        forall|j: int|
            0 <= j < k ==> !is_between(sockets.at(#[trigger] sockets.table[j]), local, remote))
            ==> sockets.conversation(local, remote) == Some(sockets.table[k]),
{
    let condition = |id: usize| sockets.at(id).converses(local, remote);
    assert forall|id: usize| #[trigger] condition(id) == is_between(sockets.at(id), local, remote) by {}
    if forall|j: int|
        0 <= j < sockets.table.len() ==> !is_between(
            sockets.at(#[trigger] sockets.table[j]),
            local,
            remote,
        ) {
        not_one(sockets.table, condition);
    }
    if 0 <= k < sockets.table.len() && is_between(sockets.at(sockets.table[k]), local, remote) && (
    forall|j: int|
        0 <= j < k ==> !is_between(sockets.at(#[trigger] sockets.table[j]), local, remote)) {
        the_first(sockets.table, condition, k);
    }
}

/// A connection request goes to the listener at the very address it is for,
/// and only where there is none to one at every address.
pub proof fn a_request_goes_to_the_nearest_listener(
    sockets: SocketsView,
    local: Endpoint,
    k: int,
)
    requires
        0 <= k < sockets.table.len(),
        waits_at(sockets.at(sockets.table[k]), local),
    ensures
        sockets.listener(local) is Some,
        waits_at(sockets.at(sockets.listener(local)->0), local),
        sockets.table.contains(sockets.listener(local)->0),
        sockets.at(sockets.table[k]).local().address == local.address ==> sockets.at(
            sockets.listener(local)->0,
        ).local().address == local.address,
{
    let exact = |id: usize|
        sockets.at(id).listens(local) && sockets.at(id).local().address == local.address;
    let any = |id: usize| sockets.at(id).listens(local);
    assert forall|id: usize| #[trigger] any(id) == waits_at(sockets.at(id), local) by {}
    found_where_there_is_one(sockets.table, any, k);
    if sockets.at(sockets.table[k]).local().address == local.address {
        found_where_there_is_one(sockets.table, exact, k);
    }
    what_is_found_is_one(sockets.table, exact);
    what_is_found_is_one(sockets.table, any);
}

/// Where nobody listens, nobody is found.
pub proof fn nobody_answers_where_nobody_listens(sockets: SocketsView, local: Endpoint)
    requires
        forall|j: int|
            0 <= j < sockets.table.len() ==> !waits_at(
                sockets.at(#[trigger] sockets.table[j]),
                local,
            ),
    ensures
        sockets.listener(local) is None,
{
    let exact = |id: usize|
        sockets.at(id).listens(local) && sockets.at(id).local().address == local.address;
    let any = |id: usize| sockets.at(id).listens(local);
    assert forall|id: usize| #[trigger] any(id) == waits_at(sockets.at(id), local) by {}
    not_one(sockets.table, any);
    not_one(sockets.table, exact);
}

proof fn found_where_there_is_one(
    table: Seq<usize>,
    condition: spec_fn(usize) -> bool,
    k: int,
)
    requires
        0 <= k < table.len(),
        condition(table[k]),
    ensures
        socket::first(table, condition) is Some,
    decreases table.len(),
{
    if !condition(table[0]) {
        let rest = table.skip(1);
        assert(rest[k - 1] == table[k]);
        found_where_there_is_one(rest, condition, k - 1);
    }
}

proof fn what_is_found_is_one(table: Seq<usize>, condition: spec_fn(usize) -> bool)
    ensures
        socket::first(table, condition) matches Some(id) ==> condition(id) && table.contains(id),
    decreases table.len(),
{
    if table.len() > 0 {
        if condition(table[0]) {
            assert(table.contains(table[0]));
        } else {
            let rest = table.skip(1);
            what_is_found_is_one(rest, condition);
            if let Some(id) = socket::first(rest, condition) {
                let j = choose|j: int| 0 <= j < rest.len() && rest[j] == id;
                assert(table[j + 1] == id);
            }
        }
    }
}

/// A datagram goes to the socket connected to its sender, and only where there
/// is none to one connected to nobody; a socket connected to somebody else
/// never gets it.
pub proof fn a_datagram_goes_to_who_asked_for_it(
    sockets: SocketsView,
    local: Endpoint,
    remote: Endpoint,
    k: int,
)
    ensures
        0 <= k < sockets.table.len() && hears(
            sockets.at(sockets.table[k]),
            local,
            Some(remote),
        ) ==> sockets.recipient(local, remote) is Some && hears(
            sockets.at(sockets.recipient(local, remote)->0),
            local,
            Some(remote),
        ),
        0 <= k < sockets.table.len() && hears(sockets.at(sockets.table[k]), local, None)
            ==> sockets.recipient(local, remote) is Some,
        sockets.recipient(local, remote) matches Some(id) ==> sockets.table.contains(id) && (hears(
            sockets.at(id),
            local,
            Some(remote),
        ) || hears(sockets.at(id), local, None)),
{
    let connected = |id: usize| sockets.at(id).takes_from(local, remote);
    let any = |id: usize| sockets.at(id).takes_from_anyone(local);
    assert forall|id: usize| #[trigger]
        connected(id) == hears(sockets.at(id), local, Some(remote)) by {}
    assert forall|id: usize| #[trigger] any(id) == hears(sockets.at(id), local, None) by {}
    if 0 <= k < sockets.table.len() && hears(sockets.at(sockets.table[k]), local, Some(remote)) {
        found_where_there_is_one(sockets.table, connected, k);
    }
    if 0 <= k < sockets.table.len() && hears(sockets.at(sockets.table[k]), local, None) {
        found_where_there_is_one(sockets.table, any, k);
    }
    what_is_found_is_one(sockets.table, connected);
    what_is_found_is_one(sockets.table, any);
}

// ---- ports ----------------------------------------------------------------------------

/// Whether some socket a packet can find holds a port: one of the same kind,
/// bound to it, whose descriptor is still there.
pub open spec fn is_held(
    sockets: SocketsView,
    stream: bool,
    port: int,
    except: Option<usize>,
) -> bool {
    exists|k: int|
        0 <= k < sockets.table.len() && except != Some(#[trigger] sockets.table[k]) && {
            let s = sockets.at(sockets.table[k]);
            s.stream == stream && !s.detached && (match s.inner {
                ProtocolView::Tcp(t) => t.bound && t.local.port == port,
                ProtocolView::Udp(u) => u.bound && u.local.port == port,
            })
        }
}

proof fn holding(sockets: SocketsView, stream: bool, port: u16, except: Option<usize>)
    ensures
        sockets.taken(stream, port, except) == is_held(sockets, stream, port as int, except),
{
    if sockets.taken(stream, port, except) {
        let k = choose|k: int|
            0 <= k < sockets.table.len() && except != Some(#[trigger] sockets.table[k])
                && sockets.at(sockets.table[k]).holds_port(stream, port);
        assert(sockets.at(sockets.table[k]).holds_port(stream, port));
    }
    if is_held(sockets, stream, port as int, except) {
        let k = choose|k: int|
            0 <= k < sockets.table.len() && except != Some(#[trigger] sockets.table[k]) && {
                let s = sockets.at(sockets.table[k]);
                s.stream == stream && !s.detached && (match s.inner {
                    ProtocolView::Tcp(t) => t.bound && t.local.port == port,
                    ProtocolView::Udp(u) => u.bound && u.local.port == port,
                })
            };
        assert(sockets.at(sockets.table[k]).holds_port(stream, port));
    }
}

/// The `i`th port looked at: from where the last search stopped, round the
/// ports from 49152 to 65535.
pub open spec fn looked_at(sockets: SocketsView, i: int) -> int {
    let from: int = if sockets.next_ephemeral < 49152 {
        49152
    } else {
        sockets.next_ephemeral as int
    };
    49152 + (from - 49152 + i) % 16384
}

proof fn looking_on(sockets: SocketsView, i: int)
    requires
        0 <= i,
    ensures
        looked_at(sockets.advanced(), i) == looked_at(sockets, i + 1),
        looked_at(sockets, 0) == sockets.candidate(),
{
}

/// The port handed out is the first nobody holds from where the last search
/// stopped, and the next search starts behind it. Where every port looked at
/// is held there is none.
pub proof fn the_first_free_port_is_handed_out(
    sockets: SocketsView,
    stream: bool,
    tries: nat,
    i: int,
)
    ensures
        0 <= i < tries && !is_held(sockets, stream, looked_at(sockets, i), None) && (forall|j: int|
            0 <= j < i ==> is_held(sockets, stream, #[trigger] looked_at(sockets, j), None)) ==> {
            let (after, port) = sockets.allocated(stream, tries);
            &&& port matches Ok(p) && p == looked_at(sockets, i)
            &&& after.next_ephemeral == (if looked_at(sockets, i) == 65535 {
                0
            } else {
                looked_at(sockets, i) + 1
            })
        },
        (forall|j: int|
            0 <= j < tries ==> is_held(sockets, stream, #[trigger] looked_at(sockets, j), None))
            ==> sockets.allocated(stream, tries).1 == Err::<u16, Errno>(Errno::EADDRINUSE),
    decreases tries,
{
    if tries > 0 {
        looking_on(sockets, 0);
        holding(sockets, stream, sockets.candidate(), None);
        let next = sockets.advanced();
        if is_held(sockets, stream, looked_at(sockets, 0), None) {
            the_first_free_port_is_handed_out(next, stream, (tries - 1) as nat, i - 1);
            assert forall|p: int| #[trigger]
                is_held(next, stream, p, None) == is_held(sockets, stream, p, None) by {
                if is_held(sockets, stream, p, None) {
                    let k = choose|k: int|
                        0 <= k < sockets.table.len() && None::<usize> != Some(#[trigger] sockets.table[k])
                            && {
                            let s = sockets.at(sockets.table[k]);
                            s.stream == stream && !s.detached && (match s.inner {
                                ProtocolView::Tcp(t) => t.bound && t.local.port == p,
                                ProtocolView::Udp(u) => u.bound && u.local.port == p,
                            })
                        };
                    assert(next.table[k] == sockets.table[k]);
                    assert(next.at(next.table[k]) == sockets.at(sockets.table[k]));
                }
                if is_held(next, stream, p, None) {
                    let k = choose|k: int|
                        0 <= k < next.table.len() && None::<usize> != Some(#[trigger] next.table[k]) && {
                            let s = next.at(next.table[k]);
                            s.stream == stream && !s.detached && (match s.inner {
                                ProtocolView::Tcp(t) => t.bound && t.local.port == p,
                                ProtocolView::Udp(u) => u.bound && u.local.port == p,
                            })
                        };
                    assert(next.table[k] == sockets.table[k]);
                    assert(next.at(next.table[k]) == sockets.at(sockets.table[k]));
                }
            }
            assert forall|j: int| 0 <= j implies #[trigger] looked_at(next, j) == looked_at(
                sockets,
                j + 1,
            ) by {
                looking_on(sockets, j);
            }
            if 0 <= i {
                if i > 0 {
                    looking_on(sockets, i - 1);
                }
            }
            if forall|j: int|
                0 <= j < tries ==> is_held(sockets, stream, #[trigger] looked_at(sockets, j), None) {
                assert forall|j: int| 0 <= j < tries - 1 implies is_held(
                    next,
                    stream,
                    #[trigger] looked_at(next, j),
                    None,
                ) by {
                    assert(is_held(sockets, stream, looked_at(sockets, j + 1), None));
                }
            }
            if forall|j: int|
                0 <= j < i ==> is_held(sockets, stream, #[trigger] looked_at(sockets, j), None) {
                assert forall|j: int| 0 <= j < i - 1 implies is_held(
                    next,
                    stream,
                    #[trigger] looked_at(next, j),
                    None,
                ) by {
                    assert(is_held(sockets, stream, looked_at(sockets, j + 1), None));
                }
            }
        } else {
            if i > 0 && (forall|j: int|
                0 <= j < i ==> is_held(sockets, stream, #[trigger] looked_at(sockets, j), None)) {
                assert(is_held(sockets, stream, looked_at(sockets, 0), None));
            }
            if forall|j: int|
                0 <= j < tries ==> is_held(sockets, stream, #[trigger] looked_at(sockets, j), None) {
                assert(is_held(sockets, stream, looked_at(sockets, 0), None));
            }
        }
    }
}

/// An address a socket can be bound to: any, the machine's own, everybody's,
/// or one of the machine talking to itself.
pub open spec fn can_be_bound(address: Ipv4Addr, config: Option<Config>) -> bool {
    ||| address.0 == 0
    ||| config is Some && config->0.spec_address() == address
    ||| address.0 == 0xFFFF_FFFF
    ||| address.0 as int / 0x100_0000 == 127
}

/// A socket that has not been bound: it has no port, and where it is a stream
/// it is closed.
pub open spec fn is_unbound(s: SocketView) -> bool {
    match s.inner {
        ProtocolView::Tcp(t) => t.state is Closed && !t.bound,
        ProtocolView::Udp(u) => !u.bound,
    }
}

/// What binding a socket to an end leaves: the socket at that end, and found
/// there by packets, and every other socket as it was.
pub open spec fn is_bound_at(
    sockets: SocketsView,
    after: SocketsView,
    id: usize,
    local: Endpoint,
) -> bool {
    &&& after.slots.len() == sockets.slots.len()
    &&& forall|i: int|
        0 <= i < sockets.slots.len() && i != id ==> #[trigger] after.slots[i] == sockets.slots[i]
    &&& after.has(id)
    &&& after.at(id) == SocketView {
        inner: match sockets.at(id).inner {
            ProtocolView::Tcp(t) => ProtocolView::Tcp(TcbView { local, bound: true, ..t }),
            ProtocolView::Udp(u) => ProtocolView::Udp(UdpView { local, bound: true, ..u }),
        },
        ..sockets.at(id)
    }
    &&& after.table.contains(id)
    &&& forall|i: int| 0 <= i < sockets.table.len() ==> #[trigger] after.table[i]
        == sockets.table[i]
    &&& after.table.len() <= sockets.table.len() + 1
}

proof fn placing(sockets: SocketsView, id: usize, local: Endpoint)
    requires
        sockets.has(id),
    ensures
        is_bound_at(sockets, sockets.placed(id, local), id, local),
{
    let after = sockets.placed(id, local);
    if !sockets.table.contains(id) {
        assert(after.table[sockets.table.len() as int] == id);
    }
}

/// Binding a socket to a port: an address that is not the machine's is not to
/// be had, a port another socket holds is in use, and a socket that is bound
/// already stays where it is. Otherwise the socket is where it asked to be.
pub proof fn what_binding_to_a_port_comes_to(
    sockets: SocketsView,
    id: usize,
    requested: Endpoint,
    config: Option<Config>,
)
    requires
        sockets.has(id),
        requested.port != 0,
    ensures
        ({
            let (after, result) = sockets.bound(id, requested, config);
            let held = is_held(sockets, sockets.at(id).stream, requested.port as int, Some(id));
            &&& !can_be_bound(requested.address, config) ==> after == sockets && result == Err::<
                (),
                Errno,
            >(Errno::EADDRNOTAVAIL)
            &&& can_be_bound(requested.address, config) && held ==> after == sockets && result
                == Err::<(), Errno>(Errno::EADDRINUSE)
            &&& can_be_bound(requested.address, config) && !held && !is_unbound(sockets.at(id))
                ==> after == sockets && result == Err::<(), Errno>(Errno::EINVAL)
            &&& can_be_bound(requested.address, config) && !held && is_unbound(sockets.at(id))
                ==> result is Ok && is_bound_at(sockets, after, id, requested)
        }),
{
    holding(sockets, sockets.at(id).stream, requested.port, Some(id));
    placing(sockets, id, requested);
}

/// Binding a socket to no port in particular: it gets the port the search
/// hands out, at the address it asked for.
pub proof fn what_binding_to_any_port_comes_to(
    sockets: SocketsView,
    id: usize,
    address: Ipv4Addr,
    config: Option<Config>,
)
    requires
        sockets.has(id),
    ensures
        ({
            let (after, result) = sockets.bound(id, Endpoint { address, port: 0 }, config);
            let (searched, port) = sockets.allocated(sockets.at(id).stream, 16383);
            &&& !can_be_bound(address, config) ==> after == sockets && result == Err::<(), Errno>(
                Errno::EADDRNOTAVAIL,
            )
            &&& can_be_bound(address, config) && port is Err ==> result is Err
            &&& can_be_bound(address, config) && port is Ok && !is_unbound(sockets.at(id))
                ==> result == Err::<(), Errno>(Errno::EINVAL)
            &&& can_be_bound(address, config) && port is Ok && is_unbound(sockets.at(id)) ==> {
                &&& result is Ok
                &&& is_bound_at(sockets, after, id, Endpoint { address, port: port->Ok_0 })
                &&& after.next_ephemeral == searched.next_ephemeral
            }
            &&& !(result is Ok) ==> after.slots == sockets.slots && after.table == sockets.table
        }),
{
    let (searched, port) = sockets.allocated(sockets.at(id).stream, 16383);
    socket::an_allocated_port_is_free(sockets, sockets.at(id).stream, 16383);
    if port is Ok {
        placing(searched, id, Endpoint { address, port: port->Ok_0 });
    }
}

/// A socket that has a port keeps it, and one that has none is bound to any.
pub proof fn a_socket_is_bound_only_once(
    sockets: SocketsView,
    id: usize,
    config: Option<Config>,
)
    ensures
        sockets.at(id).local().port != 0 ==> sockets.bound_somewhere(id, config) == (
            sockets,
            Ok::<(), Errno>(()),
        ),
        sockets.at(id).local().port == 0 ==> sockets.bound_somewhere(id, config) == sockets.bound(
            id,
            Endpoint { address: Ipv4Addr(0), port: 0 },
            config,
        ),
{
}

/// The places of sockets without one of them: every other place that was
/// there, and that one no more.
proof fn taking_one_out(table: Seq<usize>, id: usize, other: usize)
    ensures
        socket::without(table, id).contains(other) <==> table.contains(other) && other != id,
    decreases table.len(),
{
    if table.len() > 0 {
        let rest = table.drop_last();
        taking_one_out(rest, id, other);
        let left = socket::without(rest, id);
        let all = socket::without(table, id);
        if table.contains(other) {
            let k = choose|k: int| 0 <= k < table.len() && table[k] == other;
            if k < rest.len() {
                assert(rest[k] == other);
            }
        }
        if rest.contains(other) {
            let k = choose|k: int| 0 <= k < rest.len() && rest[k] == other;
            assert(table[k] == other);
        }
        assert(table[table.len() - 1] == table.last());
        if table.last() != id {
            assert(all[left.len() as int] == table.last());
            if left.contains(other) {
                let k = choose|k: int| 0 <= k < left.len() && left[k] == other;
                assert(all[k] == other);
            }
            if all.contains(other) {
                let k = choose|k: int| 0 <= k < all.len() && all[k] == other;
                if k < left.len() {
                    assert(left[k] == other);
                }
            }
        }
    }
}

/// A socket that is forgotten is found by nothing any more and is gone, and
/// every other socket is as it was and as easily found.
pub proof fn what_forgetting_a_socket_does(sockets: SocketsView, id: usize, other: usize)
    requires
        sockets.has(id),
    ensures
        ({
            let after = sockets.forgotten(id);
            &&& !after.has(id)
            &&& !after.table.contains(id)
            &&& other != id ==> after.has(other) == sockets.has(other)
            &&& other != id && sockets.has(other) ==> after.at(other) == sockets.at(other)
            &&& other != id ==> after.table.contains(other) == sockets.table.contains(other)
            &&& after.next_ephemeral == sockets.next_ephemeral
        }),
{
    taking_one_out(sockets.table, id, other);
    taking_one_out(sockets.table, id, id);
}

// ---- listening and accepting --------------------------------------------------------

/// A stream that is bound and idle starts to listen, for between one and 128
/// connections at a time; a datagram socket cannot, nor can a connection.
pub proof fn what_listening_comes_to(
    sockets: SocketsView,
    id: usize,
    backlog: usize,
    config: Option<Config>,
)
    requires
        sockets.valid(),
        sockets.has(id),
        sockets.at(id).stream ==> sockets.at(id).local().port != 0,
    ensures
        ({
            let (after, result) = sockets.listened(id, backlog, config);
            let listening = match sockets.at(id).inner {
                ProtocolView::Tcp(t) => t.state is Closed || t.state is Listen,
                ProtocolView::Udp(_) => false,
            };
            &&& !sockets.at(id).stream ==> after == sockets && result == Err::<(), Errno>(
                Errno::EOPNOTSUPP,
            )
            &&& sockets.at(id).stream && !listening ==> after == sockets && result == Err::<
                (),
                Errno,
            >(Errno::EINVAL)
            &&& sockets.at(id).stream && listening ==> {
                &&& result is Ok
                &&& after.table == sockets.table
                &&& after.next_ephemeral == sockets.next_ephemeral
                &&& after.slots == sockets.slots.update(
                    id as int,
                    Some(
                        SocketView {
                            inner: ProtocolView::Tcp(
                                TcbView {
                                    state: tcp::State::Listen,
                                    backlog: if backlog == 0 {
                                        1
                                    } else if backlog > 128 {
                                        128
                                    } else {
                                        backlog
                                    },
                                    ..sockets.at(id).inner->Tcp_0
                                },
                            ),
                            ..sockets.at(id)
                        },
                    ),
                )
            }
        }),
{
    assert(sockets.slots[id as int]->0.valid());
}

/// A stream without a port is bound to one before it listens.
pub proof fn a_listener_without_a_port_gets_one(
    sockets: SocketsView,
    id: usize,
    backlog: usize,
    config: Option<Config>,
)
    requires
        sockets.valid(),
        sockets.has(id),
        sockets.at(id).stream,
        sockets.at(id).local().port == 0,
    ensures
        ({
            let (bound, outcome) = sockets.bound(
                id,
                Endpoint { address: Ipv4Addr(0), port: 0 },
                config,
            );
            let (after, result) = sockets.listened(id, backlog, config);
            &&& outcome is Err ==> after == bound && result == outcome
            &&& outcome is Ok ==> {
                &&& result is Ok
                &&& after.at(id).local().port != 0
                &&& after.at(id).inner->Tcp_0.state is Listen
                &&& after.table == bound.table
            }
        }),
{
    assert(sockets.slots[id as int]->0.valid());
    let (searched, port) = sockets.allocated(sockets.at(id).stream, 16383);
    socket::an_allocated_port_is_free(sockets, sockets.at(id).stream, 16383);
    if port is Ok {
        placing(searched, id, Endpoint { address: Ipv4Addr(0), port: port->Ok_0 });
    }
}

/// A connection accept may hand out: its handshake is over.
pub open spec fn can_be_accepted(sockets: SocketsView, id: usize) -> bool {
    sockets.has(id) && (sockets.at(id).inner matches ProtocolView::Tcp(t) && !(t.state is Closed)
        && !(t.state is Listen) && !(t.state is SynSent) && !(t.state is SynReceived))
}

/// A connection that came to nothing before it was accepted.
pub open spec fn came_to_nothing(sockets: SocketsView, id: usize) -> bool {
    !sockets.has(id) || (sockets.at(id).inner matches ProtocolView::Tcp(t) && t.state is Closed)
}

proof fn who_still_waits(
    sockets: SocketsView,
    children: Seq<usize>,
    ready: Option<usize>,
    child: usize,
)
    ensures
        sockets.still_waiting(children, ready).contains(child) <==> children.contains(child)
            && !came_to_nothing(sockets, child) && ready != Some(child),
        sockets.dead_among(children).contains(child) <==> children.contains(child)
            && came_to_nothing(sockets, child),
    decreases children.len(),
{
    if children.len() > 0 {
        let rest = children.drop_last();
        who_still_waits(sockets, rest, ready, child);
        assert(children[children.len() - 1] == children.last());
        if children.contains(child) {
            let k = choose|k: int| 0 <= k < children.len() && children[k] == child;
            if k < rest.len() {
                assert(rest[k] == child);
            }
        }
        if rest.contains(child) {
            let k = choose|k: int| 0 <= k < rest.len() && rest[k] == child;
            assert(children[k] == child);
        }
        let before = sockets.still_waiting(rest, ready);
        let now = sockets.still_waiting(children, ready);
        if now != before {
            assert(now[before.len() as int] == children.last());
            if before.contains(child) {
                let k = choose|k: int| 0 <= k < before.len() && before[k] == child;
                assert(now[k] == child);
            }
            if now.contains(child) {
                let k = choose|k: int| 0 <= k < now.len() && now[k] == child;
                if k < before.len() {
                    assert(before[k] == child);
                }
            }
        }
        let dead = sockets.dead_among(rest);
        let gone = sockets.dead_among(children);
        if gone != dead {
            assert(gone[dead.len() as int] == children.last());
            if dead.contains(child) {
                let k = choose|k: int| 0 <= k < dead.len() && dead[k] == child;
                assert(gone[k] == child);
            }
            if gone.contains(child) {
                let k = choose|k: int| 0 <= k < gone.len() && gone[k] == child;
                if k < dead.len() {
                    assert(dead[k] == child);
                }
            }
        }
    }
}

/// Those still waiting wait in the order they came.
proof fn waiting_in_order(
    sockets: SocketsView,
    children: Seq<usize>,
    ready: Option<usize>,
)
    requires
        forall|i: int|
            0 <= i < children.len() ==> !came_to_nothing(sockets, #[trigger] children[i]),
        ready is None,
    ensures
        sockets.still_waiting(children, ready) == children,
    decreases children.len(),
{
    if children.len() > 0 {
        assert(!came_to_nothing(sockets, children[children.len() - 1]));
        let rest = children.drop_last();
        assert forall|i: int| 0 <= i < rest.len() implies !came_to_nothing(
            sockets,
            #[trigger] rest[i],
        ) by {
            assert(rest[i] == children[i]);
        }
        waiting_in_order(sockets, rest, ready);
        assert(rest.push(children.last()) =~= children);
    }
}

/// Accept hands out the connection that has waited longest of those whose
/// handshake is over, and none where there is none such. What came to nothing
/// is no longer waited for; everything else still is.
pub proof fn what_accepting_comes_to(net: NetView, id: usize, k: int, child: usize)
    requires
        net.sockets.has(id),
        net.sockets.at(id).listening(),
    ensures
        ({
            let (after, result) = net.accepted_from(id);
            let children = net.sockets.at(id).inner->Tcp_0.children;
            let ready = result->Ok_0;
            let waiting = net.sockets.still_waiting(children, ready);
            &&& result is Ok
            &&& 0 <= k < children.len() && can_be_accepted(net.sockets, children[k]) && (forall|
                j: int,
            |
                0 <= j < k ==> !can_be_accepted(net.sockets, #[trigger] children[j])) ==> ready
                == Some(children[k])
            &&& (forall|j: int|
                0 <= j < children.len() ==> !can_be_accepted(net.sockets, #[trigger] children[j]))
                ==> ready is None
            &&& waiting.contains(child) <==> children.contains(child) && !came_to_nothing(
                net.sockets,
                child,
            ) && ready != Some(child)
            &&& after.link == net.link
            &&& (forall|j: int|
                0 <= j < children.len() ==> !came_to_nothing(
                    net.sockets,
                    #[trigger] children[j],
                )) ==> {
                &&& after.sockets.table == net.sockets.table
                &&& after.sockets.slots == net.sockets.slots.update(
                    id as int,
                    Some(
                        SocketView {
                            inner: ProtocolView::Tcp(
                                TcbView {
                                    children: waiting,
                                    ..net.sockets.at(id).inner->Tcp_0
                                },
                            ),
                            ..net.sockets.at(id)
                        },
                    ),
                )
                &&& ready is None ==> waiting == children
            }
        }),
{
    let children = net.sockets.at(id).inner->Tcp_0.children;
    let condition = |c: usize| net.sockets.is_ready(c);
    assert forall|c: usize| #[trigger] condition(c) == can_be_accepted(net.sockets, c) by {}
    let ready = socket::first(children, condition);
    who_still_waits(net.sockets, children, ready, child);
    if 0 <= k < children.len() && can_be_accepted(net.sockets, children[k]) && (forall|j: int|
        0 <= j < k ==> !can_be_accepted(net.sockets, #[trigger] children[j])) {
        the_first(children, condition, k);
    }
    if forall|j: int|
        0 <= j < children.len() ==> !can_be_accepted(net.sockets, #[trigger] children[j]) {
        not_one(children, condition);
    }
    if forall|j: int|
        0 <= j < children.len() ==> !came_to_nothing(net.sockets, #[trigger] children[j]) {
        nobody_is_dead(net.sockets, children);
        if ready is None {
            waiting_in_order(net.sockets, children, ready);
        }
    }
}

proof fn nobody_is_dead(sockets: SocketsView, children: Seq<usize>)
    requires
        forall|j: int|
            0 <= j < children.len() ==> !came_to_nothing(sockets, #[trigger] children[j]),
    ensures
        sockets.dead_among(children).len() == 0,
    decreases children.len(),
{
    if children.len() > 0 {
        let rest = children.drop_last();
        assert(!came_to_nothing(sockets, children[children.len() - 1]));
        assert forall|j: int| 0 <= j < rest.len() implies !came_to_nothing(
            sockets,
            #[trigger] rest[j],
        ) by {
            assert(rest[j] == children[j]);
        }
        nobody_is_dead(sockets, rest);
    }
}

/// What came to nothing before it was accepted is gone once its listener is
/// asked, and every other socket but the listener is as it was.
pub proof fn what_came_to_nothing_is_gone(net: NetView, id: usize, other: usize)
    requires
        net.sockets.has(id),
        net.sockets.at(id).listening(),
        other != id,
        net.sockets.has(other),
    ensures
        ({
            let (after, _) = net.accepted_from(id);
            let children = net.sockets.at(id).inner->Tcp_0.children;
            let gone = children.contains(other) && came_to_nothing(net.sockets, other);
            &&& gone ==> !after.sockets.has(other)
            &&& !gone ==> after.sockets.has(other) && after.sockets.at(other) == net.sockets.at(
                other,
            )
        }),
{
    let t = net.sockets.at(id).inner->Tcp_0;
    let ready = socket::first(t.children, |c: usize| net.sockets.is_ready(c));
    let waiting = net.sockets.still_waiting(t.children, ready);
    let dead = net.sockets.dead_among(t.children);
    let trimmed = net.sockets.with(
        id,
        net.sockets.at(id).with_tcb(TcbView { children: waiting, ..t }),
    );
    who_still_waits(net.sockets, t.children, ready, other);
    crate::net::delivery_laws::forgetting_many(trimmed, dead, other);
}

/// Only a listener accepts.
pub proof fn only_a_listener_accepts(net: NetView, id: usize)
    ensures
        net.sockets.at(id).inner is Udp ==> net.accepted_from(id) == (
            net,
            Err::<Option<usize>, Errno>(Errno::EOPNOTSUPP),
        ),
        net.sockets.at(id).inner matches ProtocolView::Tcp(t) && !(t.state is Listen)
            ==> net.accepted_from(id) == (net, Err::<Option<usize>, Errno>(Errno::EINVAL)),
{
}

/// A listener is readable where accepting would hand a connection out, and only
/// there.
pub proof fn a_listener_is_readable_where_one_can_be_accepted(net: NetView, id: usize)
    requires
        net.sockets.has(id),
        net.sockets.at(id).listening(),
    ensures
        net.sockets.readable(id) <==> net.accepted_from(id).1 is Ok && net.accepted_from(id).1->Ok_0 is Some,
{
    let children = net.sockets.at(id).inner->Tcp_0.children;
    let condition = |c: usize| net.sockets.is_ready(c);
    if net.sockets.readable(id) {
        let k = choose|k: int|
            0 <= k < children.len() && net.sockets.is_ready(#[trigger] children[k]);
        found_where_there_is_one(children, condition, k);
    }
    what_is_found_is_one(children, condition);
    if let Some(c) = socket::first(children, condition) {
        let k = choose|k: int| 0 <= k < children.len() && children[k] == c;
        assert(net.sockets.is_ready(children[k]));
    }
}

} // verus!
