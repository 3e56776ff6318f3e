//! What holds of every connection, whatever it is sent.

use crate::net::socket::Endpoint;
use crate::net::tcp::{
    self, OutgoingView, SegmentView, Step, TcbView, ACK, LAST_TICK, MAX_RETRIES, RST, SYN,
};
use vstd::prelude::*;

verus! {

/// Which flags the flag bytes this stack sends hold.
pub(crate) proof fn flag_bits()
    by (bit_vector)
    ensures
        2u8 & 2u8 != 0,
        2u8 & 16u8 == 0,
        2u8 & 4u8 == 0,
        2u8 & 1u8 == 0,
        (2u8 | 16u8) & 2u8 != 0,
        (2u8 | 16u8) & 16u8 != 0,
        (2u8 | 16u8) & 4u8 == 0,
        (2u8 | 16u8) & 1u8 == 0,
        16u8 & 16u8 != 0,
        16u8 & 2u8 == 0,
        16u8 & 4u8 == 0,
        16u8 & 1u8 == 0,
        (16u8 | 8u8) & 16u8 != 0,
        (16u8 | 8u8) & 2u8 == 0,
        (16u8 | 8u8) & 4u8 == 0,
        (16u8 | 8u8) & 1u8 == 0,
        (4u8 | 16u8) & 16u8 != 0,
        (4u8 | 16u8) & 4u8 != 0,
        (4u8 | 16u8) & 2u8 == 0,
        4u8 & 16u8 == 0,
{
}

/// What the other end reads out of a segment sent to it.
pub open spec fn arriving(o: OutgoingView) -> SegmentView {
    SegmentView {
        source_port: o.source.port,
        destination_port: o.destination.port,
        sequence: o.sequence,
        acknowledgement: o.acknowledgement,
        flags: o.flags,
        window: o.window,
        mss: o.mss,
        payload: o.payload,
    }
}

/// A data segment carries exactly the pending bytes its sequence number
/// names, and no byte past the windows or past the peer's segment size.
pub open spec fn is_pending_data(t: TcbView, o: OutgoingView) -> bool {
    let at = tcp::ahead(t.send_unacknowledged, o.sequence);
    let n = o.payload.len();
    &&& at + n <= t.pending.len()
    &&& o.payload == t.pending.subrange(at, at + n)
    &&& n <= t.peer_mss
    &&& at + n <= t.send_window
    &&& at + n <= t.congestion_window
}

pub(crate) proof fn sent_up_to_sends_pending(t: TcbView, current: TcbView, now: u64, i: int)
    requires
        t.valid(),
        current == (TcbView {
            send_next: current.send_next,
            retransmit_at: current.retransmit_at,
            ..t
        }),
        0 <= i < current.sent_up_to(t.send_limit(), now).1.len(),
    ensures
        ({
            let o = current.sent_up_to(t.send_limit(), now).1[i];
            o.payload.len() > 0 ==> is_pending_data(t, o)
        }),
    decreases current.pending.len() - current.in_flight(),
{
    let limit = t.send_limit();
    let n = current.next_chunk(limit);
    reveal_with_fuel(TcbView::sent_up_to, 1);
    if n > 0 {
        let later = current.past_chunk(n, now);
        assert(later.in_flight() == current.in_flight() + n);
        assert(current.sent_up_to(limit, now).1 == seq![current.chunk(n)] + later.sent_up_to(
            limit,
            now,
        ).1);
        if i == 0 {
            let o = current.chunk(n);
            assert(tcp::ahead(t.send_unacknowledged, o.sequence) == current.in_flight());
            assert(o.payload.len() == n);
        } else {
            sent_up_to_sends_pending(t, later, now, i - 1);
        }
    }
}

/// Whatever a connection sends of its own accord is the data queued on it, at
/// the sequence numbers it belongs at, inside both windows.
pub proof fn output_sends_pending(t: TcbView, now: u64, i: int)
    requires
        t.valid(),
        0 <= i < t.flushed(now).1.len(),
    ensures
        t.flushed(now).1[i].payload.len() > 0 ==> is_pending_data(t, t.flushed(now).1[i]),
{
    sent_up_to_sends_pending(t, t, now, i);
}

/// A segment outside the window changes nothing the connection knows. All it
/// can do is start the retransmission timer of a handshake, and a reset out
/// there is not even answered.
pub proof fn outside_the_window_nothing_is_believed(t: TcbView, segment: SegmentView, now: u64)
    requires
        t.valid(),
        !t.idle(),
        !(t.state is SynSent),
        !t.accepts(segment),
    ensures
        ({
            let step = t.on_arrival(segment, now);
            &&& step.tcb == TcbView { retransmit_at: step.tcb.retransmit_at, ..t }
            &&& !step.woke
            &&& step.sent.len() == if segment.has(RST) {
                0int
            } else {
                1
            }
        }),
{
}

/// A reset takes a connection down only if it names the one byte that is
/// wanted next. Any other leaves the connection exactly as it was.
pub proof fn a_guessed_reset_does_nothing(t: TcbView, segment: SegmentView, now: u64)
    requires
        t.valid(),
        !(t.state is SynSent),
        segment.has(RST),
        segment.sequence != t.receive_next,
    ensures
        t.on_arrival(segment, now).tcb == t,
{
}

/// The sequence number of byte `at` of a stream whose first byte has sequence
/// number `base`. It comes round again every 2^32 bytes.
pub open spec fn number_of(base: u32, at: int) -> u32 {
    ((base + at) % 0x1_0000_0000) as u32
}

/// A segment of `stream` starting at byte `at`, where byte zero has sequence
/// number `base`.
pub open spec fn carries(segment: SegmentView, stream: Seq<u8>, base: u32, at: int) -> bool {
    &&& 0 <= at
    &&& at + segment.payload.len() <= stream.len()
    &&& segment.payload == stream.subrange(at, at + segment.payload.len())
    &&& segment.sequence == number_of(base, at)
}

/// A connection that has delivered the first `done` bytes of a stream, and is
/// still being read, takes from any segment of that stream exactly the bytes
/// that follow, or none. What is delivered is the stream, in order, with
/// nothing missing and nothing twice, however the segments overlap, as long as
/// a segment lies less than half the circle of sequence numbers away.
pub proof fn the_stream_is_delivered_in_order(
    t: TcbView,
    segment: SegmentView,
    stream: Seq<u8>,
    base: u32,
    done: int,
    at: int,
)
    requires
        t.valid(),
        t.reading(),
        0 <= done <= stream.len(),
        -0x8000_0000 < at - done < 0x8000_0000,
        t.receive_next == number_of(base, done),
        carries(segment, stream, base, at),
    ensures
        ({
            let after = t.data_taken(segment).0;
            let more = after.received.len() - t.received.len();
            &&& 0 <= more
            &&& done + more <= stream.len()
            &&& after.received == t.received + stream.subrange(done, done + more)
            &&& after.receive_next == number_of(base, done + more)
            &&& more > 0 ==> at <= done
            &&& at <= done && done < at + segment.payload.len() && t.window() > 0 ==> more > 0
        }),
{
    let after = t.data_taken(segment).0;
    let more = after.received.len() - t.received.len();
    let unseen = t.unseen(segment);
    if at < done {
        assert(tcp::ahead(segment.sequence, t.receive_next) == done - at);
    } else {
        assert(tcp::ahead(t.receive_next, segment.sequence) == at - done);
    }
    if t.brings_next(segment) {
        assert(at <= done);
        assert(unseen =~= stream.subrange(done, at + segment.payload.len()));
        assert(unseen.take(more) =~= stream.subrange(done, done + more));
    } else {
        assert(after.received =~= t.received + stream.subrange(done, done));
    }
}

/// When the timer of an open connection runs out with data outstanding, the
/// first thing sent again is the first byte that has not been acknowledged.
pub proof fn a_timeout_goes_back_to_the_first_unacknowledged_byte(t: TcbView, now: u64)
    requires
        t.valid(),
        t.state.sending(),
        now <= LAST_TICK,
        t.expire_at == 0,
        0 < t.retransmit_at <= now,
        t.retries < MAX_RETRIES,
        t.pending.len() > 0,
    ensures
        ({
            let step = t.on_deadline(now);
            let first = step.sent[0];
            &&& step.sent.len() > 0
            &&& first.sequence == t.send_unacknowledged
            &&& first.payload.len() > 0
            &&& first.payload == t.pending.take(first.payload.len() as int)
            &&& step.tcb.pending == t.pending
            &&& step.tcb.send_unacknowledged == t.send_unacknowledged
            &&& step.tcb.retransmit_at == now + step.tcb.rto
        }),
{
    let again = t.backed_off(now);
    let back = TcbView { send_next: t.send_unacknowledged, fin_sequence: None, ..again };
    let step = t.on_deadline(now);
    if t.send_window > 0 {
        let limit = back.send_limit();
        let n = back.next_chunk(limit);
        assert(n > 0);
        reveal_with_fuel(TcbView::sent_up_to, 1);
        assert(step.sent[0] == back.chunk(n));
        assert(back.chunk(n).payload =~= t.pending.take(n));
        sent_up_to_keeps(back.past_chunk(n, now), limit, now);
    }
}

/// Nothing happens before a connection's deadline.
pub proof fn nothing_happens_before_the_deadline(t: TcbView, now: u64)
    requires
        now < t.deadline(),
    ensures
        t.on_deadline(now) == t.quiet(false),
{
}

/// A connection nobody names any more does not wait for the other end for ever:
/// with its own close acknowledged it has a time to end at, and from then on
/// the timer closes it, with nothing sent and nothing left to wait for.
/// Something is due by then, whatever else runs.
pub proof fn an_abandoned_connection_ends(t: TcbView, now: u64)
    requires
        t.valid(),
        t.state is FinWait2,
        t.abandoned,
        now >= t.expire_at,
    ensures
        0 < t.expire_at < u64::MAX,
        t.deadline() <= t.expire_at,
        ends(t.on_deadline(now)),
{
}

/// Its next deadline is the one that closes it, where no timer still runs for
/// something it sent that would be due sooner.
pub proof fn an_abandoned_connection_ends_at_its_deadline(t: TcbView)
    requires
        t.valid(),
        t.state is FinWait2,
        t.abandoned,
        t.retransmit_at == 0 || t.expire_at <= t.retransmit_at,
    ensures
        t.deadline() != u64::MAX,
        ends(t.on_deadline(t.deadline())),
{
}

/// A step that closes a connection, wakes whoever waits on it, and leaves
/// nothing to send or to wait for.
pub open spec fn ends(step: Step) -> bool {
    &&& step.woke
    &&& step.sent.len() == 0
    &&& step.tcb.state is Closed
    &&& step.tcb.pending.len() == 0
    &&& step.tcb.deadline() == u64::MAX
}

/// The acknowledgement of everything sent, this end's FIN last, stops the timer
/// that would have sent it again.
pub proof fn a_close_acknowledged_stops_the_timer(t: TcbView, now: u64)
    requires
        t.state is FinWait1,
        t.fin_sequence == Some(t.send_next.wrapping_sub(1)),
        !t.fin_acknowledged,
        t.confirms(t.send_next),
    ensures
        ({
            let after = t.confirmed(t.send_next, now).close_advanced(now).0;
            after.state is FinWait2 && after.retransmit_at == 0
        }),
{
}

/// Sending leaves the queue, the acknowledgement point and a running timer
/// alone.
proof fn sent_up_to_keeps(t: TcbView, limit: u32, now: u64)
    requires
        t.retransmit_at != 0,
    ensures
        ({
            let after = t.sent_up_to(limit, now).0;
            &&& after.pending == t.pending
            &&& after.send_unacknowledged == t.send_unacknowledged
            &&& after.retransmit_at == t.retransmit_at
            &&& after.rto == t.rto
        }),
    decreases t.pending.len() - t.in_flight(),
{
    reveal_with_fuel(TcbView::sent_up_to, 1);
    let n = t.next_chunk(limit);
    if t.pending.len() <= tcp::SEND_BUFFER && n > 0 {
        let later = t.past_chunk(n, now);
        assert(later.in_flight() == t.in_flight() + n);
        sent_up_to_keeps(later, limit, now);
    }
}

/// The three segments of a handshake leave both ends established and agreed:
/// what each will send next is what the other wants next, and nothing is
/// outstanding.
pub proof fn a_handshake_agrees(
    near: Endpoint,
    far: Endpoint,
    now: u64,
    near_clock: u64,
    far_clock: u64,
    near_secret: u64,
    far_secret: u64,
)
    requires
        now <= LAST_TICK,
    ensures
        ({
            let (asking, request) = TcbView {
                local: near,
                remote: far,
                bound: true,
                ..TcbView::fresh()
            }.opened(now, near_clock, near_secret);
            let asked = TcbView {
                local: far,
                remote: near,
                bound: true,
                ..TcbView::fresh()
            }.accepted(arriving(request[0]), far_clock, far_secret);
            let answer = asked.control(SYN | ACK, asked.iss, true);
            let open = asking.on_arrival(arriving(answer), now);
            let accepted = asked.armed(now).on_arrival(arriving(open.sent[0]), now);
            &&& request.len() == 1
            &&& open.sent.len() == 1
            &&& open.woke && accepted.woke
            &&& open.tcb.state is Established
            &&& accepted.tcb.state is Established
            &&& open.tcb.send_next == accepted.tcb.receive_next
            &&& accepted.tcb.send_next == open.tcb.receive_next
            &&& open.tcb.send_unacknowledged == open.tcb.send_next
            &&& accepted.tcb.send_unacknowledged == accepted.tcb.send_next
            &&& open.tcb.retransmit_at == 0
            &&& accepted.tcb.retransmit_at == 0
        }),
{
    flag_bits();
    reveal_with_fuel(TcbView::sent_up_to, 1);
    let (asking, request) = TcbView {
        local: near,
        remote: far,
        bound: true,
        ..TcbView::fresh()
    }.opened(now, near_clock, near_secret);
    let asked = TcbView { local: far, remote: near, bound: true, ..TcbView::fresh() }.accepted(
        arriving(request[0]),
        far_clock,
        far_secret,
    );
    let answer = asked.control(SYN | ACK, asked.iss, true);
    let open = asking.on_arrival(arriving(answer), now);
    assert(open.tcb.state is Established);
    assert(open.sent.len() == 1);
    let ack = arriving(open.sent[0]);
    assert(asked.armed(now).accepts(ack));
}

/// Reading moves the right edge of the window by a whole segment or not at all.
pub proof fn the_window_opens_by_whole_segments(t: TcbView, size: int)
    requires
        t.valid(),
        0 <= size,
    ensures
        ({
            let after = t.read_out(size, false).0;
            ||| after.window() == t.window()
            ||| after.window() >= t.window() + t.peer_mss
        }),
{
}

/// A reader that has taken everything leaves less than a segment's worth of the
/// buffer out of what is offered.
pub proof fn an_emptied_buffer_is_offered_again(t: TcbView)
    requires
        t.valid(),
        t.received.len() > 0,
    ensures
        ({
            let after = t.read_out(t.received.len() as int, false).0;
            &&& after.received.len() == 0
            &&& after.window() > tcp::RECEIVE_WINDOW - t.peer_mss
        }),
{
}

// ---- starting numbers ------------------------------------------------------

/// Multiplying by an odd number, as far as thirty-two bits go, tells different
/// numbers apart: `undo` times `by` is one more than a multiple of what wraps.
proof fn multiplying_is_undone(x: u32, by: u32, undo: u32)
    requires
        by * undo % 0x1_0000_0000 == 1,
    ensures
        x.wrapping_mul(by).wrapping_mul(undo) == x,
{
    let wrap = 0x1_0000_0000int;
    let once = x * by;
    vstd::arithmetic::div_mod::lemma_mul_mod_noop_left(once, undo as int, wrap);
    vstd::arithmetic::mul::lemma_mul_is_associative(x as int, by as int, undo as int);
    vstd::arithmetic::div_mod::lemma_mul_mod_noop_right(x as int, by * undo, wrap);
    vstd::arithmetic::div_mod::lemma_small_mod(x as nat, wrap as nat);
    assert((once % wrap) * undo % wrap == x as int);
}

/// Stirring tells different numbers apart.
proof fn stirring_keeps_apart(one: u32, other: u32, secret: u64)
    requires
        tcp::stirred(one, secret) == tcp::stirred(other, secret),
    ensures
        one == other,
{
    let low = (secret % 0x1_0000_0000) as u32;
    let high = (secret / 0x1_0000_0000) as u32;
    let a1 = (one ^ low).wrapping_mul(0x9E37_79B9);
    let a2 = (other ^ low).wrapping_mul(0x9E37_79B9);
    let m1 = a1 ^ (a1 >> 15u32) ^ high;
    let m2 = a2 ^ (a2 >> 15u32) ^ high;
    let b1 = m1.wrapping_mul(0x85EB_CA6B);
    let b2 = m2.wrapping_mul(0x85EB_CA6B);
    let n1 = b1 ^ (b1 >> 13u32);
    let n2 = b2 ^ (b2 >> 13u32);
    let c1 = n1.wrapping_mul(0xC2B2_AE35);
    let c2 = n2.wrapping_mul(0xC2B2_AE35);
    assert(c1 == c2) by (bit_vector)
        requires
            c1 ^ (c1 >> 16u32) == c2 ^ (c2 >> 16u32),
    ;
    multiplying_is_undone(n1, 0xC2B2_AE35, 0x7ed1b41d);
    multiplying_is_undone(n2, 0xC2B2_AE35, 0x7ed1b41d);
    assert(b1 == b2) by (bit_vector)
        requires
            b1 ^ (b1 >> 13u32) == b2 ^ (b2 >> 13u32),
    ;
    multiplying_is_undone(m1, 0x85EB_CA6B, 0xa5cb9243);
    multiplying_is_undone(m2, 0x85EB_CA6B, 0xa5cb9243);
    assert(a1 == a2) by (bit_vector)
        requires
            a1 ^ (a1 >> 15u32) ^ high == a2 ^ (a2 >> 15u32) ^ high,
    ;
    multiplying_is_undone(one ^ low, 0x9E37_79B9, 0x144cbc89);
    multiplying_is_undone(other ^ low, 0x9E37_79B9, 0x144cbc89);
    assert(one == other) by (bit_vector)
        requires
            one ^ low == other ^ low,
    ;
}

/// Two connections to one machine that differ in a port, and two that differ
/// only in the machine, start from different numbers when opened at once.
pub proof fn starting_numbers_differ(
    local: Endpoint,
    remote: Endpoint,
    other_local: Endpoint,
    other_remote: Endpoint,
    monotonic_ns: u64,
    secret: u64,
)
    requires
        remote.address == other_remote.address ==> local.port != other_local.port || remote.port
            != other_remote.port,
        remote.address != other_remote.address ==> local.port == other_local.port && remote.port
            == other_remote.port,
    ensures
        tcp::first_sequence(local, remote, monotonic_ns, secret) != tcp::first_sequence(
            other_local,
            other_remote,
            monotonic_ns,
            secret,
        ),
{
    let (near, far, at) = (local.port, remote.port, remote.address.0);
    let (near2, far2, at2) = (other_local.port, other_remote.port, other_remote.address.0);
    let one = tcp::salt_of(local, remote);
    let other = tcp::salt_of(other_local, other_remote);
    assert(one != other) by (bit_vector)
        requires
            one == ((near as u32) << 16u32) ^ (far as u32) ^ ((at << 13u32) | (at >> 19u32)),
            other == ((near2 as u32) << 16u32) ^ (far2 as u32) ^ ((at2 << 13u32) | (at2 >> 19u32)),
            at == at2 ==> near != near2 || far != far2,
            at != at2 ==> near == near2 && far == far2,
    ;
    if tcp::stirred(one, secret) == tcp::stirred(other, secret) {
        stirring_keeps_apart(one, other, secret);
    }
}

/// A starting number goes up by one for every four microseconds that pass.
pub proof fn starting_numbers_advance(
    local: Endpoint,
    remote: Endpoint,
    monotonic_ns: u64,
    steps: int,
    secret: u64,
)
    requires
        0 <= steps,
        monotonic_ns + 4000 * steps <= u64::MAX,
    ensures
        tcp::first_sequence(local, remote, (monotonic_ns + 4000 * steps) as u64, secret) == (
        tcp::first_sequence(local, remote, monotonic_ns, secret) + steps) % 0x1_0000_0000,
{
    let later = monotonic_ns + 4000 * steps;
    let salt = tcp::stirred(tcp::salt_of(local, remote), secret);
    assert(later / 4000 == monotonic_ns as int / 4000 + steps);
    turning_further(monotonic_ns as int / 4000, steps, salt);
}

/// A number that goes round goes on going round.
proof fn turning_further(from: int, steps: int, salt: u32)
    requires
        0 <= from,
        0 <= steps,
    ensures
        ((from + steps) % 0x1_0000_0000 + salt) % 0x1_0000_0000 == ((from % 0x1_0000_0000 + salt)
            % 0x1_0000_0000 + steps) % 0x1_0000_0000,
{
}

} // verus!
