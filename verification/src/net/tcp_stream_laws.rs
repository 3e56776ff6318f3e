//! What a connection does: what it sends, what it forgets once it is
//! acknowledged, what it delivers, what a write and a read come to, and how it
//! is opened, closed and given up.

use crate::errno::Errno;
use crate::net::tcp::{
    self, OutgoingView, SegmentView, State, Step, TcbView, ACK, FIN, LAST_TICK, RST, SYN,
};
use crate::net::tcp_laws;
use vstd::prelude::*;

verus! {

/// The smaller of two numbers.
pub open spec fn least(a: int, b: int) -> int {
    if a <= b {
        a
    } else {
        b
    }
}

/// A segment an open connection reads all of: it lies in the window, resets
/// nothing, opens nothing, and acknowledges something.
pub open spec fn is_heard(t: TcbView, segment: SegmentView) -> bool {
    &&& t.state is Established || t.state is FinWait1 || t.state is FinWait2 || t.state is CloseWait
        || t.state is Closing || t.state is LastAck || t.state is TimeWait
    &&& t.accepts(segment)
    &&& segment.has(ACK)
    &&& !segment.has(RST)
    &&& !segment.has(SYN)
}

// ---- sending ---------------------------------------------------------------

/// A queue no longer than it may be, cut into segments no shorter and no longer
/// than the other end may ask for.
spec fn can_be_sent(t: TcbView) -> bool {
    t.pending.len() <= tcp::SEND_BUFFER && tcp::MIN_MSS <= t.peer_mss <= tcp::MSS
}

/// Sending moves nothing but the next number, the timer and the place of the
/// FIN.
pub proof fn sending_keeps_the_rest(t: TcbView, limit: u32, now: u64)
    ensures
        ({
            let after = t.sent_up_to(limit, now).0;
            &&& after == TcbView {
                send_next: after.send_next,
                retransmit_at: after.retransmit_at,
                fin_sequence: after.fin_sequence,
                ..t
            }
            &&& t.fin_sequence is Some ==> after.fin_sequence == t.fin_sequence
            &&& t.retransmit_at != 0 ==> after.retransmit_at == t.retransmit_at
        }),
    decreases t.pending.len() - t.in_flight(),
{
    reveal_with_fuel(TcbView::sent_up_to, 1);
    let n = t.next_chunk(limit);
    if t.pending.len() <= tcp::SEND_BUFFER && n > 0 {
        let later = t.past_chunk(n, now);
        assert(later.in_flight() == t.in_flight() + n);
        sending_keeps_the_rest(later, limit, now);
    }
}

/// Segments that follow one another without a gap, from one number to another,
/// each from and to the ends of the connection and each saying what is wanted
/// next and how much room there is. All but a last one with the FIN carry data.
pub open spec fn follow_on(t: TcbView, sent: Seq<OutgoingView>, from: u32, to: u32) -> bool {
    &&& sent.len() == 0 ==> to == from
    &&& sent.len() > 0 ==> sent[0].sequence == from
    &&& forall|i: int|
        0 <= i < sent.len() ==> {
            let o = #[trigger] sent[i];
            &&& o.source == t.local
            &&& o.destination == t.remote
            &&& o.acknowledgement == t.receive_next
            &&& o.window == t.window()
            &&& o.flags & ACK != 0
            &&& o.payload.len() > 0 || i == sent.len() - 1 && o.flags & FIN != 0
            &&& o.sequence.wrapping_add(
                (o.payload.len() + if o.flags & FIN != 0 {
                    1int
                } else {
                    0
                }) as u32,
            ) == (if i + 1 < sent.len() {
                sent[i + 1].sequence
            } else {
                to
            })
        }
}

proof fn more_flag_bits()
    ensures
        (1u8 | 16u8) & 16u8 != 0,
        (1u8 | 16u8) & 1u8 != 0,
        16u8 & 1u8 == 0,
        (16u8 | 8u8) & 1u8 == 0,
        16u8 & 16u8 != 0,
        (16u8 | 8u8) & 16u8 != 0,
{
    tcp_laws::flag_bits();
    assert((1u8 | 16u8) & 16u8 != 0 && (1u8 | 16u8) & 1u8 != 0) by (bit_vector);
}

#[verifier::rlimit(60)]
proof fn sending_follows_on(t: TcbView, limit: u32, now: u64)
    requires
        can_be_sent(t),
    ensures
        ({
            let (after, sent) = t.sent_up_to(limit, now);
            follow_on(t, sent, t.send_next, after.send_next)
        }),
    decreases t.pending.len() - t.in_flight(),
{
    more_flag_bits();
    reveal_with_fuel(TcbView::sent_up_to, 1);
    let n = t.next_chunk(limit);
    let (after, sent) = t.sent_up_to(limit, now);
    if n > 0 {
        let later = t.past_chunk(n, now);
        assert(later.in_flight() == t.in_flight() + n);
        sending_follows_on(later, limit, now);
        let rest = later.sent_up_to(limit, now).1;
        assert(sent == seq![t.chunk(n)] + rest);
        assert(t.chunk(n).payload.len() == n);
        assert forall|i: int| 0 <= i < sent.len() implies {
            let o = #[trigger] sent[i];
            &&& o.source == t.local
            &&& o.destination == t.remote
            &&& o.acknowledgement == t.receive_next
            &&& o.window == t.window()
            &&& o.flags & ACK != 0
            &&& o.payload.len() > 0 || i == sent.len() - 1 && o.flags & FIN != 0
            &&& o.sequence.wrapping_add(
                (o.payload.len() + if o.flags & FIN != 0 {
                    1int
                } else {
                    0
                }) as u32,
            ) == (if i + 1 < sent.len() {
                sent[i + 1].sequence
            } else {
                after.send_next
            })
        } by {
            if i > 0 {
                assert(sent[i] == rest[i - 1]);
                if i + 1 < sent.len() {
                    assert(sent[i + 1] == rest[i]);
                }
            } else if sent.len() > 1 {
                assert(sent[1] == rest[0]);
            }
        }
    }
}

proof fn sending_goes_on(t: TcbView, limit: u32, now: u64, room: int)
    requires
        can_be_sent(t),
        0 <= room <= 0xFFFF_FFFF,
        limit == t.send_unacknowledged.wrapping_add(room as u32),
        room <= 0x4000_0000,
        t.in_flight() <= 0x8000_0000,
    ensures
        ({
            let after = t.sent_up_to(limit, now).0;
            let flying = tcp::ahead(t.send_unacknowledged, after.send_next);
            &&& flying >= least(t.pending.len() as int, room)
            &&& t.pending.len() <= flying && t.fin_queued ==> after.fin_sequence is Some
            &&& after.fin_sequence != t.fin_sequence ==> t.fin_queued && after.fin_sequence == Some(
                after.send_next.wrapping_sub(1),
            )
        }),
    decreases t.pending.len() - t.in_flight(),
{
    reveal_with_fuel(TcbView::sent_up_to, 1);
    let n = t.next_chunk(limit);
    if n > 0 {
        let later = t.past_chunk(n, now);
        assert(later.in_flight() == t.in_flight() + n);
        sending_goes_on(later, limit, now, room);
    }
}

/// An open connection sends all it may: what is queued goes out as far as the
/// window the other end named and the congestion window reach, in segments that
/// follow one another without a gap, and once everything is out the FIN goes
/// out behind it if this end has finished. None of it reaches past either
/// window, none is longer than the other end takes, and what it carries is
/// what is queued at the numbers it has.
pub proof fn all_that_may_be_sent_is_sent(t: TcbView, now: u64)
    requires
        t.valid(),
        t.state is Established || t.state is CloseWait || t.state is FinWait1 || t.state is Closing
            || t.state is LastAck,
        t.send_window <= 0xFFFF,
        tcp::ahead(t.send_unacknowledged, t.send_next) <= 0x8000_0000,
    ensures
        ({
            let (after, sent) = t.flushed(now);
            let flying = tcp::ahead(t.send_unacknowledged, after.send_next);
            let room = least(t.send_window as int, t.congestion_window as int);
            &&& flying >= least(t.pending.len() as int, room)
            &&& follow_on(t, sent, t.send_next, after.send_next)
            &&& t.pending.len() <= flying && t.fin_queued ==> after.fin_sequence is Some
            &&& forall|i: int|
                0 <= i < sent.len() && (#[trigger] sent[i]).payload.len() > 0 ==> {
                    let at = tcp::ahead(t.send_unacknowledged, sent[i].sequence);
                    let n = sent[i].payload.len();
                    &&& at + n <= room
                    &&& n <= t.peer_mss
                    &&& at + n <= t.pending.len()
                    &&& sent[i].payload == t.pending.subrange(at, at + n)
                }
        }),
{
    let (after, sent) = t.flushed(now);
    let room = least(t.send_window as int, t.congestion_window as int);
    sending_follows_on(t, t.send_limit(), now);
    sending_goes_on(t, t.send_limit(), now, room);
    assert forall|i: int| 0 <= i < sent.len() && (#[trigger] sent[i]).payload.len() > 0 implies {
        let at = tcp::ahead(t.send_unacknowledged, sent[i].sequence);
        let n = sent[i].payload.len();
        &&& at + n <= room
        &&& n <= t.peer_mss
        &&& at + n <= t.pending.len()
        &&& sent[i].payload == t.pending.subrange(at, at + n)
    } by {
        tcp_laws::output_sends_pending(t, now, i);
    }
}

/// A connection that may not send says nothing of its own accord.
pub proof fn a_connection_that_is_over_sends_nothing(t: TcbView, now: u64)
    requires
        t.state is Closed || t.state is Listen || t.state is SynSent || t.state is SynReceived
            || t.state is FinWait2 || t.state is TimeWait,
    ensures
        t.flushed(now) == (t, Seq::<OutgoingView>::empty()),
{
}

// ---- writing and reading ---------------------------------------------------

/// A write is taken where the connection can still send and this end has not
/// finished, whether or not the other end has: as many bytes as there is room
/// for join the queue behind what is there, and the caller is told how many.
/// With no room it is told to come back, before the connection is open as well;
/// afterwards, or once this end has finished, that the pipe is broken; and
/// where there is no connection, why there is none, once.
pub proof fn what_a_write_comes_to(t: TcbView, buf: Seq<u8>, now: u64)
    requires
        t.valid(),
        buf.len() > 0,
    ensures
        ({
            let (after, sent, result) = t.written(buf, now);
            let room = 32768 - t.pending.len();
            let n = least(room, buf.len() as int);
            &&& (t.state is Established || t.state is CloseWait) && !t.fin_queued && room > 0 ==> {
                &&& result == Ok::<usize, Errno>(n as usize)
                &&& after.pending == t.pending + buf.take(n)
                &&& after.state == t.state
                &&& after.send_unacknowledged == t.send_unacknowledged
                &&& !after.fin_queued
                &&& (after, sent) == (TcbView { pending: t.pending + buf.take(n), ..t }).flushed(
                    now,
                )
            }
            &&& (t.state is Established || t.state is CloseWait) && !t.fin_queued && room <= 0
                ==> result == Err::<usize, Errno>(Errno::EAGAIN)
            &&& (t.state is SynSent || t.state is SynReceived) ==> result == Err::<usize, Errno>(
                Errno::EAGAIN,
            )
            &&& (t.state is Established || t.state is CloseWait) && t.fin_queued ==> result == Err::<
                usize,
                Errno,
            >(Errno::EPIPE)
            &&& (t.state is FinWait1 || t.state is FinWait2 || t.state is Closing
                || t.state is LastAck || t.state is TimeWait) ==> result == Err::<usize, Errno>(
                Errno::EPIPE,
            )
            &&& t.state is Listen ==> result == Err::<usize, Errno>(Errno::ENOTCONN)
            &&& t.state is Closed ==> after.error is None && (match t.error {
                Some(reason) => result == Err::<usize, Errno>(reason),
                None => result == Err::<usize, Errno>(Errno::ENOTCONN),
            })
            &&& result is Err ==> sent.len() == 0 && after == TcbView { error: after.error, ..t }
            &&& !(t.state is Closed) ==> after.error == t.error
        }),
{
    let room = 32768 - t.pending.len();
    let n = least(room, buf.len() as int);
    let more = TcbView { pending: t.pending + buf.take(n), ..t };
    sending_keeps_the_rest(more, more.send_limit(), now);
}

/// Bytes written while the other end has no room are kept and not sent, and
/// bytes written while it has room go out at once, as far as both windows
/// reach and no further.
pub proof fn a_write_stays_in_the_window(t: TcbView, buf: Seq<u8>, now: u64)
    requires
        t.valid(),
        buf.len() > 0,
        t.state is Established || t.state is CloseWait,
        !t.fin_queued,
        t.send_window <= 0xFFFF,
        tcp::ahead(t.send_unacknowledged, t.send_next) <= 0x8000_0000,
    ensures
        ({
            let (after, sent, result) = t.written(buf, now);
            let room = least(t.send_window as int, t.congestion_window as int);
            let flying = tcp::ahead(t.send_unacknowledged, after.send_next);
            &&& t.send_window == 0 ==> sent.len() == 0 && after.send_next == t.send_next
            &&& result is Ok ==> flying >= least(after.pending.len() as int, room)
            &&& forall|i: int|
                0 <= i < sent.len() ==> tcp::ahead(
                    t.send_unacknowledged,
                    (#[trigger] sent[i]).sequence,
                ) + sent[i].payload.len() <= room && sent[i].payload.len() > 0
        }),
{
    let room = 32768 - t.pending.len();
    if room > 0 {
        let n = least(room, buf.len() as int);
        let more = TcbView { pending: t.pending + buf.take(n), ..t };
        all_that_may_be_sent_is_sent(more, now);
        sending_keeps_the_rest(more, more.send_limit(), now);
        nothing_without_a_fin(more, more.send_limit(), now);
        let sent = more.flushed(now).1;
        if t.send_window == 0 && sent.len() > 0 {
            assert(sent[0].payload.len() > 0);
            assert(tcp::ahead(t.send_unacknowledged, sent[0].sequence) + sent[0].payload.len() <= 0);
        }
    }
}

/// Without a FIN to send every segment sent has data.
proof fn nothing_without_a_fin(t: TcbView, limit: u32, now: u64)
    requires
        can_be_sent(t),
        !t.fin_queued,
    ensures
        forall|i: int|
            0 <= i < t.sent_up_to(limit, now).1.len() ==> (#[trigger] t.sent_up_to(
                limit,
                now,
            ).1[i]).payload.len() > 0,
    decreases t.pending.len() - t.in_flight(),
{
    reveal_with_fuel(TcbView::sent_up_to, 1);
    let n = t.next_chunk(limit);
    if n > 0 {
        let later = t.past_chunk(n, now);
        assert(later.in_flight() == t.in_flight() + n);
        nothing_without_a_fin(later, limit, now);
        let sent = t.sent_up_to(limit, now).1;
        let rest = later.sent_up_to(limit, now).1;
        assert(sent == seq![t.chunk(n)] + rest);
        assert forall|i: int| 0 <= i < sent.len() implies (#[trigger] sent[i]).payload.len() > 0 by {
            if i > 0 {
                assert(sent[i] == rest[i - 1]);
            } else {
                assert(t.chunk(n).payload.len() == n);
            }
        }
    }
}

/// A read hands out what arrived first, as much of it as is asked for and as
/// there is, and takes it away unless it only looks. With nothing there it
/// reports the end where the other end has finished or nobody wants more, why
/// there is no connection, once, and otherwise that the caller should come back.
pub proof fn what_a_read_comes_to(t: TcbView, size: int, peek: bool)
    requires
        t.valid(),
        size > 0,
    ensures
        ({
            let (after, sent, result) = t.read_out(size, peek);
            let n = least(size, t.received.len() as int);
            &&& t.readable(size) == t.received.take(n)
            &&& t.received.len() > 0 ==> {
                &&& result == Ok::<usize, Errno>(n as usize)
                &&& after.received == (if peek {
                    t.received
                } else {
                    t.received.skip(n)
                })
                &&& t.readable(size) + after.received == (if peek {
                    t.received.take(n) + t.received
                } else {
                    t.received
                })
                &&& after.state == t.state && after.receive_next == t.receive_next
                    && after.pending == t.pending && after.error == t.error
            }
            &&& t.received.len() == 0 ==> {
                let ended = t.fin_received || t.read_shutdown;
                &&& sent.len() == 0
                &&& ended ==> result == Ok::<usize, Errno>(0) && after == t
                &&& !ended && t.state is Closed ==> after == TcbView { error: None, ..t } && result
                    == (match t.error {
                    Some(reason) => Err::<usize, Errno>(reason),
                    None => Ok::<usize, Errno>(0),
                })
                &&& !ended && t.state is Listen ==> result == Err::<usize, Errno>(Errno::ENOTCONN)
                    && after == t
                &&& !ended && !(t.state is Closed) && !(t.state is Listen) ==> result == Err::<
                    usize,
                    Errno,
                >(Errno::EAGAIN) && after == t
            }
            &&& peek ==> sent.len() == 0
        }),
{
    let n = least(size, t.received.len() as int);
    assert(t.received.take(n) + t.received.skip(n) =~= t.received);
    if n == t.received.len() {
        assert(t.received.take(n) =~= t.received);
        assert(t.received.skip(n) =~= Seq::<u8>::empty());
    }
}

/// A read that opens a window too small for a segment to one that holds a
/// segment says so to the other end, and no other read says anything.
pub proof fn a_window_reopened_is_announced(t: TcbView, size: int)
    requires
        t.valid(),
        size > 0,
        t.received.len() > 0,
    ensures
        ({
            let (after, sent, _) = t.read_out(size, false);
            let open = t.state is Established || t.state is FinWait1 || t.state is FinWait2
                || t.state is CloseWait || t.state is Closing || t.state is LastAck
                || t.state is TimeWait;
            &&& (t.window() < t.peer_mss <= after.window() && open) == (sent.len() == 1)
            &&& sent.len() <= 1
            &&& sent.len() == 1 ==> {
                &&& sent[0].window == after.window()
                &&& sent[0].acknowledgement == t.receive_next
                &&& sent[0].sequence == t.send_next
                &&& sent[0].payload.len() == 0
                &&& sent[0].destination == t.remote
            }
        }),
{
    tcp_laws::flag_bits();
}

/// What is offered to the other end is never more than there is room for, and
/// everything there is room for but less than one of its segments.
pub proof fn what_is_offered_there_is_room_for(t: TcbView)
    requires
        t.valid(),
    ensures
        t.received.len() + t.window() <= 32768,
        t.window() + t.held_back + t.received.len() == 32768,
{
}

// ---- what arrives ----------------------------------------------------------

/// A segment is taken notice of exactly where the first or the last number it
/// uses lies in the window offered, or where it uses none and is at the place
/// wanted next of a window that is shut.
pub proof fn which_segments_are_in_the_window(t: TcbView, segment: SegmentView)
    requires
        t.valid(),
        segment.payload.len() <= 0xFFFF,
    ensures
        ({
            let window = t.window() as int;
            let used = segment.payload.len() + (if segment.has(SYN) {
                1int
            } else {
                0
            }) + (if segment.has(FIN) {
                1int
            } else {
                0
            });
            let first = tcp::ahead(t.receive_next, segment.sequence);
            let last = tcp::ahead(
                t.receive_next,
                segment.sequence.wrapping_add((used - 1) as u32),
            );
            &&& used == 0 && window == 0 ==> (t.accepts(segment) <==> first == 0)
            &&& used == 0 && window > 0 ==> (t.accepts(segment) <==> first < window)
            &&& used > 0 ==> (t.accepts(segment) <==> first < window || last < window)
        }),
{
}

/// The window the other end names in a segment that is newer than what it said
/// last is the window from then on, whether it is larger or smaller, and a
/// segment that is not newer leaves it alone. Nothing sent in answer reaches
/// past what was acknowledged and that window.
pub proof fn the_window_is_the_one_named_last(t: TcbView, segment: SegmentView, now: u64)
    requires
        t.valid(),
        is_heard(t, segment),
        segment.payload.len() <= 0xFFFF,
        now <= LAST_TICK,
    ensures
        ({
            let step = t.on_arrival(segment, now);
            let newer = 1 <= tcp::ahead(t.window_sequence, segment.sequence) <= 0x8000_0000 || (
            t.window_sequence == segment.sequence && tcp::ahead(
                t.window_ack,
                segment.acknowledgement,
            ) <= 0x8000_0000);
            &&& step.tcb.send_window == (if newer {
                segment.window as int
            } else {
                t.send_window as int
            })
            &&& newer ==> step.tcb.window_sequence == segment.sequence && step.tcb.window_ack
                == segment.acknowledgement
            &&& !newer ==> step.tcb.window_sequence == t.window_sequence && step.tcb.window_ack
                == t.window_ack
            &&& forall|i: int|
                0 <= i < step.sent.len() && (#[trigger] step.sent[i]).payload.len() > 0
                    ==> tcp::ahead(step.tcb.send_unacknowledged, step.sent[i].sequence)
                    + step.sent[i].payload.len() <= step.tcb.send_window
        }),
{
    acknowledging(t, segment, now);
    moving_along(t, segment, now);
    supplying(t, segment, now);
    ending(t, segment, now);
    let step = t.on_arrival(segment, now);
    let e = before_sending(t, segment, now);
    arrival_ends_with_sending(t, segment, now);
    assert forall|i: int|
        0 <= i < step.sent.len() && (#[trigger] step.sent[i]).payload.len() > 0 implies tcp::ahead(
        step.tcb.send_unacknowledged,
        step.sent[i].sequence,
    ) + step.sent[i].payload.len() <= step.tcb.send_window by {
        let sent = e.flushed(now).1;
        let skipped = step.sent.len() - sent.len();
        if i >= skipped {
            assert(step.sent[i] == sent[i - skipped]);
            tcp_laws::output_sends_pending(e, now, i - skipped);
        }
    }
}

/// What is acknowledged forgotten.
#[verifier::opaque]
spec fn acknowledged(t: TcbView, segment: SegmentView, now: u64) -> TcbView {
    if t.confirms(segment.acknowledgement) {
        t.confirmed(segment.acknowledgement, now)
    } else {
        t
    }
}

/// The window taken over, and the close moved along.
#[verifier::opaque]
spec fn moved_along(t: TcbView, segment: SegmentView, now: u64) -> TcbView {
    acknowledged(t, segment, now).window_updated(segment).close_advanced(now).0
}

/// The data taken.
#[verifier::opaque]
spec fn supplied(t: TcbView, segment: SegmentView, now: u64) -> TcbView {
    moved_along(t, segment, now).data_taken(segment).0
}

/// Where a segment's FIN is.
spec fn fin_of(t: TcbView, segment: SegmentView) -> u32 {
    t.unseen_at(segment).wrapping_add(t.unseen(segment).len() as u32)
}

/// The connection once a segment has been read and before anything is sent.
#[verifier::opaque]
spec fn before_sending(t: TcbView, segment: SegmentView, now: u64) -> TcbView {
    let d = supplied(t, segment, now);
    if segment.has(FIN) {
        d.fin_taken(fin_of(moved_along(t, segment, now), segment), now).0
    } else {
        d
    }
}

/// What an acknowledgement leaves alone.
proof fn acknowledging(t: TcbView, segment: SegmentView, now: u64)
    requires
        t.valid(),
        is_heard(t, segment),
        now <= LAST_TICK,
    ensures
        ({
            let a = acknowledged(t, segment, now);
            &&& a.valid()
            &&& a == TcbView {
                fin_acknowledged: a.fin_acknowledged,
                pending: a.pending,
                send_unacknowledged: a.send_unacknowledged,
                retries: a.retries,
                rto: a.rto,
                congestion_window: a.congestion_window,
                retransmit_at: a.retransmit_at,
                ..t
            }
        }),
{
    reveal(acknowledged);
}

/// What moving the close along leaves alone.
proof fn moving_along(t: TcbView, segment: SegmentView, now: u64)
    requires
        t.valid(),
        is_heard(t, segment),
        now <= LAST_TICK,
    ensures
        ({
            let a = acknowledged(t, segment, now);
            let c = moved_along(t, segment, now);
            let over = a.fin_acknowledged && (t.state is Closing || t.state is LastAck);
            &&& c.valid()
            &&& c == TcbView {
                send_window: c.send_window,
                window_sequence: c.window_sequence,
                window_ack: c.window_ack,
                state: c.state,
                expire_at: c.expire_at,
                retransmit_at: c.retransmit_at,
                pending: c.pending,
                read_shutdown: c.read_shutdown,
                received: c.received,
                ..a
            }
            &&& c.state == (if !a.fin_acknowledged {
                t.state
            } else if t.state is FinWait1 {
                State::FinWait2
            } else if t.state is Closing {
                State::TimeWait
            } else if t.state is LastAck {
                State::Closed
            } else {
                t.state
            })
            &&& !over ==> c.retransmit_at == a.retransmit_at && c.pending == a.pending
                && c.read_shutdown == a.read_shutdown && c.received == a.received
            &&& over ==> c.retransmit_at == 0
            &&& c.state is TimeWait && over ==> c.expire_at == now + 1000
            &&& c.state is Closed ==> c.pending == a.pending
            &&& c.send_window == a.window_updated(segment).send_window
            &&& c.window_sequence == a.window_updated(segment).window_sequence
            &&& c.window_ack == a.window_updated(segment).window_ack
        }),
{
    acknowledging(t, segment, now);
    reveal(moved_along);
}

/// What taking data leaves alone.
proof fn supplying(t: TcbView, segment: SegmentView, now: u64)
    requires
        t.valid(),
        is_heard(t, segment),
        segment.payload.len() <= 0xFFFF,
        now <= LAST_TICK,
    ensures
        ({
            let c = moved_along(t, segment, now);
            let d = supplied(t, segment, now);
            &&& d.valid()
            &&& d == TcbView {
                received: d.received,
                receive_next: d.receive_next,
                held_back: d.held_back,
                ..c
            }
        }),
{
    moving_along(t, segment, now);
    reveal(supplied);
}

/// What taking the FIN leaves alone.
proof fn ending(t: TcbView, segment: SegmentView, now: u64)
    requires
        t.valid(),
        is_heard(t, segment),
        segment.payload.len() <= 0xFFFF,
        now <= LAST_TICK,
    ensures
        ({
            let d = supplied(t, segment, now);
            let e = before_sending(t, segment, now);
            let at = fin_of(moved_along(t, segment, now), segment);
            let fresh = segment.has(FIN) && d.receive_next == at && !d.fin_received;
            &&& e.valid()
            &&& e == TcbView {
                fin_received: e.fin_received,
                receive_next: e.receive_next,
                held_back: e.held_back,
                state: e.state,
                expire_at: e.expire_at,
                retransmit_at: e.retransmit_at,
                pending: e.pending,
                read_shutdown: e.read_shutdown,
                received: e.received,
                ..d
            }
            &&& !fresh ==> e == d
            &&& fresh ==> e.fin_received && e.receive_next == d.receive_next.wrapping_add(1)
                && e.state == (if d.state is Established {
                State::CloseWait
            } else if d.state is FinWait1 {
                State::Closing
            } else if d.state is FinWait2 {
                State::TimeWait
            } else {
                d.state
            })
            &&& fresh && d.state is FinWait2 ==> e.expire_at == now + 1000 && e.retransmit_at
                == 0
            &&& !(d.state is FinWait2) ==> e.pending == d.pending && e.retransmit_at
                == d.retransmit_at && e.received == d.received && e.read_shutdown
                == d.read_shutdown && e.expire_at == d.expire_at
            &&& !d.abandoned ==> e.received == d.received
        }),
{
    supplying(t, segment, now);
    reveal(before_sending);
}

/// What reading a segment came to, with the answer to it and what is sent.
spec fn ends_with_sending(t: TcbView, segment: SegmentView, now: u64, step: Step) -> bool {
    let d = supplied(t, segment, now);
    let e = before_sending(t, segment, now);
    let at = fin_of(moved_along(t, segment, now), segment);
    let (after, sent) = e.flushed(now);
    let answer = e.control(ACK, e.send_next, false);
    let owed = segment.payload.len() > 0 || segment.has(FIN) && (d.receive_next == at
        || d.fin_received && d.receive_next == at.wrapping_add(1));
    &&& step.tcb == after
    &&& step.sent == (if owed && !(e.state is Closed) {
        seq![answer]
    } else {
        Seq::empty()
    }) + sent
    &&& after == TcbView {
        send_next: after.send_next,
        retransmit_at: after.retransmit_at,
        fin_sequence: after.fin_sequence,
        ..e
    }
    &&& t.confirms(segment.acknowledgement) ==> step.woke
    &&& d.received.len() != t.received.len() && !t.abandoned ==> step.woke
    &&& e.fin_received && !t.fin_received ==> step.woke
    &&& moved_along(t, segment, now).state is Closed ==> step.woke
}

/// What is left is to answer and to send.
proof fn arrival_ends_with_sending(t: TcbView, segment: SegmentView, now: u64)
    requires
        t.valid(),
        is_heard(t, segment),
        segment.payload.len() <= 0xFFFF,
        now <= LAST_TICK,
    ensures
        ends_with_sending(t, segment, now, t.on_arrival(segment, now)),
{
    reveal(acknowledged);
    reveal(moved_along);
    reveal(supplied);
    reveal(before_sending);
    let e = before_sending(t, segment, now);
    sending_keeps_the_rest(e, e.send_limit(), now);
}

proof fn acknowledgement_did(t: TcbView, segment: SegmentView, now: u64, step: Step)
    requires
        t.valid(),
        is_heard(t, segment),
        segment.payload.len() <= 0xFFFF,
        now <= LAST_TICK,
        ends_with_sending(t, segment, now, step),
    ensures
        ({
            let by = tcp::ahead(t.send_unacknowledged, segment.acknowledgement);
            let left = tcp::ahead(segment.acknowledgement, t.send_next);
            let news = 1 <= by < 0x8000_0000 && left <= 0x8000_0000;
            let fin = news && !t.fin_acknowledged && t.fin_sequence is Some && 1 <= tcp::ahead(
                t.fin_sequence->0,
                segment.acknowledgement,
            ) <= 0x8000_0000;
            let bytes = by - (if fin {
                1int
            } else {
                0
            });
            &&& step.tcb.send_unacknowledged == (if news {
                segment.acknowledgement
            } else {
                t.send_unacknowledged
            })
            &&& step.tcb.fin_acknowledged == (t.fin_acknowledged || fin)
            &&& news ==> step.woke && step.tcb.retries == 0 && step.tcb.rto == 50
            &&& !news ==> step.tcb.retries == t.retries && step.tcb.rto == t.rto
                && step.tcb.congestion_window == t.congestion_window
            &&& !(step.tcb.state is TimeWait) ==> step.tcb.pending == (if news {
                t.pending.skip(least(bytes, t.pending.len() as int))
            } else {
                t.pending
            })
            &&& news && left > 0 && !(step.tcb.state is TimeWait || step.tcb.state is Closed)
                ==> step.tcb.retransmit_at == now + 50
            &&& news && left == 0 && step.tcb.send_next == t.send_next
                ==> step.tcb.retransmit_at == 0
            &&& !news && t.retransmit_at != 0 && !(step.tcb.state is TimeWait
                || step.tcb.state is Closed) ==> step.tcb.retransmit_at == t.retransmit_at
            &&& t.slow_start_threshold == step.tcb.slow_start_threshold
            &&& step.tcb.local == t.local && step.tcb.remote == t.remote && step.tcb.iss == t.iss
                && step.tcb.irs == t.irs && step.tcb.peer_mss == t.peer_mss && step.tcb.fin_queued
                == t.fin_queued && step.tcb.abandoned == t.abandoned && step.tcb.children
                == t.children && step.tcb.backlog == t.backlog && step.tcb.error == t.error
        }),
{
    let e = before_sending(t, segment, now);
    acknowledging(t, segment, now);
    moving_along(t, segment, now);
    supplying(t, segment, now);
    ending(t, segment, now);
    sending_keeps_the_rest(e, e.send_limit(), now);
    quiet_timer(e, e.send_limit(), now);
    assert(acknowledged(t, segment, now) == (if t.confirms(segment.acknowledgement) {
        t.confirmed(segment.acknowledgement, now)
    } else {
        t
    })) by {
        reveal(acknowledged);
    }
}

/// An acknowledgement of something sent and not acknowledged before is believed:
/// the bytes it covers leave the queue and no others, the next byte to be
/// acknowledged is the one it names, and the count of attempts starts over. The
/// timer stops where everything sent is acknowledged, and starts over where it
/// is not. One of nothing new, or of something never sent, changes neither.
pub proof fn what_an_acknowledgement_does(t: TcbView, segment: SegmentView, now: u64)
    requires
        t.valid(),
        is_heard(t, segment),
        segment.payload.len() <= 0xFFFF,
        now <= LAST_TICK,
    ensures
        ({
            let step = t.on_arrival(segment, now);
            let by = tcp::ahead(t.send_unacknowledged, segment.acknowledgement);
            let left = tcp::ahead(segment.acknowledgement, t.send_next);
            let news = 1 <= by < 0x8000_0000 && left <= 0x8000_0000;
            let fin = news && !t.fin_acknowledged && t.fin_sequence is Some && 1 <= tcp::ahead(
                t.fin_sequence->0,
                segment.acknowledgement,
            ) <= 0x8000_0000;
            let bytes = by - (if fin {
                1int
            } else {
                0
            });
            &&& step.tcb.send_unacknowledged == (if news {
                segment.acknowledgement
            } else {
                t.send_unacknowledged
            })
            &&& step.tcb.fin_acknowledged == (t.fin_acknowledged || fin)
            &&& news ==> step.woke && step.tcb.retries == 0 && step.tcb.rto == 50
            &&& !news ==> step.tcb.retries == t.retries && step.tcb.rto == t.rto
                && step.tcb.congestion_window == t.congestion_window
            &&& !(step.tcb.state is TimeWait) ==> step.tcb.pending == (if news {
                t.pending.skip(least(bytes, t.pending.len() as int))
            } else {
                t.pending
            })
            &&& news && left > 0 && !(step.tcb.state is TimeWait || step.tcb.state is Closed)
                ==> step.tcb.retransmit_at == now + 50
            &&& news && left == 0 && step.tcb.send_next == t.send_next
                ==> step.tcb.retransmit_at == 0
            &&& !news && t.retransmit_at != 0 && !(step.tcb.state is TimeWait
                || step.tcb.state is Closed) ==> step.tcb.retransmit_at == t.retransmit_at
            &&& t.slow_start_threshold == step.tcb.slow_start_threshold
            &&& step.tcb.local == t.local && step.tcb.remote == t.remote && step.tcb.iss == t.iss
                && step.tcb.irs == t.irs && step.tcb.peer_mss == t.peer_mss && step.tcb.fin_queued
                == t.fin_queued && step.tcb.abandoned == t.abandoned && step.tcb.children
                == t.children && step.tcb.backlog == t.backlog && step.tcb.error == t.error
        }),
{
    arrival_ends_with_sending(t, segment, now);
    acknowledgement_did(t, segment, now, t.on_arrival(segment, now));
}

/// A timer that is off stays off where nothing is sent.
proof fn quiet_timer(t: TcbView, limit: u32, now: u64)
    requires
        can_be_sent(t),
    ensures
        ({
            let after = t.sent_up_to(limit, now).0;
            after.send_next == t.send_next ==> after == t
        }),
{
    sending_follows_on(t, limit, now);
    reveal_with_fuel(TcbView::sent_up_to, 1);
    let (after, sent) = t.sent_up_to(limit, now);
    let n = t.next_chunk(limit);
    if n > 0 {
        let later = t.past_chunk(n, now);
        assert(later.in_flight() == t.in_flight() + n);
        sending_moves_on(later, limit, now);
    }
}

/// Sending never moves the next number back.
proof fn sending_moves_on(t: TcbView, limit: u32, now: u64)
    requires
        can_be_sent(t),
        t.in_flight() <= t.pending.len(),
    ensures
        ({
            let after = t.sent_up_to(limit, now).0;
            t.in_flight() <= tcp::ahead(t.send_unacknowledged, after.send_next)
                <= t.pending.len() + 1
        }),
    decreases t.pending.len() - t.in_flight(),
{
    reveal_with_fuel(TcbView::sent_up_to, 1);
    let n = t.next_chunk(limit);
    if n > 0 {
        let later = t.past_chunk(n, now);
        assert(later.in_flight() == t.in_flight() + n);
        sending_moves_on(later, limit, now);
    }
}

/// While attempts are going well the congestion window grows by a segment for
/// each acknowledgement of something new below the threshold, and by less than
/// a segment above it, and never shrinks.
pub proof fn how_the_congestion_window_grows(t: TcbView, segment: SegmentView, now: u64)
    requires
        t.valid(),
        is_heard(t, segment),
        segment.payload.len() <= 0xFFFF,
        now <= LAST_TICK,
        1 <= tcp::ahead(t.send_unacknowledged, segment.acknowledgement) < 0x8000_0000,
        tcp::ahead(segment.acknowledgement, t.send_next) <= 0x8000_0000,
        1460 <= t.congestion_window <= 0xFFFF_0000,
    ensures
        ({
            let after = t.on_arrival(segment, now).tcb.congestion_window;
            &&& t.congestion_window < t.slow_start_threshold ==> after == t.congestion_window + 1460
            &&& t.congestion_window >= t.slow_start_threshold ==> t.congestion_window < after
                <= t.congestion_window + 1460
            &&& t.congestion_window >= t.slow_start_threshold && t.congestion_window <= 2_131_600
                ==> (after - t.congestion_window) * t.congestion_window <= 2_131_600 < (after
                - t.congestion_window + 1) * t.congestion_window
        }),
{
    acknowledging(t, segment, now);
    moving_along(t, segment, now);
    supplying(t, segment, now);
    ending(t, segment, now);
    arrival_ends_with_sending(t, segment, now);
    assert(acknowledged(t, segment, now).congestion_window == t.grown_window()) by {
        reveal(acknowledged);
    }
    let w = t.congestion_window as int;
    let whole: int = 2_131_600;
    let by = whole / w;
    vstd::arithmetic::div_mod::lemma_fundamental_div_mod(whole, w);
    vstd::arithmetic::div_mod::lemma_mod_bound(whole, w);
    assert(w * by + w == (by + 1) * w && w * by == by * w) by (nonlinear_arith);
    assert(by <= 1460) by (nonlinear_arith)
        requires
            w >= 1460,
            w * by <= 2_131_600,
    ;
    if w <= 2_131_600 {
        assert(by >= 1) by (nonlinear_arith)
            requires
                w <= 2_131_600,
                w >= 1,
                w * by + w > 2_131_600,
        ;
    }
}

proof fn next_number(base: u32, at: int)
    requires
        0 <= at,
    ensures
        tcp_laws::number_of(base, at).wrapping_add(1) == tcp_laws::number_of(base, at + 1),
{
}

/// Exactly what comes next is taken, as far as there is room.
proof fn taken_in_order(
    c: TcbView,
    segment: SegmentView,
    stream: Seq<u8>,
    base: u32,
    done: int,
    at: int,
)
    requires
        c.valid(),
        c.reading(),
        c.window() > 0 || segment.payload.len() == 0,
        0 <= done <= stream.len(),
        -0x8000_0000 < at - done < 0x8000_0000,
        c.receive_next == tcp_laws::number_of(base, done),
        tcp_laws::carries(segment, stream, base, at),
    ensures
        ({
            let d = c.data_taken(segment).0;
            let more = if at <= done < at + segment.payload.len() {
                least(at + segment.payload.len() - done, c.window() as int)
            } else {
                0
            };
            &&& d.received == c.received + stream.subrange(done, done + more)
            &&& d.received.len() == c.received.len() + more
            &&& d.receive_next == tcp_laws::number_of(base, done + more)
        }),
{
    tcp_laws::the_stream_is_delivered_in_order(c, segment, stream, base, done, at);
    if at <= done < at + segment.payload.len() {
        if at < done {
            assert(tcp::ahead(segment.sequence, c.receive_next) == done - at);
        }
        assert(c.unseen(segment).len() == at + segment.payload.len() - done);
    }
}

#[verifier::rlimit(60)]
proof fn delivered_in_order(
    t: TcbView,
    segment: SegmentView,
    now: u64,
    stream: Seq<u8>,
    base: u32,
    done: int,
    at: int,
    step: Step,
)
    requires
        t.valid(),
        is_heard(t, segment),
        segment.payload.len() <= 0xFFFF,
        now <= LAST_TICK,
        t.state is Established || t.state is FinWait1 || t.state is FinWait2,
        !t.read_shutdown,
        !t.abandoned,
        0 <= done <= stream.len(),
        -0x8000_0000 < at - done < 0x8000_0000,
        t.receive_next == tcp_laws::number_of(base, done),
        tcp_laws::carries(segment, stream, base, at),
        ends_with_sending(t, segment, now, step),
    ensures
        ({
            let more = if at <= done < at + segment.payload.len() {
                least(at + segment.payload.len() - done, t.window() as int)
            } else {
                0
            };
            let ended = step.tcb.fin_received && !t.fin_received;
            &&& step.tcb.received == t.received + stream.subrange(done, done + more)
            &&& step.tcb.receive_next == tcp_laws::number_of(
                base,
                done + more + if ended {
                    1int
                } else {
                    0
                },
            )
            &&& more > 0 ==> step.woke
            &&& segment.payload.len() > 0 ==> {
                &&& step.sent.len() > 0
                &&& step.sent[0].payload.len() == 0
                &&& step.sent[0].flags == ACK
                &&& step.sent[0].acknowledgement == step.tcb.receive_next
                &&& step.sent[0].window == step.tcb.window()
                &&& step.sent[0].source == t.local
                &&& step.sent[0].destination == t.remote
            }
        }),
{
    let e = before_sending(t, segment, now);
    acknowledging(t, segment, now);
    moving_along(t, segment, now);
    supplying(t, segment, now);
    ending(t, segment, now);
    let c = moved_along(t, segment, now);
    let d = supplied(t, segment, now);
    assert(d == c.data_taken(segment).0) by {
        reveal(supplied);
    }
    assert(c.window() > 0 || segment.payload.len() == 0) by {
        assert(t.accepts(segment));
    }
    taken_in_order(c, segment, stream, base, done, at);
    assert(e.control(ACK, e.send_next, false).acknowledgement == e.receive_next) by {
        tcp_laws::flag_bits();
    }
    let more = d.received.len() - t.received.len();
    next_number(base, done + more);
}

/// A connection somebody reads takes from a segment of the other end's stream
/// the bytes that come next, as many as there is room for, whatever else the
/// segment does, and nothing else. What it tells the other end it wants next is
/// what comes after them, and it answers every segment that brought data.
pub proof fn what_arrives_in_order_is_delivered(
    t: TcbView,
    segment: SegmentView,
    now: u64,
    stream: Seq<u8>,
    base: u32,
    done: int,
    at: int,
)
    requires
        t.valid(),
        is_heard(t, segment),
        segment.payload.len() <= 0xFFFF,
        now <= LAST_TICK,
        t.state is Established || t.state is FinWait1 || t.state is FinWait2,
        !t.read_shutdown,
        !t.abandoned,
        0 <= done <= stream.len(),
        -0x8000_0000 < at - done < 0x8000_0000,
        t.receive_next == tcp_laws::number_of(base, done),
        tcp_laws::carries(segment, stream, base, at),
    ensures
        ({
            let step = t.on_arrival(segment, now);
            let more = if at <= done < at + segment.payload.len() {
                least(at + segment.payload.len() - done, t.window() as int)
            } else {
                0
            };
            let ended = step.tcb.fin_received && !t.fin_received;
            &&& step.tcb.received == t.received + stream.subrange(done, done + more)
            &&& step.tcb.receive_next == tcp_laws::number_of(
                base,
                done + more + if ended {
                    1int
                } else {
                    0
                },
            )
            &&& more > 0 ==> step.woke
            &&& segment.payload.len() > 0 ==> {
                &&& step.sent.len() > 0
                &&& step.sent[0].payload.len() == 0
                &&& step.sent[0].flags == ACK
                &&& step.sent[0].acknowledgement == step.tcb.receive_next
                &&& step.sent[0].window == step.tcb.window()
                &&& step.sent[0].source == t.local
                &&& step.sent[0].destination == t.remote
            }
        }),
{
    arrival_ends_with_sending(t, segment, now);
    delivered_in_order(t, segment, now, stream, base, done, at, t.on_arrival(segment, now));
}

/// Data that nobody will ever read is acknowledged and thrown away, so that the
/// other end can finish: what is wanted next moves past all of it, and nothing
/// is kept.
pub proof fn what_nobody_reads_is_acknowledged(t: TcbView, segment: SegmentView, now: u64)
    requires
        t.valid(),
        is_heard(t, segment),
        segment.payload.len() <= 0xFFFF,
        now <= LAST_TICK,
        t.state is Established || t.state is FinWait1 || t.state is FinWait2,
        t.read_shutdown || t.abandoned,
        segment.sequence == t.receive_next,
        segment.payload.len() > 0,
        !segment.has(FIN),
    ensures
        ({
            let step = t.on_arrival(segment, now);
            &&& step.tcb.received == t.received
            &&& step.tcb.receive_next == t.receive_next.wrapping_add(segment.payload.len() as u32)
            &&& step.sent.len() > 0
            &&& step.sent[0].acknowledgement == step.tcb.receive_next
            &&& step.sent[0].flags == ACK
        }),
{
    tcp_laws::flag_bits();
    acknowledging(t, segment, now);
    moving_along(t, segment, now);
    supplying(t, segment, now);
    ending(t, segment, now);
    arrival_ends_with_sending(t, segment, now);
    assert(supplied(t, segment, now) == moved_along(t, segment, now).data_taken(segment).0) by {
        reveal(supplied);
    }
}

// ---- opening ---------------------------------------------------------------

/// The segment size a request settles: the one it names, but no smaller than
/// the least anybody may insist on and no larger than the link carries, and the
/// one assumed already where it names none.
pub open spec fn is_settled(before: usize, named: Option<u16>, settled: usize) -> bool {
    match named {
        None => settled == before,
        Some(mss) => {
            &&& 536 <= settled <= 1460
            &&& 536 <= mss <= 1460 ==> settled == mss
            &&& mss < 536 ==> settled == 536
            &&& mss > 1460 ==> settled == 1460
        },
    }
}

/// Opening a connection asks once, at the number the connection starts from,
/// and names the largest segment this end takes. The request uses up one
/// number, and is asked again if nothing comes of it.
pub proof fn how_a_connection_is_asked_for(t: TcbView, now: u64, clock_ns: u64, secret: u64)
    requires
        t.valid(),
        t.state is Closed,
        now <= LAST_TICK,
    ensures
        ({
            let (after, sent) = t.opened(now, clock_ns, secret);
            &&& after.state is SynSent
            &&& after.iss == tcp::first_sequence(t.local, t.remote, clock_ns, secret)
            &&& after.send_unacknowledged == after.iss
            &&& after.send_next == after.iss.wrapping_add(1)
            &&& after.retransmit_at == now + 50
            &&& after.retries == 0
            &&& after.local == t.local && after.remote == t.remote
            &&& sent.len() == 1
            &&& sent[0].flags == SYN
            &&& sent[0].sequence == after.iss
            &&& sent[0].acknowledgement == 0
            &&& sent[0].mss == Some(1460u16)
            &&& sent[0].payload.len() == 0
            &&& sent[0].source == t.local && sent[0].destination == t.remote
            &&& sent[0].window == after.window()
        }),
{
    tcp_laws::flag_bits();
}

/// The end that is asked starts where it likes, wants the byte after the
/// request, and takes the request's word for how large a segment may be and how
/// much room there is.
pub proof fn how_a_connection_is_answered(
    t: TcbView,
    request: SegmentView,
    clock_ns: u64,
    secret: u64,
)
    requires
        t.valid(),
    ensures
        ({
            let after = t.accepted(request, clock_ns, secret);
            &&& after.state is SynReceived
            &&& after.irs == request.sequence
            &&& after.receive_next == request.sequence.wrapping_add(1)
            &&& after.send_window == request.window
            &&& after.window_sequence == request.sequence
            &&& after.iss == tcp::first_sequence(t.local, t.remote, clock_ns, secret)
            &&& after.send_unacknowledged == after.iss
            &&& after.window_ack == after.iss
            &&& after.send_next == after.iss.wrapping_add(1)
            &&& is_settled(t.peer_mss, request.mss, after.peer_mss)
            &&& after.local == t.local && after.remote == t.remote
            &&& after.pending == t.pending && after.received == t.received
        }),
{
}

/// What the answer to a connection request does. A request answered at the
/// number asked for opens the connection, and is acknowledged; one that meets
/// another request half way is answered; one refused is over, and says so. An
/// answer to something never asked opens nothing and is reset.
pub proof fn what_an_answer_does(t: TcbView, segment: SegmentView, now: u64)
    requires
        t.valid(),
        t.state is SynSent,
        now <= LAST_TICK,
    ensures
        ({
            let step = t.on_arrival(segment, now);
            let good = 1 <= tcp::ahead(t.iss, segment.acknowledgement) <= 0x8000_0000 && tcp::ahead(
                segment.acknowledgement,
                t.send_next,
            ) <= 0x8000_0000;
            let ack = segment.has(ACK);
            let settled = {
                &&& step.tcb.irs == segment.sequence
                &&& step.tcb.receive_next == segment.sequence.wrapping_add(1)
                &&& step.tcb.send_window == segment.window
                &&& step.tcb.window_sequence == segment.sequence
                &&& is_settled(t.peer_mss, segment.mss, step.tcb.peer_mss)
            };
            &&& ack && !good ==> step.tcb == t && !step.woke
            &&& ack && !good && segment.has(RST) ==> step.sent.len() == 0
            &&& ack && !good && !segment.has(RST) ==> step.sent.len() == 1 && step.sent[0].flags
                == RST && step.sent[0].sequence == segment.acknowledgement
            &&& !(ack && !good) && segment.has(RST) ==> {
                &&& step.tcb == TcbView {
                    state: State::Closed,
                    retransmit_at: 0,
                    error: Some(Errno::ECONNREFUSED),
                    ..t
                }
                &&& step.sent.len() == 0
                &&& step.woke
            }
            &&& !(ack && !good) && !segment.has(RST) && !segment.has(SYN) ==> step.tcb == t
                && step.sent.len() == 0 && !step.woke
            &&& ack && good && !segment.has(RST) && segment.has(SYN) ==> {
                &&& settled
                &&& step.tcb.state is Established
                &&& step.tcb.send_unacknowledged == segment.acknowledgement
                &&& step.tcb.window_ack == segment.acknowledgement
                &&& step.tcb.retries == 0
                &&& step.tcb.send_next == t.send_next ==> step.tcb.retransmit_at == 0
                &&& step.tcb.pending == t.pending
                &&& step.woke
                &&& step.sent.len() > 0
                &&& step.sent[0].flags == ACK
                &&& step.sent[0].sequence == t.send_next
                &&& step.sent[0].acknowledgement == segment.sequence.wrapping_add(1)
            }
            &&& !ack && !segment.has(RST) && segment.has(SYN) ==> {
                &&& settled
                &&& step.tcb.state is SynReceived
                &&& step.tcb.send_unacknowledged == t.send_unacknowledged
                &&& step.sent.len() == 1
                &&& step.sent[0].flags == SYN | ACK
                &&& step.sent[0].sequence == t.iss
                &&& step.sent[0].acknowledgement == segment.sequence.wrapping_add(1)
                &&& step.sent[0].mss == Some(1460u16)
            }
        }),
{
    tcp_laws::flag_bits();
    if segment.has(ACK) && segment.has(SYN) {
        let open = TcbView {
            irs: segment.sequence,
            receive_next: segment.sequence.wrapping_add(1),
            peer_mss: t.agreed_mss(segment),
            send_window: segment.window as u32,
            window_sequence: segment.sequence,
            send_unacknowledged: segment.acknowledgement,
            window_ack: segment.acknowledgement,
            state: State::Established,
            retransmit_at: 0,
            retries: 0,
            ..t
        };
        sending_keeps_the_rest(open, open.send_limit(), now);
        quiet_timer(open, open.send_limit(), now);
    }
}

/// The end that answered a request is connected once its answer is
/// acknowledged, and then reads the segment that did so as it reads any other.
/// An acknowledgement of something it never sent connects nothing and is reset.
pub proof fn what_completes_a_handshake(t: TcbView, segment: SegmentView, now: u64)
    requires
        t.valid(),
        t.state is SynReceived,
        t.accepts(segment),
        segment.has(ACK),
        !segment.has(RST),
        !segment.has(SYN),
    ensures
        ({
            let step = t.on_arrival(segment, now);
            let good = 1 <= tcp::ahead(t.send_unacknowledged, segment.acknowledgement)
                <= 0x8000_0000 && tcp::ahead(segment.acknowledgement, t.send_next) <= 0x8000_0000;
            let connected = TcbView {
                state: State::Established,
                retransmit_at: 0,
                retries: 0,
                ..t
            };
            let heard = connected.on_arrival(segment, now);
            &&& good ==> step.tcb == heard.tcb && step.sent == heard.sent && step.woke
            &&& good ==> is_heard(connected, segment) && connected.valid()
            &&& !good ==> step.tcb == t && !step.woke && step.sent.len() == 1
                && step.sent[0].flags == RST && step.sent[0].sequence == segment.acknowledgement
        }),
{
}

// ---- what is not believed --------------------------------------------------

/// A reset that names the byte wanted next ends the connection: nothing more is
/// sent or waited for, and whoever asks is told that it was reset, or why it
/// had failed before.
pub proof fn what_a_reset_does(t: TcbView, segment: SegmentView, now: u64)
    requires
        t.valid(),
        !(t.state is Closed || t.state is Listen || t.state is SynSent),
        t.accepts(segment),
        segment.has(RST),
    ensures
        ({
            let step = t.on_arrival(segment, now);
            &&& segment.sequence == t.receive_next ==> {
                &&& step.tcb == TcbView {
                    state: State::Closed,
                    retransmit_at: 0,
                    pending: Seq::empty(),
                    error: Some(
                        match t.error {
                            Some(reason) => reason,
                            None => Errno::ECONNRESET,
                        },
                    ),
                    ..t
                }
                &&& step.sent.len() == 0
                &&& step.woke
            }
            &&& segment.sequence != t.receive_next ==> step.tcb == t && step.sent.len() == 1
                && step.sent[0].acknowledgement == t.receive_next && step.sent[0].flags == ACK
        }),
{
    tcp_laws::flag_bits();
}

/// A connection request inside an open connection, and a segment that
/// acknowledges nothing, are not believed: the one is told where this end is,
/// the other is not answered. A connection that is not there hears nothing.
pub proof fn what_is_ignored(t: TcbView, segment: SegmentView, now: u64)
    requires
        t.valid(),
    ensures
        ({
            let step = t.on_arrival(segment, now);
            let open = !(t.state is Closed || t.state is Listen || t.state is SynSent);
            &&& t.state is Closed || t.state is Listen ==> step.tcb == t && step.sent.len() == 0
                && !step.woke
            &&& open && t.accepts(segment) && !segment.has(RST) && segment.has(SYN) ==> {
                &&& step.tcb == t && !step.woke
                &&& step.sent.len() == 1
                &&& step.sent[0].flags == ACK
                &&& step.sent[0].sequence == t.send_next
                &&& step.sent[0].acknowledgement == t.receive_next
            }
            &&& open && t.accepts(segment) && !segment.has(RST) && !segment.has(SYN)
                && !segment.has(ACK) ==> step.tcb == t && step.sent.len() == 0 && !step.woke
            &&& open && !t.accepts(segment) && !segment.has(RST) ==> {
                let again = t.state is SynReceived && segment.has(SYN) && !segment.has(ACK)
                    && segment.sequence == t.irs;
                &&& step.sent.len() == 1
                &&& step.sent[0].acknowledgement == t.receive_next
                &&& step.sent[0].payload.len() == 0
                &&& again ==> step.sent[0].flags == SYN | ACK && step.sent[0].sequence == t.iss
                    && step.sent[0].mss == Some(1460u16)
                &&& !again ==> step.sent[0].flags == ACK && step.sent[0].sequence == t.send_next
                    && step.tcb == t
            }
        }),
{
    tcp_laws::flag_bits();
}

// ---- closing ---------------------------------------------------------------

/// Finishing goes out behind everything queued: the close is on its way from
/// there on, whichever end began it. A connection not yet open is given up, and
/// finishing twice is finishing once.
pub proof fn what_finishing_does(t: TcbView, now: u64)
    requires
        t.valid(),
        now <= LAST_TICK,
    ensures
        ({
            let (after, sent) = t.write_shut(now);
            &&& t.fin_queued ==> after == t && sent.len() == 0
            &&& !t.fin_queued && (t.state is Established || t.state is SynReceived) ==> {
                &&& after.state is FinWait1
                &&& after.fin_queued
                &&& after.pending == t.pending
                &&& (after, sent) == (TcbView {
                    fin_queued: true,
                    state: State::FinWait1,
                    ..t
                }).flushed(now)
            }
            &&& !t.fin_queued && t.state is CloseWait ==> {
                &&& after.state is LastAck
                &&& after.fin_queued
                &&& after.pending == t.pending
                &&& (after, sent) == (TcbView {
                    fin_queued: true,
                    state: State::LastAck,
                    ..t
                }).flushed(now)
            }
            &&& !t.fin_queued && (t.state is SynSent || t.state is Listen || t.state is Closed)
                ==> after == TcbView { state: State::Closed, retransmit_at: 0, ..t } && sent.len()
                == 0
            &&& !t.fin_queued && (t.state is FinWait1 || t.state is FinWait2 || t.state is Closing
                || t.state is LastAck || t.state is TimeWait) ==> after == t && sent.len() == 0
            // Nothing left to send: the FIN itself goes out at once.
            &&& !t.fin_queued && (t.state is Established || t.state is CloseWait)
                && t.pending.len() <= tcp::ahead(t.send_unacknowledged, t.send_next)
                && t.fin_sequence is None ==> {
                &&& sent.len() == 1
                &&& sent[0].flags == FIN | ACK
                &&& sent[0].sequence == t.send_next
                &&& sent[0].acknowledgement == t.receive_next
                &&& after.fin_sequence == Some(t.send_next)
                &&& after.send_next == t.send_next.wrapping_add(1)
                &&& t.retransmit_at == 0 ==> after.retransmit_at == now + t.rto
            }
        }),
{
    more_flag_bits();
    let ending = TcbView {
        fin_queued: true,
        state: if t.state is CloseWait {
            State::LastAck
        } else {
            State::FinWait1
        },
        ..t
    };
    sending_keeps_the_rest(ending, ending.send_limit(), now);
    reveal_with_fuel(TcbView::sent_up_to, 1);
}

proof fn closed_along(t: TcbView, segment: SegmentView, now: u64, step: Step)
    requires
        t.valid(),
        is_heard(t, segment),
        segment.payload.len() <= 0xFFFF,
        now <= LAST_TICK,
        ends_with_sending(t, segment, now, step),
    ensures
        ({
            let ours = step.tcb.fin_acknowledged;
            let theirs = step.tcb.fin_received && !t.fin_received;
            &&& step.tcb.state == next_state(t.state, ours, theirs)
            &&& step.tcb.state is TimeWait && !(t.state is TimeWait) ==> step.tcb.expire_at == now
                + 1000 && step.tcb.retransmit_at == 0 && step.tcb.pending.len() == 0
            &&& step.tcb.state is FinWait2 && t.state is FinWait1 && t.abandoned
                ==> step.tcb.expire_at == now + 6000
            &&& step.tcb.state is Closed ==> step.woke && step.tcb.retransmit_at == 0
        }),
{
    let e = before_sending(t, segment, now);
    acknowledging(t, segment, now);
    moving_along(t, segment, now);
    supplying(t, segment, now);
    ending(t, segment, now);
    moving_along_times(t, segment, now);
    ending_times(t, segment, now);
}

proof fn moving_along_times(t: TcbView, segment: SegmentView, now: u64)
    requires
        t.valid(),
        is_heard(t, segment),
        now <= LAST_TICK,
    ensures
        ({
            let c = moved_along(t, segment, now);
            &&& c.state is TimeWait && !(t.state is TimeWait) ==> c.pending.len() == 0
            &&& c.state is FinWait2 && t.state is FinWait1 && t.abandoned ==> c.expire_at == now
                + 6000
        }),
{
    acknowledging(t, segment, now);
    reveal(moved_along);
}

proof fn ending_times(t: TcbView, segment: SegmentView, now: u64)
    requires
        t.valid(),
        is_heard(t, segment),
        segment.payload.len() <= 0xFFFF,
        now <= LAST_TICK,
    ensures
        ({
            let d = supplied(t, segment, now);
            let e = before_sending(t, segment, now);
            e.state is TimeWait && d.state is FinWait2 ==> e.pending.len() == 0
        }),
{
    supplying(t, segment, now);
    reveal(before_sending);
}

/// The state a close is in once this end's FIN is known to have arrived, or the
/// other end's FIN has.
pub open spec fn next_state(state: State, ours: bool, theirs: bool) -> State {
    match state {
        State::Established => if theirs {
            State::CloseWait
        } else {
            State::Established
        },
        State::FinWait1 => if ours && theirs {
            State::TimeWait
        } else if ours {
            State::FinWait2
        } else if theirs {
            State::Closing
        } else {
            State::FinWait1
        },
        State::FinWait2 => if theirs {
            State::TimeWait
        } else {
            State::FinWait2
        },
        State::Closing => if ours {
            State::TimeWait
        } else {
            State::Closing
        },
        State::LastAck => if ours {
            State::Closed
        } else {
            State::LastAck
        },
        _ => state,
    }
}

/// How a close moves along: step by step with the two FINs, whichever arrives
/// first, with a wait at the end for the end that finished first.
pub proof fn how_a_close_moves_along(t: TcbView, segment: SegmentView, now: u64)
    requires
        t.valid(),
        is_heard(t, segment),
        segment.payload.len() <= 0xFFFF,
        now <= LAST_TICK,
    ensures
        ({
            let step = t.on_arrival(segment, now);
            let ours = step.tcb.fin_acknowledged;
            let theirs = step.tcb.fin_received && !t.fin_received;
            &&& step.tcb.state == next_state(t.state, ours, theirs)
            &&& step.tcb.state is TimeWait && !(t.state is TimeWait) ==> step.tcb.expire_at == now
                + 1000 && step.tcb.retransmit_at == 0 && step.tcb.pending.len() == 0
            &&& step.tcb.state is FinWait2 && t.state is FinWait1 && t.abandoned
                ==> step.tcb.expire_at == now + 6000
            &&& step.tcb.state is Closed ==> step.woke && step.tcb.retransmit_at == 0
        }),
{
    arrival_ends_with_sending(t, segment, now);
    closed_along(t, segment, now, t.on_arrival(segment, now));
}

proof fn finished_heard(t: TcbView, segment: SegmentView, now: u64, step: Step)
    requires
        t.valid(),
        is_heard(t, segment),
        segment.payload.len() <= 0xFFFF,
        now <= LAST_TICK,
        !t.fin_received,
        ends_with_sending(t, segment, now, step),
    ensures
        ({
            let end = segment.sequence.wrapping_add(segment.payload.len() as u32);
            let left = tcp::ahead(t.receive_next, end);
            let reads = (t.state is Established || t.state is FinWait1 || t.state is FinWait2)
                && !t.read_shutdown && !t.abandoned;
            let reaches = tcp::ahead(segment.sequence, t.receive_next) <= segment.payload.len();
            &&& !segment.has(FIN) ==> !step.tcb.fin_received
            &&& segment.has(FIN) && reaches && (!reads || left <= t.window()) ==> {
                &&& step.tcb.fin_received
                &&& step.tcb.receive_next == end.wrapping_add(1)
                &&& step.woke
                &&& !(step.tcb.state is Closed) ==> step.sent.len() > 0 && step.sent[0].flags
                    == ACK && step.sent[0].acknowledgement == end.wrapping_add(1)
            }
            &&& segment.has(FIN) && reaches && reads && left > t.window()
                ==> !step.tcb.fin_received
            &&& segment.has(FIN) && !reaches ==> !step.tcb.fin_received && step.tcb.receive_next
                == t.receive_next
        }),
{
    let e = before_sending(t, segment, now);
    acknowledging(t, segment, now);
    moving_along(t, segment, now);
    supplying(t, segment, now);
    ending(t, segment, now);
    let c = moved_along(t, segment, now);
    let d = supplied(t, segment, now);
    assert(d == c.data_taken(segment).0) by {
        reveal(supplied);
    }
    assert(e.control(ACK, e.send_next, false).acknowledgement == e.receive_next) by {
        tcp_laws::flag_bits();
    }
    assert(segment.has(FIN) ==> tcp::ahead(t.receive_next, segment.sequence) <= 0x8000
        || tcp::ahead(
        t.receive_next,
        segment.sequence.wrapping_add(segment.payload.len() as u32),
    ) <= 0x8000) by {
        if segment.has(FIN) {
            assert(t.accepts(segment));
            assert(segment.length() == segment.payload.len() + 1);
        }
    }
    fin_position(c, segment);
}

/// Where the data of a segment leaves what is wanted next, and where its FIN
/// is.
proof fn fin_position(c: TcbView, segment: SegmentView)
    requires
        c.valid(),
        segment.payload.len() <= 0xFFFF,
        segment.has(FIN) ==> tcp::ahead(c.receive_next, segment.sequence) <= 0x8000
            || tcp::ahead(
            c.receive_next,
            segment.sequence.wrapping_add(segment.payload.len() as u32),
        ) <= 0x8000,
    ensures
        ({
            let d = c.data_taken(segment).0;
            let end = segment.sequence.wrapping_add(segment.payload.len() as u32);
            let left = tcp::ahead(c.receive_next, end);
            let reaches = tcp::ahead(segment.sequence, c.receive_next) <= segment.payload.len();
            &&& reaches ==> fin_of(c, segment) == end
            &&& reaches && (!c.reading() || left <= c.window()) ==> d.receive_next == end
            &&& reaches && c.reading() && left > c.window() ==> d.receive_next != end
            &&& !reaches ==> d.receive_next == c.receive_next && (segment.has(FIN) ==> fin_of(
                c,
                segment,
            ) != c.receive_next)
        }),
{
}

/// The other end's FIN is taken once every byte before it has been, and then
/// only: what is wanted next moves past it, whoever reads is woken to see the
/// end, and it is acknowledged.
pub proof fn when_the_other_end_has_finished(t: TcbView, segment: SegmentView, now: u64)
    requires
        t.valid(),
        is_heard(t, segment),
        segment.payload.len() <= 0xFFFF,
        now <= LAST_TICK,
        !t.fin_received,
    ensures
        ({
            let step = t.on_arrival(segment, now);
            let end = segment.sequence.wrapping_add(segment.payload.len() as u32);
            let left = tcp::ahead(t.receive_next, end);
            let reads = (t.state is Established || t.state is FinWait1 || t.state is FinWait2)
                && !t.read_shutdown && !t.abandoned;
            let reaches = tcp::ahead(segment.sequence, t.receive_next) <= segment.payload.len();
            &&& !segment.has(FIN) ==> !step.tcb.fin_received
            &&& segment.has(FIN) && reaches && (!reads || left <= t.window()) ==> {
                &&& step.tcb.fin_received
                &&& step.tcb.receive_next == end.wrapping_add(1)
                &&& step.woke
                &&& !(step.tcb.state is Closed) ==> step.sent.len() > 0 && step.sent[0].flags
                    == ACK && step.sent[0].acknowledgement == end.wrapping_add(1)
            }
            &&& segment.has(FIN) && reaches && reads && left > t.window()
                ==> !step.tcb.fin_received
            &&& segment.has(FIN) && !reaches ==> !step.tcb.fin_received && step.tcb.receive_next
                == t.receive_next
        }),
{
    arrival_ends_with_sending(t, segment, now);
    finished_heard(t, segment, now, t.on_arrival(segment, now));
}

// ---- timers ----------------------------------------------------------------

/// What a timeout does. Each attempt waits twice as long as the one before, up
/// to a limit, and the congestion window goes back to one segment. A handshake
/// asks again what it asked; an open connection goes back to the first byte
/// that has not been acknowledged; with no room at the other end a single byte
/// asks whether there is any now. After the last attempt the connection is over
/// and the other end is told.
pub proof fn what_a_timeout_does(t: TcbView, now: u64)
    requires
        t.valid(),
        now <= LAST_TICK,
        t.expire_at == 0,
        0 < t.retransmit_at <= now,
    ensures
        ({
            let step = t.on_deadline(now);
            let most: int = if t.state is SynSent || t.state is SynReceived {
                5
            } else {
                8
            };
            let open = !(t.state is SynSent || t.state is SynReceived);
            &&& t.retries >= most ==> {
                &&& step.tcb.state is Closed
                &&& step.tcb.error == Some(Errno::ETIMEDOUT)
                &&& step.tcb.pending.len() == 0
                &&& step.tcb.retransmit_at == 0
                &&& step.woke
                &&& t.state is SynSent ==> step.sent.len() == 0
                &&& !(t.state is SynSent) ==> step.sent.len() == 1 && step.sent[0].flags == RST
                    | ACK && step.sent[0].sequence == t.send_next
            }
            &&& t.retries < most ==> {
                &&& step.tcb.state == t.state
                &&& step.tcb.retries == t.retries + 1
                &&& step.tcb.rto == least(2 * t.rto, 600)
                &&& step.tcb.retransmit_at == now + step.tcb.rto
                &&& step.tcb.congestion_window == 1460
                &&& step.tcb.slow_start_threshold >= 2920
                &&& step.tcb.slow_start_threshold == 2920 || step.tcb.slow_start_threshold
                    == tcp::ahead(t.send_unacknowledged, t.send_next) / 2
                &&& 2 * step.tcb.slow_start_threshold + 1 >= tcp::ahead(
                    t.send_unacknowledged,
                    t.send_next,
                )
                &&& !step.woke
                &&& step.tcb.pending == t.pending
                &&& step.tcb.send_unacknowledged == t.send_unacknowledged
                &&& step.tcb.error == t.error
            }
            &&& t.retries < most && !open ==> {
                &&& step.sent.len() == 1
                &&& step.sent[0].sequence == t.iss
                &&& step.sent[0].mss == Some(1460u16)
                &&& step.sent[0].flags == (if t.state is SynSent {
                    SYN
                } else {
                    SYN | ACK
                })
            }
            &&& t.retries < most && open && t.send_window == 0 && t.pending.len() > 0 ==> {
                &&& step.sent.len() == 1
                &&& step.sent[0].sequence == t.send_unacknowledged
                &&& step.sent[0].payload == t.pending.take(1)
                &&& step.tcb.send_next == t.send_unacknowledged.wrapping_add(1)
            }
            &&& t.retries < most && t.state.sending() && !(t.send_window == 0 && t.pending.len()
                > 0) ==> (step.tcb, step.sent) == (TcbView {
                send_next: t.send_unacknowledged,
                fin_sequence: None,
                retries: step.tcb.retries,
                rto: step.tcb.rto,
                retransmit_at: step.tcb.retransmit_at,
                congestion_window: step.tcb.congestion_window,
                slow_start_threshold: step.tcb.slow_start_threshold,
                ..t
            }).flushed(now)
        }),
{
    let again = t.backed_off(now);
    let back = TcbView { send_next: t.send_unacknowledged, fin_sequence: None, ..again };
    sending_keeps_the_rest(back, back.send_limit(), now);
}

/// A wait that only a clock ends is ended by the clock, and by nothing sooner.
pub proof fn what_the_end_of_a_wait_does(t: TcbView, now: u64)
    requires
        t.valid(),
        t.expire_at != 0,
    ensures
        now < t.expire_at ==> t.on_deadline(now).tcb == t && t.on_deadline(now).sent.len() == 0,
        now >= t.expire_at ==> {
            let step = t.on_deadline(now);
            &&& step.tcb.state is Closed
            &&& step.tcb.expire_at == 0
            &&& step.tcb.pending.len() == 0
            &&& step.sent.len() == 0
            &&& step.woke
            &&& step.tcb.received == t.received
        },
{
}

/// The next deadline of a connection is the sooner of what it waits for, and
/// there is none where it waits for nothing.
pub proof fn when_something_is_due(t: TcbView)
    requires
        t.valid(),
    ensures
        t.retransmit_at == 0 && t.expire_at == 0 ==> t.deadline() == u64::MAX,
        t.retransmit_at != 0 ==> t.deadline() <= t.retransmit_at,
        t.expire_at != 0 ==> t.deadline() <= t.expire_at,
        t.deadline() != u64::MAX ==> t.deadline() == t.retransmit_at || t.deadline()
            == t.expire_at,
{
}

} // verus!
