//! What each step of a connection changes, and that it changes nothing else.

use crate::errno::Errno;
use crate::net::tcp::{self, SegmentView, State, TcbView, ACK, LAST_TICK, RST, SYN};
use crate::net::tcp_laws;
use vstd::prelude::*;

verus! {

/// A connection that is given up forgets what it had to send and stops its
/// timer; its other end is told where it is there to be told. What had arrived
/// can still be read.
pub proof fn giving_up_changes_no_more(t: TcbView)
    ensures
        t.aborted().0 == (TcbView {
            state: State::Closed,
            retransmit_at: 0,
            pending: Seq::empty(),
            fin_queued: false,
            ..t
        }),
        ({
            let there = !(t.state is Closed || t.state is Listen || t.state is SynSent);
            let sent = t.aborted().1;
            &&& !there ==> sent.len() == 0
            &&& there ==> sent.len() == 1 && sent[0].flags == RST | ACK && sent[0].sequence
                == t.send_next && sent[0].acknowledgement == t.receive_next
                && sent[0].payload.len() == 0 && sent[0].mss is None && sent[0].source == t.local
                && sent[0].destination == t.remote
        }),
{
    tcp_laws::flag_bits();
}

/// Answering a request settles where both ends start and what the other end
/// takes, and begins with one segment and half a second.
pub proof fn answering_changes_no_more(
    t: TcbView,
    request: SegmentView,
    clock_ns: u64,
    secret: u64,
)
    ensures
        ({
            let after = t.accepted(request, clock_ns, secret);
            let iss = tcp::first_sequence(t.local, t.remote, clock_ns, secret);
            after == TcbView {
                irs: request.sequence,
                receive_next: request.sequence.wrapping_add(1),
                peer_mss: after.peer_mss,
                send_window: request.window as u32,
                window_sequence: request.sequence,
                iss,
                send_unacknowledged: iss,
                send_next: iss.wrapping_add(1),
                window_ack: iss,
                state: State::SynReceived,
                congestion_window: 1460,
                rto: 50,
                ..t
            }
        }),
{
}

/// Asking settles where this end starts, and begins with one segment and half
/// a second.
pub proof fn asking_changes_no_more(t: TcbView, now: u64, clock_ns: u64, secret: u64)
    requires
        t.valid(),
        t.state is Closed,
        now <= LAST_TICK,
    ensures
        ({
            let after = t.opened(now, clock_ns, secret).0;
            let iss = tcp::first_sequence(t.local, t.remote, clock_ns, secret);
            after == TcbView {
                iss,
                send_unacknowledged: iss,
                send_next: iss.wrapping_add(1),
                state: State::SynSent,
                congestion_window: 1460,
                rto: 50,
                retries: 0,
                held_back: 0,
                retransmit_at: (now + 50) as u64,
                ..t
            }
        }),
{
}

/// An acknowledgement takes what it covers out of what has to be sent, starts
/// the timeout over at half a second or stops it where nothing is outstanding,
/// and moves nothing of what arrives.
pub proof fn acknowledging_changes_no_more(t: TcbView, acknowledgement: u32, now: u64)
    requires
        t.valid(),
        now <= LAST_TICK,
    ensures
        ({
            let after = t.confirmed(acknowledgement, now);
            let covered = tcp::ahead(t.send_unacknowledged, acknowledgement);
            let fin = t.fin_sequence is Some && !t.fin_acknowledged && tcp::ahead(
                t.fin_sequence->0,
                acknowledgement,
            ) != 0 && tcp::ahead(t.fin_sequence->0, acknowledgement) <= 0x8000_0000;
            let bytes = if fin {
                covered - 1
            } else {
                covered
            };
            &&& after == TcbView {
                fin_acknowledged: after.fin_acknowledged,
                pending: after.pending,
                send_unacknowledged: acknowledgement,
                retries: 0,
                rto: 50,
                congestion_window: after.congestion_window,
                retransmit_at: after.retransmit_at,
                ..t
            }
            &&& after.fin_acknowledged == (t.fin_acknowledged || fin)
            &&& after.retransmit_at == (if acknowledgement == t.send_next {
                0
            } else {
                now + 50
            })
            &&& 0 <= bytes <= t.pending.len() ==> after.pending == t.pending.subrange(
                bytes,
                t.pending.len() as int,
            )
            &&& bytes > t.pending.len() ==> after.pending.len() == 0
        }),
{
    let after = t.confirmed(acknowledgement, now);
    let covered = tcp::ahead(t.send_unacknowledged, acknowledgement);
    assert forall|k: int| 0 <= k <= t.pending.len() implies #[trigger] t.pending.skip(k)
        == t.pending.subrange(k, t.pending.len() as int) by {
        assert(t.pending.skip(k) =~= t.pending.subrange(k, t.pending.len() as int));
    }
}

/// A newer view of the other end's window replaces the one that was held, with
/// where it came from; an older one is passed over.
pub proof fn taking_a_window_changes_no_more(t: TcbView, segment: SegmentView)
    ensures
        ({
            let after = t.window_updated(segment);
            let on = tcp::ahead(t.window_sequence, segment.sequence);
            let newer = 0 < on < 0x8000_0000 || on == 0 && tcp::ahead(
                t.window_ack,
                segment.acknowledgement,
            ) < 0x8000_0000;
            let older = on > 0x8000_0000 || on == 0 && tcp::ahead(
                t.window_ack,
                segment.acknowledgement,
            ) > 0x8000_0000;
            &&& newer ==> after == TcbView {
                send_window: segment.window as u32,
                window_sequence: segment.sequence,
                window_ack: segment.acknowledgement,
                ..t
            }
            &&& older ==> after == t
        }),
{
}

/// Waiting for stray segments to die out takes ten seconds. Nothing is sent or
/// taken in that time; what had arrived can be read by whoever is left to read
/// it.
pub proof fn waiting_out_changes_no_more(t: TcbView, now: u64)
    requires
        now <= LAST_TICK,
    ensures
        t.waiting_out(now) == (TcbView {
            state: State::TimeWait,
            expire_at: (now + 1000) as u64,
            retransmit_at: 0,
            pending: Seq::empty(),
            read_shutdown: true,
            received: if t.abandoned {
                Seq::empty()
            } else {
                t.received
            },
            ..t
        }),
        t.half_closed(now) == (TcbView {
            state: State::FinWait2,
            expire_at: if t.abandoned {
                (now + 6000) as u64
            } else {
                t.expire_at
            },
            ..t
        }),
        t.orphaned(now) == (TcbView {
            abandoned: true,
            expire_at: if t.state is FinWait2 && t.expire_at == 0 {
                (now + 6000) as u64
            } else {
                t.expire_at
            },
            ..t
        }),
{
}

/// Once the other end has this end's FIN, a connection that was closing moves
/// on, and one that was not does not.
pub proof fn a_close_changes_no_more(t: TcbView, now: u64)
    requires
        now <= LAST_TICK,
    ensures
        ({
            let (after, over) = t.close_advanced(now);
            &&& !t.fin_acknowledged ==> after == t && !over
            &&& t.fin_acknowledged && t.state is FinWait1 ==> after == t.half_closed(now) && !over
            &&& t.fin_acknowledged && t.state is Closing ==> after == t.waiting_out(now) && over
            &&& t.fin_acknowledged && t.state is LastAck ==> over && after == TcbView {
                state: State::Closed,
                retransmit_at: 0,
                ..t
            }
            &&& !(t.state is FinWait1 || t.state is Closing || t.state is LastAck) ==> after == t
                && !over
        }),
{
}

/// What of a segment is new: everything past what has been taken already.
pub proof fn what_of_a_segment_is_new(t: TcbView, segment: SegmentView)
    requires
        segment.payload.len() <= 0xFFFF,
    ensures
        ({
            let behind = tcp::ahead(segment.sequence, t.receive_next);
            let ahead = tcp::ahead(t.receive_next, segment.sequence);
            &&& ahead == 0 ==> t.unseen(segment) == segment.payload && t.unseen_at(segment)
                == t.receive_next
            &&& 0 < ahead < 0x8000_0000 ==> t.unseen(segment) == segment.payload && t.unseen_at(
                segment,
            ) == segment.sequence
            &&& 0 < behind < 0x8000_0000 && behind < segment.payload.len() ==> t.unseen(segment)
                == segment.payload.subrange(behind, segment.payload.len() as int) && t.unseen_at(
                segment,
            ) == t.receive_next
            &&& 0 < behind < 0x8000_0000 && behind >= segment.payload.len() ==> t.unseen(
                segment,
            ).len() == 0 && t.unseen_at(segment) == t.receive_next
        }),
{
    let behind = tcp::ahead(segment.sequence, t.receive_next);
    if 0 < behind < segment.payload.len() {
        assert(segment.payload.skip(behind) =~= segment.payload.subrange(
            behind,
            segment.payload.len() as int,
        ));
    }
}

/// Taking data moves what is wanted next on by as much as was taken, and puts
/// it behind what is waiting to be read where somebody can read it.
pub proof fn taking_data_changes_no_more(t: TcbView, segment: SegmentView)
    requires
        t.valid(),
        segment.payload.len() <= 0xFFFF,
    ensures
        ({
            let (after, delivered) = t.data_taken(segment);
            let new = t.unseen(segment);
            let next = t.unseen_at(segment) == t.receive_next && new.len() > 0;
            let read = !t.read_shutdown && !t.abandoned && (t.state is Established
                || t.state is FinWait1 || t.state is FinWait2);
            let room = 32768 - t.received.len() - t.held_back;
            let n = if new.len() < room {
                new.len() as int
            } else {
                room
            };
            &&& !next ==> after == t && !delivered
            &&& next && read ==> delivered && after == TcbView {
                received: t.received + new.take(n),
                receive_next: t.receive_next.wrapping_add(n as u32),
                ..t
            }
            &&& next && !read ==> !delivered && after == TcbView {
                receive_next: t.receive_next.wrapping_add(new.len() as u32),
                held_back: after.held_back,
                ..t
            }
        }),
{
}

/// Freed room is offered once it comes to a whole segment, and until then held
/// back, never more of it than there is.
pub proof fn freeing_room_changes_no_more(t: TcbView, freed: int)
    requires
        t.valid(),
        0 <= freed <= 0xFFFF,
    ensures
        ({
            let after = t.freeing(freed);
            let back = t.held_back + freed;
            let free = 32768 - t.received.len();
            &&& after == TcbView { held_back: after.held_back, ..t }
            &&& back >= t.peer_mss ==> after.held_back == 0
            &&& back < t.peer_mss && back <= free ==> after.held_back == back
            &&& back < t.peer_mss && back > free ==> after.held_back == free
        }),
{
}

/// A FIN is taken where every byte before it has been, once: it is counted and
/// the connection moves on to where the other end's finishing takes it. Told
/// again it is only acknowledged again; ahead of missing bytes it is not heard.
pub proof fn taking_a_fin_changes_no_more(t: TcbView, at: u32, now: u64)
    requires
        t.valid(),
        now <= LAST_TICK,
    ensures
        ({
            let (after, woken, owed) = t.fin_taken(at, now);
            let over = TcbView {
                fin_received: true,
                receive_next: t.receive_next.wrapping_add(1),
                ..t
            }.freeing(1);
            let fresh = at == t.receive_next && !t.fin_received;
            &&& fresh ==> woken && owed
            &&& fresh && t.state is Established ==> after == TcbView {
                state: State::CloseWait,
                ..over
            }
            &&& fresh && t.state is FinWait1 ==> after == TcbView { state: State::Closing, ..over }
            &&& fresh && t.state is FinWait2 ==> after == over.waiting_out(now)
            &&& fresh && !(t.state is Established || t.state is FinWait1 || t.state is FinWait2)
                ==> after == over
            &&& !fresh ==> after == t && !woken
            &&& !fresh ==> owed == (t.fin_received && (at == t.receive_next || tcp::ahead(
                at,
                t.receive_next,
            ) == 1))
        }),
{
}

/// Going back to what was not acknowledged: twice the timeout, no more than six
/// seconds, one segment at a time again, and half of what was outstanding as
/// the mark to slow down at.
pub proof fn backing_off_changes_no_more(t: TcbView, now: u64)
    requires
        t.valid(),
        now <= LAST_TICK,
        t.retries <= 8,
    ensures
        ({
            let after = t.backed_off(now);
            let out = tcp::ahead(t.send_unacknowledged, t.send_next);
            &&& after == TcbView {
                retries: (t.retries + 1) as u32,
                rto: after.rto,
                retransmit_at: (now + after.rto) as u64,
                slow_start_threshold: after.slow_start_threshold,
                congestion_window: 1460,
                ..t
            }
            &&& t.rto < 300 ==> after.rto == 2 * t.rto
            &&& t.rto >= 300 ==> after.rto == 600
            &&& out < 5840 ==> after.slow_start_threshold == 2920
            &&& out >= 5840 ==> after.slow_start_threshold == out / 2
        }),
{
}

/// A timeout of a connection that is waiting for nothing does nothing, and the
/// last one gives the connection up and says that it timed out. The end of a
/// wait closes the connection and leaves what can still be read.
pub proof fn what_the_clock_changes(t: TcbView, now: u64)
    requires
        t.valid(),
        now <= LAST_TICK,
    ensures
        ({
            let step = t.on_deadline(now);
            let most: int = if t.state is SynSent || t.state is SynReceived {
                5
            } else {
                8
            };
            &&& t.expire_at != 0 && now >= t.expire_at ==> step.sent.len() == 0 && step.woke
                && step.tcb == TcbView {
                state: State::Closed,
                expire_at: 0,
                retransmit_at: 0,
                pending: Seq::empty(),
                ..t
            }
            &&& t.expire_at != 0 && now < t.expire_at ==> step.tcb == t && step.sent.len() == 0
                && !step.woke
            &&& t.expire_at == 0 && (t.retransmit_at == 0 || now < t.retransmit_at) ==> step.tcb
                == t && step.sent.len() == 0 && !step.woke
            &&& t.expire_at == 0 && 0 < t.retransmit_at <= now && t.retries >= most ==> step.woke
                && step.sent == t.aborted().1 && step.tcb == TcbView {
                retries: (t.retries + 1) as u32,
                error: Some(Errno::ETIMEDOUT),
                ..t.aborted().0
            }
            &&& t.expire_at == 0 && 0 < t.retransmit_at <= now && t.retries < most && (
            t.state is SynSent || t.state is SynReceived) ==> step.tcb == t.backed_off(now)
            &&& t.expire_at == 0 && 0 < t.retransmit_at <= now && t.retries < most && !(
            t.state is SynSent || t.state is SynReceived) && t.send_window == 0 && t.pending.len()
                > 0 ==> step.tcb == TcbView {
                send_next: t.send_unacknowledged.wrapping_add(1),
                fin_sequence: None,
                ..t.backed_off(now)
            }
        }),
{
}

/// What an answer to a connection request changes. Refused, the connection is
/// over. Answered, it knows where the other end starts and what that takes, and
/// is open where its own request was acknowledged.
pub proof fn an_answer_changes_no_more(t: TcbView, segment: SegmentView, now: u64)
    requires
        t.valid(),
        t.state is SynSent,
        now <= LAST_TICK,
    ensures
        ({
            let step = t.on_arrival(segment, now);
            let ack = segment.flags & 16 != 0;
            let syn = segment.flags & 2 != 0;
            let rst = segment.flags & 4 != 0;
            let agreed = TcbView {
                irs: segment.sequence,
                receive_next: segment.sequence.wrapping_add(1),
                peer_mss: t.agreed_mss(segment),
                send_window: segment.window as u32,
                window_sequence: segment.sequence,
                ..t
            };
            &&& !ack && rst ==> step.woke && step.sent.len() == 0 && step.tcb == TcbView {
                state: State::Closed,
                retransmit_at: 0,
                error: Some(Errno::ECONNREFUSED),
                ..t
            }
            &&& !ack && !rst && !syn ==> step.tcb == t && step.sent.len() == 0 && !step.woke
            &&& !ack && !rst && syn ==> !step.woke && step.tcb == TcbView {
                state: State::SynReceived,
                retransmit_at: step.tcb.retransmit_at,
                ..agreed
            } && (t.retransmit_at != 0 ==> step.tcb.retransmit_at == t.retransmit_at)
            &&& ack && segment.acknowledgement == t.send_next && t.send_next
                == t.iss.wrapping_add(1) && rst ==> step.woke && step.sent.len() == 0 && step.tcb
                == TcbView {
                state: State::Closed,
                retransmit_at: 0,
                error: Some(Errno::ECONNREFUSED),
                ..t
            }
            &&& ack && segment.acknowledgement == t.send_next && t.send_next
                == t.iss.wrapping_add(1) && !rst && syn ==> step.woke && step.tcb == (TcbView {
                send_unacknowledged: segment.acknowledgement,
                window_ack: segment.acknowledgement,
                state: State::Established,
                retransmit_at: 0,
                retries: 0,
                ..agreed
            }).flushed(now).0
        }),
{
    tcp_laws::flag_bits();
}

/// A segment says what it is asked to say, from this end to the other, and how
/// much room there is.
pub proof fn what_a_segment_says(
    t: TcbView,
    flags: u8,
    sequence: u32,
    payload: Seq<u8>,
    with_mss: bool,
)
    requires
        t.valid(),
    ensures
        ({
            let o = t.segment(flags, sequence, payload, with_mss);
            &&& o.source == t.local && o.destination == t.remote
            &&& o.sequence == sequence
            &&& o.flags == flags
            &&& flags & 16 != 0 ==> o.acknowledgement == t.receive_next
            &&& flags & 16 == 0 ==> o.acknowledgement == 0
            &&& o.window == 32768 - t.received.len() - t.held_back
            &&& with_mss ==> o.mss == Some(1460u16)
            &&& !with_mss ==> o.mss is None
            &&& o.payload == payload
            &&& t.control(flags, sequence, with_mss) == t.segment(
                flags,
                sequence,
                Seq::empty(),
                with_mss,
            )
            &&& t.acknowledgement() == t.segment(16, t.send_next, Seq::empty(), false)
        }),
{
}

/// A segment outside the window draws an acknowledgement of where this end is,
/// but for a reset, which draws none, and for a request repeated while it is
/// being answered, which is answered again.
pub proof fn what_a_stray_segment_draws(t: TcbView, segment: SegmentView, now: u64)
    requires
        t.valid(),
        now <= LAST_TICK,
        !(t.state is Closed || t.state is Listen || t.state is SynSent),
        !t.accepts(segment),
    ensures
        ({
            let step = t.on_arrival(segment, now);
            let ack = segment.flags & 16 != 0;
            let syn = segment.flags & 2 != 0;
            let rst = segment.flags & 4 != 0;
            let again = t.state is SynReceived && syn && !ack && segment.sequence == t.irs;
            &&& !step.woke
            &&& rst ==> step.tcb == t && step.sent.len() == 0
            &&& !rst && again ==> {
                &&& step.tcb == TcbView { retransmit_at: step.tcb.retransmit_at, ..t }
                &&& t.retransmit_at != 0 ==> step.tcb.retransmit_at == t.retransmit_at
                &&& t.retransmit_at == 0 ==> step.tcb.retransmit_at == now + t.rto
                &&& step.sent.len() == 1 && step.sent[0].flags == SYN | ACK
                    && step.sent[0].sequence == t.iss && step.sent[0].mss == Some(1460u16)
                    && step.sent[0].acknowledgement == t.receive_next
            }
            &&& !rst && !again ==> step.tcb == t && step.sent.len() == 1 && step.sent[0].flags
                == ACK && step.sent[0].sequence == t.send_next && step.sent[0].acknowledgement
                == t.receive_next && step.sent[0].payload.len() == 0
        }),
{
    tcp_laws::flag_bits();
}

/// An acknowledgement of something never sent, while a connection is being
/// answered, opens nothing and is reset.
pub proof fn an_early_acknowledgement_is_reset(t: TcbView, segment: SegmentView, now: u64)
    requires
        t.valid(),
        t.state is SynReceived,
        t.accepts(segment),
        segment.flags & 4 == 0,
        segment.flags & 2 == 0,
        segment.flags & 16 != 0,
        tcp::ahead(t.send_next, segment.acknowledgement) != 0,
        tcp::ahead(t.send_next, segment.acknowledgement) < 0x8000_0000,
    ensures
        ({
            let step = t.on_arrival(segment, now);
            &&& step.tcb == t
            &&& !step.woke
            &&& step.sent.len() == 1
            &&& step.sent[0].flags == RST
            &&& step.sent[0].sequence == segment.acknowledgement
        }),
{
    tcp_laws::flag_bits();
}

/// Whoever waits on a connection is woken by an acknowledgement of something
/// outstanding, which may have made room, and not by one of nothing new.
pub proof fn an_acknowledgement_wakes_who_waits(t: TcbView, segment: SegmentView, now: u64)
    requires
        t.valid(),
        now <= LAST_TICK,
        t.state is Established,
        t.accepts(segment),
        segment.flags & 4 == 0,
        segment.flags & 2 == 0,
        segment.flags & 16 != 0,
        segment.flags & 1 == 0,
        segment.payload.len() == 0,
    ensures
        ({
            let step = t.on_arrival(segment, now);
            let covered = tcp::ahead(t.send_unacknowledged, segment.acknowledgement);
            let left = tcp::ahead(segment.acknowledgement, t.send_next);
            &&& 0 < covered < 0x8000_0000 && left < 0x8000_0000 ==> step.woke
            &&& covered == 0 ==> !step.woke
        }),
{
    reveal_with_fuel(TcbView::sent_up_to, 1);
}

} // verus!
