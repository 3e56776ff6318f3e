//! Which bytes a drain of the receive ring queues, and what it lends back.

use crate::net::e1000::{self, CardView, Drain, RxDesc, Sending, TxAction};
use crate::net::rx_queue::QueueView;
use vstd::prelude::*;

verus! {

/// The descriptor after another on a ring of thirty-two.
pub open spec fn after(at: int) -> int {
    (at + 1) % 32
}

/// The descriptor `k` after another on a ring of thirty-two.
pub open spec fn further(at: int, k: int) -> int {
    (at + k) % 32
}

/// Whether a descriptor the card has finished with holds a frame: the whole of
/// one, without an error, as long as a header and no longer than a buffer.
pub open spec fn whole(desc: RxDesc) -> bool {
    &&& desc.status & 2 != 0
    &&& desc.errors == 0
    &&& 14 <= desc.length <= 2048
}

/// The frames of the `n` descriptors from one on, in their order: of each that
/// holds one, the bytes at the address the descriptor names.
pub open spec fn frames_in(
    ring: Seq<RxDesc>,
    buffers: Seq<u8>,
    rx_buffers: u64,
    at: int,
    n: nat,
) -> Seq<Seq<u8>>
    decreases n,
{
    if n == 0 {
        Seq::empty()
    } else {
        let desc = ring[at];
        let from = desc.addr - rx_buffers;
        (if whole(desc) {
            seq![buffers.subrange(from, from + desc.length)]
        } else {
            Seq::empty()
        }) + frames_in(ring, buffers, rx_buffers, after(at), (n - 1) as nat)
    }
}

/// A queue with frames put at its end as far as there is room, and the rest
/// counted.
#[verifier::opaque]
pub open spec fn filled_up(old: QueueView, frames: Seq<Seq<u8>>, new: QueueView) -> bool {
    let room = if old.room < old.frames.len() {
        0
    } else {
        old.room - old.frames.len()
    };
    let fit = if frames.len() < room {
        frames.len() as int
    } else {
        room
    };
    &&& new.frames == old.frames + frames.take(fit)
    &&& new.room == old.room
    &&& old.dropped + (frames.len() - fit) <= u64::MAX ==> new.dropped == old.dropped + (
    frames.len() - fit)
}

pub(crate) proof fn nothing_fills_up(q: QueueView)
    ensures
        filled_up(q, Seq::empty(), q),
{
    reveal(filled_up);
    assert(Seq::<Seq<u8>>::empty().take(0) =~= Seq::empty());
    assert(q.frames + Seq::<Seq<u8>>::empty() =~= q.frames);
}

pub(crate) proof fn filling_up(q: QueueView, frame: Seq<u8>, rest: Seq<Seq<u8>>, end: QueueView)
    requires
        filled_up(q.pushed(frame), rest, end),
    ensures
        filled_up(q, seq![frame] + rest, end),
{
    reveal(filled_up);
    let frames = seq![frame] + rest;
    let p = q.pushed(frame);
    if q.frames.len() < q.room {
        let room = q.room - q.frames.len();
        let fit = if frames.len() < room {
            frames.len() as int
        } else {
            room
        };
        assert(q.frames + frames.take(fit) =~= p.frames + rest.take(fit - 1));
    } else {
        assert(frames.take(0) =~= Seq::<Seq<u8>>::empty());
        assert(rest.take(0) =~= Seq::<Seq<u8>>::empty());
    }
}

proof fn other_places_do_not_matter(
    ring: Seq<RxDesc>,
    buffers: Seq<u8>,
    rx_buffers: u64,
    at: int,
    n: nat,
    changed: int,
    desc: RxDesc,
)
    requires
        ring.len() == 32,
        0 <= at < 32,
        0 <= changed < 32,
        n < 32,
        forall|k: int| 0 <= k < n ==> #[trigger] further(at, k) != changed,
    ensures
        frames_in(ring.update(changed, desc), buffers, rx_buffers, at, n) == frames_in(
            ring,
            buffers,
            rx_buffers,
            at,
            n,
        ),
    decreases n,
{
    if n > 0 {
        assert(further(at, 0) == at);
        assert forall|k: int| 0 <= k < n - 1 implies #[trigger] further(after(at), k)
            != changed by {
            assert(further(after(at), k) == further(at, k + 1));
        }
        other_places_do_not_matter(
            ring,
            buffers,
            rx_buffers,
            after(at),
            (n - 1) as nat,
            changed,
            desc,
        );
    }
}

proof fn draining(d: Drain, buffers: Seq<u8>, rx_buffers: u64, n: nat, most: nat)
    requires
        d.ring.len() == 32,
        0 <= d.next < 32,
        n <= most <= 32,
        rx_buffers + 65536 <= u64::MAX,
        forall|k: int| 0 <= k < n ==> d.ring[#[trigger] further(d.next, k)].addr == rx_buffers
            + further(d.next, k) * 2048,
        forall|k: int| 0 <= k < n ==> d.ring[#[trigger] further(d.next, k)].status & 1 != 0,
        n == most || d.ring[further(d.next, n as int)].status & 1 == 0,
    ensures
        ({
            let end = d.drained(buffers, rx_buffers, most);
            let frames = frames_in(d.ring, buffers, rx_buffers, d.next, n);
            &&& end.next == further(d.next, n as int)
            &&& end.taken == d.taken + frames.len()
            &&& filled_up(d.queue, frames, end.queue)
            &&& end.tails.len() == d.tails.len() + n
            &&& forall|k: int| 0 <= k < d.tails.len() ==> #[trigger] end.tails[k] == d.tails[k]
            &&& forall|k: int|
                0 <= k < n ==> end.tails[d.tails.len() + k] == #[trigger] further(d.next, k)
            &&& end.ring.len() == 32
            &&& forall|k: int| 0 <= k < n ==> end.ring[#[trigger] further(d.next, k)] == (RxDesc {
                addr: (rx_buffers + further(d.next, k) * 2048) as u64,
                length: 0,
                checksum: 0,
                status: 0,
                errors: 0,
                special: 0,
            })
            &&& forall|k: int| n <= k < 32 ==> end.ring[#[trigger] further(d.next, k)]
                == d.ring[further(d.next, k)]
        }),
    decreases n,
{
    let end = d.drained(buffers, rx_buffers, most);
    if n == 0 {
        assert(further(d.next, 0) == d.next);
        nothing_fills_up(d.queue);
    } else {
        assert(further(d.next, 0) == d.next);
        let one = d.one_more(buffers, rx_buffers);
        let rest = frames_in(d.ring, buffers, rx_buffers, after(d.next), (n - 1) as nat);
        assert(one.next == after(d.next));
        assert forall|k: int| 0 <= k < 31 implies #[trigger] further(one.next, k) == further(
            d.next,
            k + 1,
        ) && further(one.next, k) != d.next by {}
        assert forall|k: int| 0 <= k < n - 1 implies one.ring[#[trigger] further(one.next, k)].addr
            == rx_buffers + further(one.next, k) * 2048 && one.ring[further(one.next, k)].status
            & 1 != 0 by {
            assert(further(one.next, k) == further(d.next, k + 1));
        }
        if n < most {
            assert(further(one.next, n - 1) == further(d.next, n as int));
            assert(further(d.next, n as int) != d.next);
        }
        draining(one, buffers, rx_buffers, (n - 1) as nat, (most - 1) as nat);
        other_places_do_not_matter(
            d.ring,
            buffers,
            rx_buffers,
            after(d.next),
            (n - 1) as nat,
            d.next,
            one.ring[d.next],
        );
        assert(end == one.drained(buffers, rx_buffers, (most - 1) as nat));
        assert(further(one.next, n - 1) == further(d.next, n as int));
        let desc = d.ring[d.next];
        if whole(desc) {
            filling_up(
                d.queue,
                buffers.subrange(d.next * 2048, d.next * 2048 + desc.length),
                rest,
                end.queue,
            );
        } else {
            assert(Seq::<Seq<u8>>::empty() + rest =~= rest);
        }
        assert forall|k: int| 0 <= k < n implies end.tails[d.tails.len() + k] == #[trigger] further(
            d.next,
            k,
        ) by {
            if k > 0 {
                assert(further(one.next, k - 1) == further(d.next, k));
                assert(end.tails[one.tails.len() + (k - 1)] == further(one.next, k - 1));
            } else {
                assert(end.tails[d.tails.len() as int] == one.tails[d.tails.len() as int]);
            }
        }
        assert forall|k: int| 0 <= k < d.tails.len() implies #[trigger] end.tails[k]
            == d.tails[k] by {
            assert(one.tails[k] == d.tails[k]);
        }
        assert forall|k: int| 0 <= k < n implies end.ring[#[trigger] further(d.next, k)] == (RxDesc {
            addr: (rx_buffers + further(d.next, k) * 2048) as u64,
            length: 0,
            checksum: 0,
            status: 0,
            errors: 0,
            special: 0,
        }) by {
            if k > 0 {
                assert(further(one.next, k - 1) == further(d.next, k));
            } else {
                assert(further(one.next, 31) == d.next);
                assert(one.ring[d.next] == e1000::fresh_rx(rx_buffers, d.next));
            }
        }
        assert forall|k: int| n <= k < 32 implies end.ring[#[trigger] further(d.next, k)]
            == d.ring[further(d.next, k)] by {
            assert(further(one.next, k - 1) == further(d.next, k));
            assert(further(d.next, k) != d.next);
        }
    }
}

/// A drain queues, in the order the card filled them, the frames of the
/// descriptors the card has finished with, and of each the bytes at the
/// address it was lent with; what there is no room for is counted. Those
/// descriptors are lent back empty, each with its own buffer and each told to
/// the card, and the rest are as they were.
pub proof fn a_drain_queues_what_the_card_wrote(
    drain: Drain,
    buffers: Seq<u8>,
    rx_buffers: u64,
    n: nat,
)
    requires
        drain.ring.len() == 32,
        0 <= drain.next < 32,
        drain.tails.len() == 0,
        drain.taken == 0,
        n <= 32,
        rx_buffers + 65536 <= u64::MAX,
        forall|k: int| 0 <= k < 32 ==> (#[trigger] drain.ring[k]).addr == rx_buffers + k * 2048,
        forall|k: int|
            0 <= k < n ==> drain.ring[#[trigger] further(drain.next, k)].status & 1 != 0,
        n == 32 || drain.ring[further(drain.next, n as int)].status & 1 == 0,
    ensures
        ({
            let end = drain.drained(buffers, rx_buffers, 32);
            let frames = frames_in(drain.ring, buffers, rx_buffers, drain.next, n);
            &&& filled_up(drain.queue, frames, end.queue)
            &&& end.taken == frames.len()
            &&& end.next == further(drain.next, n as int)
            &&& end.tails.len() == n
            &&& forall|k: int|
                0 <= k < n ==> end.tails[k] == #[trigger] further(drain.next, k)
            &&& forall|k: int|
                0 <= k < n ==> end.ring[#[trigger] further(drain.next, k)] == (RxDesc {
                    addr: (rx_buffers + further(drain.next, k) * 2048) as u64,
                    length: 0,
                    checksum: 0,
                    status: 0,
                    errors: 0,
                    special: 0,
                })
            &&& forall|k: int|
                n <= k < 32 ==> end.ring[#[trigger] further(drain.next, k)]
                    == drain.ring[further(drain.next, k)]
        }),
{
    draining(drain, buffers, rx_buffers, n, 32);
    let end = drain.drained(buffers, rx_buffers, 32);
    assert forall|k: int| 0 <= k < n implies end.tails[k] == #[trigger] further(drain.next, k) by {
        assert(end.tails[drain.tails.len() + k] == further(drain.next, k));
    }
}

/// Two descriptors the card has finished with, one after the other, queue two
/// frames, each out of its own buffer, the second behind the first.
pub proof fn two_frames_come_out_of_two_buffers(
    drain: Drain,
    buffers: Seq<u8>,
    rx_buffers: u64,
)
    requires
        drain.ring.len() == 32,
        0 <= drain.next < 32,
        buffers.len() == 65536,
        rx_buffers + 65536 <= u64::MAX,
        drain.ring[drain.next].status & 1 != 0,
        drain.ring[after(drain.next)].status & 1 != 0,
        whole(drain.ring[drain.next]),
        whole(drain.ring[after(drain.next)]),
        drain.queue.frames.len() + 2 <= drain.queue.room,
    ensures
        ({
            let end = drain.drained(buffers, rx_buffers, 2);
            let first = drain.ring[drain.next];
            let second = drain.ring[after(drain.next)];
            let so_far = drain.queue.frames.len() as int;
            let lent = e1000::fresh_rx(rx_buffers, drain.next).addr - rx_buffers;
            let lent_next = e1000::fresh_rx(rx_buffers, after(drain.next)).addr - rx_buffers;
            &&& end.queue.frames.len() == so_far + 2
            &&& end.queue.frames[so_far] == buffers.subrange(lent, lent + first.length)
            &&& end.queue.frames[so_far + 1] == buffers.subrange(
                lent_next,
                lent_next + second.length,
            )
            &&& lent == drain.next * 2048
            &&& lent_next == after(drain.next) * 2048
        }),
{
    reveal_with_fuel(Drain::drained, 3);
    let one = drain.one_more(buffers, rx_buffers);
    assert(one.next == after(drain.next));
    assert(one.ring[one.next] == drain.ring[one.next]);
}

/// A frame on its way out is described to the card where it lies and as long
/// as it is, as the whole of one, to be checksummed and reported on; and the
/// descriptor is not done until the card says so.
pub proof fn a_frame_goes_out_of_its_own_buffer(tx_buffers: u64, index: int, length: u16)
    requires
        0 <= index < 32,
        tx_buffers + 65536 <= u64::MAX,
    ensures
        ({
            let desc = e1000::filled_tx(tx_buffers, index, length);
            let idle = e1000::fresh_tx(tx_buffers, index);
            &&& desc.addr == tx_buffers + index * 2048
            &&& desc.length == length
            &&& desc.cmd == 0x0B
            &&& desc.status == 0
            &&& desc.cso == 0 && desc.css == 0 && desc.special == 0
            &&& idle.addr == tx_buffers + index * 2048
            &&& idle.status == 1 && idle.cmd == 0 && idle.length == 0
        }),
{
}

/// A frame waits for its descriptor, is described to the card once, with the
/// tail moved past it, and has gone out once the card says so. Ten million
/// looks in a row at a card that says nothing are the last.
pub proof fn how_a_frame_goes_out(card: CardView, was: Sending, status: u8)
    requires
        was.index < 32,
        was.spins <= 10_000_000,
        card.tx_buffers + 65536 <= u64::MAX,
    ensures
        ({
            let (after, now, action) = e1000::went_on(card, was, status);
            let done = status & 1 != 0;
            let next: int = (was.index + 1) % 32;
            &&& now.index == was.index && now.length == was.length
            &&& !done ==> after == card && now.filled == was.filled && now.spins == was.spins + 1
            &&& !done && was.spins < 10_000_000 ==> action is Look
            &&& !done && was.spins == 10_000_000 ==> action is Failed
            &&& done && was.filled ==> after == card && now == was && action is Sent
            &&& done && !was.filled ==> {
                &&& after == CardView { tx_next: next, ..card }
                &&& now.filled && now.spins == 0
                &&& action matches TxAction::Fill { desc, tail } && tail == next && desc.addr
                    == card.tx_buffers + was.index * 2048 && desc.length == was.length && desc.cmd
                    == 0x0B && desc.status == 0
            }
        }),
{
}

} // verus!
