//! Which bytes a drain of the controller's ring queues, what a send tells the
//! controller, and what the device tree's words about it come to.

use crate::mm::frame::FramesView;
use crate::net::e1000_laws;
use crate::net::genet::{self, Described, Drain, GenetView, Op, TxAction};
use crate::net::genet_phy::{self, Link, PhyMode};
use crate::net::rx_queue::QueueView;
use vstd::prelude::*;

verus! {

/// How long the frame a descriptor word speaks of is, with the two bytes in
/// front of it.
pub open spec fn length_in(word: u32) -> int {
    word as int / 0x1_0000 % 0x1000
}

/// Whether a descriptor word speaks of a whole frame that arrived without an
/// error, as long as a header and no longer than a buffer.
pub open spec fn whole(word: u32) -> bool {
    &&& word & 0x2000 != 0
    &&& word & 0x4000 != 0
    &&& word & 0x1F == 0
    &&& 16 <= length_in(word) <= 2048
}

/// The frames of the `n` descriptors from a cursor on, in their order: of each
/// that holds one, the bytes of its own buffer past the two in front.
pub open spec fn frames_in(
    words: Seq<u32>,
    buffers: Seq<Seq<u8>>,
    cursor: int,
    n: nat,
) -> Seq<Seq<u8>>
    decreases n,
{
    if n == 0 {
        Seq::empty()
    } else {
        let k = cursor % 256;
        (if whole(words[k]) {
            seq![buffers[k].subrange(2, length_in(words[k]))]
        } else {
            Seq::empty()
        }) + frames_in(words, buffers, (cursor + 1) % 0x1_0000, (n - 1) as nat)
    }
}

proof fn draining(d: Drain, words: Seq<u32>, buffers: Seq<Seq<u8>>, n: nat)
    requires
        d.consumer < 0x1_0000,
    ensures
        ({
            let end = d.drained(words, buffers, n);
            let frames = frames_in(words, buffers, d.consumer as int, n);
            &&& end.consumer == (d.consumer + n) % 0x1_0000
            &&& end.taken == d.taken + frames.len()
            &&& e1000_laws::filled_up(d.queue, frames, end.queue)
            &&& end.cursors.len() == d.cursors.len() + n
            &&& forall|k: int| 0 <= k < d.cursors.len() ==> #[trigger] end.cursors[k]
                == d.cursors[k]
            &&& forall|k: int|
                d.cursors.len() <= k < end.cursors.len() ==> #[trigger] end.cursors[k] == (
                d.consumer + (k - d.cursors.len()) + 1) % 0x1_0000
        }),
    decreases n,
{
    let end = d.drained(words, buffers, n);
    if n == 0 {
        e1000_laws::nothing_fills_up(d.queue);
    } else {
        let one = d.one_more(words, buffers);
        draining(one, words, buffers, (n - 1) as nat);
        let k = d.consumer as int % 256;
        let word = words[k];
        let rest = frames_in(words, buffers, (d.consumer + 1) % 0x1_0000, (n - 1) as nat);
        if whole(word) {
            e1000_laws::filling_up(
                d.queue,
                buffers[k].subrange(2, length_in(word)),
                rest,
                end.queue,
            );
        } else {
            assert(Seq::<Seq<u8>>::empty() + rest =~= rest);
        }
        assert forall|j: int| 0 <= j < d.cursors.len() implies #[trigger] end.cursors[j]
            == d.cursors[j] by {
            assert(one.cursors[j] == d.cursors[j]);
        }
        assert forall|j: int| d.cursors.len() <= j < end.cursors.len() implies #[trigger] end.cursors[j]
            == (d.consumer + (j - d.cursors.len()) + 1) % 0x1_0000 by {
            if j == d.cursors.len() {
                assert(end.cursors[j] == one.cursors[j]);
            }
        }
    }
}

/// A drain queues, in the order the controller filled them, the frames of the
/// descriptors between the kernel's cursor and the controller's, each out of
/// its own buffer; what there is no room for is counted. The cursor moves past
/// each of them, one at a time. How many frames the controller threw away is
/// remembered where it is more than before.
pub proof fn a_drain_queues_what_the_controller_wrote(
    view: GenetView,
    cursor: u32,
    words: Seq<u32>,
    buffers: Seq<Seq<u8>>,
    queue: QueueView,
    k: int,
)
    requires
        view.consumer < 0x1_0000,
    ensures
        ({
            let (after, done) = view.drained(cursor, words, buffers, queue);
            let ahead: int = (cursor as int % 0x1_0000 - view.consumer) % 0x1_0000;
            let n: int = if ahead > 256 {
                256
            } else {
                ahead
            };
            let frames = frames_in(words, buffers, view.consumer as int, n as nat);
            &&& e1000_laws::filled_up(queue, frames, done.queue)
            &&& done.taken == frames.len()
            &&& after.consumer == (view.consumer + n) % 0x1_0000
            &&& done.consumer == after.consumer
            &&& done.cursors.len() == n
            &&& 0 <= k < n ==> done.cursors[k] == (view.consumer + k + 1) % 0x1_0000
            &&& after.discards == (if cursor as int / 0x1_0000 > view.discards {
                cursor as int / 0x1_0000
            } else {
                view.discards as int
            })
            &&& after == GenetView { consumer: after.consumer, discards: after.discards, ..view }
        }),
{
    let first = Drain { queue, consumer: view.consumer, cursors: Seq::empty(), taken: 0 };
    let n = genet::ready(cursor, view.consumer);
    draining(first, words, buffers, n);
    let end = first.drained(words, buffers, n);
    if 0 <= k < n {
        assert(end.cursors[k] == (view.consumer + (k - 0) + 1) % 0x1_0000);
    }
}

/// A send tells the controller where the frame is and how long it is, and only
/// then that there is one more.
pub proof fn what_a_send_tells_the_controller(index: int, buffer: u64, len: int, producer: u32)
    requires
        0 <= index < 64,
        0 <= len <= 2048,
    ensures
        ({
            let ops = genet::send_ops(index, buffer, len, producer);
            let at = 0x4000 + index * 12;
            &&& ops.len() == 4
            &&& ops[0] matches Op::Write { offset: lo_at, value: lo } && lo_at == at + 4 && {
                &&& ops[1] matches Op::Write { offset: hi_at, value: hi } && hi_at == at + 8
                    && hi * 0x1_0000_0000 + lo == buffer
            }
            &&& ops[2] matches Op::Write { offset: word_at, value: word } && word_at == at
                && word as int / 0x1_0000 == len && word as int % 0x1_0000 == 0x7FC0
            &&& ops[3] == Op::Write { offset: 0x500C, value: producer }
        }),
{
}

/// Each descriptor of a ring names its own buffer, in two halves, and one of
/// the transmit ring has nothing to send.
pub proof fn what_a_ring_names(base: u32, buffers: Seq<u64>, i: int)
    requires
        0 <= i < 256,
        base <= 0x10000,
    ensures
        ({
            let at = base + i * 12;
            &&& genet::address_op(base, buffers, 2 * i) matches Op::Write { offset, value: lo }
                && offset == at + 4 && {
                &&& genet::address_op(base, buffers, 2 * i + 1) matches Op::Write {
                    offset: above,
                    value: hi,
                } && above == at + 8 && hi * 0x1_0000_0000 + lo == buffers[i]
            }
        }),
        ({
            let at = 0x4000 + i * 12;
            &&& genet::tx_desc_op(buffers, 3 * i) matches Op::Write { offset, value: lo } && offset
                == at + 4 && {
                &&& genet::tx_desc_op(buffers, 3 * i + 1) matches Op::Write {
                    offset: above,
                    value: hi,
                } && above == at + 8 && hi * 0x1_0000_0000 + lo == buffers[i]
            }
            &&& genet::tx_desc_op(buffers, 3 * i + 2) == Op::Write { offset: at as u32, value: 0 }
        }),
{
}

/// Two buffers share a page, one behind the other, and there are as many as
/// were asked for.
pub proof fn two_buffers_share_a_page(frames: FramesView, left: nat, i: int)
    ensures
        genet::buffers_from(frames, left).1 matches Some(buffers) ==> {
            &&& buffers.len() == left
            &&& 0 <= i && 2 * i + 1 < left ==> buffers[2 * i + 1] == (buffers[2 * i] + 2048) as u64
        },
    decreases left,
{
    if left > 1 {
        let (after, page) = frames.allocated();
        if page is Some {
            two_buffers_share_a_page(after, (left - 2) as nat, i - 1);
            if let Some(buffers) = genet::buffers_from(frames, left).1 {
                let rest = genet::buffers_from(after, (left - 2) as nat).1->0;
                if i > 0 && 2 * i + 1 < left {
                    assert(buffers[2 * i + 1] == rest[2 * (i - 1) + 1]);
                    assert(buffers[2 * i] == rest[2 * (i - 1)]);
                }
            }
        }
    }
}

/// What the controller is told about a link: its speed, whether it goes both
/// ways at once, and that it is there; or that there is none.
pub proof fn what_a_link_sets(link: Link)
    ensures
        ({
            let bits = genet::link_bits(link);
            &&& bits & 0x0C == (if link.speed == 1000 {
                8u32
            } else if link.speed == 100 {
                4u32
            } else {
                0u32
            })
            &&& (bits & 0x400 == 0) == link.full_duplex
            &&& bits & 3 == 3
            &&& bits & 0x10 == 0x10
            &&& bits & 0x1000_0100 == 0x1000_0100
            &&& link.up ==> genet::link_ops(link) == seq![
                Op::Modify { offset: 0x8C, clear: 0, set: 0x10 },
                Op::Modify { offset: 0x808, clear: 0x1000_A50C, set: bits },
            ]
            &&& !link.up ==> genet::link_ops(link) == seq![
                Op::Modify { offset: 0x8C, clear: 0x10, set: 0 },
                Op::Modify { offset: 0x808, clear: 3, set: 0 },
            ]
        }),
{
    let speed = genet::speed_bits(link.speed);
    let half: u32 = if link.full_duplex {
        0
    } else {
        0x400
    };
    let bits = genet::link_bits(link);
    assert(bits == (speed | 0x1000_0100u32 | half) | 0x10u32 | 0x3u32) by {
        assert(speed | 0x1000_0100u32 | 0u32 == speed | 0x1000_0100u32) by (bit_vector);
    }
    assert(bits & 0x0C == speed && (bits & 0x400 == 0) == (half == 0) && bits & 3 == 3 && bits
        & 0x10 == 0x10 && bits & 0x1000_0100 == 0x1000_0100) by (bit_vector)
        requires
            bits == (speed | 0x1000_0100u32 | half) | 0x10u32 | 0x3u32,
            speed == 0 || speed == 4 || speed == 8,
            half == 0 || half == 0x400,
    ;
}

/// A name in a device tree ends before its first zero.
pub proof fn a_name_ends_at_its_zero(value: Seq<u8>, n: int)
    requires
        0 <= n <= value.len(),
        n == value.len() || value[n] == 0,
        forall|i: int| 0 <= i < n ==> #[trigger] value[i] != 0,
    ensures
        genet_phy::up_to_zero(value) == value.take(n),
    decreases value.len(),
{
    if n == 0 {
        assert(value.take(0) =~= Seq::<u8>::empty());
    } else {
        let rest = value.skip(1);
        assert(value[0] != 0);
        assert forall|i: int| 0 <= i < n - 1 implies #[trigger] rest[i] != 0 by {
            assert(rest[i] == value[i + 1]);
        }
        if n < value.len() {
            assert(rest[n - 1] == value[n]);
        }
        a_name_ends_at_its_zero(rest, n - 1);
        assert(seq![value[0]] + rest.take(n - 1) =~= value.take(n));
    }
}

/// An address of a card: six bytes, not all of them zero, and not a group's.
pub proof fn what_a_station_address_is(value: Seq<u8>)
    requires
        value.len() == 6,
    ensures
        genet_phy::is_station_address(value) == (value[0] % 2 == 0 && exists|i: int|
            0 <= i < 6 && #[trigger] value[i] != 0),
{
    if forall|i: int| 0 <= i < 6 ==> #[trigger] value[i] == 0 {
        assert(value =~= seq![0u8, 0, 0, 0, 0, 0]);
    }
    if value == seq![0u8, 0, 0, 0, 0, 0] {
        assert forall|i: int| 0 <= i < 6 implies #[trigger] value[i] == 0 by {}
    }
}

/// Where a controller's own address comes from: the first of the three places
/// the tree can have it in that holds an address of a card.
pub proof fn whose_address_is_taken(node: Described)
    ensures
        ({
            let first = genet_phy::station_in(node.mac_address);
            let second = genet_phy::station_in(node.local_mac_address);
            let third = genet_phy::station_in(node.address);
            &&& first is Some ==> genet::mac_in(node) == first
            &&& first is None && second is Some ==> genet::mac_in(node) == second
            &&& first is None && second is None ==> genet::mac_in(node) == third
        }),
{
}

/// Which delays a mode of the wires asks for.
pub proof fn which_delays_a_mode_asks_for(mode: PhyMode)
    ensures
        mode is Rgmii ==> !genet_phy::delays_rx(mode) && !genet_phy::delays_tx(mode),
        mode is RgmiiRxId ==> genet_phy::delays_rx(mode) && !genet_phy::delays_tx(mode),
        mode is RgmiiTxId ==> !genet_phy::delays_rx(mode) && genet_phy::delays_tx(mode),
        mode is RgmiiId ==> genet_phy::delays_rx(mode) && genet_phy::delays_tx(mode),
{
}

/// Of what both ends of a link can do the fastest is used, and both ways at
/// once where that is possible at that speed.
pub proof fn the_fastest_in_common_is_used(common: u16)
    ensures
        ({
            let link = genet_phy::fastest_in_common(common);
            let full100 = common & 0x100 != 0;
            let half100 = common & 0x80 != 0;
            let full10 = common & 0x40 != 0;
            let half10 = common & 0x20 != 0;
            &&& link.up == (full100 || half100 || full10 || half10)
            &&& full100 || half100 ==> link.speed == 100 && link.full_duplex == full100
            &&& !full100 && !half100 && (full10 || half10) ==> link.speed == 10
                && link.full_duplex == full10
            &&& !link.up ==> link.speed == 0 && !link.full_duplex
        }),
{
}

/// Both ends have to offer a gigabit for there to be one, the other end two
/// bits further up; both ways at once is preferred.
pub proof fn when_there_is_a_gigabit(ours: u16, theirs: u16)
    ensures
        ({
            let both = genet_phy::gigabit_in_common(Some(ours), Some(theirs));
            let full = ours & 0x200 != 0 && theirs & 0x800 != 0;
            let half = ours & 0x100 != 0 && theirs & 0x400 != 0;
            &&& full ==> both == Some(true)
            &&& !full && half ==> both == Some(false)
            &&& !full && !half ==> both is None
        }),
        genet_phy::gigabit_in_common(None, Some(theirs)) is None,
        genet_phy::gigabit_in_common(Some(ours), None) is None,
{
    let lower = (theirs / 4) as u16;
    assert(((ours & lower) & 0x200 != 0) == (ours & 0x200 != 0 && theirs & 0x800 != 0) && ((ours
        & lower) & 0x100 != 0) == (ours & 0x100 != 0 && theirs & 0x400 != 0)) by (bit_vector)
        requires
            lower == theirs / 4,
    ;
}

/// A frame goes into the next descriptor, out of that descriptor's own buffer,
/// while fewer than sixty-four are on their way, and the cursor moves past it.
/// While there are sixty-four it waits, and after too long it is dropped and
/// counted.
pub proof fn how_a_frame_goes_out(
    before: GenetView,
    after: GenetView,
    len: int,
    consumer: u32,
    too_long: bool,
    action: TxAction,
)
    requires
        before.producer < 0x1_0000,
        before.tx_buffers.len() == 64,
        genet::is_sending_on(before, after, len, consumer, too_long, action),
    ensures
        ({
            let flying: int = (before.producer - consumer as int) % 0x1_0000;
            let k = before.producer as int % 64;
            &&& flying < 64 ==> {
                &&& after == GenetView { producer: after.producer, ..before }
                &&& after.producer == (if before.producer == 0xFFFF {
                    0
                } else {
                    before.producer + 1
                })
                &&& action matches TxAction::Send { index, buffer, ops } && index == k && buffer
                    == before.tx_buffers[k] && ops@ == genet::send_ops(
                    k,
                    buffer,
                    len,
                    after.producer,
                )
            }
            &&& flying >= 64 && !too_long ==> after == before && action is Wait
            &&& flying >= 64 && too_long ==> action is Blocked && after == GenetView {
                blocked: after.blocked,
                ..before
            } && (before.blocked < u64::MAX ==> after.blocked == before.blocked + 1)
        }),
{
}

} // verus!
