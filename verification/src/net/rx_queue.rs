//! The queue between a card's interrupt and the network task.

use vstd::prelude::*;

verus! {

/// How many frames can wait for the network task.
pub const QUEUE_SLOTS: usize = 64;

/// Frames taken off a receive ring, waiting for the network task.
///
/// The slots are made once at bring-up and reused, so the interrupt handler
/// never calls the heap allocator: it copies into a slot whose capacity is
/// already large enough, and the task swaps a spare buffer in to take one out.
/// Overrunning the queue drops frames, which is what a network card does
/// anyway when nothing keeps up.
pub struct RxQueue {
    slots: Vec<Vec<u8>>,
    head: usize,
    count: usize,
    dropped: u64,
}

/// What a queue holds: the frames in the order they came, how many there is
/// room for, and how many there was no room for.
#[verifier::ext_equal]
pub struct QueueView {
    pub frames: Seq<Seq<u8>>,
    pub room: nat,
    pub dropped: u64,
}

impl QueueView {
    /// A frame put at the end, or counted where there is no room.
    pub open spec fn pushed(self, frame: Seq<u8>) -> QueueView {
        if self.frames.len() >= self.room {
            QueueView {
                dropped: if self.dropped < u64::MAX {
                    (self.dropped + 1) as u64
                } else {
                    self.dropped
                },
                ..self
            }
        } else {
            QueueView { frames: self.frames.push(frame), ..self }
        }
    }
}

impl View for RxQueue {
    type V = QueueView;

    closed spec fn view(&self) -> QueueView {
        QueueView {
            frames: Seq::new(
                self.count as nat,
                |i: int| self.slots@[slot(self.head as int, i, self.slots@.len() as int)]@,
            ),
            room: self.slots@.len(),
            dropped: self.dropped,
        }
    }
}

/// Which slot the frame `i` places behind the first is in.
spec fn slot(head: int, i: int, slots: int) -> int {
    if head + i < slots {
        head + i
    } else {
        head + i - slots
    }
}

impl RxQueue {
    pub closed spec fn valid(&self) -> bool {
        &&& self.count <= self.slots@.len()
        &&& self.slots@.len() <= QUEUE_SLOTS
        &&& self.head < self.slots@.len() || self.head == 0
    }

    /// A queue with no room yet.
    pub fn new() -> (queue: RxQueue)
        ensures
            queue.valid(),
            queue@ == (QueueView { frames: Seq::empty(), room: 0, dropped: 0 }),
    {
        let queue = RxQueue { slots: Vec::new(), head: 0, count: 0, dropped: 0 };
        assert(queue@.frames =~= Seq::empty());
        queue
    }

    /// A queue with every slot in place and nothing waiting.
    pub fn prepared() -> (queue: RxQueue)
        ensures
            queue.valid(),
            queue@ == (QueueView { frames: Seq::empty(), room: QUEUE_SLOTS as nat, dropped: 0 }),
    {
        let mut slots: Vec<Vec<u8>> = Vec::new();
        while slots.len() < QUEUE_SLOTS
            invariant
                slots@.len() <= QUEUE_SLOTS,
            decreases QUEUE_SLOTS - slots@.len(),
        {
            slots.push(Vec::new());
        }
        let queue = RxQueue { slots, head: 0, count: 0, dropped: 0 };
        assert(queue@.frames =~= Seq::empty());
        queue
    }

    pub fn push(&mut self, frame: &[u8])
        requires
            old(self).valid(),
        ensures
            final(self).valid(),
            final(self)@ == old(self)@.pushed(frame@),
    {
        if self.slots.len() == 0 || self.count == self.slots.len() {
            if self.dropped < u64::MAX {
                self.dropped += 1;
            }
            assert(self@.frames =~= old(self)@.frames);
            return;
        }
        let mut index: usize = self.head + self.count;
        if index >= self.slots.len() {
            index -= self.slots.len();
        }
        let copy = crate::bytes::copy_of(frame);
        self.slots.set(index, copy);
        self.count += 1;
        assert(self@.frames =~= old(self)@.frames.push(frame@));
    }

    /// Take the oldest frame, leaving `spare` in its place.
    pub fn pop(&mut self, spare: &mut Vec<u8>) -> (taken: bool)
        requires
            old(self).valid(),
        ensures
            final(self).valid(),
            taken == (old(self)@.frames.len() > 0),
            taken ==> final(spare)@ == old(self)@.frames[0] && final(self)@ == (QueueView {
                frames: old(self)@.frames.skip(1),
                ..old(self)@
            }),
            !taken ==> final(spare)@ == old(spare)@ && final(self)@ == old(self)@,
    {
        if self.count == 0 {
            return false;
        }
        let left = crate::bytes::copy_of(spare.as_slice());
        *spare = crate::bytes::copy_of(self.slots[self.head].as_slice());
        let head: usize = self.head;
        self.slots.set(head, left);
        self.head = if head + 1 == self.slots.len() {
            0
        } else {
            head + 1
        };
        self.count -= 1;
        assert(self@.frames =~= old(self)@.frames.skip(1));
        true
    }

    /// How many frames are waiting.
    pub fn waiting(&self) -> (count: usize)
        ensures
            count == self@.frames.len(),
    {
        self.count
    }

    /// Frames the queue had no room for.
    pub fn dropped(&self) -> (count: u64)
        ensures
            count == self@.dropped,
    {
        self.dropped
    }
}

/// Frames come out in the order they went in: taking one and adding one, in
/// either order, leaves the same frames waiting in the same order.
pub proof fn frames_keep_their_order(queue: QueueView, frame: Seq<u8>)
    requires
        queue.frames.len() > 0,
        queue.frames.len() < queue.room,
    ensures
        queue.pushed(frame).frames.skip(1) == (QueueView {
            frames: queue.frames.skip(1),
            ..queue
        }).pushed(frame).frames,
        queue.pushed(frame).frames[0] == queue.frames[0],
{
    assert(queue.pushed(frame).frames.skip(1) =~= queue.frames.skip(1).push(frame));
}

/// How many rounds of timers a task that has been held off is behind by, and
/// is to run: one for each tick, but no more than a few. A task held off for a
/// second should not then run a hundred rounds of timers back to back.
pub fn rounds_due(now: u64, last: u64) -> (rounds: u64)
    requires
        last <= now,
    ensures
        rounds == (if now - last < 8 {
            now - last
        } else {
            8
        }),
{
    if now - last < 8 {
        now - last
    } else {
        8
    }
}

} // verus!
