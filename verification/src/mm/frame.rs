//! Bitmap physical frame allocator.
//!
//! One bit per 4 KiB frame over the whole usable physical range; a set bit
//! means the frame is in use. Beside it, one reference count per frame, so a
//! frame shared by copy-on-write is only released once its last user lets go.

use crate::mm::{self, page_align_up, PAGE_SIZE_U64};
use vstd::prelude::*;

verus! {

// ---- bits ----------------------------------------------------------------------

/// Whether a bit of a word is set.
pub open spec fn bit(word: u64, i: u64) -> bool {
    (word >> i) & 1 != 0
}

/// A bit of a word set.
pub open spec fn with_bit(word: u64, i: u64) -> u64 {
    word | (1u64 << i)
}

/// A bit of a word cleared.
pub open spec fn without_bit(word: u64, i: u64) -> u64 {
    word & !(1u64 << i)
}

proof fn setting_one_bit(word: u64, i: u64, j: u64)
    by (bit_vector)
    requires
        i < 64,
        j < 64,
    ensures
        bit(with_bit(word, i), j) == (i == j || bit(word, j)),
{
}

proof fn clearing_one_bit(word: u64, i: u64, j: u64)
    by (bit_vector)
    requires
        i < 64,
        j < 64,
    ensures
        bit(without_bit(word, i), j) == (i != j && bit(word, j)),
{
}

proof fn opposite_bits(word: u64, i: u64)
    by (bit_vector)
    requires
        i < 64,
    ensures
        ((!word) >> i) & 1 == 1 <==> !bit(word, i),
        ((!word) >> i) & 1 == 0 <==> bit(word, i),
{
}

proof fn full_words(i: u64)
    by (bit_vector)
    requires
        i < 64,
    ensures
        bit(0xFFFF_FFFF_FFFF_FFFF, i),
{
}

/// The lowest clear bit of a word that is not full.
fn lowest_clear(word: u64) -> (i: u32)
    requires
        word != u64::MAX,
    ensures
        i < 64,
        !bit(word, i as u64),
        forall|j: u64| j < i ==> #[trigger] bit(word, j),
{
    let other = !word;
    proof {
        vstd::std_specs::bits::axiom_u64_trailing_zeros(other);
        assert(word != 0xFFFF_FFFF_FFFF_FFFF ==> !word != 0) by (bit_vector);
    }
    let i: u32 = other.trailing_zeros();
    proof {
        opposite_bits(word, i as u64);
        assert forall|j: u64| j < i implies #[trigger] bit(word, j) by {
            assert((other >> j) & 1u64 == 0u64);
            opposite_bits(word, j);
        }
    }
    i
}

// ---- what an allocator holds ------------------------------------------------------

/// How many of some flags are up.
pub open spec fn up(flags: Seq<bool>) -> nat
    decreases flags.len(),
{
    if flags.len() == 0 {
        0
    } else {
        up(flags.drop_last()) + (if flags.last() {
            1nat
        } else {
            0nat
        })
    }
}

pub proof fn up_is_bounded(flags: Seq<bool>)
    ensures
        up(flags) <= flags.len(),
        (forall|i: int| 0 <= i < flags.len() ==> #[trigger] flags[i]) ==> up(flags) == flags.len(),
        up(flags) == flags.len() ==> (forall|i: int| 0 <= i < flags.len() ==> #[trigger] flags[i]),
    decreases flags.len(),
{
    if flags.len() > 0 {
        let before = flags.drop_last();
        up_is_bounded(before);
        if forall|i: int| 0 <= i < flags.len() ==> #[trigger] flags[i] {
            assert forall|i: int| 0 <= i < before.len() implies #[trigger] before[i] by {
                assert(flags[i]);
            }
        }
        if up(flags) == flags.len() {
            assert forall|i: int| 0 <= i < flags.len() implies #[trigger] flags[i] by {
                if i < before.len() {
                    assert(before[i]);
                }
            }
        }
    }
}

/// Changing one flag changes the count by as much.
pub proof fn up_after_one(flags: Seq<bool>, at: int, to: bool)
    requires
        0 <= at < flags.len(),
    ensures
        up(flags.update(at, to)) + (if flags[at] {
            1int
        } else {
            0int
        }) == up(flags) + (if to {
            1int
        } else {
            0int
        }),
    decreases flags.len(),
{
    let after = flags.update(at, to);
    if at == flags.len() - 1 {
        assert(after.drop_last() =~= flags.drop_last());
    } else {
        assert(after.drop_last() =~= flags.drop_last().update(at, to));
        up_after_one(flags.drop_last(), at, to);
    }
}

/// What an allocator knows: which of the frames it covers are held, how many
/// references each has, how many of them are memory, where it looks next, and
/// where its own records are.
#[verifier::ext_equal]
pub struct FramesView {
    pub held: Seq<bool>,
    pub counts: Seq<u16>,
    pub managed: int,
    pub hint: int,
    pub region: (u64, usize),
}

/// The first frame at or above `from` that is not held, or `None`.
pub open spec fn first_clear(held: Seq<bool>, from: int) -> Option<int>
    decreases held.len() - from,
{
    if from < 0 || from >= held.len() {
        None
    } else if !held[from] {
        Some(from)
    } else {
        first_clear(held, from + 1)
    }
}

/// The end of the first run of `count` frames none of which is held, where the
/// `run` frames before `from` are not, or `None`.
pub open spec fn first_run(held: Seq<bool>, from: int, run: int, count: int) -> Option<int>
    decreases held.len() - from,
{
    if from < 0 || from >= held.len() {
        None
    } else if held[from] {
        first_run(held, from + 1, 0, count)
    } else if run + 1 == count {
        Some(from)
    } else {
        first_run(held, from + 1, run + 1, count)
    }
}

/// `count` frames from `first` on, none of which is held.
pub open spec fn is_run(held: Seq<bool>, first: int, count: int) -> bool {
    &&& 0 <= first
    &&& first + count <= held.len()
    &&& forall|f: int| first <= f < first + count ==> !(#[trigger] held[f])
}

impl FramesView {
    pub open spec fn frames(self) -> int {
        self.held.len() as int
    }

    pub open spec fn used(self) -> int {
        up(self.held) as int
    }

    /// A frame that is not held has no references, and the numbers fit
    /// together.
    pub open spec fn valid(self) -> bool {
        &&& self.counts.len() == self.held.len()
        &&& 0 <= self.hint <= self.frames()
        &&& 0 <= self.managed <= self.frames()
        &&& forall|f: int|
            0 <= f < self.frames() && !self.held[f] ==> #[trigger] self.counts[f] == 0
    }

    /// Everything that is not memory is held, and has no references to give
    /// back.
    pub open spec fn holes_are_held(self, memory: Seq<bool>) -> bool {
        &&& memory.len() == self.held.len()
        &&& up(memory) == self.managed
        &&& forall|f: int|
            0 <= f < self.frames() && !(#[trigger] memory[f]) ==> self.held[f]
    }

    /// One frame taken, with one reference.
    pub open spec fn taking(self, frame: int) -> FramesView {
        FramesView {
            held: self.held.update(frame, true),
            counts: self.counts.update(frame, 1),
            ..self
        }
    }

    /// Where the next frame comes from: the first free one from the word of
    /// the bitmap that the search starts in, or the first there is.
    pub open spec fn next_frame(self) -> Option<int> {
        match first_clear(self.held, self.hint / 64 * 64) {
            Some(frame) => Some(frame),
            None => first_clear(self.held, 0),
        }
    }

    /// One frame allocated.
    pub open spec fn allocated(self) -> (FramesView, Option<u64>) {
        match self.next_frame() {
            None => (self, None),
            Some(frame) => (
                FramesView { hint: frame + 1, ..self.taking(frame) },
                Some((frame * 4096) as u64),
            ),
        }
    }

    /// Frames `first` up to but not including `end` taken.
    pub open spec fn taking_run(self, first: int, end: int) -> FramesView {
        FramesView {
            held: Seq::new(
                self.held.len(),
                |f: int| first <= f < end || self.held[f],
            ),
            counts: Seq::new(
                self.counts.len(),
                |f: int|
                    if first <= f < end {
                        1u16
                    } else {
                        self.counts[f]
                    },
            ),
            ..self
        }
    }

    /// A run of frames allocated.
    pub open spec fn allocated_run(self, count: int) -> (FramesView, Option<u64>) {
        if count == 0 {
            (self, None)
        } else if count == 1 {
            self.allocated()
        } else {
            match first_run(self.held, 0, 0, count) {
                None => (self, None),
                Some(last) => (
                    self.taking_run(last + 1 - count, last + 1),
                    Some(((last + 1 - count) * 4096) as u64),
                ),
            }
        }
    }

    /// One reference dropped. The frame is only released when the last goes.
    pub open spec fn freed(self, phys: u64) -> FramesView {
        let frame = phys as int / 4096;
        if frame >= self.frames() || !self.held[frame] {
            self
        } else if self.counts[frame] > 1 {
            FramesView {
                counts: self.counts.update(frame, (self.counts[frame] - 1) as u16),
                ..self
            }
        } else {
            FramesView {
                counts: self.counts.update(frame, 0),
                held: self.held.update(frame, false),
                hint: if frame < self.hint {
                    frame
                } else {
                    self.hint
                },
                ..self
            }
        }
    }

    /// One more reference taken on a frame that is held. The count stays at
    /// its end once it is there.
    pub open spec fn shared(self, phys: u64) -> FramesView {
        let frame = phys as int / 4096;
        if frame < self.frames() && self.held[frame] {
            FramesView {
                counts: self.counts.update(
                    frame,
                    if self.counts[frame] < 0xFFFF {
                        (self.counts[frame] + 1) as u16
                    } else {
                        0xFFFFu16
                    },
                ),
                ..self
            }
        } else {
            self
        }
    }

    pub open spec fn references(self, phys: u64) -> u16 {
        let frame = phys as int / 4096;
        if frame < self.frames() {
            self.counts[frame]
        } else {
            0
        }
    }
}

pub struct BitmapAllocator {
    bitmap: Vec<u64>,
    refcounts: Vec<u16>,
    /// Frames the bitmap covers: every one under the top of usable memory.
    frames: usize,
    /// Of those, the ones that are memory. A hole between the banks the
    /// memory map reports is covered by the bitmap and is not memory, so it
    /// is held for ever and is not counted in what the machine reports it
    /// has.
    managed: usize,
    /// Bits set, holes included.
    used: usize,
    /// Where the next linear search starts, to avoid rescanning from zero.
    hint: usize,
    bitmap_phys: u64,
    bitmap_bytes: usize,
}

impl View for BitmapAllocator {
    type V = FramesView;

    closed spec fn view(&self) -> FramesView {
        FramesView {
            held: Seq::new(
                self.frames as nat,
                |f: int| bit(self.bitmap@[f / 64], (f % 64) as u64),
            ),
            counts: self.refcounts@,
            managed: self.managed as int,
            hint: self.hint as int,
            region: (self.bitmap_phys, self.bitmap_bytes),
        }
    }
}

impl BitmapAllocator {
    /// The bitmap covers the frames, and what it covers besides is marked
    /// held.
    pub closed spec fn valid(&self) -> bool {
        &&& self.frames <= self.bitmap@.len() * 64
        &&& self.frames * 4096 <= u64::MAX
        &&& self.used == self@.used()
        &&& self@.valid()
        &&& forall|f: int|
            self.frames <= f < self.bitmap@.len() * 64 ==> #[trigger] bit(
                self.bitmap@[f / 64],
                (f % 64) as u64,
            )
    }

    /// What an allocator that holds together says fits together.
    pub proof fn is_sound(&self)
        requires
            self.valid(),
        ensures
            self@.valid(),
            self@.frames() * 4096 <= u64::MAX,
    {
    }

    /// An allocator that covers nothing.
    pub fn empty() -> (allocator: BitmapAllocator)
        ensures
            allocator.valid(),
            allocator@.frames() == 0,
    {
        let allocator = BitmapAllocator {
            bitmap: Vec::new(),
            refcounts: Vec::new(),
            frames: 0,
            managed: 0,
            used: 0,
            hint: 0,
            bitmap_phys: 0,
            bitmap_bytes: 0,
        };
        assert(allocator@.held =~= Seq::empty());
        allocator
    }

    /// How many frames the allocator covers, holes included.
    pub fn covered(&self) -> (count: usize)
        ensures
            count == self@.frames(),
    {
        self.frames
    }

    fn test(&self, frame: usize) -> (r: bool)
        requires
            self.valid(),
            frame < self@.frames(),
        ensures
            r == self@.held[frame as int],
    {
        (self.bitmap[frame / 64] >> ((frame % 64) as u64)) & 1 != 0
    }

    /// Mark one frame, one way or the other, with its references.
    fn mark(&mut self, frame: usize, held: bool, count: u16)
        requires
            old(self).valid(),
            frame < old(self)@.frames(),
            held || count == 0,
        ensures
            final(self).valid(),
            final(self)@ == (FramesView {
                held: old(self)@.held.update(frame as int, held),
                counts: old(self)@.counts.update(frame as int, count),
                ..old(self)@
            }),
    {
        let word: u64 = self.bitmap[frame / 64];
        let i: u64 = (frame % 64) as u64;
        let was = self.test(frame);
        let changed: u64 = if held {
            word | (1u64 << i)
        } else {
            word & !(1u64 << i)
        };
        proof {
            up_after_one(self@.held, frame as int, held);
            up_is_bounded(self@.held);
            up_is_bounded(self@.held.update(frame as int, held));
        }
        let ghost before = *self;
        if held && !was {
            self.used = self.used + 1;
        } else if !held && was {
            self.used = self.used - 1;
        }
        self.bitmap.set(frame / 64, changed);
        self.refcounts.set(frame, count);
        proof {
            assert forall|f: int| 0 <= f < before.bitmap@.len() * 64 implies #[trigger] bit(
                self.bitmap@[f / 64],
                (f % 64) as u64,
            ) == (if f == frame {
                held
            } else {
                bit(before.bitmap@[f / 64], (f % 64) as u64)
            }) by {
                if f / 64 == frame as int / 64 {
                    setting_one_bit(word, i, (f % 64) as u64);
                    clearing_one_bit(word, i, (f % 64) as u64);
                }
            }
            assert(self@.held =~= before@.held.update(frame as int, held));
            assert forall|f: int| 0 <= f < self@.frames() && !self@.held[f] implies #[trigger] self@.counts[f]
                == 0 by {
                if f != frame {
                    assert(!before@.held[f]);
                    assert(before@.counts[f] == 0);
                }
            }
            assert(self@ =~= FramesView {
                held: before@.held.update(frame as int, held),
                counts: before@.counts.update(frame as int, count),
                ..before@
            });
        }
    }
}

/// A search passes over frames that are held.
proof fn passes_over_held(held: Seq<bool>, from: int, to: int)
    requires
        0 <= from <= to,
        forall|f: int| from <= f < to && f < held.len() ==> #[trigger] held[f],
    ensures
        first_clear(held, from) == first_clear(held, to),
    decreases to - from,
{
    if from < to {
        if from < held.len() {
            assert(held[from]);
        }
        passes_over_held(held, from + 1, to);
    }
}

/// What a search finds is the first frame not held, and it finds one if there
/// is one.
pub proof fn a_search_finds_the_first(held: Seq<bool>, from: int)
    requires
        0 <= from,
    ensures
        match first_clear(held, from) {
            Some(frame) => {
                &&& from <= frame < held.len()
                &&& !held[frame]
                &&& forall|f: int| from <= f < frame ==> #[trigger] held[f]
            },
            None => forall|f: int| from <= f < held.len() ==> #[trigger] held[f],
        },
    decreases held.len() - from,
{
    if from < held.len() && held[from] {
        a_search_finds_the_first(held, from + 1);
    }
}

/// What a search for a run finds: the first place where as many frames as were
/// asked for are free one after another.
pub proof fn a_search_finds_a_run(held: Seq<bool>, from: int, run: int, count: int)
    requires
        0 <= run <= from,
        run < count,
        forall|f: int| from - run <= f < from ==> !(#[trigger] held[f]),
        from <= held.len(),
        from - run == 0 || run == from || held[from - run - 1],
    ensures
        match first_run(held, from, run, count) {
            Some(last) => {
                &&& from <= last < held.len()
                &&& is_run(held, last + 1 - count, count)
                &&& forall|g: int|
                    from - run <= g < last + 1 - count ==> !(#[trigger] is_run(held, g, count))
            },
            None => forall|g: int| from - run <= g ==> !(#[trigger] is_run(held, g, count)),
        },
    decreases held.len() - from,
{
    if from < held.len() {
        if held[from] {
            a_search_finds_a_run(held, from + 1, 0, count);
            assert forall|g: int| from - run <= g <= from implies !(#[trigger] is_run(
                held,
                g,
                count,
            )) by {
                assert(g <= from < g + count);
            }
        } else if run + 1 < count {
            a_search_finds_a_run(held, from + 1, run + 1, count);
        }
    }
}

impl BitmapAllocator {
    /// The first frame that is not held, looking at the words of the bitmap
    /// from `start` up to but not including `end`.
    fn scan(&self, start: usize, end: usize) -> (frame: Option<usize>)
        requires
            self.valid(),
            start * 64 <= self@.frames(),
            end * 64 <= self@.frames() + 63,
        ensures
            match frame {
                Some(f) => first_clear(self@.held, start * 64) == Some(f as int) && f
                    < self@.frames(),
                None => forall|f: int|
                    start * 64 <= f < end * 64 && f < self@.frames() ==> #[trigger] self@.held[f],
            },
    {
        let mut w: usize = start;
        while w < end
            invariant
                start <= w,
                self.valid(),
                start * 64 <= self@.frames(),
                end * 64 <= self@.frames() + 63,
                forall|f: int|
                    start * 64 <= f < w * 64 && f < self@.frames() ==> #[trigger] self@.held[f],
            decreases end - w,
        {
            let word: u64 = self.bitmap[w];
            if word != u64::MAX {
                let i: u32 = lowest_clear(word);
                let frame: usize = w * 64 + i as usize;
                proof {
                    assert(frame as int / 64 == w && frame as int % 64 == i);
                    if frame >= self.frames {
                        assert(bit(self.bitmap@[frame as int / 64], (frame as int % 64) as u64));
                    }
                    assert(!self@.held[frame as int]);
                    assert forall|f: int|
                        start * 64 <= f < frame && f < self@.frames() implies #[trigger] self@.held[f] by {
                        if f >= w * 64 {
                            assert(f / 64 == w);
                            assert(bit(word, (f % 64) as u64));
                        }
                    }
                    passes_over_held(self@.held, start * 64, frame as int);
                }
                return Some(frame);
            }
            proof {
                assert forall|f: int|
                    start * 64 <= f < (w + 1) * 64 && f
                        < self@.frames() implies #[trigger] self@.held[f] by {
                    if f >= w * 64 {
                        assert(f / 64 == w);
                        full_words((f % 64) as u64);
                    }
                }
            }
            w += 1;
        }
        None
    }

    /// Allocate one 4 KiB frame, returning its physical address.
    pub fn alloc_frame(&mut self) -> (phys: Option<u64>)
        requires
            old(self).valid(),
        ensures
            (final(self)@, phys) == old(self)@.allocated(),
            final(self).valid(),
    {
        proof {
            up_is_bounded(self@.held);
            a_search_finds_the_first(self@.held, self@.hint / 64 * 64);
            a_search_finds_the_first(self@.held, 0);
        }
        if self.used >= self.frames {
            return None;
        }
        let words: usize = self.frames / 64 + (if self.frames % 64 > 0 {
            1
        } else {
            0
        });
        let found = match self.scan(self.hint / 64, words) {
            Some(frame) => Some(frame),
            None => {
                let upto: usize = self.hint / 64 + (if self.hint % 64 > 0 {
                    1
                } else {
                    0
                });
                self.scan(0, upto)
            },
        };
        match found {
            Some(frame) => {
                self.mark(frame, true, 1);
                self.hint = frame + 1;
                assert(self@ =~= old(self)@.allocated().0);
                Some(frame as u64 * PAGE_SIZE_U64)
            },
            None => None,
        }
    }

    /// Allocate `count` physically contiguous frames.
    pub fn alloc_contiguous(&mut self, count: usize) -> (phys: Option<u64>)
        requires
            old(self).valid(),
        ensures
            (final(self)@, phys) == old(self)@.allocated_run(count as int),
            final(self).valid(),
    {
        if count == 0 {
            return None;
        }
        if count == 1 {
            return self.alloc_frame();
        }
        let ghost held = self@.held;
        let mut run: usize = 0;
        let mut f: usize = 0;
        while f < self.frames
            invariant
                self.valid(),
                *self == *old(self),
                held == self@.held,
                f <= self.frames,
                self.frames == held.len(),
                run <= f,
                run < count,
                count > 1,
                forall|x: int| f - run <= x < f ==> !(#[trigger] held[x]),
                first_run(held, f as int, run as int, count as int) == first_run(
                    held,
                    0,
                    0,
                    count as int,
                ),
            decreases self.frames - f,
        {
            if self.test(f) {
                run = 0;
            } else {
                run += 1;
                if run == count {
                    let first: usize = f + 1 - count;
                    let mut x: usize = first;
                    assert(self@ =~= old(self)@.taking_run(first as int, x as int));
                    while x <= f
                        invariant
                            first <= x <= f + 1,
                            f < old(self)@.frames(),
                            self.valid(),
                            self@ == old(self)@.taking_run(first as int, x as int),
                        decreases f + 1 - x,
                    {
                        self.mark(x, true, 1);
                        x += 1;
                        assert(self@ =~= old(self)@.taking_run(first as int, x as int));
                    }
                    return Some(first as u64 * PAGE_SIZE_U64);
                }
            }
            f += 1;
        }
        None
    }

    /// Drop one reference. The frame is only released when the last goes.
    pub fn free(&mut self, phys: u64)
        requires
            old(self).valid(),
        ensures
            final(self)@ == old(self)@.freed(phys),
            final(self).valid(),
    {
        let number: u64 = phys / PAGE_SIZE_U64;
        if number >= self.frames as u64 {
            return;
        }
        let frame: usize = number as usize;
        if !self.test(frame) {
            return;
        }
        let count: u16 = self.refcounts[frame];
        if count > 1 {
            self.mark(frame, true, count - 1);
            assert(self@ =~= old(self)@.freed(phys));
            return;
        }
        self.mark(frame, false, 0);
        if frame < self.hint {
            self.hint = frame;
        }
        assert(self@ =~= old(self)@.freed(phys));
    }

    pub fn share(&mut self, phys: u64)
        requires
            old(self).valid(),
        ensures
            final(self)@ == old(self)@.shared(phys),
            final(self).valid(),
    {
        let number: u64 = phys / PAGE_SIZE_U64;
        if number >= self.frames as u64 {
            return;
        }
        let frame: usize = number as usize;
        if self.test(frame) {
            let count: u16 = self.refcounts[frame];
            let more: u16 = if count < 0xFFFF {
                count + 1
            } else {
                0xFFFF
            };
            self.mark(frame, true, more);
            assert(self@ =~= old(self)@.shared(phys));
        }
    }

    pub fn references(&self, phys: u64) -> (count: u16)
        requires
            self.valid(),
        ensures
            count == self@.references(phys),
    {
        let number: u64 = phys / PAGE_SIZE_U64;
        if number < self.frames as u64 {
            self.refcounts[number as usize]
        } else {
            0
        }
    }

    /// How much memory this machine has, in frames. The holes the bitmap
    /// also covers are not memory and are left out, so nothing reported from
    /// here claims memory the kernel cannot touch.
    pub fn total_frames(&self) -> (count: usize)
        ensures
            count == self@.managed,
    {
        self.managed
    }

    /// How much of that memory is held, in frames.
    pub fn used_frames(&self) -> (count: usize)
        requires
            self.valid(),
            self@.used() >= self@.frames() - self@.managed,
        ensures
            count == self@.used() - (self@.frames() - self@.managed),
    {
        self.used - (self.frames - self.managed)
    }

    pub fn free_frames(&self) -> (count: usize)
        requires
            self.valid(),
        ensures
            count == self@.frames() - self@.used(),
    {
        proof {
            up_is_bounded(self@.held);
        }
        self.frames - self.used
    }

    pub fn bitmap_region(&self) -> (region: (u64, usize))
        ensures
            region == self@.region,
    {
        (self.bitmap_phys, self.bitmap_bytes)
    }
}

// ---- building one from a memory map -------------------------------------------------

/// A stretch of physical memory a memory map reports.
#[derive(Debug, Clone, Copy)]
pub struct Region {
    pub addr: u64,
    pub len: u64,
    pub usable: bool,
}

impl Region {
    pub fn end(&self) -> (end: u64)
        requires
            self.addr + self.len <= u64::MAX,
        ensures
            end == self.addr + self.len,
    {
        self.addr + self.len
    }
}

/// A stretch of physical memory that is spoken for.
#[derive(Debug, Clone, Copy)]
pub struct Range {
    pub start: u64,
    pub end: u64,
}

/// What is known of a machine's memory before anything is allocated from it.
pub struct BootMap {
    /// The memory map.
    pub regions: Vec<Region>,
    /// What the firmware says is not to be touched.
    pub reserved: Vec<Range>,
    /// What the boot loader placed in memory for the kernel.
    pub modules: Vec<Range>,
}

/// Where a machine's kernel, peripherals and direct map are.
pub struct Platform {
    /// Physical memory the machine claims for itself.
    pub claimed: Vec<Range>,
    pub kernel_phys_start: u64,
    pub kernel_phys_end: u64,
    /// Where the peripherals begin. The direct map covers what is above with
    /// device attributes.
    pub device_phys_base: u64,
    /// How much of physical memory the direct map covers.
    pub hhdm_limit: u64,
}

/// The last address a range can end at and still be rounded up to a page.
pub const LAST_END: u64 = 0xFFFF_FFFF_FFFF_F000;

/// Ranges that end where a page can be rounded up to.
pub open spec fn ranges_fit(ranges: Seq<Range>) -> bool {
    forall|i: int| 0 <= i < ranges.len() ==> (#[trigger] ranges[i]).end <= LAST_END
}

impl BootMap {
    /// Nothing in the map runs past the top of the address space.
    pub open spec fn fits(&self) -> bool {
        &&& forall|i: int|
            0 <= i < self.regions@.len() ==> (#[trigger] self.regions@[i]).addr
                + self.regions@[i].len <= LAST_END
        &&& ranges_fit(self.reserved@)
        &&& ranges_fit(self.modules@)
    }

    /// Whether a frame is released from the map: it lies wholly inside memory
    /// that is reported usable, below `limit`.
    pub open spec fn releases(&self, limit: u64, frame: int) -> bool {
        exists|i: int|
            0 <= i < self.regions@.len() && #[trigger] region_releases(
                self.regions@[i],
                limit,
                frame,
            )
    }
}

/// Whether a frame lies wholly between two addresses.
pub open spec fn wholly_between(start: u64, end: u64, frame: int) -> bool {
    start <= frame * 4096 && (frame + 1) * 4096 <= end
}

/// Whether a frame lies wholly inside a usable stretch, below `limit`.
pub open spec fn region_releases(region: Region, limit: u64, frame: int) -> bool {
    region.usable && wholly_between(
        region.addr,
        lower(region.addr + region.len, limit as int) as u64,
        frame,
    )
}

/// Whether a range holds any part of a frame.
pub open spec fn touches(range: Range, frame: int) -> bool {
    range.start < (frame + 1) * 4096 && frame * 4096 < range.end
}

/// Whether any of some ranges holds any part of a frame.
pub open spec fn any_touches(ranges: Seq<Range>, frame: int) -> bool {
    exists|i: int| 0 <= i < ranges.len() && #[trigger] touches(ranges[i], frame)
}

/// How much memory an allocator reaching up to `limit` needs for its bitmap
/// and its reference counts.
pub open spec fn metadata_size(limit: u64) -> int {
    let frames = limit as int / 4096;
    mm::up_to((frames + 7) / 8, 4096) + mm::up_to(frames * 2, 4096)
}

/// Everything that is spoken for: what the machine claims, the kernel, the
/// allocator's own records, what the firmware reserved, and what the loader
/// placed.
pub open spec fn is_claimed(
    boot: &BootMap,
    platform: &Platform,
    limit: u64,
    metadata_phys: u64,
    frame: int,
) -> bool {
    ||| any_touches(platform.claimed@, frame)
    ||| touches(kernel_range(platform), frame)
    ||| touches(
        Range { start: metadata_phys, end: (metadata_phys + metadata_size(limit)) as u64 },
        frame,
    )
    ||| any_touches(boot.reserved@, frame)
    ||| any_touches(boot.modules@, frame)
}

/// Where the kernel itself is.
pub open spec fn kernel_range(platform: &Platform) -> Range {
    Range { start: platform.kernel_phys_start, end: platform.kernel_phys_end }
}

/// Which frames below `limit` are memory.
pub open spec fn memory_in(boot: &BootMap, limit: u64) -> Seq<bool> {
    Seq::new((limit as int / 4096) as nat, |f: int| boot.releases(limit, f))
}

/// The allocator a memory map makes: every frame that is memory and not spoken
/// for is free, and every other is held.
pub open spec fn built(
    boot: &BootMap,
    platform: &Platform,
    limit: u64,
    metadata_phys: u64,
) -> FramesView {
    let frames = (limit as int / 4096) as nat;
    FramesView {
        held: Seq::new(
            frames,
            |f: int|
                !boot.releases(limit, f) || is_claimed(boot, platform, limit, metadata_phys, f),
        ),
        counts: Seq::new(
            frames,
            |f: int|
                if is_claimed(boot, platform, limit, metadata_phys, f) {
                    1u16
                } else {
                    0u16
                },
        ),
        managed: up(memory_in(boot, limit)) as int,
        hint: 0,
        region: (metadata_phys, metadata_size(limit) as usize),
    }
}

/// The highest end of the usable memory among some regions.
pub open spec fn highest_usable(regions: Seq<Region>) -> int
    decreases regions.len(),
{
    if regions.len() == 0 {
        0
    } else {
        let before = highest_usable(regions.drop_last());
        let last = regions.last();
        if last.usable && last.addr + last.len > before {
            last.addr + last.len
        } else {
            before
        }
    }
}

/// The smaller of two numbers.
pub open spec fn lower(a: int, b: int) -> int {
    if a < b {
        a
    } else {
        b
    }
}

/// Top of the memory an allocator built from this map will manage.
///
/// Two things bound it. The direct map covers the low part of physical memory
/// and nothing above it, so a frame past that has no kernel-side address at
/// all. Below that, the last part of the direct map is where the peripherals
/// are, and the kernel reaches them through it with device attributes: a frame
/// there has no cacheable alias. The firmware can report memory running up to
/// the peripherals, so this is what keeps that memory out of the allocator
/// rather than anything the memory map says.
pub fn usable_limit(boot: &BootMap, platform: &Platform) -> (limit: u64)
    requires
        boot.fits(),
    ensures
        limit == lower(
            lower(highest_usable(boot.regions@), platform.device_phys_base as int),
            platform.hhdm_limit as int,
        ),
{
    let mut top: u64 = 0;
    let mut i: usize = 0;
    assert(boot.regions@.take(0) =~= Seq::empty());
    while i < boot.regions.len()
        invariant
            i <= boot.regions@.len(),
            boot.fits(),
            top == highest_usable(boot.regions@.take(i as int)),
        decreases boot.regions@.len() - i,
    {
        let region = boot.regions[i];
        assert(boot.regions@.take(i + 1).drop_last() =~= boot.regions@.take(i as int));
        assert(boot.regions@[i as int].addr + boot.regions@[i as int].len <= LAST_END);
        if region.usable && region.end() > top {
            top = region.end();
        }
        i += 1;
    }
    assert(boot.regions@.take(i as int) =~= boot.regions@);
    if top > platform.device_phys_base {
        top = platform.device_phys_base;
    }
    if top > platform.hhdm_limit {
        top = platform.hhdm_limit;
    }
    top
}

/// How much memory an allocator reaching up to `limit` needs for its bitmap
/// and its reference counts. The two are laid out one after the other, each
/// rounded up to whole pages.
pub fn metadata_bytes(limit: u64) -> (size: usize)
    requires
        metadata_size(limit) <= usize::MAX,
    ensures
        size == metadata_size(limit),
{
    let frames: u64 = limit / PAGE_SIZE_U64;
    let bitmap: u64 = page_align_up((frames + 7) / 8);
    let counts: u64 = page_align_up(frames * 2);
    proof {
        mm::aligning_is_nearest((frames as int + 7) / 8, 4096);
        mm::aligning_is_nearest(frames * 2, 4096);
    }
    (bitmap + counts) as usize
}

impl BitmapAllocator {
    /// An allocator that holds everything.
    fn all_held(limit: u64, metadata_phys: u64) -> (allocator: BitmapAllocator)
        requires
            metadata_size(limit) <= usize::MAX,
        ensures
            allocator.valid(),
            allocator@ == (FramesView {
                held: Seq::new((limit as int / 4096) as nat, |f: int| true),
                counts: Seq::new((limit as int / 4096) as nat, |f: int| 0u16),
                managed: 0,
                hint: 0,
                region: (metadata_phys, metadata_size(limit) as usize),
            }),
    {
        let total: u64 = limit / PAGE_SIZE_U64;
        proof {
            mm::aligning_is_nearest((total as int + 7) / 8, 4096);
            mm::aligning_is_nearest(total * 2, 4096);
            assert(total * 2 <= usize::MAX);
        }
        let frames: usize = total as usize;
        let words: usize = frames / 64 + (if frames % 64 > 0 {
            1
        } else {
            0
        });
        let mut bitmap: Vec<u64> = Vec::new();
        while bitmap.len() < words
            invariant
                bitmap@.len() <= words,
                forall|i: int| 0 <= i < bitmap@.len() ==> #[trigger] bitmap@[i] == u64::MAX,
            decreases words - bitmap@.len(),
        {
            bitmap.push(u64::MAX);
        }
        let mut refcounts: Vec<u16> = Vec::new();
        while refcounts.len() < frames
            invariant
                refcounts@.len() <= frames,
                forall|i: int| 0 <= i < refcounts@.len() ==> #[trigger] refcounts@[i] == 0,
            decreases frames - refcounts@.len(),
        {
            refcounts.push(0);
        }
        let allocator = BitmapAllocator {
            bitmap,
            refcounts,
            frames,
            managed: 0,
            used: frames,
            hint: 0,
            bitmap_phys: metadata_phys,
            bitmap_bytes: metadata_bytes(limit),
        };
        proof {
            assert forall|f: int| 0 <= f < bitmap@.len() * 64 implies #[trigger] bit(
                bitmap@[f / 64],
                (f % 64) as u64,
            ) by {
                assert(bitmap@[f / 64] == u64::MAX);
                full_words((f % 64) as u64);
            }
            up_is_bounded(allocator@.held);
            assert(allocator@.held =~= Seq::new(frames as nat, |f: int| true));
            assert(allocator@.counts =~= Seq::new(frames as nat, |f: int| 0u16));
        }
        allocator
    }

    fn mark_range_used(&mut self, start: u64, end: u64)
        requires
            old(self).valid(),
            end <= LAST_END,
        ensures
            final(self).valid(),
            final(self)@ == old(self)@.claiming(Range { start, end }),
    {
        let first: u64 = start / PAGE_SIZE_U64;
        let last: u64 = page_align_up(end) / PAGE_SIZE_U64;
        let ghost range = Range { start, end };
        let mut f: u64 = first;
        proof {
            mm::aligning_is_nearest(end as int, 4096);
            assert(self@ =~= old(self)@.taking_run(first as int, f as int));
        }
        while f < last && f < self.frames as u64
            invariant
                first <= f,
                f <= last || f == first,
                self.valid(),
                self@.frames() == old(self)@.frames(),
                self@ == old(self)@.taking_run(first as int, f as int),
            decreases last - f,
        {
            // Never hand these back; one permanent reference keeps them held.
            self.mark(f as usize, true, 1);
            f += 1;
            assert(self@ =~= old(self)@.taking_run(first as int, f as int));
        }
        proof {
            assert forall|x: int| 0 <= x < old(self)@.frames() implies (#[trigger] touches(
                range,
                x,
            ) <==> first <= x < f) by {
                assert(first as int == start as int / 4096);
                assert(last as int == (end as int + 4095) / 4096);
            }
            assert(self@ =~= old(self)@.claiming(range));
        }
    }

    fn mark_range_free(&mut self, start: u64, end: u64)
        requires
            old(self).valid(),
            start <= LAST_END,
            forall|f: int| 0 <= f < old(self)@.frames() ==> #[trigger] old(self)@.counts[f] == 0,
        ensures
            final(self).valid(),
            final(self)@ == old(self)@.releasing(start, end),
    {
        let first: u64 = page_align_up(start) / PAGE_SIZE_U64;
        let last: u64 = end / PAGE_SIZE_U64;
        let mut f: u64 = first;
        assert(self@ =~= old(self)@.releasing_between(first as int, f as int));
        while f < last && f < self.frames as u64
            invariant
                first <= f,
                f <= last || f == first,
                self.valid(),
                self@.frames() == old(self)@.frames(),
                forall|f: int|
                    0 <= f < old(self)@.frames() ==> #[trigger] old(self)@.counts[f] == 0,
                self@ == old(self)@.releasing_between(first as int, f as int),
            decreases last - f,
        {
            self.mark(f as usize, false, 0);
            f += 1;
            assert(self@ =~= old(self)@.releasing_between(first as int, f as int));
        }
        proof {
            assert(first as int == (start as int + 4095) / 4096);
            assert(last as int == end as int / 4096);
            assert forall|x: int| 0 <= x < old(self)@.frames() implies (#[trigger] wholly_between(
                start,
                end,
                x,
            ) <==> first <= x < f) by {
            }
            assert(self@ =~= old(self)@.releasing(start, end));
        }
    }
}

impl FramesView {
    /// Every frame a range touches held for ever.
    pub open spec fn claiming(self, range: Range) -> FramesView {
        FramesView {
            held: Seq::new(self.held.len(), |f: int| touches(range, f) || self.held[f]),
            counts: Seq::new(
                self.counts.len(),
                |f: int|
                    if touches(range, f) {
                        1u16
                    } else {
                        self.counts[f]
                    },
            ),
            ..self
        }
    }

    /// Every frame wholly between two addresses free.
    pub open spec fn releasing(self, start: u64, end: u64) -> FramesView {
        FramesView {
            held: Seq::new(
                self.held.len(),
                |f: int| !wholly_between(start, end, f) && self.held[f],
            ),
            ..self
        }
    }

    /// Some of the frames free.
    pub open spec fn releasing_between(self, first: int, end: int) -> FramesView {
        FramesView {
            held: Seq::new(self.held.len(), |f: int| !(first <= f < end) && self.held[f]),
            ..self
        }
    }

    /// Every frame that any of some ranges touches held for ever.
    pub open spec fn claiming_all(self, ranges: Seq<Range>) -> FramesView {
        FramesView {
            held: Seq::new(self.held.len(), |f: int| any_touches(ranges, f) || self.held[f]),
            counts: Seq::new(
                self.counts.len(),
                |f: int|
                    if any_touches(ranges, f) {
                        1u16
                    } else {
                        self.counts[f]
                    },
            ),
            ..self
        }
    }
}

/// The frames of the first `count` regions released from an allocator that
/// holds everything.
pub open spec fn released_by(boot: &BootMap, limit: u64, count: int, frame: int) -> bool {
    exists|i: int|
        0 <= i < count && #[trigger] region_releases(boot.regions@[i], limit, frame)
}

impl BitmapAllocator {
    /// Hold everything some ranges touch.
    fn claim_all(&mut self, ranges: &Vec<Range>)
        requires
            old(self).valid(),
            ranges_fit(ranges@),
        ensures
            final(self).valid(),
            final(self)@ == old(self)@.claiming_all(ranges@),
    {
        let mut i: usize = 0;
        proof {
            assert(ranges@.take(0) =~= Seq::empty());
            assert(self@ =~= old(self)@.claiming_all(ranges@.take(0)));
        }
        while i < ranges.len()
            invariant
                i <= ranges@.len(),
                self.valid(),
                ranges_fit(ranges@),
                self@ == old(self)@.claiming_all(ranges@.take(i as int)),
            decreases ranges@.len() - i,
        {
            let range = ranges[i];
            assert(ranges@[i as int].end <= LAST_END);
            self.mark_range_used(range.start, range.end);
            proof {
                assert forall|f: int| #[trigger]
                    any_touches(ranges@.take(i + 1), f) == (touches(range, f) || any_touches(
                        ranges@.take(i as int),
                        f,
                    )) by {
                    one_more_range(ranges@, i as int, f);
                }
                assert(self@ =~= old(self)@.claiming_all(ranges@.take(i + 1)));
            }
            i += 1;
        }
        assert(ranges@.take(i as int) =~= ranges@);
    }

    /// Release everything the map reports usable.
    fn release_all(&mut self, boot: &BootMap, limit: u64)
        requires
            old(self).valid(),
            boot.fits(),
            forall|f: int| 0 <= f < old(self)@.frames() ==> #[trigger] old(self)@.counts[f] == 0,
            forall|f: int| 0 <= f < old(self)@.frames() ==> #[trigger] old(self)@.held[f],
        ensures
            final(self).valid(),
            final(self)@ == (FramesView {
                held: Seq::new(old(self)@.held.len(), |f: int| !boot.releases(limit, f)),
                ..old(self)@
            }),
    {
        let mut i: usize = 0;
        proof {
            assert(self@ =~= FramesView {
                held: Seq::new(old(self)@.held.len(), |f: int| !released_by(boot, limit, 0, f)),
                ..old(self)@
            });
        }
        while i < boot.regions.len()
            invariant
                i <= boot.regions@.len(),
                self.valid(),
                boot.fits(),
                forall|f: int|
                    0 <= f < old(self)@.frames() ==> #[trigger] old(self)@.counts[f] == 0,
                self@ == (FramesView {
                    held: Seq::new(
                        old(self)@.held.len(),
                        |f: int| !released_by(boot, limit, i as int, f),
                    ),
                    ..old(self)@
                }),
            decreases boot.regions@.len() - i,
        {
            let region = boot.regions[i];
            assert(boot.regions@[i as int].addr + boot.regions@[i as int].len <= LAST_END);
            let ghost before = self@;
            if region.usable {
                let end: u64 = region.end();
                let upto: u64 = if end < limit {
                    end
                } else {
                    limit
                };
                self.mark_range_free(region.addr, upto);
            }
            proof {
                assert forall|f: int| #[trigger]
                    released_by(boot, limit, i + 1, f) == (region_releases(region, limit, f)
                        || released_by(boot, limit, i as int, f)) by {
                    if released_by(boot, limit, i + 1, f) {
                        let k = choose|k: int|
                            0 <= k < i + 1 && #[trigger] region_releases(
                                boot.regions@[k],
                                limit,
                                f,
                            );
                        if k < i {
                            assert(region_releases(boot.regions@[k], limit, f));
                        }
                    }
                    if released_by(boot, limit, i as int, f) {
                        let k = choose|k: int|
                            0 <= k < i && #[trigger] region_releases(boot.regions@[k], limit, f);
                        assert(region_releases(boot.regions@[k], limit, f));
                    }
                    if region_releases(region, limit, f) {
                        assert(region_releases(boot.regions@[i as int], limit, f));
                    }
                }
                assert(self@ =~= FramesView {
                    held: Seq::new(
                        old(self)@.held.len(),
                        |f: int| !released_by(boot, limit, i + 1, f),
                    ),
                    ..old(self)@
                });
            }
            i += 1;
        }
        proof {
            assert forall|f: int| #[trigger]
                boot.releases(limit, f) == released_by(boot, limit, i as int, f) by {
            }
            assert(self@ =~= FramesView {
                held: Seq::new(old(self)@.held.len(), |f: int| !boot.releases(limit, f)),
                ..old(self)@
            });
        }
    }
}

/// One more range touches what it touches.
proof fn one_more_range(ranges: Seq<Range>, i: int, f: int)
    requires
        0 <= i < ranges.len(),
    ensures
        any_touches(ranges.take(i + 1), f) == (touches(ranges[i], f) || any_touches(
            ranges.take(i),
            f,
        )),
{
    let more = ranges.take(i + 1);
    let fewer = ranges.take(i);
    if any_touches(more, f) {
        let k = choose|k: int| 0 <= k < more.len() && #[trigger] touches(more[k], f);
        if k < i {
            assert(touches(fewer[k], f));
        }
    }
    if any_touches(fewer, f) {
        let k = choose|k: int| 0 <= k < fewer.len() && #[trigger] touches(fewer[k], f);
        assert(touches(more[k], f));
    }
    if touches(ranges[i], f) {
        assert(touches(more[i], f));
    }
}

/// As many flags are down as are not up.
proof fn down_and_up(flags: Seq<bool>, others: Seq<bool>)
    requires
        flags.len() == others.len(),
        forall|i: int| 0 <= i < flags.len() ==> #[trigger] flags[i] == !others[i],
    ensures
        up(flags) + up(others) == flags.len(),
    decreases flags.len(),
{
    if flags.len() > 0 {
        let a = flags.drop_last();
        let b = others.drop_last();
        assert forall|i: int| 0 <= i < a.len() implies #[trigger] a[i] == !b[i] by {
            assert(flags[i] == !others[i]);
        }
        down_and_up(a, b);
        assert(flags[flags.len() - 1] == !others[flags.len() - 1]);
    }
}

/// Build an allocator over the map `boot` describes, with its bitmap and
/// reference counts at `metadata_phys`, which must be `metadata_bytes(limit)`
/// long and clear of everything the map calls usable.
///
/// `init` takes that memory out of the map itself. Whoever builds an allocator
/// over a map describing a machine this is not has to say where the metadata
/// may go, because nothing in such a map is memory here.
pub fn build(boot: &BootMap, platform: &Platform, limit: u64, metadata_phys: u64) -> (allocator:
    BitmapAllocator)
    requires
        boot.fits(),
        ranges_fit(platform.claimed@),
        platform.kernel_phys_end <= LAST_END,
        metadata_size(limit) <= usize::MAX,
        metadata_phys + metadata_size(limit) <= LAST_END,
    ensures
        allocator.valid(),
        allocator@ == built(boot, platform, limit, metadata_phys),
        allocator@.holes_are_held(memory_in(boot, limit)),
{
    let metadata: usize = metadata_bytes(limit);
    let mut allocator = BitmapAllocator::all_held(limit, metadata_phys);
    // Release usable RAM, then take back everything that is already spoken for.
    allocator.release_all(boot, limit);
    proof {
        down_and_up(allocator@.held, memory_in(boot, limit));
        up_is_bounded(allocator@.held);
    }
    // What has just been released is all the memory there is. Whatever the
    // bitmap still covers is a hole between the banks the map reports, or the
    // part of the map that was clamped away above; neither is memory, so
    // neither is counted in what the machine reports it has.
    allocator.managed = allocator.frames - allocator.used;
    assert(allocator@.managed == up(memory_in(boot, limit)));
    allocator.claim_all(&platform.claimed);
    allocator.mark_range_used(platform.kernel_phys_start, platform.kernel_phys_end);
    allocator.mark_range_used(metadata_phys, metadata_phys + metadata as u64);
    allocator.claim_all(&boot.reserved);
    allocator.claim_all(&boot.modules);
    assert(allocator@ =~= built(boot, platform, limit, metadata_phys));
    allocator
}

/// Where everything that was placed in memory before the allocator ends.
pub open spec fn highest_end(ranges: Seq<Range>, least: int) -> int
    decreases ranges.len(),
{
    if ranges.len() == 0 {
        least
    } else {
        let before = highest_end(ranges.drop_last(), least);
        if ranges.last().end > before {
            ranges.last().end as int
        } else {
            before
        }
    }
}

/// Past the kernel, what the firmware reserved, the modules, and what the
/// machine claims.
pub open spec fn barrier(boot: &BootMap, platform: &Platform) -> int {
    highest_end(
        platform.claimed@,
        highest_end(
            boot.modules@,
            highest_end(boot.reserved@, platform.kernel_phys_end as int),
        ),
    )
}

/// Where a region past the barrier begins on a page.
pub open spec fn room_in(region: Region, past: int) -> int {
    mm::up_to(
        if region.addr > past {
            region.addr as int
        } else {
            past
        },
        4096,
    )
}

/// Whether a region has room for this much past the barrier, below `limit`.
pub open spec fn has_room(region: Region, past: int, size: int, limit: u64) -> bool {
    region.usable && room_in(region, past) + size <= lower(
        region.addr + region.len,
        limit as int,
    )
}

/// The first region from `from` on with room for this much past the barrier.
pub open spec fn place_for(regions: Seq<Region>, from: int, past: int, size: int, limit: u64) -> Option<
    int,
>
    decreases regions.len() - from,
{
    if from < 0 || from >= regions.len() {
        None
    } else if has_room(regions[from], past, size, limit) {
        Some(room_in(regions[from], past))
    } else {
        place_for(regions, from + 1, past, size, limit)
    }
}

fn raise_to_ends(ranges: &Vec<Range>, least: u64) -> (end: u64)
    ensures
        end == highest_end(ranges@, least as int),
{
    let mut end: u64 = least;
    let mut i: usize = 0;
    assert(ranges@.take(0) =~= Seq::empty());
    while i < ranges.len()
        invariant
            i <= ranges@.len(),
            end == highest_end(ranges@.take(i as int), least as int),
        decreases ranges@.len() - i,
    {
        assert(ranges@.take(i + 1).drop_last() =~= ranges@.take(i as int));
        if ranges[i].end > end {
            end = ranges[i].end;
        }
        i += 1;
    }
    assert(ranges@.take(i as int) =~= ranges@);
    end
}

proof fn ends_fit(ranges: Seq<Range>, least: int)
    requires
        ranges_fit(ranges),
        least <= LAST_END,
    ensures
        highest_end(ranges, least) <= LAST_END,
    decreases ranges.len(),
{
    if ranges.len() > 0 {
        let before = ranges.drop_last();
        assert forall|i: int| 0 <= i < before.len() implies (#[trigger] before[i]).end
            <= LAST_END by {
            assert(ranges[i].end <= LAST_END);
        }
        ends_fit(before, least);
        assert(ranges[ranges.len() - 1].end <= LAST_END);
    }
}

/// Build the frame allocator from the boot loader's memory map. `None` when
/// there is no room for its records.
///
/// The bitmap must not land on the kernel image, the modules, anything the
/// loader left behind, or memory the machine claims, so the search starts past
/// all of them.
pub fn init(boot: &BootMap, platform: &Platform) -> (allocator: Option<BitmapAllocator>)
    requires
        boot.fits(),
        ranges_fit(platform.claimed@),
        platform.kernel_phys_end <= LAST_END,
        metadata_size(
            lower(
                lower(highest_usable(boot.regions@), platform.device_phys_base as int),
                platform.hhdm_limit as int,
            ) as u64,
        ) <= usize::MAX,
    ensures
        ({
            let limit = lower(
                lower(highest_usable(boot.regions@), platform.device_phys_base as int),
                platform.hhdm_limit as int,
            ) as u64;
            match place_for(
                boot.regions@,
                0,
                barrier(boot, platform),
                metadata_size(limit),
                limit,
            ) {
                None => allocator is None,
                Some(place) => if place == 0 {
                    allocator is None
                } else {
                    allocator matches Some(a) && a.valid() && a@ == built(
                        boot,
                        platform,
                        limit,
                        place as u64,
                    ) && a@.holes_are_held(memory_in(boot, limit))
                },
            }
        }),
{
    let limit: u64 = usable_limit(boot, platform);
    let metadata: usize = metadata_bytes(limit);
    let mut past: u64 = raise_to_ends(&boot.reserved, platform.kernel_phys_end);
    past = raise_to_ends(&boot.modules, past);
    past = raise_to_ends(&platform.claimed, past);
    proof {
        ends_fit(boot.reserved@, platform.kernel_phys_end as int);
        ends_fit(
            boot.modules@,
            highest_end(boot.reserved@, platform.kernel_phys_end as int),
        );
        ends_fit(
            platform.claimed@,
            highest_end(
                boot.modules@,
                highest_end(boot.reserved@, platform.kernel_phys_end as int),
            ),
        );
        mm::aligning_is_nearest((limit as int / 4096 + 7) / 8, 4096);
        mm::aligning_is_nearest(limit as int / 4096 * 2, 4096);
    }
    let mut i: usize = 0;
    while i < boot.regions.len()
        invariant
            i <= boot.regions@.len(),
            boot.fits(),
            past <= LAST_END,
            past == barrier(boot, platform),
            metadata == metadata_size(limit),
            ranges_fit(platform.claimed@),
            platform.kernel_phys_end <= LAST_END,
            metadata_size(limit) <= usize::MAX,
            limit == lower(
                lower(highest_usable(boot.regions@), platform.device_phys_base as int),
                platform.hhdm_limit as int,
            ),
            place_for(boot.regions@, i as int, past as int, metadata as int, limit) == place_for(
                boot.regions@,
                0,
                past as int,
                metadata as int,
                limit,
            ),
        decreases boot.regions@.len() - i,
    {
        let region = boot.regions[i];
        assert(boot.regions@[i as int].addr + boot.regions@[i as int].len <= LAST_END);
        if region.usable {
            let from: u64 = if region.addr > past {
                region.addr
            } else {
                past
            };
            proof {
                mm::aligning_is_nearest(from as int, 4096);
            }
            let start: u64 = page_align_up(from);
            // Clamped like the rest of the map: records reached through a
            // device alias would be read back with whatever attributes the
            // walk of the bitmap happened to use.
            let end: u64 = if region.end() < limit {
                region.end()
            } else {
                limit
            };
            if start <= end && end - start >= metadata as u64 {
                if start == 0 {
                    return None;
                }
                return Some(build(boot, platform, limit, start));
            }
        }
        i += 1;
    }
    None
}

// ---- references --------------------------------------------------------------------

/// One reference to a physical frame.
///
/// A frame is released when its last reference goes, so everything that
/// records a frame holds one of these, and everything that stops recording it
/// gives one back. Holding the reference in a value rather than counting by
/// hand is what makes a missed share or a second release a move error instead
/// of a page handed to two owners.
///
/// A page table entry is the one place a reference is recorded where the type
/// system cannot see it, so `into_recorded` and `from_recorded` mark the two
/// crossings.
#[derive(Debug)]
pub struct Frame(u64);

impl Frame {
    pub closed spec fn at(&self) -> u64 {
        self.0
    }

    pub fn addr(&self) -> (phys: u64)
        ensures
            phys == self.at(),
    {
        self.0
    }

    /// A second reference to the same frame, for a mapping that shares it.
    pub fn share(&self, allocator: &mut BitmapAllocator) -> (other: Frame)
        requires
            old(allocator).valid(),
        ensures
            other.at() == self.at(),
            final(allocator)@ == old(allocator)@.shared(self.at()),
            final(allocator).valid(),
    {
        allocator.share(self.0);
        Frame(self.0)
    }

    /// Give up the handle without releasing the frame: the reference is now
    /// recorded somewhere else, in practice a page table entry.
    pub fn into_recorded(self) -> (phys: u64)
        ensures
            phys == self.at(),
    {
        self.0
    }

    /// Take back a reference that was recorded elsewhere. The caller must be
    /// removing exactly one recorded reference, and must not use the recorded
    /// copy again.
    pub fn from_recorded(phys: u64) -> (frame: Frame)
        ensures
            frame.at() == phys,
    {
        Frame(phys)
    }

    /// Give the reference back.
    pub fn release(self, allocator: &mut BitmapAllocator)
        requires
            old(allocator).valid(),
        ensures
            final(allocator)@ == old(allocator)@.freed(self.at()),
            final(allocator).valid(),
    {
        allocator.free(self.0);
    }
}

/// One more reference to a frame something else already holds, for a caller
/// that is about to record it.
pub fn share_recorded(allocator: &mut BitmapAllocator, phys: u64) -> (frame: Frame)
    requires
        old(allocator).valid(),
    ensures
        frame.at() == phys,
        final(allocator)@ == old(allocator)@.shared(phys),
        final(allocator).valid(),
{
    allocator.share(phys);
    Frame(phys)
}

/// The first frame there is, as a reference to it.
pub fn take_frame(allocator: &mut BitmapAllocator) -> (frame: Option<Frame>)
    requires
        old(allocator).valid(),
    ensures
        final(allocator)@ == old(allocator)@.allocated().0,
        match old(allocator)@.allocated().1 {
            None => frame is None,
            Some(phys) => frame matches Some(f) && f.at() == phys,
        },
        final(allocator).valid(),
{
    match allocator.alloc_frame() {
        Some(phys) => Some(Frame(phys)),
        None => None,
    }
}

/// How many references a frame has, before and after there is an allocator.
pub fn frame_references(allocator: &Option<BitmapAllocator>, phys: u64) -> (count: u16)
    requires
        allocator matches Some(a) ==> a.valid(),
    ensures
        count == (match allocator {
            Some(a) => a@.references(phys),
            None => 0,
        }),
{
    match allocator {
        Some(a) => a.references(phys),
        None => 0,
    }
}

/// How much of the machine's memory is held, and how much there is, in frames.
pub fn stats(allocator: &Option<BitmapAllocator>) -> (counts: (usize, usize))
    requires
        allocator matches Some(a) ==> a.valid() && a@.used() >= a@.frames() - a@.managed,
    ensures
        counts == (match allocator {
            Some(a) => (
                (a@.used() - (a@.frames() - a@.managed)) as usize,
                a@.managed as usize,
            ),
            None => (0usize, 0usize),
        }),
{
    match allocator {
        Some(a) => (a.used_frames(), a.total_frames()),
        None => (0, 0),
    }
}

} // verus!
