//! Kernel heap: an address-ordered free list with coalescing on free.

use crate::mm::{self, align_up, FRAME_RESERVE, HEAP_MARGIN, PAGE_SIZE, PAGE_SIZE_U64};
use vstd::prelude::*;

verus! {

/// Smallest block the free list keeps.
pub const MIN_BLOCK: usize = 16;

/// What an allocator asks of the heap at least, because the caller waiting on
/// it pays for every claim it has to make.
pub const CHUNK: usize = 0x80_0000;

/// Least to map in one go ahead of need, so a margin nibbled at by one system
/// call after another does not cost a page table write per call.
pub const STEP: usize = 0x4_0000;

/// A stretch of free heap.
#[derive(Debug, Clone, Copy, PartialEq, Eq, Structural)]
pub struct Hole {
    pub start: usize,
    pub size: usize,
}

impl Hole {
    pub open spec fn end(self) -> int {
        self.start + self.size
    }

    pub open spec fn covers(self, addr: int) -> bool {
        self.start <= addr < self.end()
    }
}

/// What is asked of the heap: how much, and aligned how.
#[derive(Debug, Clone, Copy, PartialEq, Eq, Structural)]
pub struct Layout {
    pub size: usize,
    pub align: usize,
}

impl Layout {
    /// A size that still fits once it is rounded up to its alignment, which is
    /// a power of two.
    pub open spec fn fits(self) -> bool {
        &&& mm::power_of_two(self.align as int)
        &&& mm::up_to(self.size as int, self.align as int) <= isize::MAX
    }

    /// The size a block for this gets.
    pub open spec fn block(self) -> int {
        mm::up_to(
            if self.size < MIN_BLOCK {
                MIN_BLOCK as int
            } else {
                self.size as int
            },
            MIN_BLOCK as int,
        )
    }

    /// The alignment a block for this gets.
    pub open spec fn step(self) -> int {
        if self.align < MIN_BLOCK {
            MIN_BLOCK as int
        } else {
            self.align as int
        }
    }
}

/// Whether an address is free.
pub open spec fn is_free(holes: Seq<Hole>, addr: int) -> bool {
    exists|i: int| 0 <= i < holes.len() && #[trigger] holes[i].covers(addr)
}

/// Holes in the order of their addresses, none empty, none touching the next.
pub open spec fn in_order(holes: Seq<Hole>) -> bool {
    &&& forall|i: int|
        0 <= i < holes.len() ==> (#[trigger] holes[i]).size >= MIN_BLOCK && holes[i].end()
            <= usize::MAX
    &&& forall|i: int, j: int|
        0 <= i < j < holes.len() ==> (#[trigger] holes[i]).end() < (#[trigger] holes[j]).start
}

/// How many bytes are free.
pub open spec fn total(holes: Seq<Hole>) -> int
    decreases holes.len(),
{
    if holes.len() == 0 {
        0
    } else {
        total(holes.drop_last()) + holes.last().size
    }
}

proof fn total_joins(a: Seq<Hole>, b: Seq<Hole>)
    ensures
        total(a + b) == total(a) + total(b),
    decreases b.len(),
{
    if b.len() == 0 {
        assert(a + b =~= a);
    } else {
        assert((a + b).drop_last() =~= a + b.drop_last());
        total_joins(a, b.drop_last());
    }
}

/// Holes that do not touch take no more room than there is.
proof fn total_fits(holes: Seq<Hole>)
    requires
        in_order(holes),
    ensures
        0 <= total(holes),
        holes.len() > 0 ==> total(holes) <= holes.last().end(),
        total(holes) <= usize::MAX,
    decreases holes.len(),
{
    if holes.len() > 0 {
        let before = holes.drop_last();
        assert(in_order(before)) by {
            assert forall|i: int| 0 <= i < before.len() implies (#[trigger] before[i]).size
                >= MIN_BLOCK && before[i].end() <= usize::MAX by {
                assert(holes[i].size >= MIN_BLOCK);
            }
            assert forall|i: int, j: int| 0 <= i < j < before.len() implies (#[trigger] before[i]).end()
                < (#[trigger] before[j]).start by {
                assert(holes[i].end() < holes[j].start);
            }
        }
        total_fits(before);
        if before.len() > 0 {
            assert(holes[before.len() - 1].end() < holes[before.len() as int].start);
        }
        assert(holes[holes.len() - 1].end() <= usize::MAX);
    }
}

/// How many holes begin below an address.
pub open spec fn place_of(holes: Seq<Hole>, addr: int) -> int
    decreases holes.len(),
{
    if holes.len() == 0 {
        0
    } else if holes.last().start < addr {
        holes.len() as int
    } else {
        place_of(holes.drop_last(), addr)
    }
}

/// A block put among the holes, merged with the neighbours it touches.
pub open spec fn inserted(holes: Seq<Hole>, block: Hole) -> Seq<Hole> {
    let at = place_of(holes, block.start as int);
    let ahead = at < holes.len() && block.end() == holes[at].start;
    let behind = at > 0 && holes[at - 1].end() == block.start;
    let start = if behind {
        holes[at - 1].start
    } else {
        block.start
    };
    let end = if ahead {
        holes[at].end()
    } else {
        block.end()
    };
    holes.take(
        if behind {
            at - 1
        } else {
            at
        },
    ) + seq![Hole { start, size: (end - start) as usize }] + holes.skip(
        if ahead {
            at + 1
        } else {
            at
        },
    )
}

/// A block none of which is free.
pub open spec fn is_clear_of(holes: Seq<Hole>, block: Hole) -> bool {
    &&& block.size >= MIN_BLOCK
    &&& block.end() <= usize::MAX
    &&& forall|i: int|
        0 <= i < holes.len() ==> (#[trigger] holes[i]).end() <= block.start || block.end()
            <= holes[i].start
}

proof fn place_of_splits(holes: Seq<Hole>, addr: int)
    requires
        in_order(holes),
    ensures
        0 <= place_of(holes, addr) <= holes.len(),
        forall|i: int|
            0 <= i < place_of(holes, addr) ==> (#[trigger] holes[i]).start < addr,
        forall|i: int|
            place_of(holes, addr) <= i < holes.len() ==> (#[trigger] holes[i]).start >= addr,
    decreases holes.len(),
{
    if holes.len() > 0 {
        let n = holes.len() - 1;
        if holes.last().start < addr {
            assert forall|i: int| 0 <= i < holes.len() implies (#[trigger] holes[i]).start
                < addr by {
                if i < n {
                    assert(holes[i].end() < holes[n].start);
                }
            }
        } else {
            let before = holes.drop_last();
            assert(in_order(before)) by {
                assert forall|i: int| 0 <= i < before.len() implies (#[trigger] before[i]).size
                    >= MIN_BLOCK && before[i].end() <= usize::MAX by {
                    assert(holes[i].size >= MIN_BLOCK);
                }
                assert forall|i: int, j: int| 0 <= i < j < before.len() implies (#[trigger] before[i]).end()
                    < (#[trigger] before[j]).start by {
                    assert(holes[i].end() < holes[j].start);
                }
            }
            place_of_splits(before, addr);
            assert forall|i: int| 0 <= i < place_of(holes, addr) implies (#[trigger] holes[i]).start
                < addr by {
                assert(before[i].start < addr);
            }
            assert forall|i: int|
                place_of(holes, addr) <= i < holes.len() implies (#[trigger] holes[i]).start
                >= addr by {
                if i < n {
                    assert(before[i].start >= addr);
                }
            }
        }
    }
}

/// What is free in two lists together is free in one of them.
proof fn free_joins(a: Seq<Hole>, b: Seq<Hole>, addr: int)
    ensures
        is_free(a + b, addr) <==> is_free(a, addr) || is_free(b, addr),
{
    let both = a + b;
    if is_free(both, addr) {
        let i = choose|i: int| 0 <= i < both.len() && #[trigger] both[i].covers(addr);
        if i < a.len() {
            assert(a[i].covers(addr));
        } else {
            assert(b[i - a.len()].covers(addr));
        }
    }
    if is_free(a, addr) {
        let i = choose|i: int| 0 <= i < a.len() && #[trigger] a[i].covers(addr);
        assert(both[i].covers(addr));
    }
    if is_free(b, addr) {
        let i = choose|i: int| 0 <= i < b.len() && #[trigger] b[i].covers(addr);
        assert(both[i + a.len()].covers(addr));
    }
}

/// One hole covers what it covers, and is as large as it is.
proof fn one_hole(hole: Hole)
    ensures
        total(seq![hole]) == hole.size,
        forall|addr: int| #[trigger] is_free(seq![hole], addr) <==> hole.covers(addr),
{
    let list = seq![hole];
    assert(list.drop_last() =~= Seq::<Hole>::empty());
    assert(total(list.drop_last()) == 0);
    assert(list.last() == hole);
    assert forall|addr: int| #[trigger] is_free(list, addr) <==> hole.covers(addr) by {
        if hole.covers(addr) {
            assert(list[0].covers(addr));
        }
    }
}

/// Some of the holes put in place of others between the same neighbours keep
/// the list in order.
proof fn splicing_keeps_order(holes: Seq<Hole>, lo: int, hi: int, mid: Seq<Hole>)
    requires
        in_order(holes),
        0 <= lo <= hi <= holes.len(),
        in_order(mid),
        forall|i: int, k: int|
            0 <= i < lo && 0 <= k < mid.len() ==> (#[trigger] holes[i]).end() < (
            #[trigger] mid[k]).start,
        forall|i: int, k: int|
            hi <= i < holes.len() && 0 <= k < mid.len() ==> (#[trigger] mid[k]).end() < (
            #[trigger] holes[i]).start,
    ensures
        in_order(holes.take(lo) + mid + holes.skip(hi)),
{
    let after = holes.take(lo) + mid + holes.skip(hi);
    let n = mid.len() as int;
    assert forall|i: int| 0 <= i < after.len() implies #[trigger] after[i] == (if i < lo {
        holes[i]
    } else if i < lo + n {
        mid[i - lo]
    } else {
        holes[i - lo - n + hi]
    }) by {
    }
    assert forall|i: int| 0 <= i < after.len() implies (#[trigger] after[i]).size >= MIN_BLOCK
        && after[i].end() <= usize::MAX by {
        if i < lo {
            assert(holes[i].size >= MIN_BLOCK);
        } else if i < lo + n {
            assert(mid[i - lo].size >= MIN_BLOCK);
        } else {
            assert(holes[i - lo - n + hi].size >= MIN_BLOCK);
        }
    }
    assert forall|i: int, j: int| 0 <= i < j < after.len() implies (#[trigger] after[i]).end() < (
    #[trigger] after[j]).start by {
        if j < lo {
            assert(holes[i].end() < holes[j].start);
        } else if j < lo + n {
            if i < lo {
                assert(holes[i].end() < mid[j - lo].start);
            } else {
                assert(mid[i - lo].end() < mid[j - lo].start);
            }
        } else {
            let y = j - lo - n + hi;
            if i < lo {
                assert(holes[i].end() < holes[y].start);
            } else if i < lo + n {
                assert(mid[i - lo].end() < holes[y].start);
            } else {
                assert(holes[i - lo - n + hi].end() < holes[y].start);
            }
        }
    }
}

/// What is free, and how much, after some of the holes are put in place of
/// others.
proof fn splicing(holes: Seq<Hole>, lo: int, hi: int, mid: Seq<Hole>)
    requires
        0 <= lo <= hi <= holes.len(),
    ensures
        ({
            let after = holes.take(lo) + mid + holes.skip(hi);
            let cut = holes.subrange(lo, hi);
            &&& total(after) == total(holes) - total(cut) + total(mid)
            &&& forall|addr: int| #[trigger]
                is_free(after, addr) <==> is_free(holes.take(lo), addr) || is_free(mid, addr)
                    || is_free(holes.skip(hi), addr)
            &&& forall|addr: int| #[trigger]
                is_free(holes, addr) <==> is_free(holes.take(lo), addr) || is_free(cut, addr)
                    || is_free(holes.skip(hi), addr)
        }),
{
    let left = holes.take(lo);
    let right = holes.skip(hi);
    let cut = holes.subrange(lo, hi);
    let after = left + mid + right;
    assert(holes =~= left + cut + right);
    total_joins(left + cut, right);
    total_joins(left, cut);
    total_joins(left + mid, right);
    total_joins(left, mid);
    assert forall|addr: int| #[trigger]
        is_free(after, addr) <==> is_free(left, addr) || is_free(mid, addr) || is_free(
            right,
            addr,
        ) by {
        free_joins(left + mid, right, addr);
        free_joins(left, mid, addr);
    }
    assert forall|addr: int| #[trigger]
        is_free(holes, addr) <==> is_free(left, addr) || is_free(cut, addr) || is_free(
            right,
            addr,
        ) by {
        free_joins(left + cut, right, addr);
        free_joins(left, cut, addr);
    }
}

/// The neighbours a block touches and the block together cover what the merged
/// hole covers.
proof fn merging(cut: Seq<Hole>, block: Hole, merged: Hole, ahead: bool, behind: bool)
    requires
        cut.len() == (if ahead {
            1int
        } else {
            0int
        }) + (if behind {
            1int
        } else {
            0int
        }),
        behind ==> cut[0].end() == block.start && merged.start == cut[0].start,
        !behind ==> merged.start == block.start,
        ahead ==> block.end() == cut.last().start && merged.end() == cut.last().end(),
        !ahead ==> merged.end() == block.end(),
        block.size > 0,
    ensures
        merged.size == total(cut) + block.size,
        forall|addr: int| #[trigger]
            is_free(cut, addr) || block.covers(addr) <==> merged.covers(addr),
{
    if behind && ahead {
        assert(cut =~= seq![cut[0]] + seq![cut[1]]);
        total_joins(seq![cut[0]], seq![cut[1]]);
        one_hole(cut[0]);
        one_hole(cut[1]);
        assert forall|addr: int| #[trigger]
            is_free(cut, addr) || block.covers(addr) <==> merged.covers(addr) by {
            free_joins(seq![cut[0]], seq![cut[1]], addr);
        }
    } else if behind || ahead {
        assert(cut =~= seq![cut[0]]);
        one_hole(cut[0]);
    } else {
        assert(cut =~= Seq::<Hole>::empty());
        assert forall|addr: int| !(#[trigger] is_free(cut, addr)) by {
        }
    }
}

/// Putting a block among the holes keeps them in order, makes exactly the
/// block free that was not, and adds its size to what is free.
pub proof fn inserting(holes: Seq<Hole>, block: Hole)
    requires
        in_order(holes),
        is_clear_of(holes, block),
    ensures
        in_order(inserted(holes, block)),
        total(inserted(holes, block)) == total(holes) + block.size,
        forall|addr: int| #[trigger]
            is_free(inserted(holes, block), addr) <==> is_free(holes, addr) || block.covers(addr),
{
    let at = place_of(holes, block.start as int);
    place_of_splits(holes, block.start as int);
    let ahead = at < holes.len() && block.end() == holes[at].start;
    let behind = at > 0 && holes[at - 1].end() == block.start;
    let lo = if behind {
        at - 1
    } else {
        at
    };
    let hi = if ahead {
        at + 1
    } else {
        at
    };
    let start = if behind {
        holes[at - 1].start
    } else {
        block.start
    };
    let end = if ahead {
        holes[at].end()
    } else {
        block.end()
    };
    let merged = Hole { start, size: (end - start) as usize };
    let cut = holes.subrange(lo, hi);
    if at > 0 {
        assert(holes[at - 1].start < block.start);
        assert(holes[at - 1].end() <= block.start);
        assert(holes[at - 1].size >= MIN_BLOCK);
    }
    if at < holes.len() {
        assert(holes[at].start >= block.start);
        assert(block.end() <= holes[at].start);
        assert(holes[at].end() <= usize::MAX);
    }
    assert(merged.end() == end);
    assert forall|i: int, k: int|
        0 <= i < lo && 0 <= k < seq![merged].len() implies (#[trigger] holes[i]).end() < (
    #[trigger] seq![merged][k]).start by {
        if i < at - 1 {
            assert(holes[i].end() < holes[at - 1].start);
        }
    }
    assert forall|i: int, k: int|
        hi <= i < holes.len() && 0 <= k < seq![merged].len() implies (
    #[trigger] seq![merged][k]).end() < (#[trigger] holes[i]).start by {
        if i > at {
            assert(holes[at].end() < holes[i].start);
        }
    }
    splicing_keeps_order(holes, lo, hi, seq![merged]);
    splicing(holes, lo, hi, seq![merged]);
    one_hole(merged);
    merging(cut, block, merged, ahead, behind);
    assert forall|addr: int| #[trigger]
        is_free(inserted(holes, block), addr) <==> is_free(holes, addr) || block.covers(addr) by {
        assert(is_free(cut, addr) || block.covers(addr) <==> merged.covers(addr));
    }
}

/// How far into a hole a block with this alignment begins.
pub open spec fn front_of(hole: Hole, align: int) -> int {
    mm::up_to(hole.start as int, align) - hole.start
}

/// Whether a block fits in a hole. Any leftover must itself be a usable block,
/// or not exist.
pub open spec fn fits_in(hole: Hole, size: int, align: int) -> bool {
    let front = front_of(hole, align);
    let back = hole.size - front - size;
    &&& back >= 0
    &&& front == 0 || front >= MIN_BLOCK
    &&& back == 0 || back >= MIN_BLOCK
}

/// The first hole from `from` on that a block fits in.
pub open spec fn first_fit(holes: Seq<Hole>, from: int, size: int, align: int) -> Option<int>
    decreases holes.len() - from,
{
    if from < 0 || from >= holes.len() {
        None
    } else if fits_in(holes[from], size, align) {
        Some(from)
    } else {
        first_fit(holes, from + 1, size, align)
    }
}

/// What is left of a hole a block is carved out of.
pub open spec fn leftovers(hole: Hole, size: int, align: int) -> Seq<Hole> {
    let front = front_of(hole, align);
    let back = hole.size - front - size;
    (if front > 0 {
        seq![Hole { start: hole.start, size: front as usize }]
    } else {
        Seq::empty()
    }) + (if back > 0 {
        seq![Hole { start: (hole.start + front + size) as usize, size: back as usize }]
    } else {
        Seq::empty()
    })
}

/// The heap's free list, and how much of its address space is mapped.
#[verifier::ext_equal]
pub struct HeapView {
    pub holes: Seq<Hole>,
    pub total_bytes: int,
    pub mapped: int,
}

impl HeapView {
    pub open spec fn valid(self) -> bool {
        in_order(self.holes)
    }

    pub open spec fn free_bytes(self) -> int {
        total(self.holes)
    }

    /// A block taken out of the first hole it fits in.
    pub open spec fn carved(self, layout: Layout) -> (HeapView, Option<usize>) {
        let size = layout.block();
        let align = layout.step();
        match first_fit(self.holes, 0, size, align) {
            None => (self, None),
            Some(i) => (
                HeapView {
                    holes: self.holes.take(i) + leftovers(self.holes[i], size, align)
                        + self.holes.skip(i + 1),
                    ..self
                },
                Some((self.holes[i].start + front_of(self.holes[i], align)) as usize),
            ),
        }
    }

    /// Whether there is room to grow by this much: in the heap's address
    /// space, and in physical memory, leaving enough for the user pages the
    /// caller will almost certainly need next.
    pub open spec fn may_grow(self, want: int, heap_max: usize, free_bytes: usize) -> bool {
        self.mapped + want <= heap_max && free_bytes >= want + FRAME_RESERVE
    }

    /// The next range of the heap's address space taken by one grower, where
    /// there is room for it.
    pub open spec fn claimed(
        self,
        want: int,
        heap_base: u64,
        heap_max: usize,
        free_bytes: usize,
    ) -> (HeapView, Option<Claim>) {
        if self.may_grow(want, heap_max, free_bytes) {
            (
                HeapView { mapped: self.mapped + want, ..self },
                Some(Claim { start: (heap_base + self.mapped) as u64, bytes: want as usize }),
            )
        } else {
            (self, None)
        }
    }
}

/// How much a grower takes: what it needs, or the least it bothers with, in
/// whole pages.
pub open spec fn growth(needed: usize, least: usize) -> int {
    mm::up_to(
        if needed < least {
            least as int
        } else {
            needed as int
        },
        PAGE_SIZE as int,
    )
}

/// Heap address space that belongs to one grower and has yet to be mapped.
#[derive(Debug, Clone, Copy, PartialEq, Eq, Structural)]
pub struct Claim {
    pub start: u64,
    pub bytes: usize,
}

impl Claim {
    pub open spec fn covers(self, addr: int) -> bool {
        self.start <= addr < self.start + self.bytes
    }
}

pub struct HoleList {
    holes: Vec<Hole>,
    free_bytes: usize,
    total_bytes: usize,
    /// Bytes of heap address space mapped so far.
    mapped: usize,
}

impl View for HoleList {
    type V = HeapView;

    closed spec fn view(&self) -> HeapView {
        HeapView {
            holes: self.holes@,
            total_bytes: self.total_bytes as int,
            mapped: self.mapped as int,
        }
    }
}

/// Normalise a layout into the (size, align) pair the free list works in.
pub fn normalize(layout: Layout) -> (pair: (usize, usize))
    requires
        layout.fits(),
    ensures
        pair.0 == layout.block(),
        pair.1 == layout.step(),
        pair.0 >= MIN_BLOCK,
        mm::power_of_two(pair.1 as int),
{
    let align: usize = if layout.align < MIN_BLOCK {
        MIN_BLOCK
    } else {
        layout.align
    };
    let least: usize = if layout.size < MIN_BLOCK {
        MIN_BLOCK
    } else {
        layout.size
    };
    proof {
        vstd::arithmetic::power2::lemma2_to64();
        assert(16int == vstd::arithmetic::power2::pow2(4));
        assert(mm::power_of_two(MIN_BLOCK as int));
        mm::aligning_is_nearest(least as int, MIN_BLOCK as int);
        mm::powers_are_positive(layout.align as int);
        mm::aligning_is_nearest(layout.size as int, layout.align as int);
    }
    let size: usize = align_up(least as u64, MIN_BLOCK as u64) as usize;
    (size, align)
}

impl HoleList {
    pub closed spec fn valid(&self) -> bool {
        self@.valid() && self.free_bytes == self@.free_bytes()
    }

    /// A list that is fit for use has its holes in order.
    pub proof fn is_in_order(&self)
        requires
            self.valid(),
        ensures
            self@.valid(),
    {
    }

    pub fn new() -> (list: HoleList)
        ensures
            list.valid(),
            list@ == (HeapView { holes: Seq::empty(), total_bytes: 0, mapped: 0 }),
    {
        HoleList { holes: Vec::new(), free_bytes: 0, total_bytes: 0, mapped: 0 }
    }

    /// Insert a block into the address-ordered list, merging with neighbours.
    fn insert(&mut self, start: usize, size: usize)
        requires
            old(self).valid(),
            is_clear_of(old(self)@.holes, Hole { start, size }),
        ensures
            final(self).valid(),
            final(self)@ == (HeapView {
                holes: inserted(old(self)@.holes, Hole { start, size }),
                ..old(self)@
            }),
    {
        let ghost block = Hole { start, size };
        let ghost holes = self.holes@;
        proof {
            inserting(holes, block);
            total_fits(inserted(holes, block));
            place_of_splits(holes, start as int);
        }
        let mut at: usize = 0;
        while at < self.holes.len() && self.holes[at].start < start
            invariant
                at <= self.holes@.len(),
                holes == self.holes@,
                at <= place_of(holes, start as int),
                place_of(holes, start as int) <= holes.len(),
                forall|i: int|
                    0 <= i < place_of(holes, start as int) ==> (#[trigger] holes[i]).start < start,
                forall|i: int|
                    place_of(holes, start as int) <= i < holes.len() ==> (
                    #[trigger] holes[i]).start >= start,
            decreases self.holes@.len() - at,
        {
            at += 1;
        }
        proof {
            if at < place_of(holes, start as int) {
                assert(holes[at as int].start < start);
            }
            assert(at == place_of(holes, start as int));
        }
        let ahead = at < self.holes.len() && start + size == self.holes[at].start;
        let behind = at > 0 && {
            assert(holes[at - 1].end() <= usize::MAX);
            self.holes[at - 1].start + self.holes[at - 1].size == start
        };
        // Merge forward, then backward.
        let mut merged = Hole { start, size };
        if ahead {
            assert(holes[at as int].end() <= usize::MAX);
            merged = Hole { start: merged.start, size: merged.size + self.holes[at].size };
            let _ = self.holes.remove(at);
        }
        if behind {
            merged = Hole {
                start: self.holes[at - 1].start,
                size: self.holes[at - 1].size + merged.size,
            };
            self.holes.set(at - 1, merged);
        } else {
            self.holes.insert(at, merged);
        }
        self.free_bytes = self.free_bytes + size;
        assert(self.holes@ =~= inserted(holes, block));
    }

    /// Donate `[start, start + size)` to the heap.
    pub fn add_region(&mut self, start: usize, size: usize)
        requires
            old(self).valid(),
            size >= MIN_BLOCK ==> is_clear_of(old(self)@.holes, Hole { start, size }),
            old(self)@.total_bytes + size <= usize::MAX,
        ensures
            final(self).valid(),
            final(self)@ == (if size < MIN_BLOCK {
                old(self)@
            } else {
                HeapView {
                    holes: inserted(old(self)@.holes, Hole { start, size }),
                    total_bytes: old(self)@.total_bytes + size,
                    ..old(self)@
                }
            }),
    {
        if size < MIN_BLOCK {
            return;
        }
        self.total_bytes = self.total_bytes + size;
        self.insert(start, size);
    }

    /// Take a block out of the first hole it fits in.
    pub fn take_block(&mut self, layout: Layout) -> (start: Option<usize>)
        requires
            old(self).valid(),
            layout.fits(),
        ensures
            final(self).valid(),
            (final(self)@, start) == old(self)@.carved(layout),
            match start {
                None => true,
                Some(at) => {
                    let block = Hole { start: at, size: layout.block() as usize };
                    &&& at as int % layout.step() == 0
                    &&& forall|addr: int|
                        block.covers(addr) ==> #[trigger] is_free(old(self)@.holes, addr)
                    &&& forall|addr: int| #[trigger]
                        is_free(final(self)@.holes, addr) <==> is_free(old(self)@.holes, addr)
                            && !block.covers(addr)
                    &&& final(self)@.free_bytes() == old(self)@.free_bytes() - layout.block()
                },
            },
    {
        let (size, align) = normalize(layout);
        let ghost holes = self.holes@;
        let mut i: usize = 0;
        while i < self.holes.len()
            invariant
                i <= self.holes@.len(),
                *self == *old(self),
                self.valid(),
                holes == self.holes@,
                size == layout.block(),
                align == layout.step(),
                size >= MIN_BLOCK,
                mm::power_of_two(align as int),
                first_fit(holes, i as int, size as int, align as int) == first_fit(
                    holes,
                    0,
                    size as int,
                    align as int,
                ),
            decreases self.holes@.len() - i,
        {
            let hole = self.holes[i];
            proof {
                mm::powers_are_positive(align as int);
                mm::aligning_is_nearest(hole.start as int, align as int);
                mm::rounding_up_adds(hole.start as int, align as int);
            }
            let past: usize = hole.start % align;
            let front: usize = if past == 0 {
                0
            } else {
                align - past
            };
            let fits = hole.size >= front && hole.size - front >= size && (front == 0 || front
                >= MIN_BLOCK) && {
                let back: usize = hole.size - front - size;
                back == 0 || back >= MIN_BLOCK
            };
            if fits {
                assert(holes[i as int].end() <= usize::MAX);
                let at: usize = hole.start + front;
                let back: usize = hole.size - front - size;
                proof {
                    carving(holes, i as int, size as int, align as int);
                    total_fits(holes);
                }
                let _ = self.holes.remove(i);
                if back > 0 {
                    self.holes.insert(i, Hole { start: at + size, size: back });
                }
                if front > 0 {
                    self.holes.insert(i, Hole { start: hole.start, size: front });
                }
                proof {
                    let rest = leftovers(hole, size as int, align as int);
                    assert(self.holes@ =~= holes.take(i as int) + rest + holes.skip(i + 1));
                    total_fits(self.holes@);
                }
                self.free_bytes = self.free_bytes - size;
                return Some(at);
            }
            i += 1;
        }
        None
    }

    /// Give a block back.
    pub fn dealloc(&mut self, start: usize, layout: Layout)
        requires
            old(self).valid(),
            layout.fits(),
            start + layout.block() <= usize::MAX,
            is_clear_of(
                old(self)@.holes,
                Hole { start, size: layout.block() as usize },
            ),
        ensures
            final(self).valid(),
            final(self)@ == (HeapView {
                holes: inserted(
                    old(self)@.holes,
                    Hole { start, size: layout.block() as usize },
                ),
                ..old(self)@
            }),
    {
        let (size, _) = normalize(layout);
        self.insert(start, size);
    }

    /// Take a range of heap address space to map, or nothing when the heap has
    /// reached its ceiling or physical memory is too low to spare.
    ///
    /// `least` is how much to take when `needed` is smaller than that. The
    /// allocator asks for a chunk, because the caller waiting on it pays for
    /// every claim it has to make; the margin asks for little, because the
    /// pages it takes are pages a program cannot have and the heap never gives
    /// any of them back.
    ///
    /// `mapped` moves here rather than when the pages arrive, so the range
    /// belongs to this claim from now on and a second grower, running while
    /// this one has let the lock go, takes a different one.
    pub fn claim(
        &mut self,
        needed: usize,
        least: usize,
        heap_base: u64,
        heap_max: usize,
        free_bytes: usize,
    ) -> (claim: Option<Claim>)
        requires
            old(self).valid(),
            heap_base + heap_max <= u64::MAX,
        ensures
            final(self).valid(),
            (final(self)@, claim) == old(self)@.claimed(
                growth(needed, least),
                heap_base,
                heap_max,
                free_bytes,
            ),
    {
        let most: usize = if needed < least {
            least
        } else {
            needed
        };
        proof {
            mm::a_page_is_a_power_of_two();
            mm::aligning_is_nearest(most as int, PAGE_SIZE as int);
        }
        if self.mapped > heap_max || free_bytes < FRAME_RESERVE {
            return None;
        }
        if most > heap_max - self.mapped || most > free_bytes - FRAME_RESERVE || most > usize::MAX
            - (PAGE_SIZE - 1) {
            return None;
        }
        let want: usize = align_up(most as u64, PAGE_SIZE_U64) as usize;
        if want > heap_max - self.mapped || want > free_bytes - FRAME_RESERVE {
            return None;
        }
        let start: u64 = heap_base + self.mapped as u64;
        self.mapped = self.mapped + want;
        Some(Claim { start, bytes: want })
    }

    pub fn free_bytes(&self) -> (bytes: usize)
        requires
            self.valid(),
        ensures
            bytes == self@.free_bytes(),
    {
        self.free_bytes
    }

    pub fn total_bytes(&self) -> (bytes: usize)
        ensures
            bytes == self@.total_bytes,
    {
        self.total_bytes
    }

    /// Heap address space with page tables under it. An allocation that does
    /// not move it is one that mapped nothing.
    pub fn mapped_bytes(&self) -> (bytes: usize)
        ensures
            bytes == self@.mapped,
    {
        self.mapped
    }

    /// Whether the free list holds less than the margin.
    pub fn below_margin(&self) -> (r: bool)
        requires
            self.valid(),
        ensures
            r == (self@.free_bytes() < HEAP_MARGIN),
    {
        self.free_bytes < HEAP_MARGIN
    }

    /// Take heap address space to map ahead of what the free list holds, so
    /// that the allocation which finds it empty is not the ordinary one.
    /// `None` when the margin is there, and when there is no memory to spare:
    /// the margin then stays short, and an allocation grows the heap itself.
    pub fn top_up(&mut self, heap_base: u64, heap_max: usize, free_bytes: usize) -> (claim: Option<
        Claim,
    >)
        requires
            old(self).valid(),
            heap_base + heap_max <= u64::MAX,
        ensures
            final(self).valid(),
            ({
                let short = HEAP_MARGIN - old(self)@.free_bytes();
                (final(self)@, claim) == (if short > 0 {
                    old(self)@.claimed(
                        growth(short as usize, STEP),
                        heap_base,
                        heap_max,
                        free_bytes,
                    )
                } else {
                    (old(self)@, None)
                })
            }),
    {
        if !self.below_margin() {
            return None;
        }
        let short: usize = HEAP_MARGIN - self.free_bytes;
        proof {
            mm::aligning_is_nearest(
                if short < STEP {
                    STEP as int
                } else {
                    short as int
                },
                PAGE_SIZE as int,
            );
            total_fits(self@.holes);
        }
        self.claim(short, STEP, heap_base, heap_max, free_bytes)
    }

    /// Hand over the memory the heap starts with.
    pub fn begin(&mut self, heap_base: usize, size: usize)
        requires
            old(self).valid(),
            size >= MIN_BLOCK ==> is_clear_of(
                old(self)@.holes,
                Hole { start: heap_base, size },
            ),
            old(self)@.total_bytes + size <= usize::MAX,
        ensures
            final(self).valid(),
            final(self)@ == (if size < MIN_BLOCK {
                HeapView { mapped: size as int, ..old(self)@ }
            } else {
                HeapView {
                    holes: inserted(old(self)@.holes, Hole { start: heap_base, size }),
                    total_bytes: old(self)@.total_bytes + size,
                    mapped: size as int,
                }
            }),
    {
        self.mapped = size;
        self.add_region(heap_base, size);
    }

    /// How much of the heap is handed out, and how much there is.
    pub fn stats(&self) -> (bytes: (usize, usize))
        requires
            self.valid(),
            self@.free_bytes() <= self@.total_bytes,
        ensures
            bytes.0 == self@.total_bytes - self@.free_bytes(),
            bytes.1 == self@.total_bytes,
    {
        (self.total_bytes - self.free_bytes, self.total_bytes)
    }
}

/// Carving a block out of a hole it fits in takes exactly the block away,
/// keeps the holes in order, and begins the block where it was asked to begin.
pub proof fn carving(holes: Seq<Hole>, i: int, size: int, align: int)
    requires
        in_order(holes),
        0 <= i < holes.len(),
        fits_in(holes[i], size, align),
        size > 0,
        align > 0,
    ensures
        ({
            let rest = leftovers(holes[i], size, align);
            let after = holes.take(i) + rest + holes.skip(i + 1);
            let at = holes[i].start + front_of(holes[i], align);
            let block = Hole { start: at as usize, size: size as usize };
            &&& in_order(after)
            &&& total(after) == total(holes) - size
            &&& at % align == 0
            &&& holes[i].start <= at
            &&& at + size <= holes[i].end()
            &&& forall|addr: int| block.covers(addr) ==> #[trigger] is_free(holes, addr)
            &&& forall|addr: int| #[trigger]
                is_free(after, addr) <==> is_free(holes, addr) && !block.covers(addr)
        }),
{
    let hole = holes[i];
    let front = front_of(hole, align);
    let back = hole.size - front - size;
    let at = hole.start + front;
    let block = Hole { start: at as usize, size: size as usize };
    let rest = leftovers(hole, size, align);
    mm::aligning_is_nearest(hole.start as int, align);
    assert(hole.end() <= usize::MAX);
    assert(hole.size >= MIN_BLOCK);
    let head = Hole { start: hole.start, size: front as usize };
    let tail = Hole { start: (at + size) as usize, size: back as usize };
    let first = if front > 0 {
        seq![head]
    } else {
        Seq::empty()
    };
    let second = if back > 0 {
        seq![tail]
    } else {
        Seq::empty()
    };
    assert(rest == first + second);
    one_hole(head);
    one_hole(tail);
    one_hole(hole);
    total_joins(first, second);
    assert(total(Seq::<Hole>::empty()) == 0);
    assert(total(rest) == hole.size - size);
    assert forall|k: int| 0 <= k < rest.len() implies (#[trigger] rest[k]).size >= MIN_BLOCK
        && rest[k].end() <= usize::MAX && rest[k].start >= hole.start && rest[k].end()
        <= hole.end() by {
    }
    assert(in_order(rest));
    assert forall|j: int, k: int| 0 <= j < i && 0 <= k < rest.len() implies (
    #[trigger] holes[j]).end() < (#[trigger] rest[k]).start by {
        assert(holes[j].end() < holes[i].start);
        assert(rest[k].start >= hole.start);
    }
    assert forall|j: int, k: int| i + 1 <= j < holes.len() && 0 <= k < rest.len() implies (
    #[trigger] rest[k]).end() < (#[trigger] holes[j]).start by {
        assert(holes[i].end() < holes[j].start);
        assert(rest[k].end() <= hole.end());
    }
    splicing_keeps_order(holes, i, i + 1, rest);
    splicing(holes, i, i + 1, rest);
    assert(holes.subrange(i, i + 1) =~= seq![hole]);
    let after = holes.take(i) + rest + holes.skip(i + 1);
    assert forall|addr: int| #[trigger]
        is_free(after, addr) <==> is_free(holes, addr) && !block.covers(addr) by {
        free_joins(first, second, addr);
        assert(!is_free(Seq::<Hole>::empty(), addr));
        assert(is_free(rest, addr) <==> hole.covers(addr) && !block.covers(addr)) by {
            assert(is_free(seq![head], addr) <==> head.covers(addr));
            assert(is_free(seq![tail], addr) <==> tail.covers(addr));
        }
        assert(is_free(seq![hole], addr) <==> hole.covers(addr));
        if block.covers(addr) {
            // Nothing outside the hole covers what is inside it.
            if is_free(holes.take(i), addr) {
                let k = choose|k: int|
                    0 <= k < holes.take(i).len() && #[trigger] holes.take(i)[k].covers(addr);
                assert(holes[k].end() < holes[i].start);
            }
            if is_free(holes.skip(i + 1), addr) {
                let k = choose|k: int|
                    0 <= k < holes.skip(i + 1).len() && #[trigger] holes.skip(i + 1)[k].covers(
                        addr,
                    );
                assert(holes[i].end() < holes[i + 1 + k].start);
            }
        }
    }
    assert forall|addr: int| block.covers(addr) implies #[trigger] is_free(holes, addr) by {
        assert(holes[i].covers(addr));
    }
}

/// A block that is taken and given back leaves the list as it was, hole for
/// hole: what was free is free, and as much of it.
pub proof fn taking_and_giving_back(v: HeapView, layout: Layout)
    requires
        v.valid(),
        layout.fits(),
        v.carved(layout).1 is Some,
    ensures
        ({
            let (after, at) = v.carved(layout);
            let block = Hole { start: at->0, size: layout.block() as usize };
            &&& is_clear_of(after.holes, block)
            &&& (HeapView { holes: inserted(after.holes, block), ..after }) == v
            &&& total(inserted(after.holes, block)) == v.free_bytes()
            &&& forall|addr: int| #[trigger]
                is_free(inserted(after.holes, block), addr) <==> is_free(v.holes, addr)
        }),
{
    let size = layout.block();
    let align = layout.step();
    mm::aligning_is_nearest(
        if layout.size < MIN_BLOCK {
            MIN_BLOCK as int
        } else {
            layout.size as int
        },
        MIN_BLOCK as int,
    );
    first_fit_fits(v.holes, 0, size, align);
    let i = first_fit(v.holes, 0, size, align)->0;
    carving(v.holes, i, size, align);
    let after = v.carved(layout).0.holes;
    let at = v.carved(layout).1->0;
    let block = Hole { start: at, size: size as usize };
    assert(v.holes[i].end() <= usize::MAX);
    assert(is_clear_of(after, block)) by {
        assert forall|k: int| 0 <= k < after.len() implies (#[trigger] after[k]).end()
            <= block.start || block.end() <= after[k].start by {
            // Two stretches that share an address share their later start.
            let later = if after[k].start > block.start {
                after[k].start as int
            } else {
                block.start as int
            };
            assert(after[k].size >= MIN_BLOCK);
            if after[k].end() > block.start && block.end() > after[k].start {
                assert(after[k].covers(later));
                assert(is_free(after, later));
                assert(block.covers(later));
            }
        }
    }
    putting_back(v.holes, i, size, align);
}

/// A block put back where it was carved out makes the hole whole again.
proof fn putting_back(holes: Seq<Hole>, i: int, size: int, align: int)
    requires
        in_order(holes),
        0 <= i < holes.len(),
        fits_in(holes[i], size, align),
        size > 0,
        align > 0,
    ensures
        ({
            let rest = leftovers(holes[i], size, align);
            let after = holes.take(i) + rest + holes.skip(i + 1);
            let at = holes[i].start + front_of(holes[i], align);
            inserted(after, Hole { start: at as usize, size: size as usize }) == holes
        }),
{
    let hole = holes[i];
    let front = front_of(hole, align);
    let back = hole.size - front - size;
    let at = hole.start + front;
    let block = Hole { start: at as usize, size: size as usize };
    let rest = leftovers(hole, size, align);
    let after = holes.take(i) + rest + holes.skip(i + 1);
    carving(holes, i, size, align);
    mm::aligning_is_nearest(hole.start as int, align);
    assert(hole.end() <= usize::MAX);
    place_of_splits(after, at);
    let place = place_of(after, at);
    let below = if front > 0 {
        i + 1
    } else {
        i
    };
    if i > 0 {
        assert(holes[i - 1].end() < holes[i].start);
        assert(after[i - 1] == holes[i - 1]);
    }
    if i + 1 < holes.len() {
        assert(holes[i].end() < holes[i + 1].start);
        assert(after[i + rest.len()] == holes[i + 1]);
    }
    if front > 0 {
        assert(after[i] == rest[0]);
    }
    if back > 0 {
        assert(after[below] == rest[below - i]);
    }
    assert(place == below) by {
        if place < below {
            assert(after[below - 1].start >= at);
        }
        if place > below {
            assert(after[below].start < at);
        }
    }
    assert(inserted(after, block) =~= holes);
}

/// No two claims share an address, whatever the list went through between them
/// short of giving address space back, and every claim lies in the heap.
pub proof fn no_two_claims_overlap(
    v: HeapView,
    w: HeapView,
    wants: (int, int),
    heap_base: u64,
    heap_max: usize,
    free_bytes: (usize, usize),
)
    requires
        0 <= v.mapped,
        0 <= wants.0,
        0 <= wants.1,
        v.claimed(wants.0, heap_base, heap_max, free_bytes.0).0.mapped <= w.mapped,
        heap_base + heap_max <= u64::MAX,
    ensures
        match (
            v.claimed(wants.0, heap_base, heap_max, free_bytes.0).1,
            w.claimed(wants.1, heap_base, heap_max, free_bytes.1).1,
        ) {
            (Some(first), Some(second)) => {
                &&& forall|addr: int| !(#[trigger] first.covers(addr) && second.covers(addr))
                &&& forall|addr: int| #[trigger]
                    first.covers(addr) ==> heap_base + v.mapped <= addr < heap_base + heap_max
                &&& forall|addr: int| #[trigger]
                    second.covers(addr) ==> heap_base + w.mapped <= addr < heap_base + heap_max
            },
            _ => true,
        },
{
}

/// The hole a search finds is one the block fits in, and the first.
pub proof fn first_fit_fits(holes: Seq<Hole>, from: int, size: int, align: int)
    requires
        0 <= from,
    ensures
        match first_fit(holes, from, size, align) {
            None => forall|i: int|
                from <= i < holes.len() ==> !fits_in(#[trigger] holes[i], size, align),
            Some(at) => from <= at < holes.len() && fits_in(holes[at], size, align) && forall|i: int|
                from <= i < at ==> !fits_in(#[trigger] holes[i], size, align),
        },
    decreases holes.len() - from,
{
    if from < holes.len() && !fits_in(holes[from], size, align) {
        first_fit_fits(holes, from + 1, size, align);
    }
}

} // verus!
