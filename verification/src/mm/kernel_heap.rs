//! The kernel's heap with pages under it: the free list, and the growth that
//! maps more of its address space.

use crate::mm::change;
use crate::mm::heap::{self, Claim, HeapView, Hole, HoleList, Layout, CHUNK, MIN_BLOCK};
use crate::mm::own_page;
use crate::mm::record::{NO_EXECUTE, PRESENT, WRITABLE};
use crate::mm::tables::{self, KernelTables};
use crate::mm::teardown;
use crate::mm::tree;
use crate::mm::walk::{self, Machine, MachineView, DEPTH};
use crate::mm::{self, KERNEL_HEAP_SIZE, PAGE_SIZE, PAGE_SIZE_U64, USER_LIMIT};
use vstd::prelude::*;

verus! {

/// The flags of every page of the heap.
pub const HEAP_FLAGS: u64 = PRESENT | WRITABLE | NO_EXECUTE;

/// A claim that whole pages can be put under.
pub open spec fn is_mappable(claim: Claim) -> bool {
    &&& claim.start % 4096 == 0
    &&& claim.start >= USER_LIMIT
    &&& claim.start + claim.bytes <= u64::MAX
    &&& claim.bytes <= 0x1000_0000_0000
}

/// Whether an address is in one of the first `pages` pages of a claim.
pub open spec fn in_pages(start: u64, pages: int, virt: u64) -> bool {
    exists|i: int|
        0 <= i < pages && tree::page_of(virt) == #[trigger] tree::page_of(
            (start + i * 4096) as u64,
        )
}

/// Pages one after another from `start` on, each to one of the frames.
pub open spec fn are_at<M: Machine>(
    after: MachineView,
    root: u64,
    start: u64,
    frames: Seq<u64>,
    flags: u64,
) -> bool {
    forall|i: int|
        0 <= i < frames.len() ==> tree::leaf_at::<M>(after, root, (start + i * 4096) as u64)
            == Some(M::leaf_bits(#[trigger] frames[i], flags))
}

/// The first pages of a claim mapped, each to a frame of its own with these
/// flags, and nothing else.
pub open spec fn are_mapped<M: Machine>(
    m: MachineView,
    after: MachineView,
    root: u64,
    start: u64,
    pages: int,
    flags: u64,
) -> bool {
    &&& tables::is_space::<M>(after, root)
    &&& exists|frames: Seq<u64>| #[trigger]
        own_page::are_own::<M>(m, after, root, frames) && frames.len() == pages && are_at::<M>(
            after,
            root,
            start,
            frames,
            flags,
        )
    &&& forall|virt: u64|
        !in_pages(start, pages, virt) ==> #[trigger] tree::leaf_at::<M>(after, root, virt)
            == tree::leaf_at::<M>(m, root, virt)
}

/// Why a claim is mapped no further than an address: there was no frame to be
/// had, or something stands in the way at it.
pub open spec fn cannot_go_on<M: Machine>(
    m: MachineView,
    after: MachineView,
    root: u64,
    virt: u64,
) -> bool {
    walk::ran_out(m, after) || change::refusal::<M>(after, root, virt, 3, DEPTH as nat) is Some
}

/// The pages of a claim are different pages.
proof fn pages_differ(start: u64, i: int, j: int)
    requires
        start % 4096 == 0,
        0 <= i < j,
        j * 4096 <= 0x1000_0000_0000,
        start + j * 4096 <= u64::MAX,
    ensures
        tree::page_of((start + i * 4096) as u64) != tree::page_of((start + j * 4096) as u64),
{
    let x = start as int / 4096;
    assert((start + i * 4096) / 4096 == x + i);
    assert((start + j * 4096) / 4096 == x + j);
    assert(0 < j - i < 0x10_0000_0000);
    assert((x + i) % 0x10_0000_0000 != (x + j) % 0x10_0000_0000);
}

/// Put pages under a claim. Returns how many bytes got them, which is all of
/// them unless physical memory ran out partway, or something was there.
///
/// Thousands of page table writes and an invalidation each, so this is what
/// the heap lock must not be held across.
pub fn map_claim<M: Machine>(machine: &mut M, kernel: &KernelTables, claim: &Claim) -> (mapped:
    usize)
    requires
        tables::is_space::<M>(old(machine).state(), kernel.top()),
        is_mappable(*claim),
    ensures
        mapped <= claim.bytes,
        mapped == claim.bytes || mapped % 4096 == 0,
        are_mapped::<M>(
            old(machine).state(),
            final(machine).state(),
            kernel.top(),
            claim.start,
            mapped as int / 4096,
            HEAP_FLAGS,
        ),
        mapped == claim.bytes || cannot_go_on::<M>(
            old(machine).state(),
            final(machine).state(),
            kernel.top(),
            (claim.start + mapped) as u64,
        ),
{
    let ghost m = machine.state();
    let ghost root = kernel.top();
    let pages: u64 = claim.bytes as u64 / PAGE_SIZE_U64;
    let mut page: u64 = 0;
    assert(are_mapped::<M>(m, m, root, claim.start, 0, HEAP_FLAGS)) by {
        assert forall|virt: u64| !in_pages(claim.start, 0, virt) by {
        }
        own_page::none_are_own::<M>(m, root);
    }
    while page < pages
        invariant
            page <= pages,
            pages == claim.bytes as int / 4096,
            is_mappable(*claim),
            root == kernel.top(),
            m == old(machine).state(),
            m.journal.len() <= machine.state().journal.len(),
            are_mapped::<M>(m, machine.state(), root, claim.start, page as int, HEAP_FLAGS),
        decreases pages - page,
    {
        let virt: u64 = claim.start + page * PAGE_SIZE_U64;
        let ghost now = machine.state();
        let outcome = kernel.map_new(machine, virt, HEAP_FLAGS);
        proof {
            one_more_page::<M>(
                m,
                now,
                machine.state(),
                root,
                *claim,
                page as int,
                HEAP_FLAGS,
                outcome,
            );
        }
        if outcome.is_err() {
            proof {
                if outcome->Err_0 is OutOfMemory {
                    teardown::ran_out_further_back(m, now, machine.state());
                } else {
                    tree::path_of_is_path(virt, 0);
                    tables::the_same_stands_in_the_way::<M>(
                        now,
                        machine.state(),
                        root,
                        virt,
                        root,
                        0,
                        DEPTH as nat,
                    );
                }
            }
            return (page * PAGE_SIZE_U64) as usize;
        }
        page += 1;
    }
    claim.bytes
}

/// One more page mapped, or none.
proof fn one_more_page<M: Machine>(
    m: MachineView,
    now: MachineView,
    after: MachineView,
    root: u64,
    claim: Claim,
    page: int,
    flags: u64,
    outcome: Result<u64, tables::MapError>,
)
    requires
        is_mappable(claim),
        0 <= page,
        (page + 1) * 4096 <= claim.bytes,
        are_mapped::<M>(m, now, root, claim.start, page, flags),
        tables::is_space::<M>(after, root),
        tables::is_answered_new::<M>(
            now,
            after,
            root,
            (claim.start + page * 4096) as u64,
            flags,
            outcome,
        ),
    ensures
        outcome is Ok ==> are_mapped::<M>(m, after, root, claim.start, page + 1, flags),
        outcome is Err ==> are_mapped::<M>(m, after, root, claim.start, page, flags),
{
    M::format_holds();
    let virt = (claim.start + page * 4096) as u64;
    let frames = choose|frames: Seq<u64>| #[trigger]
        own_page::are_own::<M>(m, now, root, frames) && frames.len() == page && are_at::<M>(
            now,
            root,
            claim.start,
            frames,
            flags,
        );
    match outcome {
        Ok(phys) => {
            let more = frames.push(phys);
            own_page::a_new_page_is_its_own::<M>(now, after, root, virt, flags, phys);
            own_page::one_more_is_own::<M>(m, now, after, root, frames, phys);
            assert forall|i: int| 0 <= i < more.len() implies tree::leaf_at::<M>(
                after,
                root,
                (claim.start + i * 4096) as u64,
            ) == Some(M::leaf_bits(#[trigger] more[i], flags)) by {
                if i < page {
                    pages_differ(claim.start, i, page);
                    assert(more[i] == frames[i]);
                    assert(tree::leaf_at::<M>(after, root, (claim.start + i * 4096) as u64)
                        == tree::leaf_at::<M>(now, root, (claim.start + i * 4096) as u64));
                }
            }
            assert forall|other: u64|
                !in_pages(claim.start, page + 1, other) implies #[trigger] tree::leaf_at::<M>(
                after,
                root,
                other,
            ) == tree::leaf_at::<M>(m, root, other) by {
                if tree::page_of(other) == tree::page_of(virt) {
                    assert(tree::page_of(other) == tree::page_of(
                        (claim.start + page * 4096) as u64,
                    ));
                }
                if in_pages(claim.start, page, other) {
                    let i = choose|i: int|
                        0 <= i < page && tree::page_of(other) == #[trigger] tree::page_of(
                            (claim.start + i * 4096) as u64,
                        );
                    assert(0 <= i < page + 1);
                }
                assert(tree::leaf_at::<M>(after, root, other) == tree::leaf_at::<M>(
                    now,
                    root,
                    other,
                ));
            }
        },
        Err(_) => {
            tables::a_space_is_not_disturbed::<M>(now, after, root);
            own_page::own_stays::<M>(m, now, after, root, frames);
            assert forall|i: int| 0 <= i < frames.len() implies tree::leaf_at::<M>(
                after,
                root,
                (claim.start + i * 4096) as u64,
            ) == Some(M::leaf_bits(#[trigger] frames[i], flags)) by {
                assert(tree::leaf_at::<M>(after, root, (claim.start + i * 4096) as u64)
                    == tree::leaf_at::<M>(now, root, (claim.start + i * 4096) as u64));
            }
            assert forall|other: u64|
                !in_pages(claim.start, page, other) implies #[trigger] tree::leaf_at::<M>(
                after,
                root,
                other,
            ) == tree::leaf_at::<M>(m, root, other) by {
                assert(tree::leaf_at::<M>(after, root, other) == tree::leaf_at::<M>(
                    now,
                    root,
                    other,
                ));
            }
        },
    }
}

// ---- pages under what is free ---------------------------------------------------

/// An address with a page of the heap under it.
pub open spec fn is_backed<M: Machine>(m: MachineView, root: u64, addr: int) -> bool {
    exists|phys: u64|
        M::nameable(phys) && tree::leaf_at::<M>(m, root, addr as u64) == Some(
            #[trigger] M::leaf_bits(phys, HEAP_FLAGS),
        )
}

/// Every address of a stretch has a page under it.
pub open spec fn block_is_backed<M: Machine>(m: MachineView, root: u64, block: Hole) -> bool {
    forall|addr: int| block.covers(addr) ==> #[trigger] is_backed::<M>(m, root, addr)
}

/// Every address that is free has a page under it.
pub open spec fn holes_are_backed<M: Machine>(m: MachineView, root: u64, v: HeapView) -> bool {
    forall|addr: int| #[trigger] heap::is_free(v.holes, addr) ==> is_backed::<M>(m, root, addr)
}

/// The address of a page of a claim has that page's frame under it.
proof fn in_a_page_of_the_claim<M: Machine>(
    m: MachineView,
    after: MachineView,
    root: u64,
    start: u64,
    pages: int,
    virt: u64,
)
    requires
        are_mapped::<M>(m, after, root, start, pages, HEAP_FLAGS),
        in_pages(start, pages, virt),
    ensures
        exists|phys: u64|
            M::nameable(phys) && tree::leaf_at::<M>(after, root, virt) == Some(
                #[trigger] M::leaf_bits(phys, HEAP_FLAGS),
            ),
{
    let frames = choose|frames: Seq<u64>| #[trigger]
        own_page::are_own::<M>(m, after, root, frames) && frames.len() == pages && are_at::<M>(
            after,
            root,
            start,
            frames,
            HEAP_FLAGS,
        );
    let i = choose|i: int|
        0 <= i < pages && tree::page_of(virt) == #[trigger] tree::page_of(
            (start + i * 4096) as u64,
        );
    let first = (start + i * 4096) as u64;
    assert(M::nameable(frames[i]));
    assert(tree::leaf_at::<M>(after, root, first) == Some(M::leaf_bits(frames[i], HEAP_FLAGS)));
    tree::indices_make_the_page(virt, first);
}

/// An address of the pages of a claim is in one of them.
proof fn is_in_pages(start: u64, pages: int, addr: int)
    requires
        start % 4096 == 0,
        start <= addr < start + pages * 4096,
        start + pages * 4096 <= u64::MAX,
    ensures
        in_pages(start, pages, addr as u64),
{
    let i = (addr - start) / 4096;
    let first = (start + i * 4096) as u64;
    assert(first as int / 4096 == addr / 4096);
    assert(tree::page_of(addr as u64) == tree::page_of(first));
}

/// What has a page under it has one after the heap has grown, and so has every
/// address of the pages it grew by.
pub proof fn pages_stay_under_the_heap<M: Machine>(
    m: MachineView,
    after: MachineView,
    root: u64,
    start: u64,
    pages: int,
    addr: int,
)
    requires
        are_mapped::<M>(m, after, root, start, pages, HEAP_FLAGS),
        start % 4096 == 0,
        start + pages * 4096 <= u64::MAX,
    ensures
        is_backed::<M>(m, root, addr) ==> is_backed::<M>(after, root, addr),
        start <= addr < start + pages * 4096 ==> is_backed::<M>(after, root, addr),
{
    let virt = addr as u64;
    if start <= addr < start + pages * 4096 {
        is_in_pages(start, pages, addr);
    }
    if in_pages(start, pages, virt) {
        in_a_page_of_the_claim::<M>(m, after, root, start, pages, virt);
    } else {
        assert(tree::leaf_at::<M>(after, root, virt) == tree::leaf_at::<M>(m, root, virt));
    }
}

/// What is free once the heap has grown was free before or is what it grew by.
proof fn backed_once_grown<M: Machine>(
    m: MachineView,
    after: MachineView,
    root: u64,
    v: HeapView,
    base: u64,
    want: int,
    mapped: usize,
)
    requires
        v.valid(),
        lies_within(v.holes, base as int, base + v.mapped),
        holes_are_backed::<M>(m, root, v),
        0 <= v.mapped,
        mapped <= want,
        base + v.mapped + want <= usize::MAX,
        forall|addr: int|
            is_backed::<M>(m, root, addr) ==> #[trigger] is_backed::<M>(after, root, addr),
        forall|addr: int|
            base + v.mapped <= addr < base + v.mapped + mapped ==> #[trigger] is_backed::<M>(
                after,
                root,
                addr,
            ),
    ensures
        holes_are_backed::<M>(after, root, grown(v, base, want, mapped)),
{
    let more = grown(v, base, want, mapped);
    let block = Hole { start: (base + v.mapped) as usize, size: mapped };
    growing_stays_within(v, base, want, mapped);
    if mapped >= MIN_BLOCK {
        heap::inserting(v.holes, block);
    }
    assert forall|addr: int| #[trigger] heap::is_free(more.holes, addr) implies is_backed::<M>(
        after,
        root,
        addr,
    ) by {
        assert(heap::is_free(v.holes, addr) || block.covers(addr));
    }
}

/// A heap with pages under all that is free has pages under all that is free
/// once it has grown.
pub proof fn growing_keeps_pages_under_the_heap<M: Machine>(
    m: MachineView,
    after: MachineView,
    root: u64,
    v: HeapView,
    base: u64,
    want: int,
    mapped: usize,
)
    requires
        v.valid(),
        lies_within(v.holes, base as int, base + v.mapped),
        holes_are_backed::<M>(m, root, v),
        base % 4096 == 0,
        v.mapped % 4096 == 0,
        0 <= v.mapped,
        mapped <= want,
        mapped % 4096 == 0,
        base + v.mapped + want <= usize::MAX,
        are_mapped::<M>(
            m,
            after,
            root,
            (base + v.mapped) as u64,
            mapped as int / 4096,
            HEAP_FLAGS,
        ),
    ensures
        holes_are_backed::<M>(after, root, grown(v, base, want, mapped)),
{
    let start = (base + v.mapped) as u64;
    let pages = mapped as int / 4096;
    assert forall|addr: int|
        is_backed::<M>(m, root, addr) implies #[trigger] is_backed::<M>(after, root, addr) by {
        pages_stay_under_the_heap::<M>(m, after, root, start, pages, addr);
    }
    assert forall|addr: int|
        start <= addr < start + mapped implies #[trigger] is_backed::<M>(after, root, addr) by {
        pages_stay_under_the_heap::<M>(m, after, root, start, pages, addr);
    }
    backed_once_grown::<M>(m, after, root, v, base, want, mapped);
}

/// A block handed out of a heap with pages under all that is free has pages
/// under it, and the rest of what is free still has.
pub proof fn a_block_has_pages_under_it<M: Machine>(
    m: MachineView,
    root: u64,
    v: HeapView,
    layout: Layout,
)
    requires
        v.valid(),
        layout.fits(),
        holes_are_backed::<M>(m, root, v),
    ensures
        holes_are_backed::<M>(m, root, v.carved(layout).0),
        v.carved(layout).1 matches Some(at) ==> block_is_backed::<M>(
            m,
            root,
            Hole { start: at, size: layout.block() as usize },
        ),
{
    if v.carved(layout).1 is Some {
        let size = layout.block();
        let align = layout.step();
        mm::powers_are_positive(layout.align as int);
        mm::aligning_is_nearest(
            if layout.size < MIN_BLOCK {
                MIN_BLOCK as int
            } else {
                layout.size as int
            },
            MIN_BLOCK as int,
        );
        heap::first_fit_fits(v.holes, 0, size, align);
        let i = heap::first_fit(v.holes, 0, size, align)->0;
        heap::carving(v.holes, i, size, align);
        let block = Hole { start: v.carved(layout).1->0, size: size as usize };
        assert forall|addr: int| block.covers(addr) implies #[trigger] is_backed::<M>(
            m,
            root,
            addr,
        ) by {
            assert(heap::is_free(v.holes, addr));
        }
        assert forall|addr: int| #[trigger]
            heap::is_free(v.carved(layout).0.holes, addr) implies is_backed::<M>(
            m,
            root,
            addr,
        ) by {
            assert(heap::is_free(v.holes, addr));
        }
    }
}

/// A block with pages under it can be given back: all that is free then has
/// pages under it.
pub proof fn giving_back_keeps_pages_under_the_heap<M: Machine>(
    m: MachineView,
    root: u64,
    v: HeapView,
    block: Hole,
)
    requires
        v.valid(),
        heap::is_clear_of(v.holes, block),
        holes_are_backed::<M>(m, root, v),
        block_is_backed::<M>(m, root, block),
    ensures
        holes_are_backed::<M>(
            m,
            root,
            HeapView { holes: heap::inserted(v.holes, block), ..v },
        ),
{
    heap::inserting(v.holes, block);
}

/// The heap of a machine: its free list, and where its address space is.
pub struct LockedHeap {
    list: HoleList,
    base: u64,
    max: usize,
}

impl LockedHeap {
    pub closed spec fn list(&self) -> HeapView {
        self.list@
    }

    pub closed spec fn base(&self) -> u64 {
        self.base
    }

    pub closed spec fn max(&self) -> usize {
        self.max
    }

    /// Whatever is free is in the part of the heap's address space that has
    /// been claimed, and there is room above it to align in.
    pub closed spec fn valid(&self) -> bool {
        &&& self.list.valid()
        &&& self.base % 4096 == 0
        &&& self.base >= USER_LIMIT
        &&& self.base + self.max <= usize::MAX
        &&& self.max <= 0x1000_0000_0000
        &&& self.max % 4096 == 0
        &&& 0 <= self.list@.mapped <= self.max
        &&& self.list@.mapped % 4096 == 0
        &&& 0 <= self.list@.total_bytes <= self.list@.mapped
        &&& lies_within(self.list@.holes, self.base as int, self.base + self.list@.mapped)
    }

    /// A heap with nothing in it yet.
    pub fn new(base: u64, max: usize) -> (heap: LockedHeap)
        requires
            base % 4096 == 0,
            base >= USER_LIMIT,
            base + max <= usize::MAX,
            max <= 0x1000_0000_0000,
            max % 4096 == 0,
        ensures
            heap.valid(),
            heap.base() == base,
            heap.max() == max,
            heap.list() == (HeapView { holes: Seq::empty(), total_bytes: 0, mapped: 0 }),
    {
        LockedHeap { list: HoleList::new(), base, max }
    }
}

/// Every hole lies between two addresses.
pub open spec fn lies_within(holes: Seq<Hole>, low: int, high: int) -> bool {
    forall|i: int|
        0 <= i < holes.len() ==> low <= (#[trigger] holes[i]).start && holes[i].end() <= high
}

/// Where holes lie is where what is free lies.
proof fn within_is_about_addresses(holes: Seq<Hole>, low: int, high: int)
    requires
        heap::in_order(holes),
    ensures
        lies_within(holes, low, high) <==> (forall|addr: int| #[trigger]
            heap::is_free(holes, addr) ==> low <= addr < high),
{
    if lies_within(holes, low, high) {
        assert forall|addr: int| #[trigger] heap::is_free(holes, addr) implies low <= addr
            < high by {
            let i = choose|i: int| 0 <= i < holes.len() && #[trigger] holes[i].covers(addr);
            assert(low <= holes[i].start && holes[i].end() <= high);
        }
    }
    if forall|addr: int| #[trigger] heap::is_free(holes, addr) ==> low <= addr < high {
        assert forall|i: int| 0 <= i < holes.len() implies low <= (#[trigger] holes[i]).start
            && holes[i].end() <= high by {
            assert(holes[i].size >= MIN_BLOCK);
            assert(holes[i].covers(holes[i].start as int));
            assert(heap::is_free(holes, holes[i].start as int));
            assert(holes[i].covers(holes[i].end() - 1));
            assert(heap::is_free(holes, holes[i].end() - 1));
        }
    }
}

/// The free list once a claim has been mapped this far.
pub open spec fn grown(v: HeapView, base: u64, want: int, mapped: usize) -> HeapView {
    let claimed = HeapView { mapped: v.mapped + want, ..v };
    if mapped < MIN_BLOCK {
        claimed
    } else {
        HeapView {
            holes: heap::inserted(
                v.holes,
                Hole { start: (base + v.mapped) as usize, size: mapped },
            ),
            total_bytes: v.total_bytes + mapped,
            ..claimed
        }
    }
}

/// Memory donated from above what is claimed is clear of what is free, and the
/// heap then lies within what is claimed.
proof fn growing_stays_within(v: HeapView, base: u64, want: int, mapped: usize)
    requires
        v.valid(),
        lies_within(v.holes, base as int, base + v.mapped),
        0 <= v.mapped,
        mapped <= want,
        base + v.mapped + want <= usize::MAX,
    ensures
        mapped >= MIN_BLOCK ==> heap::is_clear_of(
            v.holes,
            Hole { start: (base + v.mapped) as usize, size: mapped },
        ),
        lies_within(grown(v, base, want, mapped).holes, base as int, base + v.mapped + want),
{
    let holes = v.holes;
    let block = Hole { start: (base + v.mapped) as usize, size: mapped };
    if mapped >= MIN_BLOCK {
        assert forall|i: int| 0 <= i < holes.len() implies (#[trigger] holes[i]).end()
            <= block.start || block.end() <= holes[i].start by {
            assert(holes[i].end() <= base + v.mapped);
        }
        heap::inserting(holes, block);
        within_is_about_addresses(holes, base as int, base + v.mapped);
        within_is_about_addresses(
            heap::inserted(holes, block),
            base as int,
            base + v.mapped + want,
        );
    } else {
        assert forall|i: int| 0 <= i < holes.len() implies base <= (#[trigger] holes[i]).start
            && holes[i].end() <= base + v.mapped + want by {
            assert(holes[i].end() <= base + v.mapped);
        }
    }
}

impl LockedHeap {
    /// Put pages under a claim and donate them.
    #[verifier::spinoff_prover]
    #[verifier::rlimit(60)]
    fn donate<M: Machine>(
        &mut self,
        machine: &mut M,
        kernel: &KernelTables,
        claim: Claim,
        Ghost(before): Ghost<HeapView>,
    ) -> (mapped: usize)
        requires
            old(self).list.valid(),
            old(self).base % 4096 == 0,
            old(self).base >= USER_LIMIT,
            old(self).base + old(self).max <= usize::MAX,
            old(self).max <= 0x1000_0000_0000,
            old(self).max % 4096 == 0,
            0 <= before.mapped,
            before.mapped % 4096 == 0,
            claim.bytes % 4096 == 0,
            before.mapped + claim.bytes <= old(self).max,
            0 <= before.total_bytes <= before.mapped,
            old(self).list@ == (HeapView { mapped: before.mapped + claim.bytes, ..before }),
            lies_within(before.holes, old(self).base as int, old(self).base + before.mapped),
            claim.start == old(self).base + before.mapped,
            tables::is_space::<M>(old(machine).state(), kernel.top()),
        ensures
            final(self).valid(),
            final(self).base() == old(self).base(),
            final(self).max() == old(self).max(),
            final(self).list() == grown(before, old(self).base(), claim.bytes as int, mapped),
            mapped <= claim.bytes,
            mapped % 4096 == 0,
            are_mapped::<M>(
                old(machine).state(),
                final(machine).state(),
                kernel.top(),
                claim.start,
                mapped as int / 4096,
                HEAP_FLAGS,
            ),
            mapped == claim.bytes || cannot_go_on::<M>(
                old(machine).state(),
                final(machine).state(),
                kernel.top(),
                (claim.start + mapped) as u64,
            ),
            holes_are_backed::<M>(old(machine).state(), kernel.top(), before)
                ==> holes_are_backed::<M>(
                final(machine).state(),
                kernel.top(),
                final(self).list(),
            ),
    {
        let mapped = map_claim(machine, kernel, &claim);
        let start: usize = claim.start as usize;
        proof {
            self.list.is_in_order();
            if holes_are_backed::<M>(old(machine).state(), kernel.top(), before) {
                growing_keeps_pages_under_the_heap::<M>(
                    old(machine).state(),
                    machine.state(),
                    kernel.top(),
                    before,
                    self.base,
                    claim.bytes as int,
                    mapped,
                );
            }
            growing_stays_within(
                before,
                self.base,
                claim.bytes as int,
                mapped,
            );
        }
        self.list.add_region(start, mapped);
        mapped
    }

    /// Answer an allocation out of the free list, and where that has no room
    /// by growing the heap.
    ///
    /// An allocation that grows the heap is the one that maps. `top_up` is
    /// what keeps this path out of the ordinary allocation; reaching it means
    /// the margin did not cover the request, and mapping here is the only way
    /// to answer it. A claim only partly mapped keeps the rest of its address
    /// space, which costs nothing worth recovering: the only way there is to
    /// be out of physical memory already.
    pub fn allocate<M: Machine>(
        &mut self,
        machine: &mut M,
        kernel: &KernelTables,
        layout: Layout,
        free_bytes: usize,
    ) -> (block: Option<usize>)
        requires
            old(self).valid(),
            layout.fits(),
            tables::is_space::<M>(old(machine).state(), kernel.top()),
        ensures
            final(self).valid(),
            final(self).base() == old(self).base(),
            final(self).max() == old(self).max(),
            tables::is_space::<M>(final(machine).state(), kernel.top()),
            holes_are_backed::<M>(old(machine).state(), kernel.top(), old(self).list()) ==> {
                &&& holes_are_backed::<M>(
                    final(machine).state(),
                    kernel.top(),
                    final(self).list(),
                )
                &&& block matches Some(at) ==> block_is_backed::<M>(
                    final(machine).state(),
                    kernel.top(),
                    Hole { start: at, size: layout.block() as usize },
                )
            },
            ({
                let v = old(self).list();
                let want = heap::growth(layout.size, CHUNK);
                if v.carved(layout).1 is Some {
                    &&& (final(self).list(), block) == v.carved(layout)
                    &&& final(machine).state() == old(machine).state()
                } else if !v.may_grow(want, old(self).max(), free_bytes) {
                    &&& block is None
                    &&& final(self).list() == v
                    &&& final(machine).state() == old(machine).state()
                } else {
                    exists|mapped: usize|
                        {
                            let more = #[trigger] grown(v, old(self).base(), want, mapped);
                            &&& mapped <= want
                            &&& mapped % 4096 == 0
                            &&& are_mapped::<M>(
                                old(machine).state(),
                                final(machine).state(),
                                kernel.top(),
                                (old(self).base() + v.mapped) as u64,
                                mapped as int / 4096,
                                HEAP_FLAGS,
                            )
                            &&& mapped == want || cannot_go_on::<M>(
                                old(machine).state(),
                                final(machine).state(),
                                kernel.top(),
                                (old(self).base() + v.mapped + mapped) as u64,
                            )
                            &&& (final(self).list(), block) == (if mapped == 0 {
                                (more, None)
                            } else {
                                more.carved(layout)
                            })
                        }
                }
            }),
    {
        let ghost v = self.list@;
        proof {
            self.list.is_in_order();
            mm::aligning_is_nearest(
                if layout.size < CHUNK {
                    CHUNK as int
                } else {
                    layout.size as int
                },
                PAGE_SIZE as int,
            );
        }
        let first = self.list.take_block(layout);
        if first.is_some() {
            proof {
                carving_stays_within(v, layout, self.base as int, self.base + v.mapped);
                if holes_are_backed::<M>(machine.state(), kernel.top(), v) {
                    a_block_has_pages_under_it::<M>(machine.state(), kernel.top(), v, layout);
                }
            }
            return first;
        }
        assert(self.list@ == v);
        let claim = match self.list.claim(layout.size, CHUNK, self.base, self.max, free_bytes) {
            Some(claim) => claim,
            None => {
                return None;
            },
        };
        let mapped = self.donate(machine, kernel, claim, Ghost(v));
        let ghost more = self.list@;
        assert(more == grown(v, old(self).base(), claim.bytes as int, mapped));
        if mapped == 0 {
            return None;
        }
        proof {
            self.list.is_in_order();
        }
        let block = self.list.take_block(layout);
        proof {
            carving_stays_within(more, layout, self.base as int, self.base + more.mapped);
            if holes_are_backed::<M>(machine.state(), kernel.top(), more) {
                a_block_has_pages_under_it::<M>(machine.state(), kernel.top(), more, layout);
            }
        }
        block
    }

    /// Give a block back.
    pub fn dealloc(&mut self, start: usize, layout: Layout)
        requires
            old(self).valid(),
            layout.fits(),
            old(self).base() <= start,
            start + layout.block() <= old(self).base() + old(self).list().mapped,
            heap::is_clear_of(
                old(self).list().holes,
                Hole { start, size: layout.block() as usize },
            ),
        ensures
            final(self).valid(),
            final(self).base() == old(self).base(),
            final(self).max() == old(self).max(),
            final(self).list() == (HeapView {
                holes: heap::inserted(
                    old(self).list().holes,
                    Hole { start, size: layout.block() as usize },
                ),
                ..old(self).list()
            }),
    {
        let ghost v = self.list@;
        let ghost block = Hole { start, size: layout.block() as usize };
        proof {
            self.list.is_in_order();
            heap::inserting(v.holes, block);
            within_is_about_addresses(v.holes, self.base as int, self.base + v.mapped);
            within_is_about_addresses(
                heap::inserted(v.holes, block),
                self.base as int,
                self.base + v.mapped,
            );
        }
        self.list.dealloc(start, layout);
    }

    /// Map heap ahead of what the free list holds, so that the allocation
    /// which finds it empty is not the ordinary one.
    ///
    /// When the machine has no memory to spare this does nothing and leaves
    /// the margin short. The allocator's own growth then runs as it did
    /// before, and fails the same way, so nothing here decides whether an
    /// allocation can be answered -- only where the work of answering it
    /// lands.
    pub fn top_up<M: Machine>(
        &mut self,
        machine: &mut M,
        kernel: &KernelTables,
        free_bytes: usize,
    )
        requires
            old(self).valid(),
            tables::is_space::<M>(old(machine).state(), kernel.top()),
        ensures
            final(self).valid(),
            final(self).base() == old(self).base(),
            final(self).max() == old(self).max(),
            tables::is_space::<M>(final(machine).state(), kernel.top()),
            holes_are_backed::<M>(old(machine).state(), kernel.top(), old(self).list())
                ==> holes_are_backed::<M>(
                final(machine).state(),
                kernel.top(),
                final(self).list(),
            ),
            ({
                let v = old(self).list();
                let short = mm::HEAP_MARGIN - v.free_bytes();
                let want = heap::growth(short as usize, heap::STEP);
                if short <= 0 || !v.may_grow(want, old(self).max(), free_bytes) {
                    &&& final(self).list() == v
                    &&& final(machine).state() == old(machine).state()
                } else {
                    exists|mapped: usize|
                        {
                            &&& mapped <= want
                            &&& mapped % 4096 == 0
                            &&& are_mapped::<M>(
                                old(machine).state(),
                                final(machine).state(),
                                kernel.top(),
                                (old(self).base() + v.mapped) as u64,
                                mapped as int / 4096,
                                HEAP_FLAGS,
                            )
                            &&& mapped == want || cannot_go_on::<M>(
                                old(machine).state(),
                                final(machine).state(),
                                kernel.top(),
                                (old(self).base() + v.mapped + mapped) as u64,
                            )
                            &&& final(self).list() == #[trigger] grown(
                                v,
                                old(self).base(),
                                want,
                                mapped,
                            )
                        }
                }
            }),
    {
        let ghost v = self.list@;
        proof {
            let short = mm::HEAP_MARGIN - v.free_bytes();
            mm::aligning_is_nearest(
                if (short as usize) < heap::STEP {
                    heap::STEP as int
                } else {
                    (short as usize) as int
                },
                PAGE_SIZE as int,
            );
        }
        let claim = match self.list.top_up(self.base, self.max, free_bytes) {
            Some(claim) => claim,
            None => {
                return;
            },
        };
        let mapped = self.donate(machine, kernel, claim, Ghost(v));
        assert(self.list() == grown(v, old(self).base(), claim.bytes as int, mapped));
    }

    /// How much of the heap is handed out, and how much there is.
    pub fn stats(&self) -> (bytes: (usize, usize))
        requires
            self.valid(),
            self.list().free_bytes() <= self.list().total_bytes,
        ensures
            bytes.0 == self.list().total_bytes - self.list().free_bytes(),
            bytes.1 == self.list().total_bytes,
    {
        self.list.stats()
    }

    /// Heap address space with page tables under it.
    pub fn mapped_bytes(&self) -> (bytes: usize)
        ensures
            bytes == self.list().mapped,
    {
        self.list.mapped_bytes()
    }
}

/// What is left after a block is carved out lies where it lay.
proof fn carving_stays_within(v: HeapView, layout: Layout, low: int, high: int)
    requires
        v.valid(),
        layout.fits(),
        lies_within(v.holes, low, high),
    ensures
        lies_within(v.carved(layout).0.holes, low, high),
{
    if v.carved(layout).1 is Some {
        let size = layout.block();
        let align = layout.step();
        mm::powers_are_positive(layout.align as int);
        mm::aligning_is_nearest(
            if layout.size < MIN_BLOCK {
                MIN_BLOCK as int
            } else {
                layout.size as int
            },
            MIN_BLOCK as int,
        );
        heap::first_fit_fits(v.holes, 0, size, align);
        let i = heap::first_fit(v.holes, 0, size, align)->0;
        heap::carving(v.holes, i, size, align);
        within_is_about_addresses(v.holes, low, high);
        within_is_about_addresses(v.carved(layout).0.holes, low, high);
    }
}

/// Map the kernel heap and hand it to the allocator. `None` when a page of it
/// could not be mapped.
pub fn init<M: Machine>(machine: &mut M, kernel: &KernelTables, base: u64, max: usize) -> (heap:
    Option<LockedHeap>)
    requires
        base % 4096 == 0,
        base >= USER_LIMIT,
        base + max <= usize::MAX,
        KERNEL_HEAP_SIZE <= max <= 0x1000_0000_0000,
        max % 4096 == 0,
        tables::is_space::<M>(old(machine).state(), kernel.top()),
    ensures
        tables::is_space::<M>(final(machine).state(), kernel.top()),
        exists|mapped: usize|
            mapped <= KERNEL_HEAP_SIZE && #[trigger] are_mapped::<M>(
                old(machine).state(),
                final(machine).state(),
                kernel.top(),
                base,
                mapped as int / 4096,
                HEAP_FLAGS,
            ) && (mapped < KERNEL_HEAP_SIZE <==> heap is None) && (heap is None
                ==> cannot_go_on::<M>(
                old(machine).state(),
                final(machine).state(),
                kernel.top(),
                (base + mapped) as u64,
            )),
        heap matches Some(h) ==> h.valid() && h.base() == base && h.max() == max && h.list() == (
        HeapView {
            holes: seq![Hole { start: base as usize, size: KERNEL_HEAP_SIZE }],
            total_bytes: KERNEL_HEAP_SIZE as int,
            mapped: KERNEL_HEAP_SIZE as int,
        }) && holes_are_backed::<M>(final(machine).state(), kernel.top(), h.list()),
{
    let claim = Claim { start: base, bytes: KERNEL_HEAP_SIZE };
    let mapped = map_claim(machine, kernel, &claim);
    if mapped < KERNEL_HEAP_SIZE {
        return None;
    }
    let mut heap = LockedHeap::new(base, max);
    let ghost block = Hole { start: base as usize, size: KERNEL_HEAP_SIZE };
    proof {
        let none = Seq::<Hole>::empty();
        heap::inserting(none, block);
        assert(heap::inserted(none, block) =~= seq![block]);
    }
    heap.list.begin(base as usize, KERNEL_HEAP_SIZE);
    assert(heap.list@.holes =~= seq![block]);
    proof {
        assert forall|addr: int| #[trigger]
            heap::is_free(heap.list@.holes, addr) implies is_backed::<M>(
            machine.state(),
            kernel.top(),
            addr,
        ) by {
            assert(block.covers(addr));
            pages_stay_under_the_heap::<M>(
                old(machine).state(),
                machine.state(),
                kernel.top(),
                base,
                KERNEL_HEAP_SIZE as int / 4096,
                addr,
            );
        }
    }
    Some(heap)
}

} // verus!
