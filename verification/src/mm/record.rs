//! The record of what is in an address space: the regions, the heap bounds and
//! the auxiliary vector.

use crate::mm::{self, page_align_up, PAGE_SIZE_U64, USER_MMAP_BASE};
use vstd::prelude::*;

verus! {

/// A page the program may write.
pub const PROT_WRITE: u64 = 2;

/// A page the program may execute.
pub const PROT_EXEC: u64 = 4;

/// A mapping the walker follows.
pub const PRESENT: u64 = 1;

/// A mapping that may be written through.
pub const WRITABLE: u64 = 2;

/// A mapping a program may use.
pub const USER: u64 = 4;

/// A page shared until the first write to it.
pub const COW: u64 = 0x200;

/// A page nothing may be executed from.
pub const NO_EXECUTE: u64 = 0x8000_0000_0000_0000;

/// Where a region's contents come from, for a region backed by a file.
///
/// An executable is not copied into memory at exec: the pages are filled one
/// at a time from the file as the program reaches them, which is most of what
/// makes starting a program cheap.
#[derive(Debug, Clone, Copy, PartialEq, Eq, Structural)]
pub struct FileMap {
    /// Which file.
    pub node: u64,
    /// Offset in the file of the region's first byte.
    pub offset: u64,
    /// Bytes from the start of the region that come from the file. Anything
    /// past this reads as zero, which is what .bss is.
    pub length: u64,
}

/// A region of the user address space, used to fault pages in on demand.
#[derive(Debug, Clone, Copy, PartialEq, Eq, Structural)]
pub struct Vma {
    pub start: u64,
    pub end: u64,
    pub prot: u64,
    pub flags: u64,
    pub file: Option<FileMap>,
}

/// The bits of a mapping a region's pages should get.
pub open spec fn bits_for(prot: u64) -> u64 {
    let write = if prot & PROT_WRITE != 0 {
        WRITABLE
    } else {
        0
    };
    let execute = if prot & PROT_EXEC == 0 {
        NO_EXECUTE
    } else {
        0
    };
    PRESENT | USER | write | execute
}

impl Vma {
    pub open spec fn holds(self, addr: int) -> bool {
        self.start <= addr < self.end
    }

    /// A region that runs forwards, and whose file has an offset for each of
    /// its bytes.
    pub open spec fn valid(self) -> bool {
        &&& self.start <= self.end
        &&& self.file matches Some(file) ==> file.offset + (self.end - self.start) <= u64::MAX
    }

    pub open spec fn overlaps(self, start: int, end: int) -> bool {
        self.start < end && start < self.end
    }

    pub fn contains(&self, addr: u64) -> (r: bool)
        ensures
            r == self.holds(addr as int),
    {
        addr >= self.start && addr < self.end
    }

    /// Page table bits this region's pages should get.
    pub fn page_flags(&self) -> (bits: u64)
        ensures
            bits == bits_for(self.prot),
    {
        let write: u64 = if self.prot & PROT_WRITE != 0 {
            WRITABLE
        } else {
            0
        };
        let execute: u64 = if self.prot & PROT_EXEC == 0 {
            NO_EXECUTE
        } else {
            0
        };
        PRESENT | USER | write | execute
    }

    /// What is left of a region below an address.
    pub open spec fn head(self, start: u64) -> Vma {
        Vma {
            end: start,
            file: match self.file {
                Some(file) => Some(
                    FileMap {
                        length: if file.length < start - self.start {
                            file.length
                        } else {
                            (start - self.start) as u64
                        },
                        ..file
                    },
                ),
                None => None,
            },
            ..self
        }
    }

    /// What is left of a region from an address up, which begins further into
    /// the file than the whole did.
    pub open spec fn tail(self, end: u64) -> Vma {
        let skipped = end - self.start;
        Vma {
            start: end,
            file: match self.file {
                Some(file) => Some(
                    FileMap {
                        offset: (file.offset + skipped) as u64,
                        length: if file.length < skipped {
                            0
                        } else {
                            (file.length - skipped) as u64
                        },
                        ..file
                    },
                ),
                None => None,
            },
            ..self
        }
    }

    /// What is left of a region without a range.
    pub open spec fn without(self, start: u64, end: u64) -> Seq<Vma> {
        if self.end <= start || self.start >= end {
            seq![self]
        } else {
            (if self.start < start {
                seq![self.head(start)]
            } else {
                Seq::empty()
            }) + (if self.end > end {
                seq![self.tail(end)]
            } else {
                Seq::empty()
            })
        }
    }
}

/// What is left of some regions without a range, in their order.
pub open spec fn all_without(vmas: Seq<Vma>, start: u64, end: u64) -> Seq<Vma>
    decreases vmas.len(),
{
    if vmas.len() == 0 {
        Seq::empty()
    } else {
        all_without(vmas.drop_last(), start, end) + vmas.last().without(start, end)
    }
}

/// Some regions once those that overlap a range have a protection.
pub open spec fn all_protected(vmas: Seq<Vma>, start: u64, end: u64, prot: u64) -> Seq<Vma> {
    Seq::new(
        vmas.len(),
        |i: int|
            if vmas[i].overlaps(start as int, end as int) {
                Vma { prot, ..vmas[i] }
            } else {
                vmas[i]
            },
    )
}

/// The first region that holds an address.
pub open spec fn holder(vmas: Seq<Vma>, addr: int) -> Option<Vma>
    decreases vmas.len(),
{
    if vmas.len() == 0 {
        None
    } else {
        match holder(vmas.drop_last(), addr) {
            Some(vma) => Some(vma),
            None => if vmas.last().holds(addr) {
                Some(vmas.last())
            } else {
                None
            },
        }
    }
}

/// Whether no region overlaps a range.
pub open spec fn is_clear(vmas: Seq<Vma>, start: int, end: int) -> bool {
    forall|i: int| 0 <= i < vmas.len() ==> !(#[trigger] vmas[i]).overlaps(start, end)
}

/// How much of the address space regions take together.
pub open spec fn extent(vmas: Seq<Vma>) -> int
    decreases vmas.len(),
{
    if vmas.len() == 0 {
        0
    } else {
        extent(vmas.drop_last()) + (vmas.last().end - vmas.last().start)
    }
}

/// The highest end of some regions, and at least `least`.
pub open spec fn top_of(vmas: Seq<Vma>, least: int) -> int
    decreases vmas.len(),
{
    if vmas.len() == 0 {
        least
    } else {
        let before = top_of(vmas.drop_last(), least);
        if vmas.last().end > before {
            vmas.last().end as int
        } else {
            before
        }
    }
}

/// The record of what is in an address space.
pub struct MemState {
    pub vmas: Vec<Vma>,
    pub brk_start: u64,
    pub brk: u64,
    pub mmap_top: u64,
    /// The auxiliary vector exec wrote onto the stack of the program running
    /// here, word for word, ending with the null pair. Threads share it, a
    /// fork copies it, and exec starts a new one. Empty until the first exec,
    /// as a task with no address space has none to show.
    pub saved_auxv: Vec<u64>,
}

/// What a record says.
#[verifier::ext_equal]
pub struct MemView {
    pub vmas: Seq<Vma>,
    pub brk_start: u64,
    pub brk: u64,
    pub mmap_top: u64,
    pub saved_auxv: Seq<u64>,
}

impl View for MemState {
    type V = MemView;

    open spec fn view(&self) -> MemView {
        MemView {
            vmas: self.vmas@,
            brk_start: self.brk_start,
            brk: self.brk,
            mmap_top: self.mmap_top,
            saved_auxv: self.saved_auxv@,
        }
    }
}

impl MemView {
    pub open spec fn valid(self) -> bool {
        forall|i: int| 0 <= i < self.vmas.len() ==> (#[trigger] self.vmas[i]).valid()
    }
}

impl MemState {
    pub fn new() -> (mem: MemState)
        ensures
            mem@ == (MemView {
                vmas: Seq::empty(),
                brk_start: 0,
                brk: 0,
                mmap_top: USER_MMAP_BASE,
                saved_auxv: Seq::empty(),
            }),
            mem@.valid(),
    {
        MemState {
            vmas: Vec::new(),
            brk_start: 0,
            brk: 0,
            mmap_top: USER_MMAP_BASE,
            saved_auxv: Vec::new(),
        }
    }

    /// The same record again.
    pub fn copy(&self) -> (mem: MemState)
        ensures
            mem@ == self@,
    {
        let mut vmas: Vec<Vma> = Vec::new();
        let mut i: usize = 0;
        while i < self.vmas.len()
            invariant
                i <= self.vmas@.len(),
                vmas@ == self.vmas@.take(i as int),
            decreases self.vmas@.len() - i,
        {
            vmas.push(self.vmas[i]);
            i += 1;
            assert(vmas@ =~= self.vmas@.take(i as int));
        }
        assert(vmas@ =~= self.vmas@);
        let mut saved_auxv: Vec<u64> = Vec::new();
        let mut k: usize = 0;
        while k < self.saved_auxv.len()
            invariant
                k <= self.saved_auxv@.len(),
                saved_auxv@ == self.saved_auxv@.take(k as int),
            decreases self.saved_auxv@.len() - k,
        {
            saved_auxv.push(self.saved_auxv[k]);
            k += 1;
            assert(saved_auxv@ =~= self.saved_auxv@.take(k as int));
        }
        assert(saved_auxv@ =~= self.saved_auxv@);
        MemState {
            vmas,
            brk_start: self.brk_start,
            brk: self.brk,
            mmap_top: self.mmap_top,
            saved_auxv,
        }
    }

    /// The region that covers `addr`.
    pub fn find_vma(&self, addr: u64) -> (vma: Option<Vma>)
        ensures
            vma == holder(self@.vmas, addr as int),
    {
        let mut i: usize = 0;
        assert(self.vmas@.take(0) =~= Seq::empty());
        while i < self.vmas.len()
            invariant
                i <= self.vmas@.len(),
                holder(self.vmas@.take(i as int), addr as int) is None,
            decreases self.vmas@.len() - i,
        {
            let vma = self.vmas[i];
            assert(self.vmas@.take(i + 1).drop_last() =~= self.vmas@.take(i as int));
            if vma.contains(addr) {
                proof {
                    found_early(self.vmas@, i + 1, addr as int);
                }
                return Some(vma);
            }
            i += 1;
        }
        assert(self.vmas@.take(i as int) =~= self.vmas@);
        None
    }

    /// True when no recorded region overlaps `[start, end)`.
    pub fn range_is_free(&self, start: u64, end: u64) -> (r: bool)
        ensures
            r == (forall|i: int|
                0 <= i < self@.vmas.len() ==> (#[trigger] self@.vmas[i]).end <= start
                    || self@.vmas[i].start >= end),
    {
        let mut i: usize = 0;
        while i < self.vmas.len()
            invariant
                i <= self.vmas@.len(),
                forall|k: int|
                    0 <= k < i ==> (#[trigger] self.vmas@[k]).end <= start || self.vmas@[k].start
                        >= end,
            decreases self.vmas@.len() - i,
        {
            if !(self.vmas[i].end <= start || self.vmas[i].start >= end) {
                return false;
            }
            i += 1;
        }
        true
    }

    /// Give every region overlapping `[start, end)` the new protection.
    pub fn set_vma_prot(&mut self, start: u64, end: u64, prot: u64)
        ensures
            final(self)@ == (MemView {
                vmas: all_protected(old(self)@.vmas, start, end, prot),
                ..old(self)@
            }),
    {
        let mut i: usize = 0;
        while i < self.vmas.len()
            invariant
                i <= self.vmas@.len(),
                self.vmas@.len() == old(self).vmas@.len(),
                self@ == (MemView { vmas: self.vmas@, ..old(self)@ }),
                forall|k: int|
                    0 <= k < self.vmas@.len() ==> #[trigger] self.vmas@[k] == (if k < i && old(
                        self,
                    )@.vmas[k].overlaps(start as int, end as int) {
                        Vma { prot, ..old(self)@.vmas[k] }
                    } else {
                        old(self)@.vmas[k]
                    }),
            decreases self.vmas@.len() - i,
        {
            let vma = self.vmas[i];
            if vma.start < end && start < vma.end {
                self.vmas.set(
                    i,
                    Vma {
                        start: vma.start,
                        end: vma.end,
                        prot,
                        flags: vma.flags,
                        file: vma.file,
                    },
                );
            }
            i += 1;
        }
        assert(self@.vmas =~= all_protected(old(self)@.vmas, start, end, prot));
    }

    /// Remove `[start, end)` from the recorded regions, splitting as needed.
    pub fn remove_vma_range(&mut self, start: u64, end: u64)
        requires
            old(self)@.valid(),
        ensures
            final(self)@ == (MemView {
                vmas: all_without(old(self)@.vmas, start, end),
                ..old(self)@
            }),
    {
        let mut out: Vec<Vma> = Vec::new();
        let mut i: usize = 0;
        let ghost all = self.vmas@;
        assert(all.take(0) =~= Seq::empty());
        while i < self.vmas.len()
            invariant
                i <= self.vmas@.len(),
                all == self.vmas@,
                self@ == old(self)@,
                self@.valid(),
                out@ == all_without(all.take(i as int), start, end),
            decreases self.vmas@.len() - i,
        {
            let vma = self.vmas[i];
            let ghost so_far = out@;
            assert(self@.vmas[i as int].valid());
            assert(all.take(i + 1).drop_last() =~= all.take(i as int));
            if vma.end <= start || vma.start >= end {
                out.push(vma);
                assert(out@ =~= so_far + seq![vma]);
            } else {
                if vma.start < start {
                    let length: u64 = start - vma.start;
                    let file = match vma.file {
                        Some(file) => Some(
                            FileMap {
                                node: file.node,
                                offset: file.offset,
                                length: if file.length < length {
                                    file.length
                                } else {
                                    length
                                },
                            },
                        ),
                        None => None,
                    };
                    out.push(
                        Vma { start: vma.start, end: start, prot: vma.prot, flags: vma.flags, file },
                    );
                }
                if vma.end > end {
                    // The tail begins further into the file than the whole did.
                    let skipped: u64 = end - vma.start;
                    let file = match vma.file {
                        Some(file) => Some(
                            FileMap {
                                node: file.node,
                                offset: file.offset + skipped,
                                length: if file.length < skipped {
                                    0
                                } else {
                                    file.length - skipped
                                },
                            },
                        ),
                        None => None,
                    };
                    out.push(
                        Vma { start: end, end: vma.end, prot: vma.prot, flags: vma.flags, file },
                    );
                }
                assert(out@ =~= so_far + vma.without(start, end));
            }
            i += 1;
        }
        assert(all.take(i as int) =~= all);
        self.vmas = out;
    }

    /// Find a free span of `len` bytes in the mmap area: the lowest there is
    /// at or above where the last one ended.
    pub fn find_free_region(&mut self, len: u64) -> (start: u64)
        requires
            len + PAGE_SIZE_U64 <= u64::MAX,
            top_of(old(self)@.vmas, old(self)@.mmap_top as int) + mm::up_to(len as int, 4096)
                <= u64::MAX,
        ensures
            ({
                let size = mm::up_to(len as int, 4096);
                &&& start >= old(self)@.mmap_top
                &&& is_clear(old(self)@.vmas, start as int, start + size)
                &&& forall|other: int|
                    old(self)@.mmap_top <= other < start ==> !#[trigger] is_clear(
                        old(self)@.vmas,
                        other,
                        other + size,
                    )
                &&& final(self)@ == MemView { mmap_top: (start + size) as u64, ..old(self)@ }
            }),
    {
        let size: u64 = page_align_up(len);
        let mut candidate: u64 = self.mmap_top;
        let ghost top = top_of(self@.vmas, self@.mmap_top as int);
        proof {
            ends_below_the_top(self@.vmas, self@.mmap_top as int);
        }
        loop
            invariant_except_break
                *self == *old(self),
                size == mm::up_to(len as int, 4096),
                top == top_of(self@.vmas, self@.mmap_top as int),
                top + size <= u64::MAX,
                self.mmap_top <= candidate <= top,
                forall|i: int| 0 <= i < self@.vmas.len() ==> (#[trigger] self@.vmas[i]).end <= top,
                forall|other: int|
                    self@.mmap_top <= other < candidate ==> !#[trigger] is_clear(
                        self@.vmas,
                        other,
                        other + size,
                    ),
            ensures
                *self == *old(self),
                top + size <= u64::MAX,
                self.mmap_top <= candidate <= top,
                is_clear(self@.vmas, candidate as int, candidate + size),
                forall|other: int|
                    self@.mmap_top <= other < candidate ==> !#[trigger] is_clear(
                        self@.vmas,
                        other,
                        other + size,
                    ),
            decreases top - candidate,
        {
            match self.first_clash(candidate, candidate + size) {
                Some(at) => {
                    let past: u64 = self.vmas[at].end;
                    proof {
                        assert forall|other: int|
                            self@.mmap_top <= other < past implies !#[trigger] is_clear(
                            self@.vmas,
                            other,
                            other + size,
                        ) by {
                            if other >= candidate {
                                assert(self@.vmas[at as int].overlaps(other, other + size));
                            }
                        }
                    }
                    candidate = past;
                },
                None => {
                    break;
                },
            }
        }
        self.mmap_top = candidate + size;
        candidate
    }

    /// The first region that overlaps a range.
    fn first_clash(&self, start: u64, end: u64) -> (at: Option<usize>)
        ensures
            match at {
                Some(i) => i < self@.vmas.len() && self@.vmas[i as int].overlaps(
                    start as int,
                    end as int,
                ),
                None => is_clear(self@.vmas, start as int, end as int),
            },
    {
        let mut i: usize = 0;
        while i < self.vmas.len()
            invariant
                i <= self.vmas@.len(),
                forall|k: int|
                    0 <= k < i ==> !(#[trigger] self@.vmas[k]).overlaps(start as int, end as int),
            decreases self.vmas@.len() - i,
        {
            if self.vmas[i].start < end && start < self.vmas[i].end {
                return Some(i);
            }
            i += 1;
        }
        None
    }

    /// Total size of every recorded region plus the heap, for reporting.
    pub fn virtual_size(&self) -> (size: u64)
        requires
            self@.valid(),
            extent(self@.vmas) + self@.brk <= u64::MAX,
        ensures
            size == extent(self@.vmas) + (if self@.brk > self@.brk_start {
                self@.brk - self@.brk_start
            } else {
                0
            }),
    {
        let mut regions: u64 = 0;
        let mut i: usize = 0;
        let ghost all = self.vmas@;
        assert(all.take(0) =~= Seq::empty());
        while i < self.vmas.len()
            invariant
                i <= self.vmas@.len(),
                all == self.vmas@,
                self@.valid(),
                regions == extent(all.take(i as int)),
                extent(all) <= u64::MAX,
            decreases self.vmas@.len() - i,
        {
            assert(self@.vmas[i as int].valid());
            assert(all.take(i + 1).drop_last() =~= all.take(i as int));
            proof {
                extent_grows(all, i + 1);
            }
            regions = regions + (self.vmas[i].end - self.vmas[i].start);
            i += 1;
        }
        assert(all.take(i as int) =~= all);
        if self.brk > self.brk_start {
            regions + (self.brk - self.brk_start)
        } else {
            regions
        }
    }
}

/// A region found among the first ones is the one found among all.
proof fn found_early(vmas: Seq<Vma>, n: int, addr: int)
    requires
        0 <= n <= vmas.len(),
        holder(vmas.take(n), addr) is Some,
    ensures
        holder(vmas, addr) == holder(vmas.take(n), addr),
    decreases vmas.len() - n,
{
    if n < vmas.len() {
        assert(vmas.take(n + 1).drop_last() =~= vmas.take(n));
        found_early(vmas, n + 1, addr);
    } else {
        assert(vmas.take(n) =~= vmas);
    }
}

/// Every region ends at or below the highest end.
proof fn ends_below_the_top(vmas: Seq<Vma>, least: int)
    ensures
        top_of(vmas, least) >= least,
        forall|i: int| 0 <= i < vmas.len() ==> (#[trigger] vmas[i]).end <= top_of(vmas, least),
    decreases vmas.len(),
{
    if vmas.len() > 0 {
        let before = vmas.drop_last();
        ends_below_the_top(before, least);
        assert forall|i: int| 0 <= i < vmas.len() implies (#[trigger] vmas[i]).end <= top_of(
            vmas,
            least,
        ) by {
            if i < before.len() {
                assert(before[i].end <= top_of(before, least));
            }
        }
    }
}

/// More regions take no less.
proof fn extent_grows(vmas: Seq<Vma>, n: int)
    requires
        0 <= n <= vmas.len(),
        forall|i: int| 0 <= i < vmas.len() ==> (#[trigger] vmas[i]).valid(),
    ensures
        extent(vmas.take(n)) <= extent(vmas),
    decreases vmas.len() - n,
{
    if n < vmas.len() {
        assert(vmas.take(n + 1).drop_last() =~= vmas.take(n));
        assert(vmas[n].valid());
        extent_grows(vmas, n + 1);
    } else {
        assert(vmas.take(n) =~= vmas);
    }
}

} // verus!
