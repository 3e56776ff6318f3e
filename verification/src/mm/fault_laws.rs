//! What a fault puts at a page: which of its bytes come from a file, what may
//! be done with it, and when there is nothing to put there.

use crate::mm::change;
use crate::mm::fault::{self, Fault, FaultAction};
use crate::mm::record::{self, MemView, Vma};
use crate::mm::space::{self, Plan, Source};
use crate::mm::walk::{self, Machine, MachineView};
use vstd::prelude::*;

verus! {

/// What a program may do with a page, read off the bits of its mapping: reach
/// it, write it, run it.
proof fn reading_the_bits(prot: u64)
    ensures
        ({
            let bits = record::bits_for(prot);
            &&& bits & 1 == 1
            &&& bits & 4 == 4
            &&& (bits & 2 == 2) == (prot & 2 == 2)
            &&& (bits & 0x8000_0000_0000_0000 == 0) == (prot & 4 == 4)
            &&& bits & 0x7fff_ffff_ffff_fff8 == 0
        }),
{
    let bits = record::bits_for(prot);
    assert(bits == 1u64 | 4u64 | (if prot & 2 != 0 {
        2u64
    } else {
        0u64
    }) | (if prot & 4 == 0 {
        0x8000_0000_0000_0000u64
    } else {
        0u64
    }));
    assert(bits & 1 == 1 && bits & 4 == 4 && (bits & 2 == 2) == (prot & 2 == 2) && (bits
        & 0x8000_0000_0000_0000 == 0) == (prot & 4 == 4) && bits & 0x7fff_ffff_ffff_fff8 == 0)
        by (bit_vector)
        requires
            bits == 1u64 | 4u64 | (if prot & 2 != 0 {
                2u64
            } else {
                0u64
            }) | (if prot & 4 == 0 {
                0x8000_0000_0000_0000u64
            } else {
                0u64
            }),
    ;
}

/// The region an address is looked up in is the first that reaches over it.
proof fn the_first_is_found(vmas: Seq<Vma>, k: int, addr: int)
    requires
        0 <= k < vmas.len(),
        vmas[k].start <= addr < vmas[k].end,
        forall|j: int| 0 <= j < k ==> !((#[trigger] vmas[j]).start <= addr < vmas[j].end),
    ensures
        record::holder(vmas, addr) == Some(vmas[k]),
    decreases vmas.len(),
{
    let rest = vmas.drop_last();
    if k == vmas.len() - 1 {
        assert forall|j: int| 0 <= j < rest.len() implies !((#[trigger] rest[j]).start <= addr
            < rest[j].end) by {
            assert(rest[j] == vmas[j]);
        }
        nothing_is_found(rest, addr);
    } else {
        assert forall|j: int| 0 <= j < k implies !((#[trigger] rest[j]).start <= addr
            < rest[j].end) by {
            assert(rest[j] == vmas[j]);
        }
        the_first_is_found(rest, k, addr);
    }
}

/// An address no region reaches over is not found.
proof fn nothing_is_found(vmas: Seq<Vma>, addr: int)
    requires
        forall|j: int|
            0 <= j < vmas.len() ==> !((#[trigger] vmas[j]).start <= addr < vmas[j].end),
    ensures
        record::holder(vmas, addr) is None,
    decreases vmas.len(),
{
    if vmas.len() > 0 {
        let rest = vmas.drop_last();
        assert forall|j: int| 0 <= j < rest.len() implies !((#[trigger] rest[j]).start <= addr
            < rest[j].end) by {
            assert(rest[j] == vmas[j]);
        }
        assert(!(vmas[vmas.len() - 1].start <= addr < vmas[vmas.len() - 1].end));
        nothing_is_found(rest, addr);
    }
}

/// Each byte of a page of a region is the file's byte where the file reaches
/// that far into the region, and zero past it: what a fault asks for of the
/// file is exactly the bytes of the page that the file backs, each from its
/// own place in the file. The page may be written where the region may be,
/// and run where the region may be.
pub proof fn every_byte_the_file_backs_comes_from_it(mem: MemView, page: u64, k: int, i: int)
    requires
        mem.valid(),
        !(mem.brk_start <= page < mem.brk),
        0 <= k < mem.vmas.len(),
        mem.vmas[k].start <= page < mem.vmas[k].end,
        forall|j: int|
            0 <= j < k ==> !((#[trigger] mem.vmas[j]).start <= page < mem.vmas[j].end),
        0 <= i < 4096,
    ensures
        mem.wanted_at(page) is Some,
        ({
            let vma = mem.vmas[k];
            let (flags, source) = mem.wanted_at(page)->0;
            let backed = vma.file is Some && page + i - vma.start < vma.file->0.length;
            &&& flags & 1 == 1 && flags & 4 == 4
            &&& (flags & 2 == 2) == (vma.prot & 2 == 2)
            &&& (flags & 0x8000_0000_0000_0000 == 0) == (vma.prot & 4 == 4)
            &&& flags & 0x7fff_ffff_ffff_fff8 == 0
            &&& source is Zero ==> !backed
            &&& source matches Source::File { node, offset, want } ==> {
                &&& backed == (i < want)
                &&& want <= 4096
                &&& node == vma.file->0.node
                &&& offset + i == vma.file->0.offset + (page + i - vma.start)
            }
        }),
{
    the_first_is_found(mem.vmas, k, page as int);
    reading_the_bits(mem.vmas[k].prot);
    assert(mem.vmas[k].valid());
}

/// A page inside the program break is one of zeroes, which may be read and
/// written and not run, whatever regions are recorded over it.
pub proof fn the_heap_is_zeroes(mem: MemView, page: u64)
    requires
        mem.brk_start <= page < mem.brk,
    ensures
        mem.wanted_at(page) is Some,
        ({
            let (flags, source) = mem.wanted_at(page)->0;
            &&& source is Zero
            &&& flags == 0x8000_0000_0000_0007
        }),
{
    assert(1u64 | 2u64 | 4u64 | 0x8000_0000_0000_0000u64 == 0x8000_0000_0000_0007u64) by (bit_vector);
}

/// Nothing is wanted at a page that is neither inside the program break nor
/// in any region, and only there.
pub proof fn nothing_is_wanted_outside(mem: MemView, page: u64)
    ensures
        mem.wanted_at(page) is None <==> !(mem.brk_start <= page < mem.brk) && forall|j: int|
            0 <= j < mem.vmas.len() ==> !((#[trigger] mem.vmas[j]).start <= page
                < mem.vmas[j].end),
{
    if forall|j: int|
        0 <= j < mem.vmas.len() ==> !((#[trigger] mem.vmas[j]).start <= page < mem.vmas[j].end) {
        nothing_is_found(mem.vmas, page as int);
    } else {
        let j = choose|j: int|
            0 <= j < mem.vmas.len() && (#[trigger] mem.vmas[j]).start <= page < mem.vmas[j].end;
        something_is_found(mem.vmas, j, page as int);
    }
}

/// An address some region reaches over is found.
proof fn something_is_found(vmas: Seq<Vma>, j: int, addr: int)
    requires
        0 <= j < vmas.len(),
        vmas[j].start <= addr < vmas[j].end,
    ensures
        record::holder(vmas, addr) is Some,
    decreases vmas.len(),
{
    if j < vmas.len() - 1 {
        something_is_found(vmas.drop_last(), j, addr);
    }
}

/// Trying a fault: an address with memory at it is served as it is, and one
/// where nothing is recorded is not served; otherwise a page is filled as the
/// record wants it, with a frame for it and one for each table the address
/// lacks, unless memory runs out. After eight tries it is given up.
pub proof fn what_a_try_comes_to<M: Machine>(
    m: MachineView,
    after: MachineView,
    root: u64,
    mem: MemView,
    tried: Fault,
    next: Fault,
    action: FaultAction,
)
    requires
        fault::is_tried::<M>(m, after, root, mem, tried, next, action),
    ensures
        next.page == tried.page,
        next.tries == (if tried.tries < 8 {
            tried.tries + 1
        } else {
            tried.tries as int
        }),
        ({
            let there = change::translation::<M>(m, root, tried.page, 3) is Some;
            let wanted = mem.wanted_at(tried.page);
            match action {
                FaultAction::Done(true) => tried.tries < 8 && there && after == m,
                FaultAction::Done(false) => {
                    ||| tried.tries >= 8 && after == m
                    ||| !there && wanted is None && after == m
                    ||| !there && wanted is Some && walk::ran_out(m, after)
                },
                FaultAction::Fill(plan, prepared) => {
                    &&& tried.tries < 8 && !there
                    &&& wanted == Some((plan.flags, plan.source))
                    &&& prepared.page() is Some
                    &&& prepared.stock().len() == change::missing::<M>(m, root, tried.page, 3)
                },
            }
        }),
{
}

/// Committing a filled page: it goes in where nothing is there, the record
/// still wants what the page was filled with, and there are frames enough for
/// the tables; it stays out where something is there already; and it is
/// filled anew where the record has changed.
pub proof fn what_a_commit_comes_to<M: Machine>(
    m: MachineView,
    root: u64,
    mem: MemView,
    page: u64,
    plan: Plan,
    stock: nat,
)
    ensures
        ({
            let outcome = space::committed::<M>(m, root, mem, page, plan, stock);
            let there = change::translation::<M>(m, root, page, 3) is Some;
            let agreed = mem.wanted_at(page) == Some((plan.flags, plan.source));
            let refusal = change::refusal::<M>(m, root, page, 3, stock);
            &&& outcome is Done <==> !there && agreed && refusal is None
            &&& outcome is Changed <==> !there && !agreed
            &&& outcome is ShortOfTables <==> !there && agreed && refusal == Some(
                walk::Refused::ShortOfTables,
            )
            &&& there ==> outcome is Already
        }),
{
}

} // verus!
