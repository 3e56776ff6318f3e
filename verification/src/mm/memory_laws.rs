//! What the arithmetic of memory comes to: the indices of an address, the bits
//! of a mapping, which frames there are, and how much a heap asks for.

use crate::mm::change;
use crate::mm::frame::{self, BootMap, Platform, Range, Region};
use crate::mm::heap::{self, HeapView, Layout};
use crate::mm::kernel_heap;
use crate::mm::ram::Ram;
use crate::mm::record::{self, Vma};
use crate::mm::space::{self, Turn};
use crate::mm::space_ops;
use crate::mm::sweep;
use crate::mm::teardown;
use crate::mm::tree;
use crate::mm::walk::{self, Event, Machine, MachineView, Tlb};
use vstd::prelude::*;

verus! {

// ---- addresses -----------------------------------------------------------------------------

/// The four indices of an address and its place in its page are the whole of
/// it, as far as a walk looks: nine bits for each level and twelve for the
/// page.
pub proof fn an_address_is_its_indices(virt: u64)
    ensures
        ({
            let a = walk::index_at(virt, 3);
            let b = walk::index_at(virt, 2);
            let c = walk::index_at(virt, 1);
            let d = walk::index_at(virt, 0);
            &&& 0 <= a < 512 && 0 <= b < 512 && 0 <= c < 512 && 0 <= d < 512
            &&& virt as int % 0x1_0000_0000_0000 == a * 0x80_0000_0000 + b * 0x4000_0000 + c
                * 0x20_0000 + d * 0x1000 + virt as int % 0x1000
        }),
{
    let v = virt as int;
    let d = v / 0x1000 % 512;
    let c = v / 0x20_0000 % 512;
    let b = v / 0x4000_0000 % 512;
    let a = v / 0x80_0000_0000 % 512;
    assert(v / 0x1000 == v / 0x20_0000 * 512 + d);
    assert(v / 0x20_0000 == v / 0x4000_0000 * 512 + c);
    assert(v / 0x4000_0000 == v / 0x80_0000_0000 * 512 + b);
    assert(v / 0x80_0000_0000 == v / 0x1_0000_0000_0000 * 512 + a);
}

/// As many pages as it takes to cover a range, and no more.
pub proof fn as_many_pages_as_it_takes(start: int, end: int)
    ensures
        end <= start ==> space::pages_in(start, end) == 0,
        start < end ==> (space::pages_in(start, end) - 1) * 4096 < end - start
            <= space::pages_in(start, end) * 4096,
{
}

// ---- the bits of a mapping -----------------------------------------------------------------

/// A page that is made private may be written and is shared no more, and may
/// otherwise be used as it could.
pub proof fn what_a_private_page_may_be_used_for(flags: u64)
    ensures
        space_ops::private_flags(flags) & 2 == 2,
        space_ops::private_flags(flags) & 0x200 == 0,
        space_ops::private_flags(flags) & !0x202u64 == flags & !0x202u64,
{
    assert(((flags & !0x200u64) | 2u64) & 2 == 2 && ((flags & !0x200u64) | 2u64) & 0x200 == 0 && ((
    flags & !0x200u64) | 2u64) & !0x202u64 == flags & !0x202u64) by (bit_vector);
}

/// A page that two spaces come to share is written by neither, and remembers
/// that it could be; one that could not be written is shared as it is. Made
/// private again it may be used for what it could be used for before.
pub proof fn sharing_is_undone_by_making_private(flags: u64)
    ensures
        flags & 2 == 0 ==> Ram::shared_flags(flags) is None,
        flags & 2 != 0 ==> {
            &&& Ram::shared_flags(flags) matches Some(marked) && marked & 2 == 0 && marked & 0x200
                == 0x200 && marked & !0x202u64 == flags & !0x202u64
            &&& flags & 0x200 == 0 ==> space_ops::private_flags(Ram::shared_flags(flags)->0)
                == flags
        },
{
    let marked = (flags & !2u64) | 0x200u64;
    assert(marked & 2 == 0 && marked & 0x200 == 0x200 && marked & !0x202u64 == flags & !0x202u64 && (
    flags & 2 != 0 && flags & 0x200 == 0 ==> (marked & !0x200u64) | 2u64 == flags))
        by (bit_vector)
        requires
            marked == (flags & !2u64) | 0x200u64,
    ;
}

/// What a descriptor says: where it leads, whether it is there, and whether the
/// walk ends at it. One of a table may be written through, and used by a
/// program where something under it may.
pub proof fn what_a_descriptor_says(phys: u64, flags: u64, bits: u64, level: int)
    requires
        phys % 4096 == 0,
        phys < 0x10_0000_0000_0000,
    ensures
        Ram::named(Ram::leaf_bits(phys, flags)) == phys,
        Ram::named(Ram::table_bits(phys, flags)) == phys,
        Ram::table_bits(phys, flags) & 3 == 3,
        (Ram::table_bits(phys, flags) & 4 == 4) == (flags & 4 == 4),
        Ram::table_bits(phys, flags) & 0x80 == 0,
        Ram::is_present(bits) == (bits & 1 == 1),
        Ram::stops(bits, level) == (bits & 0x80 == 0x80),
        Ram::widened(bits, flags) is Some == (flags & 4 == 4 && bits & 4 == 0),
        Ram::widened(bits, flags) matches Some(wider) ==> wider & 4 == 4 && wider & !4u64 == bits
            & !4u64,
        (Ram::leaf_bits(phys, flags) & 0x8000_0000_0000_0006) == (flags & 0x8000_0000_0000_0006),
{
    assert(((phys & 0x000F_FFFF_FFFF_F000) | (flags & !0x000F_FFFF_FFFF_F000u64) | 1u64)
        & 0x000F_FFFF_FFFF_F000 == phys && (((phys & 0x000F_FFFF_FFFF_F000) | 1u64 | 2u64 | (flags
        & 4)) & 0x000F_FFFF_FFFF_F000) == phys && ((phys & 0x000F_FFFF_FFFF_F000) | 1u64 | 2u64 | (
    flags & 4)) & 3 == 3 && (((phys & 0x000F_FFFF_FFFF_F000) | 1u64 | 2u64 | (flags & 4)) & 4 == 4)
        == (flags & 4 == 4) && ((phys & 0x000F_FFFF_FFFF_F000) | 1u64 | 2u64 | (flags & 4)) & 0x80
        == 0 && (bits & 1 != 0) == (bits & 1 == 1) && (bits & 0x80 != 0) == (bits & 0x80 == 0x80) && (
    flags & 4 != 0) == (flags & 4 == 4) && (bits | 4u64) & 4 == 4 && (bits | 4u64) & !4u64 == bits
        & !4u64 && ((phys & 0x000F_FFFF_FFFF_F000) | (flags & !0x000F_FFFF_FFFF_F000u64) | 1u64)
        & 0x8000_0000_0000_0006 == flags & 0x8000_0000_0000_0006) by (bit_vector)
        requires
            phys % 4096 == 0,
            phys < 0x10_0000_0000_0000,
    ;
}

/// When a write to a page that may not be written can go on. Nothing is there:
/// it cannot. It is not one that is shared: it can where the page may be
/// written by a program after all. It is shared and nobody else has it: it can.
/// It is shared with somebody: it can where there is a frame to copy it to, and
/// the copy holds what the page holds.
pub proof fn when_a_write_can_go_on<M: Machine>(
    m: MachineView,
    root: u64,
    page: u64,
    spare: Option<u64>,
)
    ensures
        ({
            let (after, writable, used) = space_ops::made_private::<M>(m, root, page, spare);
            let leaf = tree::leaf_at::<M>(m, root, page);
            let flags = M::flags_in(leaf->0);
            let phys = M::named(leaf->0);
            &&& leaf is None ==> !writable && !used && after == m
            &&& leaf is Some && flags & 0x200 == 0 ==> after == m && !used && writable == (flags & 2
                != 0 && flags & 4 != 0)
            &&& leaf is Some && flags & 0x200 != 0 && m.count(phys) <= 1 ==> writable && !used
                && after.counts == m.counts
            &&& leaf is Some && flags & 0x200 != 0 && m.count(phys) > 1 && spare is None ==> !writable
                && !used && after == m
            &&& leaf is Some && flags & 0x200 != 0 && m.count(phys) > 1 && spare is Some ==> {
                &&& writable && used
                &&& after.count(phys) == m.count(phys) - 1
                &&& space_ops::filled_copy(m, phys, spare->0, flags).words[spare->0]
                    == m.words[phys]
            }
        }),
{
}

/// A copy holds what the page holds, and the machine is told to fetch it anew
/// where it can be run. The page itself, and every other, stays as it is.
pub proof fn what_a_copy_is(m: MachineView, phys: u64, copy: u64, flags: u64, other: u64)
    ensures
        ({
            let after = space_ops::filled_copy(m, phys, copy, flags);
            &&& after.words[copy] == m.words[phys]
            &&& other != copy ==> after.words[other] == m.words[other]
            &&& after.counts == m.counts
            &&& flags & 0x8000_0000_0000_0000 == 0 ==> after.journal == m.journal.push(
                Event::Copy { from: phys, to: copy },
            ).push(Event::Sync(copy))
            &&& flags & 0x8000_0000_0000_0000 != 0 ==> after.journal == m.journal.push(
                Event::Copy { from: phys, to: copy },
            )
        }),
{
}

/// What breaking a share leaves on record. The last owner's page is written
/// over where it is; anybody else's is replaced by the copy, and gives its
/// reference back only once the machine has been told about the address.
pub proof fn what_breaking_a_share_leaves<M: Machine>(
    m: MachineView,
    root: u64,
    page: u64,
    phys: u64,
    copy: u64,
    flags: u64,
)
    ensures
        ({
            let kept = space_ops::retaken::<M>(m, root, page, phys, flags);
            &&& kept.journal.last() == Event::FlushPage(page)
            &&& kept.counts == m.counts
            &&& kept.journal.len() == m.journal.len() + 3
        }),
        ({
            let split = space_ops::replaced_by_copy::<M>(m, root, page, phys, copy, flags);
            let n = split.journal.len() as int;
            &&& n >= 2
            &&& split.journal[n - 1] == Event::Free(phys)
            &&& split.journal[n - 2] == Event::FlushPage(page)
            &&& m.count(phys) > 0 ==> split.count(phys) == m.count(phys) - 1
            &&& copy != phys ==> split.count(copy) == m.count(copy)
        }),
{
}

/// A page that is given to a second space may be written by neither, and is
/// remembered as shared where it could be written; one that could not is given
/// as it is.
pub proof fn what_a_second_space_is_given(bits: u64)
    ensures
        ({
            let given = sweep::given_flags::<Ram>(bits);
            let flags = bits & !0x000F_FFFF_FFFF_F000u64;
            &&& given & 2 == 0
            &&& bits & 2 == 0 ==> given == flags
            &&& bits & 2 != 0 ==> given & 0x200 == 0x200 && given & !0x202u64 == flags & !0x202u64
        }),
{
    let flags = bits & !0x000F_FFFF_FFFF_F000u64;
    assert(flags & 2 == bits & 2) by (bit_vector)
        requires
            flags == bits & !0x000F_FFFF_FFFF_F000u64,
    ;
    sharing_is_undone_by_making_private(flags);
}

/// A page that comes to be shared has one more reference, and what the first
/// space says about it is written over where that has to change, and nowhere
/// else.
pub proof fn what_marking_a_page_does<M: Machine>(
    m: MachineView,
    parent: u64,
    virt: u64,
    bits: u64,
)
    ensures
        ({
            let after = sweep::marked::<M>(m, parent, virt, bits);
            let phys = M::named(bits);
            let to = M::shared_flags(M::flags_in(bits));
            &&& 0 < m.count(phys) < 0xFFFF ==> after.count(phys) == m.count(phys) + 1
            &&& to is None ==> after.words == m.words && after.journal == m.journal
            &&& to is Some ==> {
                let table = tree::leaf_table::<M>(m.shared(phys), parent, virt)->0;
                let index = walk::index_at(virt, 0);
                let now = M::leaf_bits(phys, to->0);
                &&& after.words == m.words.insert(table, m.words[table].update(index, now))
                &&& after.journal == m.journal.push(Event::Barrier).push(
                    Event::Store { table, index: index as usize, bits: now },
                )
            }
        }),
{
}

// ---- the way to a page ------------------------------------------------------------------------

/// One level of the way to a page: a table that is there is opened wide enough
/// for what is asked of it, where it is not already, and one that is not is
/// put in, from the end of the stock. The rest of the way goes on from it.
pub proof fn one_level_of_the_way<M: Machine>(
    m: MachineView,
    table: u64,
    virt: u64,
    level: nat,
    under: u64,
    stock: Seq<u64>,
)
    requires
        level > 0,
    ensures
        ({
            let index = walk::index_at(virt, level as int);
            let bits = m.words[table][index];
            let less = (level - 1) as nat;
            let wider = M::widened(bits, under);
            &&& M::is_present(bits) && wider is None ==> change::way_made::<M>(
                m,
                table,
                virt,
                level,
                under,
                stock,
            ) == change::way_made::<M>(m, M::named(bits), virt, less, under, stock)
            &&& M::is_present(bits) && wider is Some ==> change::way_made::<M>(
                m,
                table,
                virt,
                level,
                under,
                stock,
            ) == change::way_made::<M>(
                put_down(m, table, index, wider->0),
                M::named(bits),
                virt,
                less,
                under,
                stock,
            )
            &&& !M::is_present(bits) ==> change::way_made::<M>(
                m,
                table,
                virt,
                level,
                under,
                stock,
            ) == change::way_made::<M>(
                put_down(m, table, index, M::table_bits(stock.last(), under)),
                stock.last(),
                virt,
                less,
                under,
                stock.drop_last(),
            )
        }),
{
}

/// Memory with one descriptor written, behind a barrier.
pub open spec fn put_down(m: MachineView, table: u64, index: int, bits: u64) -> MachineView {
    MachineView {
        words: m.words.insert(table, m.words[table].update(index, bits)),
        counts: m.counts,
        journal: m.journal.push(Event::Barrier).push(
            Event::Store { table, index: index as usize, bits },
        ),
    }
}

/// The end of the way to a page: the last descriptor names it, with what may be
/// done with it.
pub proof fn the_end_of_the_way<M: Machine>(
    m: MachineView,
    root: u64,
    virt: u64,
    phys: u64,
    flags: u64,
    stock: Seq<u64>,
)
    ensures
        ({
            let (open, left, table) = change::way_made::<M>(m, root, virt, 3, flags, stock);
            change::published::<M>(m, root, virt, phys, flags, stock) == (
                put_down(open, table, walk::index_at(virt, 0), M::leaf_bits(phys, flags)),
                left,
            )
        }),
        change::way_made::<M>(m, root, virt, 0, flags, stock) == (m, stock, root),
{
}

/// What is left behind by taking a page away is on record to be thrown away:
/// its own address, and every address where a table went with it. What was on
/// record before stays there.
pub proof fn what_taking_a_page_away_leaves_behind(
    tlb: Tlb,
    virt: u64,
    gone: Seq<u64>,
    other: u64,
)
    ensures
        ({
            let after = change::left_behind(tlb, virt, gone);
            &&& after.covers(virt)
            &&& gone.len() > 0 ==> after is All
            &&& tlb.covers(other) ==> after.covers(other)
            &&& gone.len() == 0 && tlb is Clean ==> after == Tlb::Page(virt)
        }),
{
}

// ---- what is thrown away, and when -----------------------------------------------------------

/// Frames that are taken out of use wait, thirty-two of them at most. Where
/// there is no room for more, what the machine has cached is thrown away
/// first, and then those that waited are given back.
pub proof fn frames_wait_for_the_flush(turn: Turn, frames: Seq<u64>)
    ensures
        ({
            let after = turn.retiring(frames);
            let told = match turn.tlb {
                Tlb::Clean => turn.memory,
                Tlb::Page(virt) => MachineView {
                    journal: turn.memory.journal.push(Event::FlushPage(virt)),
                    ..turn.memory
                },
                Tlb::All => MachineView {
                    journal: turn.memory.journal.push(Event::FlushAll),
                    ..turn.memory
                },
            };
            &&& turn.retired.len() + frames.len() <= 32 ==> {
                &&& after.memory == turn.memory
                &&& after.tlb == turn.tlb
                &&& after.retired == turn.retired + frames
            }
            &&& turn.retired.len() + frames.len() > 32 ==> {
                &&& after.memory == teardown::all_released(told, turn.retired)
                &&& after.tlb is Clean
                &&& after.retired == frames
            }
            &&& turn.flushed().memory == teardown::all_released(told, turn.retired)
            &&& turn.flushed().retired.len() == 0
            &&& turn.flushed().tlb is Clean
        }),
{
    assert(Seq::<u64>::empty() + frames =~= frames);
}

/// A reference given back is one fewer, and everything else is as it was.
pub proof fn what_giving_back_does(m: MachineView, frame: u64, other: u64)
    ensures
        m.count(frame) > 0 ==> m.released(frame).count(frame) == m.count(frame) - 1,
        m.count(frame) <= 0 ==> m.released(frame).count(frame) == m.count(frame),
        other != frame ==> m.released(frame).count(other) == m.count(other),
        m.released(frame).words == m.words,
        m.released(frame).journal == m.journal.push(Event::Free(frame)),
        m.count(frame) > 0 && m.count(frame) < 0xFFFF ==> m.shared(frame).count(frame) == m.count(
            frame,
        ) + 1,
        other != frame ==> m.shared(frame).count(other) == m.count(other),
        m.shared(frame).words == m.words && m.shared(frame).journal == m.journal,
{
}

// ---- which frames there are ------------------------------------------------------------------

/// Whether a frame shares a byte with a range.
pub open spec fn meets(range: Range, frame: int) -> bool {
    exists|addr: int|
        #![trigger is_in(range, addr)]
        frame * 4096 <= addr < frame * 4096 + 4096 && is_in(range, addr)
}

/// Whether an address is in a range.
pub open spec fn is_in(range: Range, addr: int) -> bool {
    range.start <= addr < range.end
}

/// A frame is touched by a range that shares a byte with it, and by no other.
pub proof fn a_range_touches_what_it_meets(range: Range, frame: int)
    requires
        range.start < range.end,
    ensures
        frame::touches(range, frame) == meets(range, frame),
{
    if frame::touches(range, frame) {
        let at = if range.start < frame * 4096 {
            frame * 4096
        } else {
            range.start as int
        };
        assert(is_in(range, at));
    }
}

/// An allocator built from a memory map has every frame to hand out that lies
/// wholly in usable memory below the limit and that nothing spoken for
/// touches, and no other. What is spoken for has one reference, and the rest
/// has none.
pub proof fn every_frame_there_is_can_be_had(
    boot: &BootMap,
    platform: &Platform,
    limit: u64,
    metadata_phys: u64,
    f: int,
)
    requires
        0 <= f < limit as int / 4096,
    ensures
        ({
            let v = frame::built(boot, platform, limit, metadata_phys);
            let claimed = frame::is_claimed(boot, platform, limit, metadata_phys, f);
            let usable = exists|i: int|
                0 <= i < boot.regions@.len() && #[trigger] offers(boot.regions@[i], limit, f);
            &&& v.held.len() == limit as int / 4096
            &&& v.held[f] == (claimed || !usable)
            &&& v.counts[f] == (if claimed {
                1int
            } else {
                0
            })
            &&& v.hint == 0
        }),
{
    let usable = exists|i: int|
        0 <= i < boot.regions@.len() && #[trigger] offers(boot.regions@[i], limit, f);
    if usable {
        let i = choose|i: int|
            0 <= i < boot.regions@.len() && #[trigger] offers(boot.regions@[i], limit, f);
        assert(frame::region_releases(boot.regions@[i], limit, f));
    }
    if boot.releases(limit, f) {
        let i = choose|i: int|
            0 <= i < boot.regions@.len() && #[trigger] frame::region_releases(
                boot.regions@[i],
                limit,
                f,
            );
        assert(offers(boot.regions@[i], limit, f));
    }
}

/// Whether a region is usable memory that a frame lies wholly in, below a
/// limit.
pub open spec fn offers(region: Region, limit: u64, f: int) -> bool {
    &&& region.usable
    &&& region.addr <= f * 4096
    &&& f * 4096 + 4096 <= region.addr + region.len
    &&& f * 4096 + 4096 <= limit
}

/// The highest usable address is the end of a usable region, and no usable
/// region ends higher.
pub proof fn what_the_highest_usable_address_is(regions: Seq<Region>, k: int)
    ensures
        0 <= k < regions.len() && regions[k].usable ==> regions[k].addr + regions[k].len
            <= frame::highest_usable(regions),
        frame::highest_usable(regions) > 0 ==> exists|i: int|
            0 <= i < regions.len() && (#[trigger] regions[i]).usable && regions[i].addr
                + regions[i].len == frame::highest_usable(regions),
        frame::highest_usable(regions) >= 0,
    decreases regions.len(),
{
    if regions.len() > 0 {
        let rest = regions.drop_last();
        what_the_highest_usable_address_is(rest, k);
        assert(regions[regions.len() - 1] == regions.last());
        if 0 <= k < rest.len() {
            assert(rest[k] == regions[k]);
        }
        if frame::highest_usable(rest) == frame::highest_usable(regions) && frame::highest_usable(
            rest,
        ) > 0 {
            let i = choose|i: int|
                0 <= i < rest.len() && (#[trigger] rest[i]).usable && rest[i].addr + rest[i].len
                    == frame::highest_usable(rest);
            assert(regions[i] == rest[i]);
        }
    }
}

proof fn no_end_is_higher(ranges: Seq<Range>, least: int, k: int)
    ensures
        least <= frame::highest_end(ranges, least),
        0 <= k < ranges.len() ==> ranges[k].end <= frame::highest_end(ranges, least),
    decreases ranges.len(),
{
    if ranges.len() > 0 {
        let rest = ranges.drop_last();
        no_end_is_higher(rest, least, k);
        if 0 <= k < rest.len() {
            assert(rest[k] == ranges[k]);
        }
    }
}

/// Nothing that was there when the machine started ends past where the
/// allocator's own records may begin.
pub proof fn the_records_begin_past_everything(boot: &BootMap, platform: &Platform, k: int)
    ensures
        ({
            let past = frame::barrier(boot, platform);
            &&& platform.kernel_phys_end <= past
            &&& 0 <= k < boot.reserved@.len() ==> boot.reserved@[k].end <= past
            &&& 0 <= k < boot.modules@.len() ==> boot.modules@[k].end <= past
            &&& 0 <= k < platform.claimed@.len() ==> platform.claimed@[k].end <= past
        }),
{
    let kernel = platform.kernel_phys_end as int;
    let reserved = frame::highest_end(boot.reserved@, kernel);
    let modules = frame::highest_end(boot.modules@, reserved);
    no_end_is_higher(boot.reserved@, kernel, k);
    no_end_is_higher(boot.modules@, reserved, k);
    no_end_is_higher(platform.claimed@, modules, k);
}

/// Where the records go: at the first page past a given address of the first
/// usable region with room for them, and nowhere where there is no room.
pub proof fn where_the_records_go(
    regions: Seq<Region>,
    from: int,
    past: int,
    size: int,
    limit: u64,
)
    requires
        0 <= from <= regions.len(),
        0 <= past,
    ensures
        frame::place_for(regions, from, past, size, limit) matches Some(at) ==> {
            &&& at % 4096 == 0
            &&& past <= at
            &&& at + size <= limit
            &&& exists|i: int| from <= i < regions.len() && #[trigger] has_it(regions[i], at, size)
        },
        frame::place_for(regions, from, past, size, limit) is None ==> forall|i: int|
            from <= i < regions.len() ==> !#[trigger] frame::has_room(
                regions[i],
                past,
                size,
                limit,
            ),
    decreases regions.len() - from,
{
    if from < regions.len() {
        if frame::has_room(regions[from], past, size, limit) {
            let low = if regions[from].addr > past {
                regions[from].addr as int
            } else {
                past
            };
            crate::mm::a_page_is_a_power_of_two();
            crate::mm::aligning_is_nearest(low, 4096);
            assert(has_it(regions[from], frame::room_in(regions[from], past), size));
        } else {
            where_the_records_go(regions, from + 1, past, size, limit);
            if let Some(at) = frame::place_for(regions, from + 1, past, size, limit) {
                let i = choose|i: int|
                    from + 1 <= i < regions.len() && #[trigger] has_it(regions[i], at, size);
                assert(has_it(regions[i], at, size));
            }
        }
    }
}

/// Whether a stretch of memory lies wholly in a usable region.
pub open spec fn has_it(region: Region, at: int, size: int) -> bool {
    region.usable && region.addr <= at && at + size <= region.addr + region.len
}

/// The records have a bit and two bytes for every frame, each in whole pages.
pub proof fn how_large_the_records_are(limit: u64)
    ensures
        ({
            let frames = limit as int / 4096;
            let size = frame::metadata_size(limit);
            &&& size % 4096 == 0
            &&& size * 8 >= frames + frames * 16
            &&& size < frames / 8 + frames * 2 + 8193
        }),
{
}

/// A frame whose last reference goes is free to be handed out again, and the
/// next frame handed out lies no higher.
pub proof fn a_freed_frame_is_soon_handed_out(v: frame::FramesView, phys: u64)
    requires
        v.valid(),
        phys % 4096 == 0,
        phys as int / 4096 < v.frames(),
        v.held[phys as int / 4096],
        v.counts[phys as int / 4096] <= 1,
        v.frames() * 4096 <= u64::MAX,
    ensures
        v.freed(phys).allocated().1 matches Some(next) && next <= phys,
{
    let f = phys as int / 4096;
    let after = v.freed(phys);
    let from = after.hint / 64 * 64;
    assert(from <= f);
    frame::a_search_finds_the_first(after.held, from);
    assert(!after.held[f]);
}

/// Which frame is handed out: the first that is free from the sixty-four the
/// last search stopped among, and where there is none the first of all. The
/// next search starts behind it.
pub proof fn which_frame_is_handed_out(v: frame::FramesView, f: int)
    requires
        v.valid(),
        0 <= f < v.frames(),
        !v.held[f],
        v.frames() * 4096 <= u64::MAX,
    ensures
        ({
            let (after, phys) = v.allocated();
            let from = v.hint - v.hint % 64;
            &&& phys matches Some(p) && p % 4096 == 0 && {
                let got = p as int / 4096;
                &&& !v.held[got]
                &&& f >= from ==> from <= got <= f
                &&& got < from ==> got <= f
                &&& after.hint == got + 1
                &&& after.held == v.held.update(got, true)
                &&& after.counts == v.counts.update(got, 1)
                &&& after.managed == v.managed && after.region == v.region
            }
        }),
{
    let from = v.hint / 64 * 64;
    frame::a_search_finds_the_first(v.held, from);
    frame::a_search_finds_the_first(v.held, 0);
}

/// A reference given back is one fewer; the last one frees its frame, and a
/// search then starts no later than at it. Nothing else changes, and nothing at
/// all where the frame was not held.
pub proof fn what_giving_a_frame_back_does(v: frame::FramesView, phys: u64)
    requires
        v.valid(),
    ensures
        ({
            let f = phys as int / 4096;
            let after = v.freed(phys);
            let held = f < v.frames() && v.held[f];
            &&& !held ==> after == v
            &&& held && v.counts[f] > 1 ==> after == frame::FramesView {
                counts: v.counts.update(f, (v.counts[f] - 1) as u16),
                ..v
            }
            &&& held && v.counts[f] <= 1 ==> after == frame::FramesView {
                counts: v.counts.update(f, 0),
                held: v.held.update(f, false),
                hint: after.hint,
                ..v
            } && after.hint <= f && after.hint <= v.hint && (after.hint == f || after.hint
                == v.hint)
        }),
        ({
            let f = phys as int / 4096;
            let more = v.shared(phys);
            let held = f < v.frames() && v.held[f];
            &&& !held ==> more == v
            &&& held && v.counts[f] < 0xFFFF ==> more == frame::FramesView {
                counts: v.counts.update(f, (v.counts[f] + 1) as u16),
                ..v
            }
            &&& held && v.counts[f] == 0xFFFF ==> more.counts[f] == 0xFFFF
            &&& v.references(phys) == (if f < v.frames() {
                v.counts[f] as int
            } else {
                0
            })
        }),
{
}

/// The descriptors of a top table below a limit are those that lead to an
/// address below it.
pub proof fn which_top_descriptors_lie_below(limit: u64, virt: u64)
    requires
        limit % 0x80_0000_0000 == 0,
        limit <= 0x1_0000_0000_0000,
        virt < 0x1_0000_0000_0000,
    ensures
        virt < limit <==> walk::index_at(virt, 3) < teardown::tops_below(limit),
{
}

// ---- regions ---------------------------------------------------------------------------------

/// Protecting a range gives every region with an address in it that protection
/// and nothing else, and leaves the rest alone: each is where it was and shows
/// what it showed.
pub proof fn what_protecting_a_range_does(
    vmas: Seq<Vma>,
    start: u64,
    end: u64,
    prot: u64,
    k: int,
    addr: int,
)
    requires
        0 <= k < vmas.len(),
    ensures
        ({
            let after = record::all_protected(vmas, start, end, prot);
            &&& after.len() == vmas.len()
            &&& after[k].start == vmas[k].start && after[k].end == vmas[k].end
            &&& after[k].flags == vmas[k].flags && after[k].file == vmas[k].file
            &&& start <= addr < end && vmas[k].start <= addr < vmas[k].end ==> after[k].prot == prot
            &&& end <= vmas[k].start || vmas[k].end <= start ==> after[k].prot == vmas[k].prot
        }),
{
}

/// How much regions take together is what each of them takes.
pub proof fn regions_take_what_each_takes(vmas: Seq<Vma>, next: Vma)
    ensures
        record::extent(Seq::empty()) == 0,
        record::extent(vmas.push(next)) == record::extent(vmas) + (next.end - next.start),
{
    assert(vmas.push(next).drop_last() =~= vmas);
}

/// No region ends higher than the top of them, and one ends there unless it is
/// the least asked for.
pub proof fn what_the_top_of_regions_is(vmas: Seq<Vma>, least: int, k: int)
    ensures
        least <= record::top_of(vmas, least),
        0 <= k < vmas.len() ==> vmas[k].end <= record::top_of(vmas, least),
        record::top_of(vmas, least) != least ==> exists|i: int|
            0 <= i < vmas.len() && (#[trigger] vmas[i]).end == record::top_of(vmas, least),
    decreases vmas.len(),
{
    if vmas.len() > 0 {
        let rest = vmas.drop_last();
        what_the_top_of_regions_is(rest, least, k);
        assert(vmas[vmas.len() - 1] == vmas.last());
        if 0 <= k < rest.len() {
            assert(rest[k] == vmas[k]);
        }
        if record::top_of(rest, least) == record::top_of(vmas, least) && record::top_of(rest, least)
            != least {
            let i = choose|i: int|
                0 <= i < rest.len() && (#[trigger] rest[i]).end == record::top_of(rest, least);
            assert(vmas[i] == rest[i]);
        }
    }
}

// ---- the heap --------------------------------------------------------------------------------

/// A block is as large as was asked for and sixteen bytes at least, in steps of
/// sixteen, and no larger than that takes. It begins on a boundary of sixteen
/// or of what was asked for, whichever is coarser.
pub proof fn how_large_a_block_is(layout: Layout)
    ensures
        layout.block() % 16 == 0,
        layout.block() >= layout.size,
        layout.block() >= 16,
        layout.block() < layout.size + 16 || layout.block() == 16,
        layout.step() >= 16 && layout.step() >= layout.align,
        layout.step() == 16 || layout.step() == layout.align,
{
}

/// A heap grows by what is needed, or by the least there is to it where that is
/// more, in whole pages and no more of them than that takes. It grows only
/// where its address space reaches and eight megabytes of memory are left, and
/// each time behind where it grew before.
pub proof fn how_a_heap_grows(
    v: HeapView,
    needed: usize,
    least: usize,
    base: u64,
    max: usize,
    free: usize,
)
    requires
        0 <= v.mapped,
        base + v.mapped <= u64::MAX,
        heap::growth(needed, least) <= usize::MAX,
    ensures
        ({
            let want = heap::growth(needed, least);
            let (after, claim) = v.claimed(want, base, max, free);
            &&& want % 4096 == 0
            &&& want >= needed && want >= least
            &&& want < needed + 4096 || want < least + 4096
            &&& claim is Some == (v.mapped + want <= max && free - want >= 0x80_0000)
            &&& claim matches Some(c) ==> c.start == base + v.mapped && c.bytes == want
                && after.mapped == v.mapped + want
            &&& claim is None ==> after == v
            &&& after.holes == v.holes && after.total_bytes == v.total_bytes
        }),
{
}

/// A heap that has grown has what was mapped of it among its holes, where it
/// was mapped; less than the smallest block is no use to it. The address space
/// is spent either way.
pub proof fn what_growing_leaves(v: HeapView, base: u64, want: int, mapped: usize)
    ensures
        ({
            let after = kernel_heap::grown(v, base, want, mapped);
            &&& after.mapped == v.mapped + want
            &&& mapped < 16 ==> after.holes == v.holes && after.total_bytes == v.total_bytes
            &&& mapped >= 16 ==> after.total_bytes == v.total_bytes + mapped && after.holes
                == heap::inserted(
                v.holes,
                heap::Hole { start: (base + v.mapped) as usize, size: mapped },
            )
        }),
{
}

} // verus!
