//! Page tables and address spaces over memory that can be looked into.
//!
//! A page table entry is the one place a frame reference is recorded where the
//! type system cannot see it, so what becomes of an entry that is written over
//! is counted here.

use kernel::mm::active::{Active, Deferred, Numbered};
use kernel::mm::fault::{fill_from, must_sync, Fault, FaultAction};
use kernel::mm::frame::{self, BootMap, Frame, Platform, Region};
use kernel::mm::ram::{Ram, HUGE};
use kernel::mm::record::{
    FileMap, Vma, COW, NO_EXECUTE, PRESENT, PROT_EXEC, PROT_WRITE, USER, WRITABLE,
};
use kernel::mm::space::{Commit, Mm, Refused, Source};
use kernel::mm::switch::{let_go, might_sleep, release_deferred, switch_mm, switch_to_kernel};
use kernel::mm::tables::{KernelTables, MapError, PageTables, Prepared};
use kernel::mm::walk::{self, index_of, level_size, Event, Machine, TableStock, Tlb};
use std::sync::Arc;

/// Somewhere in the lower half, clear of where a program is loaded.
const VIRT: u64 = 0x1000_0000;
/// Somewhere in the kernel's half.
const KERNEL_VIRT: u64 = 0xFFFF_9000_0000_0000;

fn flags() -> u64 {
    PRESENT | WRITABLE | USER | NO_EXECUTE
}

/// A machine with a megabyte and a half of memory, and its kernel's tables.
fn machine() -> (Ram, KernelTables) {
    let boot = BootMap {
        regions: vec![Region { addr: 0x10_0000, len: 0x20_0000, usable: true }],
        reserved: Vec::new(),
        modules: Vec::new(),
    };
    let platform = Platform {
        claimed: Vec::new(),
        kernel_phys_start: 0x10_0000,
        kernel_phys_end: 0x18_0000,
        device_phys_base: 0x1_0000_0000,
        hhdm_limit: 0x1_0000_0000,
    };
    let mut ram = Ram::new(frame::init(&boot, &platform).unwrap());
    let root = ram.alloc_zeroed().unwrap();
    (ram, KernelTables::new(root))
}

/// A frame for an address, put in a space.
fn map_new(ram: &mut Ram, space: &Mm, virt: u64) -> Result<u64, Refused> {
    let missing = space.walk().missing_tables(ram, virt);
    let mut prepared = Prepared::new(ram, missing).unwrap();
    let result = space.publish_page(ram, virt, &mut prepared, flags());
    prepared.give_back(ram);
    result
}

fn destroy(ram: &mut Ram, space: Mm, kernel: &KernelTables) {
    let mut deferred: Deferred<PageTables> = Deferred::new();
    let_go(space, ram, &mut deferred, true, kernel.walk().root());
    assert!(deferred.take().is_empty());
}

// ---- the shape of a walk ---------------------------------------------------

#[test]
fn an_address_is_an_index_at_each_level() {
    let virt = (3u64 << 39) | (5 << 30) | (7 << 21) | (9 << 12) | 0x123;
    assert_eq!(index_of(virt, 3), 3);
    assert_eq!(index_of(virt, 2), 5);
    assert_eq!(index_of(virt, 1), 7);
    assert_eq!(index_of(virt, 0), 9);
    assert_eq!(level_size(0), 4096);
    assert_eq!(level_size(1), 0x20_0000);
    assert_eq!(level_size(3), 0x80_0000_0000);
}

#[test]
fn two_pages_to_flush_become_a_flush_of_everything() {
    let (mut ram, _) = machine();
    let before = ram.journal().len();
    let mut tlb = Tlb::new();
    assert!(tlb.is_clean());
    tlb.flush(&mut ram);
    assert_eq!(ram.journal().len(), before);
    tlb.note(0x1000);
    tlb.flush(&mut ram);
    assert!(ram.journal().iter().any(|event| matches!(event, Event::FlushPage(0x1000))));
    assert!(tlb.is_clean());
    tlb.note(0x1000);
    tlb.note(0x2000);
    tlb.flush(&mut ram);
    assert!(ram.journal().iter().any(|event| matches!(event, Event::FlushAll)));
}

// ---- mapping ---------------------------------------------------------------

/// An address that already has a mapping is refused, and the frame that was
/// turned away is released rather than left with no owner.
#[test]
fn refuses_a_second_mapping() {
    let (mut ram, kernel) = machine();
    let space = Mm::new_user(&mut ram, &kernel).unwrap();
    let mapped = map_new(&mut ram, &space, VIRT).unwrap();
    let before = ram.free_frames();
    assert_eq!(map_new(&mut ram, &space, VIRT), Err(Refused::Occupied));
    assert_eq!(ram.free_frames(), before);
    assert_eq!(space.walk().translate(&ram, VIRT), Some(mapped));
    assert_eq!(space.walk().translate(&ram, VIRT + 0x123), Some(mapped + 0x123));
    assert_eq!(space.walk().flags_of(&ram, VIRT), Some(flags()));
    destroy(&mut ram, space, &kernel);
    assert_eq!(ram.references(mapped), 0);
}

/// A thousand refused mappings cost no memory.
#[test]
fn refusing_leaks_nothing() {
    let (mut ram, kernel) = machine();
    let before = ram.free_frames();
    for _ in 0..1000 {
        let space = Mm::new_user(&mut ram, &kernel).unwrap();
        assert!(map_new(&mut ram, &space, VIRT).is_ok());
        assert!(map_new(&mut ram, &space, VIRT).is_err());
        destroy(&mut ram, space, &kernel);
    }
    assert_eq!(ram.free_frames(), before);
}

/// The old entry's reference comes back in hand rather than being dropped
/// where the caller cannot see it.
#[test]
fn replacing_hands_the_old_frame_back() {
    let (mut ram, kernel) = machine();
    let space = Mm::new_user(&mut ram, &kernel).unwrap();
    let old = map_new(&mut ram, &space, VIRT).unwrap();
    let new = ram.alloc_zeroed().unwrap();
    let mut guard = space.lock();
    let stale = guard.replace(&mut ram, VIRT, Frame::from_recorded(new), flags()).unwrap();
    assert_eq!(guard.translate(&ram, VIRT), Some(new));
    assert_eq!(stale.frames(), &[old]);
    assert_eq!(ram.references(old), 1);
    guard.retire(&mut ram, stale);
    assert_eq!(ram.references(old), 1);
    let space = guard.unlock(&mut ram);
    assert_eq!(ram.references(old), 0);
    destroy(&mut ram, space, &kernel);
    assert_eq!(ram.references(new), 0);
}

/// An address with nothing at it has no mapping to replace.
#[test]
fn replacing_nothing_maps_nothing() {
    let (mut ram, kernel) = machine();
    let space = Mm::new_user(&mut ram, &kernel).unwrap();
    let offered = ram.alloc_zeroed().unwrap();
    let mut guard = space.lock();
    match guard.replace(&mut ram, VIRT, Frame::from_recorded(offered), flags()) {
        Ok(_) => panic!("there was nothing to replace"),
        Err(frame) => assert_eq!(frame.into_recorded(), offered),
    }
    assert_eq!(guard.translate(&ram, VIRT), None);
    ram.free(offered);
    let space = guard.unlock(&mut ram);
    destroy(&mut ram, space, &kernel);
}

/// A thousand replacements cost no memory.
#[test]
fn replacing_leaks_nothing() {
    let (mut ram, kernel) = machine();
    let before = ram.free_frames();
    for _ in 0..1000 {
        let space = Mm::new_user(&mut ram, &kernel).unwrap();
        assert!(map_new(&mut ram, &space, VIRT).is_ok());
        let fresh = ram.alloc_zeroed().unwrap();
        let mut guard = space.lock();
        let stale =
            guard.replace(&mut ram, VIRT, Frame::from_recorded(fresh), flags()).unwrap();
        guard.retire(&mut ram, stale);
        let space = guard.unlock(&mut ram);
        destroy(&mut ram, space, &kernel);
    }
    assert_eq!(ram.free_frames(), before);
}

/// Nothing is freed before the walker has been told to forget it.
#[test]
fn a_frame_is_freed_only_after_a_flush() {
    let (mut ram, kernel) = machine();
    let mut space = Mm::new_user(&mut ram, &kernel).unwrap();
    space.mem_mut().vmas.push(anonymous(VIRT, VIRT + 4096));
    let page = map_new(&mut ram, &space, VIRT).unwrap();
    let from = ram.journal().len();
    space.unmap_recorded(&mut ram, VIRT, VIRT + 4096);
    assert_eq!(space.mem().vmas.len(), 0);
    let journal = &ram.journal()[from..];
    let freed = journal.iter().position(|event| matches!(event, Event::Free(p) if *p == page));
    let flushed = journal
        .iter()
        .position(|event| matches!(event, Event::FlushPage(_) | Event::FlushAll));
    assert!(flushed.unwrap() < freed.unwrap());
}

/// A range far longer than what is mapped in it comes out whole, and every
/// table under it with it.
#[test]
fn taking_a_long_range_away_gives_every_table_back() {
    let (mut ram, kernel) = machine();
    let space = Mm::new_user(&mut ram, &kernel).unwrap();
    let before = ram.free_frames();
    for i in 0..40u64 {
        map_new(&mut ram, &space, VIRT + i * 0x1000).unwrap();
    }
    map_new(&mut ram, &space, VIRT + 0x4000_0000).unwrap();
    space.unmap_pages(&mut ram, VIRT, VIRT + 0x8000_0000);
    assert_eq!(ram.free_frames(), before);
    assert_eq!(space.walk().translate(&ram, VIRT), None);
    assert_eq!(space.walk().missing_tables(&ram, VIRT), 3);
}

#[test]
fn the_kernel_maps_a_page_once() {
    let (mut ram, kernel) = machine();
    let space = Mm::new_user(&mut ram, &kernel).unwrap();
    let frame = kernel.map_new(&mut ram, KERNEL_VIRT, PRESENT | WRITABLE).unwrap();
    assert_eq!(kernel.walk().translate(&ram, KERNEL_VIRT), Some(frame));
    assert_eq!(
        kernel.map_new(&mut ram, KERNEL_VIRT, PRESENT | WRITABLE),
        Err(MapError::AlreadyMapped)
    );
    assert_eq!(
        kernel.map_fixed(&mut ram, KERNEL_VIRT + 0x1000, 0xFE00_0000, PRESENT | WRITABLE),
        Ok(())
    );
    assert_eq!(kernel.walk().translate(&ram, KERNEL_VIRT + 0x1000), Some(0xFE00_0000));
    // A space made before the kernel's top entry existed does not see it; one
    // made after does.
    assert_eq!(space.walk().translate(&ram, KERNEL_VIRT), None);
    let later = Mm::new_user(&mut ram, &kernel).unwrap();
    assert_eq!(later.walk().translate(&ram, KERNEL_VIRT), Some(frame));
}

/// Asked for a second time the address is taken, and nothing has changed:
/// neither where it leads nor with which flags, nor who holds what.
#[test]
fn a_second_page_of_the_kernel_changes_nothing() {
    let (mut ram, kernel) = machine();
    let frame = kernel.map_new(&mut ram, KERNEL_VIRT, PRESENT | WRITABLE).unwrap();
    let free = ram.free_frames();
    assert_eq!(
        kernel.map_new(&mut ram, KERNEL_VIRT, PRESENT | NO_EXECUTE),
        Err(MapError::AlreadyMapped)
    );
    assert_eq!(kernel.walk().translate(&ram, KERNEL_VIRT + 0xABC), Some(frame + 0xABC));
    assert_eq!(kernel.walk().flags_of(&ram, KERNEL_VIRT), Some(PRESENT | WRITABLE));
    assert_eq!(ram.references(frame), 1);
    assert_eq!(ram.free_frames(), free);
    while ram.alloc_zeroed().is_some() {}
    assert_eq!(
        kernel.map_new(&mut ram, KERNEL_VIRT, PRESENT | WRITABLE),
        Err(MapError::OutOfMemory)
    );
    assert_eq!(kernel.walk().translate(&ram, KERNEL_VIRT), Some(frame));
}

/// A page put in is all that changes: what a block covers elsewhere is where it
/// was, and as many tables are made as were missing.
#[test]
fn a_page_put_in_moves_no_other_address() {
    const BLOCK: u64 = 0xFFFF_A000_0000_0000;
    let (mut ram, kernel) = machine();
    let tables = kernel.walk();
    ram.write(tables.root(), index_of(BLOCK, 3), PRESENT | HUGE);
    assert_eq!(tables.translate(&ram, BLOCK + 0x1234_5678), Some(0x1234_5678));

    assert_eq!(tables.missing_tables(&ram, KERNEL_VIRT), 3);
    let page = ram.alloc_zeroed().unwrap();
    let mut stock = TableStock::new();
    for _ in 0..4 {
        stock.push(ram.alloc_zeroed().unwrap());
    }
    let mut tlb = Tlb::new();
    assert_eq!(
        tables.publish(&mut ram, KERNEL_VIRT, page, PRESENT | WRITABLE, &mut stock, &mut tlb),
        Ok(())
    );
    assert_eq!(stock.len(), 1);
    assert_eq!(tlb, Tlb::Page(KERNEL_VIRT));
    assert_eq!(tables.missing_tables(&ram, KERNEL_VIRT), 0);
    for offset in [0, 1, 0xFFF] {
        assert_eq!(tables.translate(&ram, KERNEL_VIRT + offset), Some(page + offset));
    }
    assert_eq!(tables.flags_of(&ram, KERNEL_VIRT), Some(PRESENT | WRITABLE));
    assert_eq!(tables.translate(&ram, KERNEL_VIRT + 0x1000), None);
    assert_eq!(tables.translate(&ram, KERNEL_VIRT - 1), None);
    assert_eq!(tables.translate(&ram, BLOCK + 0x1234_5678), Some(0x1234_5678));
    assert_eq!(
        tables.publish(&mut ram, BLOCK, page, PRESENT | WRITABLE, &mut stock, &mut tlb),
        Err(walk::Refused::Blocked)
    );
}

#[test]
fn a_machine_with_no_memory_left_maps_nothing() {
    let (mut ram, kernel) = machine();
    while ram.alloc_zeroed().is_some() {}
    assert_eq!(
        kernel.map_new(&mut ram, KERNEL_VIRT, PRESENT | WRITABLE),
        Err(MapError::OutOfMemory)
    );
    assert!(Mm::new_user(&mut ram, &kernel).is_none());
    assert!(Prepared::new(&mut ram, 0).is_none());
}

#[test]
fn a_page_that_brought_too_few_tables_is_not_put_in() {
    let (mut ram, kernel) = machine();
    let space = Mm::new_user(&mut ram, &kernel).unwrap();
    let mut prepared = Prepared::new(&mut ram, 2).unwrap();
    let written = ram.journal().len();
    let guard = &mut space.lock();
    assert_eq!(
        guard.publish(&mut ram, VIRT, &mut prepared, flags()),
        Err(Refused::ShortOfTables)
    );
    assert_eq!(ram.journal().len(), written);
    assert!(prepared.top_up(&mut ram, 3));
    let frame = prepared.addr();
    assert_eq!(guard.publish(&mut ram, VIRT, &mut prepared, flags()), Ok(frame));
    assert_eq!(prepared.tables_left(), 0);
}

#[test]
fn a_walk_is_shown_as_far_as_it_goes() {
    let (mut ram, kernel) = machine();
    let space = Mm::new_user(&mut ram, &kernel).unwrap();
    let frame = map_new(&mut ram, &space, VIRT).unwrap();
    let guard = space.lock();
    let walk = guard.dump_walk(&ram, VIRT);
    assert_eq!(walk.len(), 4);
    assert_eq!(walk[0].0, 3);
    assert_eq!(walk[3], (0, index_of(VIRT, 0), frame | flags()));
    assert_eq!(guard.dump_walk(&ram, 0x7000_0000_0000), vec![(3, 0xE0, 0)]);
}

// ---- copies ----------------------------------------------------------------

/// A fork of a space with one page in it takes four frames, its top table and
/// the three under it, and shares the page rather than the tables.
#[test]
fn a_clone_reaches_a_shared_page_through_tables_of_its_own() {
    let (mut ram, kernel) = machine();
    let parent = Mm::new_user(&mut ram, &kernel).unwrap();
    let page = map_new(&mut ram, &parent, VIRT).unwrap();
    let mapped = ram.free_frames();
    let child = parent.fork(&mut ram, &kernel).unwrap();
    assert_eq!(ram.free_frames(), mapped - 4);
    assert_eq!(ram.references(page), 2);
    child.unmap_pages(&mut ram, VIRT, VIRT + 4096);
    assert_eq!(ram.free_frames(), mapped - 1);
    assert_eq!(parent.walk().translate(&ram, VIRT), Some(page));
    assert_eq!(ram.references(page), 1);
    destroy(&mut ram, child, &kernel);
    destroy(&mut ram, parent, &kernel);
    assert_eq!(ram.references(page), 0);
}

/// After a fork neither side may write the page until it has one of its own.
#[test]
fn a_write_after_a_fork_takes_a_copy() {
    let (mut ram, kernel) = machine();
    let parent = Mm::new_user(&mut ram, &kernel).unwrap();
    let page = map_new(&mut ram, &parent, VIRT).unwrap();
    ram.write(page, 7, 0xC0FFEE);
    let child = parent.fork(&mut ram, &kernel).unwrap();
    for side in [&parent, &child] {
        let now = side.walk().flags_of(&ram, VIRT).unwrap();
        assert_eq!(now & (WRITABLE | COW), COW);
    }

    assert!(child.break_cow(&mut ram, VIRT + 0x10));
    let copy = child.walk().translate(&ram, VIRT).unwrap();
    assert_ne!(copy, page);
    assert_eq!(ram.read(copy, 7), 0xC0FFEE);
    assert_eq!(child.walk().flags_of(&ram, VIRT), Some(flags()));
    assert_eq!(ram.references(page), 1);

    // The parent is the only one left on the page, so it keeps it.
    assert!(parent.break_cow(&mut ram, VIRT));
    assert_eq!(parent.walk().translate(&ram, VIRT), Some(page));
    assert_eq!(parent.walk().flags_of(&ram, VIRT), Some(flags()));
}

#[test]
fn a_page_that_is_not_shared_is_not_copied() {
    let (mut ram, kernel) = machine();
    let space = Mm::new_user(&mut ram, &kernel).unwrap();
    let page = map_new(&mut ram, &space, VIRT).unwrap();
    assert!(!space.break_cow(&mut ram, VIRT + 0x1000));
    space.break_cow(&mut ram, VIRT);
    assert_eq!(space.walk().translate(&ram, VIRT), Some(page));
    assert_eq!(ram.references(page), 1);
}

#[test]
fn a_fork_without_memory_for_it_changes_nothing() {
    let (mut ram, kernel) = machine();
    let parent = Mm::new_user(&mut ram, &kernel).unwrap();
    let page = map_new(&mut ram, &parent, VIRT).unwrap();
    let mut taken = Vec::new();
    while ram.free_frames() > 2 {
        taken.push(ram.alloc_zeroed().unwrap());
    }
    assert!(parent.fork(&mut ram, &kernel).is_none());
    assert_eq!(ram.free_frames(), 2);
    assert_eq!(parent.walk().translate(&ram, VIRT), Some(page));
    assert_eq!(ram.references(page), 1);
}

/// A fork that runs out of memory after it has shared a page gives back the
/// tables it built and the reference it took.
#[test]
fn a_fork_that_fails_partway_gives_back_what_it_took() {
    let (mut ram, kernel) = machine();
    let parent = Mm::new_user(&mut ram, &kernel).unwrap();
    let near = map_new(&mut ram, &parent, VIRT).unwrap();
    let far = map_new(&mut ram, &parent, 0x7000_0000_0000).unwrap();
    let mut taken = Vec::new();
    while ram.free_frames() > 5 {
        taken.push(ram.alloc_zeroed().unwrap());
    }
    assert!(!ram.journal().iter().any(|event| matches!(event, Event::NoFrame)));
    assert!(parent.fork(&mut ram, &kernel).is_none());
    assert!(ram.journal().iter().any(|event| matches!(event, Event::NoFrame)));
    assert_eq!(ram.free_frames(), 5);
    assert_eq!(ram.references(near), 1);
    assert_eq!(ram.references(far), 1);
    // The page it got to is marked, and the write that meets the mark takes
    // the page back.
    assert_eq!(parent.walk().flags_of(&ram, VIRT).unwrap() & COW, COW);
    assert!(parent.break_cow(&mut ram, VIRT));
    assert_eq!(parent.walk().translate(&ram, VIRT), Some(near));
    assert_eq!(parent.walk().flags_of(&ram, VIRT), Some(flags()));
    assert_eq!(parent.walk().flags_of(&ram, 0x7000_0000_0000), Some(flags()));
}

// ---- faults ----------------------------------------------------------------

fn anonymous(start: u64, end: u64) -> Vma {
    Vma { start, end, prot: PROT_WRITE, flags: 0, file: None }
}

/// Serve a fault whose page needs no reading.
fn serve(ram: &mut Ram, space: &Mm, addr: u64) -> bool {
    let mut fault = Fault::new(addr);
    let mut action = space.fault_in(ram, &mut fault);
    loop {
        match action {
            FaultAction::Done(served) => return served,
            FaultAction::Fill(plan, prepared) => {
                assert_eq!(plan.source, Source::Zero);
                action = space.fault_filled(ram, &mut fault, plan, prepared, true);
            }
        }
    }
}

#[test]
fn a_fault_in_a_region_gets_a_page_of_zeroes() {
    let (mut ram, kernel) = machine();
    let mut space = Mm::new_user(&mut ram, &kernel).unwrap();
    space.mem_mut().vmas.push(anonymous(VIRT, VIRT + 0x2000));
    assert!(serve(&mut ram, &space, VIRT + 0x1234));
    let page = space.walk().translate(&ram, VIRT + 0x1000).unwrap();
    assert_eq!(ram.read(page, 0), 0);
    assert_eq!(space.walk().flags_of(&ram, VIRT + 0x1000), Some(flags()));
    assert_eq!(space.walk().translate(&ram, VIRT), None);

    // The same again is served by what is there.
    assert!(serve(&mut ram, &space, VIRT + 0x1234));
    assert_eq!(space.walk().translate(&ram, VIRT + 0x1000), Some(page));
}

#[test]
fn a_fault_outside_every_region_is_not_served() {
    let (mut ram, kernel) = machine();
    let mut space = Mm::new_user(&mut ram, &kernel).unwrap();
    space.mem_mut().vmas.push(anonymous(VIRT, VIRT + 0x1000));
    let free = ram.free_frames();
    for addr in [VIRT - 1, VIRT + 0x1000, 0xFFFF_9000_0000_0000] {
        assert!(!serve(&mut ram, &space, addr));
    }
    assert_eq!(ram.free_frames(), free);
}

#[test]
fn the_heap_grows_on_demand() {
    let (mut ram, kernel) = machine();
    let mut space = Mm::new_user(&mut ram, &kernel).unwrap();
    space.mem_mut().brk_start = 0x60_0000;
    space.mem_mut().brk = 0x60_1800;
    assert!(serve(&mut ram, &space, 0x60_1700));
    assert!(!serve(&mut ram, &space, 0x60_2000));
}

#[test]
fn a_page_of_a_file_is_filled_before_it_is_put_in() {
    let (mut ram, kernel) = machine();
    let mut space = Mm::new_user(&mut ram, &kernel).unwrap();
    space.mem_mut().vmas.push(Vma {
        start: VIRT,
        end: VIRT + 0x3000,
        prot: PROT_EXEC,
        flags: 0,
        file: Some(FileMap { node: 9, offset: 0x500, length: 0x1800 }),
    });
    let mut fault = Fault::new(VIRT + 0x1008);
    let (plan, prepared) = match space.fault_in(&mut ram, &mut fault) {
        FaultAction::Fill(plan, prepared) => (plan, prepared),
        FaultAction::Done(_) => panic!("the file has to be read"),
    };
    match plan.source {
        Source::File { node, offset, want } => {
            assert_eq!((node, offset, want), (9, 0x1500, 0x800));
        }
        _ => panic!("the page comes from the file"),
    }
    // Nothing is at the address while the file is being read.
    assert_eq!(space.walk().translate(&ram, VIRT + 0x1000), None);
    let frame = prepared.addr();
    ram.write(frame, 0, 0x1122);
    let done = space.fault_filled(&mut ram, &mut fault, plan, prepared, true);
    assert!(matches!(done, FaultAction::Done(true)));
    assert_eq!(space.walk().translate(&ram, VIRT + 0x1000), Some(frame));
    assert_eq!(space.walk().flags_of(&ram, VIRT + 0x1000), Some(PRESENT | USER));
}

#[test]
fn a_file_that_cannot_be_read_leaves_nothing_behind() {
    let (mut ram, kernel) = machine();
    let mut space = Mm::new_user(&mut ram, &kernel).unwrap();
    space.mem_mut().vmas.push(Vma {
        start: VIRT,
        end: VIRT + 0x1000,
        prot: 0,
        flags: 0,
        file: Some(FileMap { node: 9, offset: 0, length: 0x1000 }),
    });
    let free = ram.free_frames();
    let mut fault = Fault::new(VIRT);
    match space.fault_in(&mut ram, &mut fault) {
        FaultAction::Fill(plan, prepared) => {
            let done = space.fault_filled(&mut ram, &mut fault, plan, prepared, false);
            assert!(matches!(done, FaultAction::Done(false)));
        }
        FaultAction::Done(_) => panic!("the file has to be read"),
    }
    assert_eq!(ram.free_frames(), free);
    assert_eq!(space.walk().translate(&ram, VIRT), None);
}

/// The region was taken away while the file was being read.
#[test]
fn a_page_filled_for_a_region_that_went_is_not_put_in() {
    let (mut ram, kernel) = machine();
    let mut space = Mm::new_user(&mut ram, &kernel).unwrap();
    space.mem_mut().vmas.push(Vma {
        start: VIRT,
        end: VIRT + 0x1000,
        prot: 0,
        flags: 0,
        file: Some(FileMap { node: 9, offset: 0, length: 0x1000 }),
    });
    let free = ram.free_frames();
    let mut fault = Fault::new(VIRT);
    match space.fault_in(&mut ram, &mut fault) {
        FaultAction::Fill(plan, prepared) => {
            space.unmap_recorded(&mut ram, VIRT, VIRT + 0x1000);
            let done = space.fault_filled(&mut ram, &mut fault, plan, prepared, true);
            assert!(matches!(done, FaultAction::Done(false)));
        }
        FaultAction::Done(_) => panic!("the file has to be read"),
    }
    assert_eq!(ram.free_frames(), free);
}

#[test]
fn a_plan_is_committed_only_while_it_still_holds() {
    let (mut ram, kernel) = machine();
    let mut space = Mm::new_user(&mut ram, &kernel).unwrap();
    space.mem_mut().vmas.push(anonymous(VIRT, VIRT + 0x1000));
    let mut guard = space.lock();
    let plan = guard.plan(&ram, VIRT).unwrap();
    assert_eq!(plan.tables, 3);
    let mut prepared = Prepared::new(&mut ram, plan.tables).unwrap();
    guard.mem_mut().set_vma_prot(VIRT, VIRT + 0x1000, 0);
    assert_eq!(guard.commit(&mut ram, VIRT, &plan, &mut prepared), Commit::Changed);
    let plan = guard.plan(&ram, VIRT).unwrap();
    assert_eq!(guard.commit(&mut ram, VIRT, &plan, &mut prepared), Commit::Done);
    let mut spare = Prepared::new(&mut ram, 0).unwrap();
    assert_eq!(guard.commit(&mut ram, VIRT, &plan, &mut spare), Commit::Already);
    spare.give_back(&mut ram);
}

#[test]
fn what_a_file_gives_a_page() {
    let data: Vec<u8> = (0..100u8).collect();
    let (bytes, got) = fill_from(&data, 90, 16);
    assert_eq!(got, 10);
    assert_eq!(&bytes[..10], &data[90..]);
    let (_, none) = fill_from(&data, 100, 16);
    assert_eq!(none, 0);
    assert!(must_sync(1, PRESENT | USER));
    assert!(!must_sync(0, PRESENT | USER));
    assert!(!must_sync(1, PRESENT | USER | NO_EXECUTE));
}

// ---- which space is loaded -------------------------------------------------

#[test]
fn switching_keeps_the_loaded_space_alive() {
    let (mut ram, kernel) = machine();
    let first = Arc::new(Mm::new_user(&mut ram, &kernel).unwrap());
    let second = Arc::new(Mm::new_user(&mut ram, &kernel).unwrap());
    assert_ne!(Numbered::id(&*first), Numbered::id(&*second));
    let mut active = Active::new();
    let mut loaded = kernel.walk().root();
    assert!(switch_mm(&mut active, &first, &mut loaded).is_none());
    assert_eq!(loaded, first.walk().root());
    assert!(active.is(&first));
    // Switching to the space already loaded loads nothing.
    loaded = 0;
    assert!(switch_mm(&mut active, &first, &mut loaded).is_none());
    assert_eq!(loaded, 0);
    let left = switch_mm(&mut active, &second, &mut loaded).unwrap();
    assert!(Arc::ptr_eq(&left, &first));
    assert_eq!(Arc::strong_count(&second), 2);
    let left = switch_to_kernel(&mut active, &kernel, &mut loaded).unwrap();
    assert!(Arc::ptr_eq(&left, &second));
    assert_eq!(loaded, kernel.walk().root());
    assert!(!active.is(&second));
}

/// A space let go with interrupts masked waits, and goes later.
#[test]
fn a_release_waits_for_interrupts() {
    let (mut ram, kernel) = machine();
    let before = ram.free_frames();
    let space = Mm::new_user(&mut ram, &kernel).unwrap();
    map_new(&mut ram, &space, VIRT).unwrap();
    let held = ram.free_frames();
    let mut deferred: Deferred<PageTables> = Deferred::new();
    let root = kernel.walk().root();
    let_go(space, &mut ram, &mut deferred, false, root);
    assert_eq!(ram.free_frames(), held);
    assert!(release_deferred(&mut deferred, false).is_empty());
    for tables in release_deferred(&mut deferred, true) {
        tables.destroy(&mut ram, root);
    }
    assert_eq!(ram.free_frames(), before);
    assert!(might_sleep(0));
    assert!(!might_sleep(1));
}
