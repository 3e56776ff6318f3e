//! The frame allocator, the kernel heap, and the record of a program's
//! regions.

use kernel::mm::frame::{self, BitmapAllocator, BootMap, Frame, Platform, Range, Region};
use kernel::mm::heap::{normalize, HoleList, Layout, CHUNK};
use kernel::mm::kernel_heap;
use kernel::mm::ram::Ram;
use kernel::mm::record::{
    MemState, Vma, NO_EXECUTE, PRESENT, PROT_EXEC, PROT_WRITE, USER, WRITABLE,
};
use kernel::mm::tables::KernelTables;
use kernel::mm::walk::Machine;
use kernel::mm::{
    align_down, align_up, available_bytes, file_available_bytes, kernel_phys_end, page_align_down,
    page_align_up, phys_to_virt, FRAME_RESERVE, HEAP_MARGIN, KERNEL_HEAP_SIZE, PAGE_SIZE,
    PAGE_SIZE_U64, USER_MMAP_BASE,
};

/// Where the peripherals of the board are.
const DEVICE_PHYS_BASE: u64 = 0xFC00_0000;
/// How much of physical memory its direct map covers.
const HHDM_LIMIT: u64 = 0x1_0000_0000;
/// Where the firmware splits the first gigabyte with the video core.
const FIRST_BANK_END: u64 = 0x3B40_0000;
/// Where the second bank starts.
const SECOND_BANK_START: u64 = 0x4000_0000;
/// The two banks under four gigabytes, in frames.
const EXPECTED_FRAMES: usize =
    ((FIRST_BANK_END + (DEVICE_PHYS_BASE - SECOND_BANK_START)) / PAGE_SIZE_U64) as usize;

fn usable(addr: u64, len: u64) -> Region {
    Region { addr, len, usable: true }
}

/// A board's memory map, whose second bank ends where the caller says.
fn board(second_bank_end: u64) -> BootMap {
    BootMap {
        regions: vec![
            usable(0, FIRST_BANK_END),
            usable(SECOND_BANK_START, second_bank_end - SECOND_BANK_START),
            usable(0x1_0000_0000, 0x8C0_0000),
        ],
        reserved: Vec::new(),
        modules: Vec::new(),
    }
}

fn platform() -> Platform {
    Platform {
        claimed: Vec::new(),
        kernel_phys_start: 0x8_0000,
        kernel_phys_end: 0x20_0000,
        device_phys_base: DEVICE_PHYS_BASE,
        hhdm_limit: HHDM_LIMIT,
    }
}

fn small(len: u64) -> BitmapAllocator {
    let boot = BootMap {
        regions: vec![usable(0x10_0000, len)],
        reserved: Vec::new(),
        modules: Vec::new(),
    };
    let mut place = platform();
    place.kernel_phys_start = 0x10_0000;
    place.kernel_phys_end = 0x11_0000;
    frame::init(&boot, &place).unwrap()
}

// ---- addresses -------------------------------------------------------------

#[test]
fn rounding_to_pages() {
    assert_eq!(align_down(0x1FFF, 0x1000), 0x1000);
    assert_eq!(align_up(0x1001, 0x1000), 0x2000);
    assert_eq!(align_up(0x2000, 0x1000), 0x2000);
    assert_eq!(page_align_down(0xFFF), 0);
    assert_eq!(page_align_up(1), PAGE_SIZE_U64);
    assert_eq!(phys_to_virt(0xFFFF_8000_0000_0000, 0x1234), 0xFFFF_8000_0000_1234);
    assert_eq!(kernel_phys_end(0xFFFF_FFFF_8020_0000, 0xFFFF_FFFF_8000_0000), 0x20_0000);
}

#[test]
fn what_is_left_for_programs_and_files() {
    let reserve = FRAME_RESERVE / PAGE_SIZE;
    assert_eq!(available_bytes((0, reserve)), 0);
    assert_eq!(available_bytes((10, reserve + 15)), 5 * PAGE_SIZE);
    assert_eq!(file_available_bytes((10, reserve + 15), (100, 300)), 5 * PAGE_SIZE + 200);
}

// ---- frames ----------------------------------------------------------------

/// A 4 GiB board's own map: everything below the peripherals is memory and is
/// counted, and the hole between the two banks is neither.
#[test]
fn reports_only_what_it_can_touch() {
    let boot = board(DEVICE_PHYS_BASE);
    let limit = frame::usable_limit(&boot, &platform());
    assert_eq!(limit, DEVICE_PHYS_BASE);
    let allocator = frame::build(&boot, &platform(), limit, 0x20_0000);
    assert_eq!(allocator.total_frames(), EXPECTED_FRAMES);
    assert_eq!(allocator.total_frames() * PAGE_SIZE, 3956 * 1024 * 1024);
}

/// A map that claims the whole of the fourth gigabyte is memory. The allocator
/// refuses the part of it the direct map covers with device attributes
/// whatever the map says.
#[test]
fn hands_out_nothing_in_the_window() {
    let boot = board(HHDM_LIMIT);
    let limit = frame::usable_limit(&boot, &platform());
    let mut allocator = frame::build(&boot, &platform(), limit, 0x20_0000);
    let mut handed = 0usize;
    let mut highest = 0u64;
    while let Some(addr) = allocator.alloc_frame() {
        handed += 1;
        highest = highest.max(addr);
    }
    assert!(highest < DEVICE_PHYS_BASE);
    assert!(highest >= DEVICE_PHYS_BASE - 2 * 1024 * 1024);
    assert_eq!(allocator.free_frames(), 0);
    assert!(handed <= EXPECTED_FRAMES);
}

/// The ranges the firmware reserved, one of which starts and ends inside a
/// page. Every frame the allocator will give is taken, so all of them are
/// looked at.
#[test]
fn hands_out_nothing_the_firmware_reserved() {
    const NAMED: [(u64, u64); 3] =
        [(0x0500_0000, 0x10_0000), (0x0600_0c00, 0x1800), (0x0680_0000, 0x2000)];
    const SWITCHED_OFF: (u64, u64) = (0x0700_0000, 0x10_0000);
    const TO_THE_TOP: u64 = 0x07f0_0000;
    let mut reserved: Vec<Range> = NAMED
        .iter()
        .map(|&(start, size)| Range { start, end: start + size })
        .collect();
    reserved.push(Range { start: TO_THE_TOP, end: frame::LAST_END });
    let boot =
        BootMap { regions: vec![usable(0, 0x0800_0000)], reserved, modules: Vec::new() };
    let limit = frame::usable_limit(&boot, &platform());
    let mut allocator = frame::build(&boot, &platform(), limit, 0x20_0000);
    let touches = |addr: u64, (start, size): (u64, u64)| {
        addr < start + size && start < addr + PAGE_SIZE_U64
    };
    let mut switched_off = 0usize;
    while let Some(addr) = allocator.alloc_frame() {
        assert!(!NAMED.iter().any(|&range| touches(addr, range)));
        assert!(addr < TO_THE_TOP);
        if touches(addr, SWITCHED_OFF) {
            switched_off += 1;
        }
    }
    assert_eq!(switched_off, (SWITCHED_OFF.1 / PAGE_SIZE_U64) as usize);
}

#[test]
fn a_shared_frame_is_free_when_the_last_reference_goes() {
    let mut allocator = small(0x10_0000);
    let free = allocator.free_frames();
    let first = frame::take_frame(&mut allocator).unwrap();
    let phys = first.addr();
    assert_ne!(phys, 0);
    assert_eq!(allocator.references(phys), 1);
    let second = first.share(&mut allocator);
    let third = frame::share_recorded(&mut allocator, phys);
    assert_eq!(allocator.references(phys), 3);
    first.release(&mut allocator);
    second.release(&mut allocator);
    assert_eq!(allocator.references(phys), 1);
    assert_eq!(allocator.free_frames(), free - 1);
    let recorded = third.into_recorded();
    Frame::from_recorded(recorded).release(&mut allocator);
    assert_eq!(allocator.references(phys), 0);
    assert_eq!(allocator.free_frames(), free);
    assert_eq!(allocator.used_frames() + allocator.free_frames(), allocator.total_frames());
}

/// The count has sixteen bits, and a frame shared as often as it can count is
/// held until every one of them is gone.
#[test]
fn a_frame_shared_as_often_as_can_be_counted() {
    let mut allocator = small(0x10_0000);
    let free = allocator.free_frames();
    let phys = allocator.alloc_frame().unwrap();
    for _ in 0..65_534 {
        allocator.share(phys);
    }
    assert_eq!(allocator.references(phys), 65_535);
    for _ in 0..65_534 {
        allocator.free(phys);
    }
    assert_eq!(allocator.references(phys), 1);
    assert_eq!(allocator.free_frames(), free - 1);
    allocator.free(phys);
    assert_eq!(allocator.references(phys), 0);
    assert_eq!(allocator.free_frames(), free);
}

#[test]
fn a_run_is_the_lowest_there_is() {
    let mut allocator = small(0x10_0000);
    let first = allocator.alloc_contiguous(8).unwrap();
    let page = |i: u64| first + i * PAGE_SIZE_U64;
    for i in [1, 3, 4, 6, 7] {
        allocator.free(page(i));
    }
    assert_eq!(allocator.alloc_contiguous(2), Some(page(3)));
    assert_eq!(allocator.alloc_contiguous(3), Some(page(6)));
    assert_eq!(allocator.references(page(8)), 1);
    assert_eq!(allocator.references(page(1)), 0);
}

#[test]
fn contiguous_frames_follow_each_other() {
    let mut allocator = small(0x10_0000);
    let first = allocator.alloc_contiguous(5).unwrap();
    for i in 0..5u64 {
        assert_eq!(allocator.references(first + i * PAGE_SIZE_U64), 1);
    }
    assert_eq!(allocator.alloc_contiguous(100_000), None);
    // A gap of four does not hold five.
    allocator.free(first + 4 * PAGE_SIZE_U64);
    let rest = allocator.alloc_contiguous(5).unwrap();
    assert!(rest >= first + 4 * PAGE_SIZE_U64);
}

#[test]
fn a_machine_without_an_allocator_yet() {
    assert_eq!(frame::stats(&None), (0, 0));
    assert_eq!(frame::frame_references(&None, 0x1000), 0);
    let allocator = small(0x10_0000);
    let total = allocator.total_frames();
    let used = allocator.used_frames();
    assert_eq!(frame::stats(&Some(allocator)), (used, total));
    let nothing = BootMap { regions: Vec::new(), reserved: Vec::new(), modules: Vec::new() };
    assert!(frame::init(&nothing, &platform()).is_none());
}

// ---- the heap --------------------------------------------------------------

fn bytes(size: usize, align: usize) -> Layout {
    Layout { size, align }
}

#[test]
fn blocks_come_back_together() {
    let mut list = HoleList::new();
    list.begin(0x10_0000, 0x1000);
    let a = list.take_block(bytes(100, 8)).unwrap();
    let b = list.take_block(bytes(200, 8)).unwrap();
    let c = list.take_block(bytes(0x100, 0x200)).unwrap();
    assert_eq!(a, 0x10_0000);
    assert_eq!(b, 0x10_0000 + 112);
    assert_eq!(c % 0x200, 0);
    assert_eq!(list.free_bytes(), 0x1000 - 112 - 208 - 0x100);
    assert_eq!(list.take_block(bytes(0x1000, 8)), None);
    list.dealloc(b, bytes(200, 8));
    list.dealloc(a, bytes(100, 8));
    list.dealloc(c, bytes(0x100, 0x200));
    assert_eq!(list.free_bytes(), 0x1000);
    assert_eq!(list.take_block(bytes(0x1000, 16)), Some(0x10_0000));
    assert_eq!(normalize(bytes(1, 1)), (16, 16));
    assert_eq!(normalize(bytes(33, 64)), (48, 64));
}

/// A block out of the middle of a hole leaves one on either side, and given
/// back it leaves the one hole.
#[test]
fn a_block_given_back_leaves_the_list_as_it_was() {
    let mut list = HoleList::new();
    list.begin(0x10_0010, 0x1000);
    let block = list.take_block(bytes(0x100, 0x100)).unwrap();
    assert_eq!(block, 0x10_0100);
    assert_eq!(list.free_bytes(), 0xF00);
    assert_eq!(list.take_block(bytes(0x1000, 16)), None);
    list.dealloc(block, bytes(0x100, 0x100));
    assert_eq!(list.free_bytes(), 0x1000);
    assert_eq!(list.take_block(bytes(0x1000, 16)), Some(0x10_0010));
}

#[test]
fn two_claims_share_nothing() {
    let mut list = HoleList::new();
    list.begin(0x10_0000, 0x1000);
    let claim = |list: &mut HoleList, needed| {
        list.claim(needed, 1, 0x10_0000, 0x1000_0000, usize::MAX / 2).unwrap()
    };
    let first = claim(&mut list, 0x1800);
    let second = claim(&mut list, 1);
    assert_eq!((first.start, first.bytes), (0x10_1000, 0x2000));
    assert_eq!((second.start, second.bytes), (0x10_3000, 0x1000));
}

#[test]
fn the_heap_grows_only_where_there_is_memory_for_it() {
    let mut list = HoleList::new();
    list.begin(0x10_0000, 0x1000);
    let base = 0x10_0000;
    let max = 0x1000_0000;
    assert!(list.claim(100, CHUNK, base, max, CHUNK + FRAME_RESERVE - 1).is_none());
    assert!(list.claim(100, CHUNK, base, CHUNK, usize::MAX / 2).is_none());
    let claim = list.claim(100, CHUNK, base, max, CHUNK + FRAME_RESERVE).unwrap();
    assert_eq!(claim.start, 0x10_1000);
    assert_eq!(claim.bytes, CHUNK);
    assert_eq!(list.mapped_bytes(), 0x1000 + CHUNK);
    // Nothing can be had from it until it has been added.
    assert_eq!(list.total_bytes(), 0x1000);
    list.add_region(0x10_1000, CHUNK);
    assert_eq!(list.stats(), (0, 0x1000 + CHUNK));
}

/// An allocation made inside another lock's critical section must not be the
/// one that maps pages. The free list is driven down past the margin first;
/// topping up has to leave enough that the allocation after it moves nothing.
#[test]
fn the_margin_keeps_an_allocation_from_mapping() {
    const BLOCK: usize = 1024 * 1024;
    const HEAP_BASE: u64 = 0xFFFF_A000_0000_0000;
    const HEAP_MAX: usize = 0x1000_0000;
    let mut ram = Ram::new(small(0x300_0000));
    let root = ram.alloc_zeroed().unwrap();
    let kernel = KernelTables::new(root);
    let mut heap = kernel_heap::init(&mut ram, &kernel, HEAP_BASE, HEAP_MAX).unwrap();
    assert_eq!(heap.stats(), (0, KERNEL_HEAP_SIZE));

    for _ in 0..16 {
        let (used, total) = heap.stats();
        let free = total - used;
        if free <= BLOCK / 2 {
            break;
        }
        let layout = bytes((free - BLOCK / 2).min(4 * BLOCK), 8);
        let left = ram.free_frames() * PAGE_SIZE;
        heap.allocate(&mut ram, &kernel, layout, left).unwrap();
    }
    let (used, total) = heap.stats();
    assert!(total - used < BLOCK);

    let left = ram.free_frames() * PAGE_SIZE;
    heap.top_up(&mut ram, &kernel, left);
    let (used, total) = heap.stats();
    assert!(total - used >= HEAP_MARGIN);

    let mapped = heap.mapped_bytes();
    let frames = ram.free_frames();
    let block = heap.allocate(&mut ram, &kernel, bytes(BLOCK, 8), left).unwrap();
    assert_eq!(heap.mapped_bytes(), mapped);
    assert_eq!(ram.free_frames(), frames);
    assert!(kernel.walk().translate(&ram, block as u64).is_some());
    assert!(kernel.walk().translate(&ram, (block + BLOCK - 1) as u64).is_some());
    heap.dealloc(block, bytes(BLOCK, 8));
    assert_eq!(heap.stats(), (used, total));
}

/// No two pages of the heap share a frame, each frame is zeroed and the heap's
/// alone, and growing it leaves the pages it has where they were.
#[test]
fn every_page_of_the_heap_has_a_frame_of_its_own() {
    const HEAP_BASE: u64 = 0xFFFF_A000_0000_0000;
    const HEAP_MAX: usize = 0x1000_0000;
    let mut ram = Ram::new(small(0x300_0000));
    let root = ram.alloc_zeroed().unwrap();
    let other = ram.alloc_zeroed().unwrap();
    ram.write(other, 7, 0x1234);
    let kernel = KernelTables::new(root);
    let before = ram.free_frames();
    let mut heap = kernel_heap::init(&mut ram, &kernel, HEAP_BASE, HEAP_MAX).unwrap();
    let pages = KERNEL_HEAP_SIZE / PAGE_SIZE;
    let frames_of = |ram: &Ram, pages: usize| {
        (0..pages as u64)
            .map(|page| {
                let virt = HEAP_BASE + page * PAGE_SIZE_U64;
                let flags = kernel.walk().flags_of(ram, virt);
                assert_eq!(flags, Some(PRESENT | WRITABLE | NO_EXECUTE));
                kernel.walk().translate(ram, virt).unwrap()
            })
            .collect::<Vec<u64>>()
    };
    let frames = frames_of(&ram, pages);
    let mut sorted = frames.clone();
    sorted.sort();
    sorted.dedup();
    assert_eq!(sorted.len(), pages);
    for &frame in &frames {
        assert_eq!(ram.references(frame), 1);
        assert_eq!((ram.read(frame, 0), ram.read(frame, 511)), (0, 0));
    }
    // One table for every two megabytes, and the two above them.
    let under = KERNEL_HEAP_SIZE.div_ceil(0x20_0000);
    assert_eq!(ram.free_frames(), before - pages - under - 2);
    assert_eq!((ram.read(other, 7), ram.references(other)), (0x1234, 1));

    let block = loop {
        let left = ram.free_frames() * PAGE_SIZE;
        let mapped = heap.mapped_bytes();
        let block = heap.allocate(&mut ram, &kernel, bytes(0x10_0000, 16), left).unwrap();
        if heap.mapped_bytes() > mapped {
            break block;
        }
    };
    assert!(kernel.walk().translate(&ram, block as u64).is_some());
    let grown = frames_of(&ram, heap.mapped_bytes() / PAGE_SIZE);
    assert_eq!(grown[..pages], frames[..]);
    let mut sorted = grown.clone();
    sorted.sort();
    sorted.dedup();
    assert_eq!(sorted.len(), grown.len());
    assert!(!grown.contains(&other) && !grown.contains(&root));
}

/// A hole at the very top of the address space is looked into like any other.
#[test]
fn a_block_is_aligned_at_the_top_of_the_address_space() {
    let mut list = HoleList::new();
    list.begin(usize::MAX - 0x100F, 0x1000);
    assert_eq!(list.take_block(bytes(0x100, 0x2000)), None);
    assert_eq!(list.take_block(bytes(0x100, 1 << 62)), None);
    assert_eq!(list.take_block(bytes(0x100, 0x1000)), Some(usize::MAX - 0xFFF));
    assert_eq!(list.claim(usize::MAX, CHUNK, 0, usize::MAX / 2, usize::MAX), None);
}

// ---- the record ------------------------------------------------------------

fn region(start: u64, end: u64, prot: u64) -> Vma {
    Vma { start, end, prot, flags: 0, file: None }
}

fn shape(mem: &MemState) -> Vec<(u64, u64, u64)> {
    mem.vmas.iter().map(|vma| (vma.start, vma.end, vma.prot)).collect()
}

#[test]
fn taking_the_middle_out_of_a_region_leaves_both_ends() {
    let mut mem = MemState::new();
    mem.vmas.push(region(0x1000, 0x5000, PROT_WRITE));
    mem.vmas.push(region(0x8000, 0x9000, 0));
    mem.remove_vma_range(0x2000, 0x3000);
    let mut parts = shape(&mem);
    parts.sort();
    assert_eq!(
        parts,
        vec![(0x1000, 0x2000, PROT_WRITE), (0x3000, 0x5000, PROT_WRITE), (0x8000, 0x9000, 0)]
    );
    assert!(mem.range_is_free(0x2000, 0x3000));
    assert!(!mem.range_is_free(0x2000, 0x3001));
    assert_eq!(mem.find_vma(0x2000), None);
    assert_eq!(mem.find_vma(0x1FFF).unwrap().start, 0x1000);
    assert_eq!(mem.virtual_size(), 0x1000 + 0x2000 + 0x1000);
}

#[test]
fn a_file_stays_where_it_was_when_its_region_is_cut() {
    let mut mem = MemState::new();
    mem.vmas.push(Vma {
        start: 0x1000,
        end: 0x5000,
        prot: 0,
        flags: 0,
        file: Some(kernel::mm::record::FileMap { node: 3, offset: 0x100, length: 0x2800 }),
    });
    mem.remove_vma_range(0x2000, 0x3000);
    let tail = mem.find_vma(0x3000).unwrap().file.unwrap();
    assert_eq!((tail.node, tail.offset, tail.length), (3, 0x2100, 0x800));
}

#[test]
fn changing_the_protection_of_what_a_range_touches() {
    let mut mem = MemState::new();
    mem.vmas.push(region(0x1000, 0x5000, PROT_WRITE));
    mem.vmas.push(region(0x8000, 0x9000, PROT_WRITE));
    mem.set_vma_prot(0x2000, 0x3000, PROT_EXEC);
    assert_eq!(shape(&mem), vec![(0x1000, 0x5000, PROT_EXEC), (0x8000, 0x9000, PROT_WRITE)]);
    let vma = mem.find_vma(0x2000).unwrap();
    assert_eq!(vma.page_flags(), PRESENT | USER);
    assert_eq!(
        mem.find_vma(0x8000).unwrap().page_flags(),
        PRESENT | USER | WRITABLE | NO_EXECUTE
    );
    assert!(vma.contains(0x4FFF));
    assert!(!vma.contains(0x5000));
}

#[test]
fn a_free_span_is_the_lowest_there_is() {
    let mut mem = MemState::new();
    assert_eq!(mem.mmap_top, USER_MMAP_BASE);
    mem.vmas.push(region(USER_MMAP_BASE + 0x1000, USER_MMAP_BASE + 0x3000, 0));
    assert_eq!(mem.find_free_region(0x1000), USER_MMAP_BASE);
    assert_eq!(mem.find_free_region(1), USER_MMAP_BASE + 0x3000);
    assert_eq!(mem.mmap_top, USER_MMAP_BASE + 0x4000);
    let copy = mem.copy();
    assert_eq!(shape(&copy), shape(&mem));
    assert_eq!(copy.mmap_top, mem.mmap_top);
}
