//! Memory management: physical frames, page tables, kernel heap.

pub mod active;
pub mod change;
pub mod fault;
pub mod fault_laws;
pub mod fork;
pub mod fork_counts;
pub mod fork_kept;
pub mod fork_room;
pub mod fork_told;
pub mod frame;
pub mod frame_laws;
pub mod heap;
pub mod holding;
pub mod kernel_heap;
pub mod memory_laws;
pub mod own_page;
pub mod publish_laws;
pub mod ram;
pub mod record;
pub mod record_laws;
pub mod space;
pub mod space_ops;
pub mod sweep;
pub mod switch;
pub mod tables;
pub mod teardown;
pub mod tree;
pub mod walk;

use vstd::prelude::*;

verus! {

pub const PAGE_SIZE: usize = 4096;

pub const PAGE_SIZE_U64: u64 = 4096;

/// Mapped at boot; the heap grows from here on demand.
pub const KERNEL_HEAP_SIZE: usize = 0x100_0000;

/// Physical memory kept back from the heap for user pages.
pub const FRAME_RESERVE: usize = 0x80_0000;

/// Mapped heap the free list is kept holding over what it has handed out.
///
/// An allocation that finds no hole is the one that maps the pages the heap
/// grows by, and it does that inside whatever critical section its caller is
/// in. This is how much room is kept ahead of it so that the ordinary
/// allocation is not that one.
///
/// It is counted in free bytes rather than in one run of them, so what it
/// answers for is the small allocation -- a node, a string, a formatted line,
/// which is every allocation this kernel makes under another lock -- and not a
/// request larger than whatever hole the free list happens to have.
pub const HEAP_MARGIN: usize = 0x40_0000;

/// Where user mmap allocations start growing up from.
pub const USER_MMAP_BASE: u64 = 0x0000_7F00_0000_0000;

/// Top of the initial user stack (grows down from here).
pub const USER_STACK_TOP: u64 = 0x0000_7FFF_FFFF_F000;

pub const USER_STACK_SIZE: u64 = 0x10_0000;

/// Where a machine that supplies its own code to a program puts it: the page
/// a signal handler returns through.
///
/// It is the last page of the half a program owns, and every other thing
/// placed in that half is below it. The stack occupies what is below
/// `USER_STACK_TOP` and grows downwards, so this page starts where the stack
/// ends and nothing about it moves.
pub const USER_TRAMPOLINE: u64 = USER_STACK_TOP;

/// Where the half a program owns ends.
pub const USER_LIMIT: u64 = 0x0000_8000_0000_0000;

/// The page has to fit in the half a program owns, whose top is where the
/// kernel's half begins, and nothing of the stack is above it.
pub proof fn the_trampoline_fits()
    ensures
        USER_TRAMPOLINE % PAGE_SIZE_U64 == 0,
        USER_TRAMPOLINE + PAGE_SIZE_U64 <= USER_LIMIT,
        USER_TRAMPOLINE >= USER_STACK_TOP,
{
}

/// Two to some power.
pub open spec fn power_of_two(n: int) -> bool {
    exists|k: nat| n == #[trigger] vstd::arithmetic::power2::pow2(k)
}

/// The largest multiple of `align` that is not above `value`.
pub open spec fn down_to(value: int, align: int) -> int {
    value - value % align
}

/// The smallest multiple of `align` that is not below `value`.
pub open spec fn up_to(value: int, align: int) -> int {
    down_to(value + align - 1, align)
}

pub fn align_down(value: u64, align: u64) -> (aligned: u64)
    requires
        power_of_two(align as int),
    ensures
        aligned == down_to(value as int, align as int),
{
    proof {
        powers_are_positive(align as int);
        vstd::arithmetic::div_mod::lemma_mod_decreases(value as nat, align as nat);
    }
    value - value % align
}

pub fn align_up(value: u64, align: u64) -> (aligned: u64)
    requires
        power_of_two(align as int),
        value + align - 1 <= u64::MAX,
    ensures
        aligned == up_to(value as int, align as int),
{
    proof {
        powers_are_positive(align as int);
        vstd::arithmetic::div_mod::lemma_mod_decreases((value + align - 1) as nat, align as nat);
    }
    let top = value + (align - 1);
    top - top % align
}

/// A power of two is above zero.
pub proof fn powers_are_positive(n: int)
    requires
        power_of_two(n),
    ensures
        n > 0,
{
    let k = choose|k: nat| n == #[trigger] vstd::arithmetic::power2::pow2(k);
    vstd::arithmetic::power2::lemma_pow2_pos(k);
}

pub proof fn a_page_is_a_power_of_two()
    ensures
        power_of_two(PAGE_SIZE_U64 as int),
{
    vstd::arithmetic::power2::lemma2_to64();
    assert(PAGE_SIZE_U64 as int == vstd::arithmetic::power2::pow2(12));
}

pub fn page_align_down(value: u64) -> (aligned: u64)
    ensures
        aligned == down_to(value as int, PAGE_SIZE_U64 as int),
{
    proof {
        a_page_is_a_power_of_two();
    }
    align_down(value, PAGE_SIZE_U64)
}

pub fn page_align_up(value: u64) -> (aligned: u64)
    requires
        value + PAGE_SIZE_U64 - 1 <= u64::MAX,
    ensures
        aligned == up_to(value as int, PAGE_SIZE_U64 as int),
{
    proof {
        a_page_is_a_power_of_two();
    }
    align_up(value, PAGE_SIZE_U64)
}

/// Aligning down gives the last multiple at or below a value, and aligning up
/// the first at or above it.
pub proof fn aligning_is_nearest(value: int, align: int)
    requires
        align > 0,
        value >= 0,
    ensures
        down_to(value, align) % align == 0,
        down_to(value, align) <= value < down_to(value, align) + align,
        up_to(value, align) % align == 0,
        up_to(value, align) - align < value <= up_to(value, align),
{
    vstd::arithmetic::div_mod::lemma_fundamental_div_mod(value, align);
    vstd::arithmetic::div_mod::lemma_mod_multiples_basic(value / align, align);
    vstd::arithmetic::mul::lemma_mul_is_commutative(value / align, align);
    vstd::arithmetic::div_mod::lemma_mod_bound(value, align);
    let top = value + align - 1;
    vstd::arithmetic::div_mod::lemma_fundamental_div_mod(top, align);
    vstd::arithmetic::div_mod::lemma_mod_multiples_basic(top / align, align);
    vstd::arithmetic::mul::lemma_mul_is_commutative(top / align, align);
    vstd::arithmetic::div_mod::lemma_mod_bound(top, align);
}

/// What aligning up adds to a value.
pub proof fn rounding_up_adds(value: int, align: int)
    requires
        align > 0,
        value >= 0,
    ensures
        up_to(value, align) - value == (if value % align == 0 {
            0
        } else {
            align - value % align
        }),
{
    let whole = value / align;
    let past = value % align;
    let top = value + align - 1;
    vstd::arithmetic::div_mod::lemma_fundamental_div_mod(value, align);
    vstd::arithmetic::div_mod::lemma_mod_bound(value, align);
    vstd::arithmetic::mul::lemma_mul_is_commutative(whole, align);
    if past == 0 {
        vstd::arithmetic::div_mod::lemma_fundamental_div_mod_converse(top, align, whole, align - 1);
    } else {
        vstd::arithmetic::mul::lemma_mul_is_distributive_add_other_way(align, whole, 1);
        vstd::arithmetic::div_mod::lemma_fundamental_div_mod_converse(
            top,
            align,
            whole + 1,
            past - 1,
        );
    }
}

/// Physical memory not spoken for, minus the reserve kept for user pages, from
/// how many frames are held and how many there are.
///
/// This deliberately ignores the heap's own free list, because the heap asks
/// for it while holding its lock.
pub fn available_bytes(frames: (usize, usize)) -> (bytes: usize)
    requires
        frames.0 <= frames.1,
        (frames.1 - frames.0) * PAGE_SIZE <= usize::MAX,
    ensures
        ({
            let free = (frames.1 - frames.0) * PAGE_SIZE;
            bytes == (if free > FRAME_RESERVE {
                free - FRAME_RESERVE
            } else {
                0
            })
        }),
{
    let free: usize = (frames.1 - frames.0) * PAGE_SIZE;
    if free > FRAME_RESERVE {
        free - FRAME_RESERVE
    } else {
        0
    }
}

/// What a file may still grow into: unclaimed physical memory plus the space
/// the heap has already mapped and is not using. Without the second term a
/// machine that once held a large file could never hold another one, because
/// the heap does not hand pages back.
pub fn file_available_bytes(frames: (usize, usize), heap: (usize, usize)) -> (bytes: usize)
    requires
        frames.0 <= frames.1,
        heap.0 <= heap.1,
        (frames.1 - frames.0) * PAGE_SIZE + (heap.1 - heap.0) <= usize::MAX,
    ensures
        ({
            let free = (frames.1 - frames.0) * PAGE_SIZE;
            bytes == (if free > FRAME_RESERVE {
                free - FRAME_RESERVE
            } else {
                0
            }) + (heap.1 - heap.0)
        }),
{
    available_bytes(frames) + (heap.1 - heap.0)
}

/// Where a physical address is in the direct map that begins at `base`.
pub fn phys_to_virt(base: u64, phys: u64) -> (virt: u64)
    requires
        base + phys <= u64::MAX,
    ensures
        virt == base + phys,
{
    base + phys
}

/// Physical address just past the end of the loaded kernel image, from where
/// it ends and the address it is linked at.
pub fn kernel_phys_end(end_virt: u64, kernel_vma: u64) -> (phys: u64)
    requires
        kernel_vma <= end_virt,
    ensures
        phys == end_virt - kernel_vma,
{
    end_virt - kernel_vma
}

} // verus!
