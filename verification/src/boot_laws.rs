//! What is read out of the blob a boot loader leaves, and what a device tree
//! looks like once it is written.

use crate::bytes;
use crate::device_tree::{self, TreeView};
use crate::multiboot;
use vstd::prelude::*;

verus! {

// ---- the boot loader's blob ------------------------------------------------------------

/// A string runs up to the zero that ends it, and no further than four
/// thousand and ninety-six bytes.
pub proof fn a_string_ends_at_its_zero(memory: Seq<u8>, addr: int, n: int)
    requires
        0 <= n <= 4096,
        n == 4096 || multiboot::byte_at(memory, addr + n) == 0,
        forall|i: int|
            #![trigger multiboot::byte_at(memory, addr + i)]
            0 <= i < n ==> multiboot::byte_at(memory, addr + i) != 0,
    ensures
        multiboot::string_length(memory, addr, 0) == n,
        multiboot::string_at(memory, addr).len() == n,
        forall|i: int|
            0 <= i < n ==> #[trigger] multiboot::string_at(memory, addr)[i] == multiboot::byte_at(
                memory,
                addr + i,
            ),
{
    running_up_to(memory, addr, 0, n);
}

proof fn running_up_to(memory: Seq<u8>, addr: int, from: int, n: int)
    requires
        0 <= from <= n <= 4096,
        n == 4096 || multiboot::byte_at(memory, addr + n) == 0,
        forall|i: int|
            #![trigger multiboot::byte_at(memory, addr + i)]
            0 <= i < n ==> multiboot::byte_at(memory, addr + i) != 0,
    ensures
        multiboot::string_length(memory, addr, from) == n,
    decreases n - from,
{
    if from < n {
        assert(multiboot::byte_at(memory, addr + from) != 0);
        running_up_to(memory, addr, from + 1, n);
    }
}

/// An entry of the memory map: its size in front, then where it begins, how
/// long it is and what it is, the low bytes first. The next entry is as much
/// further on as the size says; the map ends where there is no room for
/// another, or at one that is too short.
pub proof fn how_the_memory_map_is_read(memory: Seq<u8>, at: int, end: int, room: nat)
    ensures
        ({
            let list = multiboot::map_from(memory, at, end, room);
            let size = multiboot::word_at(memory, at);
            let low = |k: int|
                multiboot::byte_at(memory, at + k) + multiboot::byte_at(memory, at + k + 1) * 0x100
                    + multiboot::byte_at(memory, at + k + 2) * 0x1_0000 + multiboot::byte_at(
                    memory,
                    at + k + 3,
                ) * 0x100_0000;
            &&& list.len() <= room
            &&& at + 4 > end || size < 20 ==> list.len() == 0
            &&& at + 4 <= end && size >= 20 && room > 0 ==> {
                &&& list.len() > 0
                &&& list[0].addr == low(4) + low(8) * 0x1_0000_0000
                &&& list[0].len == low(12) + low(16) * 0x1_0000_0000
                &&& list[0].typ == low(20)
                &&& list.subrange(1, list.len() as int) == multiboot::map_from(
                    memory,
                    at + size + 4,
                    end,
                    (room - 1) as nat,
                )
            }
        }),
    decreases room,
{
    if room > 0 {
        let size = multiboot::word_at(memory, at);
        how_the_memory_map_is_read(memory, at + size + 4, end, (room - 1) as nat);
        let list = multiboot::map_from(memory, at, end, room);
        if at + 4 <= end && size >= 20 {
            assert(list.subrange(1, list.len() as int) =~= multiboot::map_from(
                memory,
                at + size + 4,
                end,
                (room - 1) as nat,
            ));
        }
    }
}

/// Whether a bit of the loader's flags is set.
pub open spec fn flagged(memory: Seq<u8>, phys: int, bit: int) -> bool {
    multiboot::word_at(memory, phys) / bit % 2 == 1
}

/// The memory there is: what the map says where there is one with anything in
/// it, and otherwise what lies below and above the first megabyte, where the
/// loader says how much that is.
pub proof fn which_memory_there_is(memory: Seq<u8>, phys: int)
    ensures
        ({
            let regions = multiboot::regions_of(memory, phys);
            let map = multiboot::word_at(memory, phys + 48);
            let mapped = multiboot::map_from(
                memory,
                map,
                map + multiboot::word_at(memory, phys + 44),
                32,
            );
            let has_map = flagged(memory, phys, 64) && mapped.len() > 0;
            &&& has_map ==> regions == mapped
            &&& !has_map && flagged(memory, phys, 1) ==> {
                &&& regions.len() == 2
                &&& regions[0].addr == 0 && regions[0].typ == 1
                &&& regions[0].len == multiboot::word_at(memory, phys + 4) * 1024
                &&& regions[1].addr == 0x10_0000 && regions[1].typ == 1
                &&& regions[1].len == multiboot::word_at(memory, phys + 8) * 1024
            }
            &&& !has_map && !flagged(memory, phys, 1) ==> regions.len() == 0
        }),
{
}

/// The modules there are: as many as the loader says where it says, and eight
/// at most.
pub proof fn how_many_modules_there_are(memory: Seq<u8>, phys: int)
    ensures
        ({
            let count = multiboot::word_at(memory, phys + 20);
            &&& !flagged(memory, phys, 8) ==> multiboot::modules_in(memory, phys) == 0
            &&& flagged(memory, phys, 8) && count <= 8 ==> multiboot::modules_in(memory, phys)
                == count
            &&& flagged(memory, phys, 8) && count > 8 ==> multiboot::modules_in(memory, phys) == 8
        }),
{
}

/// One past the end of a string that is kept, with its zero.
pub open spec fn past_string(memory: Seq<u8>, addr: int) -> int {
    addr + multiboot::string_length(memory, addr, 0) + 1
}

/// Whether something the loader left ends exactly at an address.
pub open spec fn ends_there(memory: Seq<u8>, phys: int, end: int) -> bool {
    ||| end == phys + 128
    ||| flagged(memory, phys, 4) && multiboot::word_at(memory, phys + 16) != 0 && end
        == past_string(memory, multiboot::word_at(memory, phys + 16))
    ||| flagged(memory, phys, 64) && end == multiboot::word_at(memory, phys + 48)
        + multiboot::word_at(memory, phys + 44)
    ||| flagged(memory, phys, 8) && end == multiboot::word_at(memory, phys + 24)
        + multiboot::word_at(memory, phys + 20) * 16
    ||| exists|i: int| 0 <= i < multiboot::modules_in(memory, phys) && #[trigger] module_ends(
        memory,
        multiboot::word_at(memory, phys + 24) + i * 16,
        end,
    )
}

/// Whether a module, or its command line, ends exactly at an address.
pub open spec fn module_ends(memory: Seq<u8>, at: int, end: int) -> bool {
    let module = multiboot::module_at(memory, at);
    end == module.end || module.cmdline != 0 && end == past_string(memory, module.cmdline as int)
}

proof fn the_last_module(memory: Seq<u8>, addr: int, count: nat, reserved: int)
    ensures
        ({
            let end = multiboot::past_modules(memory, addr, count, reserved);
            end == reserved || exists|i: int|
                0 <= i < count && #[trigger] module_ends(memory, addr + i * 16, end)
        }),
    decreases count,
{
    if count > 0 {
        let less = (count - 1) as nat;
        the_last_module(memory, addr, less, reserved);
        let before = multiboot::past_modules(memory, addr, less, reserved);
        let end = multiboot::past_modules(memory, addr, count, reserved);
        if end == before {
            if before != reserved {
                let i = choose|i: int|
                    0 <= i < less && #[trigger] module_ends(memory, addr + i * 16, before);
                assert(module_ends(memory, addr + i * 16, end));
            }
        } else {
            assert(module_ends(memory, addr + (count - 1) * 16, end));
        }
    }
}

/// What is kept back from the memory there is ends where something the loader
/// left ends: none of it is kept back for nothing.
pub proof fn nothing_is_kept_back_for_nothing(memory: Seq<u8>, phys: int)
    ensures
        ends_there(memory, phys, multiboot::reserved_by(memory, phys)),
{
    let flags = multiboot::word_at(memory, phys);
    let blob = phys + 128;
    let line = if multiboot::says(flags, 4) {
        multiboot::past_cmdline(memory, multiboot::word_at(memory, phys + 16), blob)
    } else {
        blob
    };
    let modules = multiboot::word_at(memory, phys + 24);
    if multiboot::says(flags, 8) {
        the_last_module(
            memory,
            modules,
            multiboot::modules_in(memory, phys),
            multiboot::higher(line, modules + multiboot::word_at(memory, phys + 20) * 16),
        );
    }
}

// ---- device trees ------------------------------------------------------------------------

/// Where a tree has its parts once it is written: forty bytes of header, an
/// empty list of memory kept back, the structure with the token that ends it,
/// and the names.
pub proof fn where_a_tree_has_its_parts(tree: TreeView)
    requires
        tree.structure.len() + tree.strings.len() < 0x8000_0000,
    ensures
        ({
            let blob = tree.blob();
            let n = tree.structure.len() as int;
            let names = tree.strings.len() as int;
            &&& blob.len() == 60 + n + names
            &&& bytes::be32(blob, 0) == 0xD00D_FEED
            &&& bytes::be32(blob, 4) == blob.len()
            &&& bytes::be32(blob, 8) == 56
            &&& bytes::be32(blob, 12) == 60 + n
            &&& bytes::be32(blob, 16) == 40
            &&& bytes::be32(blob, 20) == 17
            &&& bytes::be32(blob, 24) == 16
            &&& bytes::be32(blob, 28) == 0
            &&& bytes::be32(blob, 32) == names
            &&& bytes::be32(blob, 36) == n + 4
            &&& forall|i: int| 40 <= i < 56 ==> #[trigger] blob[i] == 0
            &&& blob.subrange(56, 56 + n) == tree.structure
            &&& bytes::be32(blob, 56 + n) == 9
            &&& blob.subrange(60 + n, 60 + n + names) == tree.strings
        }),
{
    let blob = tree.blob();
    let n = tree.structure.len() as int;
    let names = tree.strings.len() as int;
    let total = 60 + n + names;
    let first = bytes::be32_bytes(0xD00D_FEED) + bytes::be32_bytes(total) + bytes::be32_bytes(56)
        + bytes::be32_bytes(60 + n) + bytes::be32_bytes(40);
    let head = first + bytes::be32_bytes(17) + bytes::be32_bytes(16) + bytes::be32_bytes(0)
        + bytes::be32_bytes(names) + bytes::be32_bytes(n + 4);
    let whole = tree.token(9).structure;
    let gap = Seq::new(16, |i: int| 0u8);
    assert(whole == tree.structure + bytes::be32_bytes(9));
    assert(head.len() == 40);
    assert(blob == head + gap + whole + tree.strings);
    five_words(Seq::empty(), 0xD00D_FEED, total, 56, 60 + n, 40);
    assert(Seq::<u8>::empty() + bytes::be32_bytes(0xD00D_FEED) =~= bytes::be32_bytes(0xD00D_FEED));
    five_words(first, 17, 16, 0, names, n + 4);
    behind_the_rest(first, head);
    behind_the_rest(head, blob);
    assert(blob.subrange(56, 56 + n) =~= tree.structure);
    assert(blob.subrange(56 + n, 60 + n) =~= bytes::be32_bytes(9));
    assert(blob.subrange(60 + n, 60 + n + names) =~= tree.strings);
    bytes::be32_at(blob, 56 + n, 9);
    assert forall|i: int| 40 <= i < 56 implies #[trigger] blob[i] == 0 by {
        assert(blob[i] == gap[i - 40]);
    }
}

/// Five words behind what is there already are read where they are.
proof fn five_words(front: Seq<u8>, a: int, b: int, c: int, d: int, e: int)
    requires
        0 <= a < 0x1_0000_0000,
        0 <= b < 0x1_0000_0000,
        0 <= c < 0x1_0000_0000,
        0 <= d < 0x1_0000_0000,
        0 <= e < 0x1_0000_0000,
    ensures
        ({
            let s = front + bytes::be32_bytes(a) + bytes::be32_bytes(b) + bytes::be32_bytes(c)
                + bytes::be32_bytes(d) + bytes::be32_bytes(e);
            let n = front.len() as int;
            &&& s.len() == n + 20
            &&& bytes::be32(s, n) == a
            &&& bytes::be32(s, n + 4) == b
            &&& bytes::be32(s, n + 8) == c
            &&& bytes::be32(s, n + 12) == d
            &&& bytes::be32(s, n + 16) == e
        }),
{
    let s = front + bytes::be32_bytes(a) + bytes::be32_bytes(b) + bytes::be32_bytes(c)
        + bytes::be32_bytes(d) + bytes::be32_bytes(e);
    let n = front.len() as int;
    assert(s.subrange(n, n + 4) =~= bytes::be32_bytes(a));
    assert(s.subrange(n + 4, n + 8) =~= bytes::be32_bytes(b));
    assert(s.subrange(n + 8, n + 12) =~= bytes::be32_bytes(c));
    assert(s.subrange(n + 12, n + 16) =~= bytes::be32_bytes(d));
    assert(s.subrange(n + 16, n + 20) =~= bytes::be32_bytes(e));
    bytes::be32_at(s, n, a);
    bytes::be32_at(s, n + 4, b);
    bytes::be32_at(s, n + 8, c);
    bytes::be32_at(s, n + 12, d);
    bytes::be32_at(s, n + 16, e);
}

/// What is read in front is read the same with more behind it.
proof fn behind_the_rest(front: Seq<u8>, whole: Seq<u8>)
    requires
        front.len() <= whole.len(),
        forall|i: int| 0 <= i < front.len() ==> #[trigger] whole[i] == front[i],
    ensures
        forall|at: int|
            0 <= at && at + 4 <= front.len() ==> #[trigger] bytes::be32(whole, at) == bytes::be32(
                front,
                at,
            ),
{
}

/// A node begins with its token and its name, which a zero ends; a property is
/// its token, how long its value is, where its name is, and its value. Zeroes
/// fill up to the next four bytes, and what was written before stays.
pub proof fn what_is_written_into_a_tree(tree: TreeView, name: Seq<u8>, value: Seq<u8>)
    requires
        tree.valid(),
        value.len() < 0x8000_0000,
        tree.strings.len() < 0x8000_0000,
        0 <= tree.interned(name).1 < 0x1_0000_0000,
    ensures
        ({
            let n = tree.structure.len() as int;
            let begun = tree.node_begun(name).structure;
            &&& begun.subrange(0, n) == tree.structure
            &&& bytes::be32(begun, n) == 1
            &&& begun.subrange(n + 4, n + 4 + name.len()) == name
            &&& begun[n + 4 + name.len()] == 0
            &&& n + 5 + name.len() <= begun.len() < n + 9 + name.len()
            &&& forall|i: int| n + 4 + name.len() <= i < begun.len() ==> #[trigger] begun[i] == 0
        }),
        ({
            let n = tree.structure.len() as int;
            let (named, at) = tree.interned(name);
            let after = tree.with_property(name, value).structure;
            &&& tree.with_property(name, value).strings == named.strings
            &&& after.subrange(0, n) == tree.structure
            &&& bytes::be32(after, n) == 3
            &&& bytes::be32(after, n + 4) == value.len()
            &&& bytes::be32(after, n + 8) == at
            &&& after.subrange(n + 12, n + 12 + value.len()) == value
            &&& n + 12 + value.len() <= after.len() < n + 16 + value.len()
            &&& forall|i: int| n + 12 + value.len() <= i < after.len() ==> #[trigger] after[i] == 0
        }),
{
    let n = tree.structure.len() as int;
    let begun = tree.node_begun(name).structure;
    assert(begun.subrange(0, n) =~= tree.structure);
    assert(begun.subrange(n, n + 4) =~= bytes::be32_bytes(1));
    assert(begun.subrange(n + 4, n + 4 + name.len()) =~= name);
    bytes::be32_at(begun, n, 1);
    let (named, at) = tree.interned(name);
    let after = tree.with_property(name, value).structure;
    assert(after.subrange(0, n) =~= tree.structure);
    assert(after.subrange(n, n + 4) =~= bytes::be32_bytes(3));
    assert(after.subrange(n + 4, n + 8) =~= bytes::be32_bytes(value.len() as int));
    assert(after.subrange(n + 8, n + 12) =~= bytes::be32_bytes(at));
    assert(after.subrange(n + 12, n + 12 + value.len()) =~= value);
    bytes::be32_at(after, n, 3);
    bytes::be32_at(after, n + 4, value.len() as int);
    bytes::be32_at(after, n + 8, at);
}

/// Cells are written four bytes each, one after another.
pub proof fn cells_are_written_in_order(cells: Seq<u32>, k: int)
    requires
        0 <= k < cells.len(),
    ensures
        device_tree::cells_bytes(cells).len() == 4 * cells.len(),
        bytes::be32(device_tree::cells_bytes(cells), 4 * k) == cells[k],
    decreases cells.len(),
{
    let all = device_tree::cells_bytes(cells);
    let before = device_tree::cells_bytes(cells.drop_last());
    let n = cells.len() as int;
    if n > 1 {
        cells_are_written_in_order(
            cells.drop_last(),
            if k < n - 1 {
                k
            } else {
                0
            },
        );
    }
    assert(before.len() == 4 * (n - 1));
    if k < n - 1 {
        assert(all[4 * k] == before[4 * k] && all[4 * k + 1] == before[4 * k + 1] && all[4 * k + 2]
            == before[4 * k + 2] && all[4 * k + 3] == before[4 * k + 3]);
        assert(cells.drop_last()[k] == cells[k]);
    } else {
        assert(all.subrange(4 * k, 4 * k + 4) =~= bytes::be32_bytes(cells[k] as int));
        bytes::be32_at(all, 4 * k, cells[k] as int);
    }
}

} // verus!
