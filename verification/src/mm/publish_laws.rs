//! What putting a mapping in promises of every address.

use crate::mm::change;
use crate::mm::tables::{self, MapError};
use crate::mm::tree;
use crate::mm::walk::{self, Machine, MachineView, Refused, Tlb, DEPTH, ENTRIES};
use vstd::prelude::*;

verus! {

/// The walk to an address goes through one descriptor of the table at `at`.
spec fn is_through(virt: u64, at: Seq<int>, index: int) -> bool {
    tree::path_of(virt).take(at.len() as int) == at && walk::index_at(virt, 3 - at.len()) == index
}

/// An address leads where the table its walk has come to leads it.
proof fn leading_on<M: Machine>(m: MachineView, root: u64, virt: u64, n: int)
    requires
        0 <= n <= 3,
        tree::reached::<M>(m, root, 3, tree::path_of(virt).take(n)) is Some,
    ensures
        change::translation::<M>(m, root, virt, 3) == change::translation::<M>(
            m,
            tree::reached::<M>(m, root, 3, tree::path_of(virt).take(n))->0,
            virt,
            (3 - n) as nat,
        ),
        change::missing::<M>(m, root, virt, 3) == change::missing::<M>(
            m,
            tree::reached::<M>(m, root, 3, tree::path_of(virt).take(n))->0,
            virt,
            (3 - n) as nat,
        ),
    decreases n,
{
    tree::path_of_is_path(virt, n);
    if n > 0 {
        tree::one_level_down::<M>(m, root, virt, 4 - n);
        leading_on::<M>(m, root, virt, n - 1);
    }
}

/// A store to one descriptor changes nothing for a walk that does not go
/// through it, or has gone past it.
proof fn leading_elsewhere<M: Machine>(
    m: MachineView,
    root: u64,
    at: Seq<int>,
    index: int,
    bits: u64,
    virt: u64,
    n: int,
)
    requires
        tree::is_tree::<M>(m, root, 3),
        tree::is_path(at, 3),
        tree::reached::<M>(m, root, 3, at) is Some,
        0 <= index < ENTRIES,
        0 <= n <= 3,
        tree::reached::<M>(m, root, 3, tree::path_of(virt).take(n)) is Some,
        n > at.len() || !is_through(virt, at, index),
    ensures
        ({
            let table = tree::reached::<M>(m, root, 3, tree::path_of(virt).take(n))->0;
            let after = m.stored(tree::reached::<M>(m, root, 3, at)->0, index, bits);
            &&& change::translation::<M>(after, table, virt, (3 - n) as nat)
                == change::translation::<M>(m, table, virt, (3 - n) as nat)
            &&& change::missing::<M>(after, table, virt, (3 - n) as nat) == change::missing::<M>(
                m,
                table,
                virt,
                (3 - n) as nat,
            )
        }),
    decreases 3 - n,
{
    let changed = tree::reached::<M>(m, root, 3, at)->0;
    let table = tree::reached::<M>(m, root, 3, tree::path_of(virt).take(n))->0;
    let after = m.stored(changed, index, bits);
    let next = walk::index_at(virt, 3 - n);
    tree::path_of_is_path(virt, n);
    assert(m.has(changed));
    assert(after.word(table, next) == m.word(table, next)) by {
        if table == changed {
            assert(tree::path_of(virt).take(n) == at);
            assert(next != index);
        }
    }
    if n < 3 {
        tree::one_level_down::<M>(m, root, virt, 3 - n);
        if tree::step::<M>(m, table, next, 3 - n) is Some {
            leading_elsewhere::<M>(m, root, at, index, bits, virt, n + 1);
        }
    }
}

/// A descriptor on the way down that leads to the same table as before, or to
/// a blank one where it led nowhere, leads every address where it led.
proof fn leading_as_before<M: Machine>(
    m: MachineView,
    root: u64,
    at: Seq<int>,
    index: int,
    bits: u64,
    virt: u64,
)
    requires
        tree::is_tree::<M>(m, root, 3),
        tree::is_path(at, 3),
        at.len() < 3,
        tree::reached::<M>(m, root, 3, at) is Some,
        0 <= index < ENTRIES,
        M::is_present(bits),
        !M::stops(bits, 3 - at.len()),
        ({
            let table = tree::reached::<M>(m, root, 3, at)->0;
            let was = m.word(table, index);
            if M::is_present(was) {
                !M::stops(was, 3 - at.len()) && M::named(was) == M::named(bits)
            } else {
                M::named(bits) != table && m.words[M::named(bits)] == walk::blank()
            }
        }),
    ensures
        change::translation::<M>(
            m.stored(tree::reached::<M>(m, root, 3, at)->0, index, bits),
            root,
            virt,
            3,
        ) == change::translation::<M>(m, root, virt, 3),
{
    let table = tree::reached::<M>(m, root, 3, at)->0;
    let after = m.stored(table, index, bits);
    let n = at.len() as int;
    M::format_holds();
    tree::path_of_is_path(virt, 0);
    if !is_through(virt, at, index) {
        leading_elsewhere::<M>(m, root, at, index, bits, virt, 0);
    } else {
        tree::path_of_is_path(virt, n);
        tree::stored_elsewhere::<M>(m, root, 3, at, index, bits, at);
        leading_on::<M>(m, root, virt, n);
        leading_on::<M>(after, root, virt, n);
        assert(m.has(table));
        assert(after.word(table, index) == bits);
        if M::is_present(m.word(table, index)) {
            tree::one_level_down::<M>(m, root, virt, 3 - n);
            leading_elsewhere::<M>(m, root, at, index, bits, virt, n + 1);
            assert(change::translation::<M>(after, table, virt, (3 - n) as nat)
                == change::translation::<M>(after, M::named(bits), virt, (2 - n) as nat));
        } else {
            let fresh = M::named(bits);
            assert(after.words[fresh] == walk::blank());
            assert(after.word(fresh, walk::index_at(virt, 2 - n)) == 0);
            assert(change::translation::<M>(after, fresh, virt, (2 - n) as nat) is None);
        }
    }
}

/// Making the way to one address leads no address anywhere else, and takes a
/// frame for every table that was missing.
pub(crate) proof fn making_leads_as_before<M: Machine>(
    m: MachineView,
    root: u64,
    virt: u64,
    stock: Seq<u64>,
    now: MachineView,
    left: Seq<u64>,
    table: u64,
    n: int,
    under: u64,
    other: u64,
)
    requires
        change::is_part_way::<M>(m, root, virt, stock, now, left, table, n),
        0 <= n <= 3,
        change::refusal::<M>(now, table, virt, (3 - n) as nat, left.len()) is None,
    ensures
        ({
            let (open, rest, end) = change::way_made::<M>(
                now,
                table,
                virt,
                (3 - n) as nat,
                under,
                left,
            );
            &&& change::translation::<M>(open, root, other, 3) == change::translation::<M>(
                now,
                root,
                other,
                3,
            )
            &&& rest.len() == left.len() - change::missing::<M>(
                now,
                table,
                virt,
                (3 - n) as nat,
            )
        }),
    decreases 3 - n,
{
    if n < 3 {
        let index = walk::index_at(virt, 3 - n);
        let at = tree::path_of(virt).take(n);
        let bits = now.word(table, index);
        M::format_holds();
        tree::path_of_is_path(virt, n);
        assert(now.has(table));
        if !M::is_present(bits) {
            let fresh = left.last();
            let naming = M::table_bits(fresh, under);
            let after = now.stored(table, index, naming);
            assert(tree::is_spare::<M>(now, root, left[left.len() - 1]));
            assert(fresh != table);
            leading_as_before::<M>(now, root, at, index, naming, other);
            change::one_level_created::<M>(m, root, virt, stock, now, left, table, n, under);
            assert(after.words[fresh] == walk::blank());
            tree::path_of_is_path(virt, n + 1);
            making_leads_as_before::<M>(
                m,
                root,
                virt,
                stock,
                after,
                left.drop_last(),
                fresh,
                n + 1,
                under,
                other,
            );
        } else {
            let after = change::opened_up::<M>(now, table, index, under);
            let naming = match M::widened(bits, under) {
                Some(wider) => wider,
                None => bits,
            };
            tree::one_level_down::<M>(now, root, virt, 3 - n);
            if M::widened(bits, under) is Some {
                leading_as_before::<M>(now, root, at, index, naming, other);
                leading_elsewhere::<M>(now, root, at, index, naming, virt, n + 1);
            }
            change::one_level_found::<M>(m, root, virt, stock, now, left, table, n, under);
            change::same_refusal::<M>(
                now,
                after,
                root,
                virt,
                M::named(bits),
                table,
                n,
                n + 1,
                left.len(),
            );
            making_leads_as_before::<M>(
                m,
                root,
                virt,
                stock,
                after,
                left,
                M::named(bits),
                n + 1,
                under,
                other,
            );
        }
    }
}

/// A mapping put in leads every address of its page to the frame, at the same
/// place in it, with the flags it was put in with. Every address outside the
/// page leads where it led, whether to a page, under a block or nowhere, and
/// what the machine has cached for the address is on record to be thrown away.
pub proof fn a_mapping_leads_its_page_to_its_frame<M: Machine>(
    m: MachineView,
    root: u64,
    virt: u64,
    phys: u64,
    flags: u64,
    stock: Seq<u64>,
    tlb: Tlb,
    other: u64,
)
    requires
        tree::is_tree::<M>(m, root, 3),
        tree::are_spare::<M>(m, root, stock),
        change::refusal::<M>(m, root, virt, 3, stock.len()) is None,
        M::nameable(phys),
    ensures
        ({
            let after = change::published::<M>(m, root, virt, phys, flags, stock).0;
            &&& change::translation::<M>(after, root, other, 3) == (if tree::page_of(other)
                == tree::page_of(virt) {
                Some(phys | (other & 0xFFF))
            } else {
                change::translation::<M>(m, root, other, 3)
            })
            &&& tree::page_of(other) == tree::page_of(virt) ==> tree::leaf_at::<M>(
                after,
                root,
                other,
            ) == Some(M::leaf_bits(phys, flags))
        }),
        !(tlb.noted(virt) is Clean),
        tlb.noted(virt).covers(virt),
{
    let (open, left, table) = change::way_made::<M>(m, root, virt, 3, flags, stock);
    let index = walk::index_at(virt, 0);
    let bits = M::leaf_bits(phys, flags);
    let after = open.stored(table, index, bits);
    M::format_holds();
    assert(other & 0xFFF == other % 0x1000) by (bit_vector);
    change::nothing_made::<M>(m, root, virt, stock);
    change::the_way_is_made::<M>(m, root, virt, flags, stock);
    making_leads_as_before::<M>(m, root, virt, stock, m, stock, root, 0, flags, other);
    change::written_at_the_end::<M>(m, root, virt, stock, open, left, table, bits);
    tree::path_of_is_path(virt, 3);
    tree::path_of_is_path(other, 3);
    tree::path_of_is_path(other, 0);
    tree::indices_make_the_page(other, virt);
    let at = tree::path_of(virt);
    if tree::page_of(other) == tree::page_of(virt) {
        tree::stored_elsewhere::<M>(open, root, 3, at, index, bits, at);
        leading_on::<M>(after, root, other, 3);
        assert(open.has(table));
        assert(after.word(table, index) == bits);
    } else {
        leading_elsewhere::<M>(open, root, at, index, bits, other, 0);
    }
}

/// What stands in the way of a mapping at an address that leads nowhere is only
/// ever too few frames for the tables that are missing.
proof fn only_tables_are_missing<M: Machine>(
    m: MachineView,
    table: u64,
    virt: u64,
    level: nat,
    available: nat,
)
    requires
        change::translation::<M>(m, table, virt, level) is None,
    ensures
        change::missing::<M>(m, table, virt, level) <= level,
        change::refusal::<M>(m, table, virt, level, available) == (if available
            < change::missing::<M>(m, table, virt, level) {
            Some(Refused::ShortOfTables)
        } else {
            None
        }),
    decreases level,
{
    let bits = m.word(table, walk::index_at(virt, level as int));
    if level > 0 && M::is_present(bits) {
        only_tables_are_missing::<M>(m, M::named(bits), virt, (level - 1) as nat, available);
    }
}

/// The count of missing tables is exactly what a mapping needs: at an address
/// that nothing is mapped at and no block covers, a mapping goes in with that
/// many frames and not with fewer, takes that many, and leaves none missing.
/// There are never more than the levels below the top.
pub proof fn as_many_tables_as_are_missing<M: Machine>(
    m: MachineView,
    root: u64,
    virt: u64,
    phys: u64,
    flags: u64,
    stock: Seq<u64>,
)
    requires
        tree::is_tree::<M>(m, root, 3),
        tree::are_spare::<M>(m, root, stock),
        change::translation::<M>(m, root, virt, 3) is None,
    ensures
        ({
            let needed = change::missing::<M>(m, root, virt, 3);
            let refused = change::refusal::<M>(m, root, virt, 3, stock.len());
            let (after, left) = change::published::<M>(m, root, virt, phys, flags, stock);
            &&& needed <= DEPTH
            &&& stock.len() < needed ==> refused == Some(Refused::ShortOfTables)
            &&& stock.len() >= needed ==> {
                &&& refused is None
                &&& left == stock.take(stock.len() - needed)
                &&& change::missing::<M>(after, root, virt, 3) == 0
            }
        }),
{
    only_tables_are_missing::<M>(m, root, virt, 3, stock.len());
    if stock.len() >= change::missing::<M>(m, root, virt, 3) {
        let (open, left, table) = change::way_made::<M>(m, root, virt, 3, flags, stock);
        let bits = M::leaf_bits(phys, flags);
        change::nothing_made::<M>(m, root, virt, stock);
        change::the_way_is_made::<M>(m, root, virt, flags, stock);
        making_leads_as_before::<M>(m, root, virt, stock, m, stock, root, 0, flags, virt);
        change::written_at_the_end::<M>(m, root, virt, stock, open, left, table, bits);
        tree::path_of_is_path(virt, 3);
        let after = open.stored(table, walk::index_at(virt, 0), bits);
        leading_on::<M>(after, root, virt, 3);
    }
}

/// A hierarchy nothing of which was touched leads every address where it led.
proof fn leading_undisturbed<M: Machine>(
    m: MachineView,
    after: MachineView,
    root: u64,
    virt: u64,
    n: int,
)
    requires
        tables::is_space::<M>(m, root),
        tables::keeps_held(m, after),
        0 <= n <= 3,
        tree::reached::<M>(m, root, 3, tree::path_of(virt).take(n)) is Some,
    ensures
        ({
            let table = tree::reached::<M>(m, root, 3, tree::path_of(virt).take(n))->0;
            change::translation::<M>(after, table, virt, (3 - n) as nat) == change::translation::<
                M,
            >(m, table, virt, (3 - n) as nat)
        }),
    decreases 3 - n,
{
    let table = tree::reached::<M>(m, root, 3, tree::path_of(virt).take(n))->0;
    tree::path_of_is_path(virt, n);
    assert(m.count(table) > 0);
    assert(after.words[table] == m.words[table]);
    if n < 3 {
        tree::one_level_down::<M>(m, root, virt, 3 - n);
        if tree::step::<M>(m, table, walk::index_at(virt, 3 - n), 3 - n) is Some {
            leading_undisturbed::<M>(m, after, root, virt, n + 1);
        }
    }
}

/// A page of the kernel is mapped once. Asked for again, the address is said to
/// be taken, unless there was no frame to be had for the asking, and nothing
/// has changed hands: the address leads to the first page with the first flags,
/// every address leads where it led, and every count is what it was.
pub proof fn a_kernel_page_is_mapped_once<M: Machine>(
    m: MachineView,
    once: MachineView,
    twice: MachineView,
    root: u64,
    virt: u64,
    flags: u64,
    phys: u64,
    again: u64,
    second: Result<u64, MapError>,
    other: u64,
)
    requires
        tables::is_answered_new::<M>(m, once, root, virt, flags, Ok(phys)),
        tables::is_space::<M>(once, root),
        tables::is_answered_new::<M>(once, twice, root, virt, again, second),
    ensures
        second is Err,
        second->Err_0 is AlreadyMapped || walk::ran_out(once, twice),
        tree::leaf_at::<M>(twice, root, virt) == Some(M::leaf_bits(phys, flags)),
        tree::page_of(other) == tree::page_of(virt) ==> change::translation::<M>(
            twice,
            root,
            other,
            3,
        ) == Some(phys | (other & 0xFFF)),
        change::translation::<M>(twice, root, other, 3) == change::translation::<M>(
            once,
            root,
            other,
            3,
        ),
        forall|frame: u64| #[trigger] twice.count(frame) == once.count(frame),
        tables::is_space::<M>(twice, root),
{
    M::format_holds();
    tree::path_of_is_path(virt, 0);
    tree::path_of_is_path(other, 0);
    tree::path_of_is_path(other, 3);
    tables::leaf_means_occupied::<M>(once, root, virt, root, 0, DEPTH as nat);
    tables::a_space_is_not_disturbed::<M>(once, twice, root);
    leading_undisturbed::<M>(once, twice, root, other, 0);
    tree::indices_make_the_page(other, virt);
    assert(other & 0xFFF == other % 0x1000) by (bit_vector);
    if tree::page_of(other) == tree::page_of(virt) {
        leading_on::<M>(once, root, other, 3);
    }
}

} // verus!
