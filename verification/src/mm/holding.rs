//! What a hierarchy of translation tables holds, counted frame by frame.

use crate::mm::change;
use crate::mm::record::COW;
use crate::mm::space::{self, Turn, RETIRED_MAX, UNMAP_CHUNK};
use crate::mm::space_ops;
use crate::mm::sweep;
use crate::mm::tables;
use crate::mm::teardown;
use crate::mm::tree;
use crate::mm::walk::{self, Event, Machine, MachineView, Tlb, ENTRIES};
use crate::mm::{PAGE_SIZE_U64, USER_LIMIT};
use vstd::prelude::*;

verus! {

/// How many times a frame is in a list.
pub open spec fn times(frames: Seq<u64>, frame: u64) -> nat
    decreases frames.len(),
{
    if frames.len() == 0 {
        0
    } else {
        times(frames.drop_last(), frame) + if frames.last() == frame {
            1nat
        } else {
            0
        }
    }
}

/// How many references to a frame a space's own half has: one for every page
/// that is the frame, and one more where the frame is a table.
pub open spec fn held<M: Machine>(m: MachineView, root: u64, frame: u64) -> nat {
    times(teardown::held_by_tops::<M>(m, m.words[root], 256), frame)
}

proof fn times_of_one_more(frames: Seq<u64>, last: u64, frame: u64)
    ensures
        times(frames.push(last), frame) == times(frames, frame) + (if last == frame {
            1int
        } else {
            0
        }),
{
    assert(frames.push(last).drop_last() =~= frames);
}

proof fn times_of_both(first: Seq<u64>, second: Seq<u64>, frame: u64)
    ensures
        times(first + second, frame) == times(first, frame) + times(second, frame),
    decreases second.len(),
{
    if second.len() == 0 {
        assert(first + second =~= first);
    } else {
        times_of_both(first, second.drop_last(), frame);
        assert((first + second).drop_last() =~= first + second.drop_last());
        assert((first + second).last() == second.last());
    }
}

/// A frame that is nowhere in a list is in it no times.
pub proof fn not_once(frames: Seq<u64>, frame: u64)
    requires
        !frames.contains(frame),
    ensures
        times(frames, frame) == 0,
    decreases frames.len(),
{
    if frames.len() > 0 {
        assert(frames[frames.len() - 1] == frames.last());
        assert forall|i: int| 0 <= i < frames.len() - 1 implies frames.drop_last()[i] != frame by {
            assert(frames[i] == frames.drop_last()[i]);
        }
        not_once(frames.drop_last(), frame);
    }
}

/// Giving back as many references as were taken leaves no more than there
/// were.
pub proof fn giving_back_all(m: MachineView, frames: Seq<u64>, frame: u64, before: int)
    requires
        0 <= before,
        m.count(frame) <= before + times(frames, frame),
    ensures
        teardown::all_released(m, frames).count(frame) <= before,
    decreases frames.len(),
{
    if frames.len() > 0 {
        let last: int = if frames.last() == frame {
            1
        } else {
            0
        };
        giving_back_all(m, frames.drop_last(), frame, before + last);
    }
}

/// A count as high as the number of references given back goes down by as many.
pub proof fn giving_back_as_many(m: MachineView, frames: Seq<u64>, frame: u64)
    requires
        m.count(frame) >= times(frames, frame),
    ensures
        teardown::all_released(m, frames).count(frame) == m.count(frame) - times(frames, frame),
    decreases frames.len(),
{
    if frames.len() > 0 {
        giving_back_as_many(m, frames.drop_last(), frame);
    }
}

// ---- one descriptor of a table ---------------------------------------------------

/// What one descriptor of a table holds.
spec fn held_by_entry<M: Machine>(m: MachineView, table: u64, height: nat, index: int) -> Seq<u64> {
    let bits = m.word(table, index);
    if !M::is_present(bits) {
        Seq::empty()
    } else if height <= 1 || M::stops(bits, height - 1) {
        seq![M::named(bits)]
    } else {
        teardown::held_by_table::<M>(m, M::named(bits), (height - 1) as nat)
    }
}

/// Where one descriptor alone holds something else, so does the table, by as
/// much.
proof fn one_entry_differs<M: Machine>(
    m: MachineView,
    n: MachineView,
    table: u64,
    height: nat,
    count: nat,
    index: int,
    frame: u64,
)
    requires
        1 <= height,
        0 <= index,
        forall|i: int|
            0 <= i < count && i != index ==> #[trigger] held_by_entry::<M>(n, table, height, i)
                == held_by_entry::<M>(m, table, height, i),
    ensures
        index >= count ==> times(
            teardown::held_by_entries::<M>(n, table, height, count),
            frame,
        ) == times(teardown::held_by_entries::<M>(m, table, height, count), frame),
        index < count ==> times(teardown::held_by_entries::<M>(n, table, height, count), frame)
            + times(held_by_entry::<M>(m, table, height, index), frame) == times(
            teardown::held_by_entries::<M>(m, table, height, count),
            frame,
        ) + times(held_by_entry::<M>(n, table, height, index), frame),
    decreases count,
{
    if count > 0 {
        one_entry_differs::<M>(m, n, table, height, (count - 1) as nat, index, frame);
        one_entry_more::<M>(m, table, height, count, frame);
        one_entry_more::<M>(n, table, height, count, frame);
        if count - 1 != index {
            assert(held_by_entry::<M>(n, table, height, count - 1) == held_by_entry::<M>(
                m,
                table,
                height,
                count - 1,
            ));
        }
    }
}

proof fn one_entry_more<M: Machine>(
    m: MachineView,
    table: u64,
    height: nat,
    count: nat,
    frame: u64,
)
    requires
        1 <= height,
        count > 0,
    ensures
        times(teardown::held_by_entries::<M>(m, table, height, count), frame) == times(
            teardown::held_by_entries::<M>(m, table, height, (count - 1) as nat),
            frame,
        ) + times(held_by_entry::<M>(m, table, height, count - 1), frame),
{
    let before = teardown::held_by_entries::<M>(m, table, height, (count - 1) as nat);
    let entry = held_by_entry::<M>(m, table, height, count - 1);
    times_of_both(before, entry, frame);
    assert(before + entry =~= teardown::held_by_entries::<M>(m, table, height, count));
}

/// What one descriptor of a top table leads to.
spec fn held_by_top<M: Machine>(m: MachineView, bits: u64) -> Seq<u64> {
    if M::is_present(bits) && !M::stops(bits, 3) {
        teardown::held_by_table::<M>(m, M::named(bits), 3)
    } else {
        Seq::empty()
    }
}

proof fn one_top_differs<M: Machine>(
    m: MachineView,
    n: MachineView,
    root: u64,
    count: nat,
    index: int,
    frame: u64,
)
    requires
        0 <= index,
        forall|i: int|
            0 <= i < count && i != index ==> #[trigger] held_by_top::<M>(n, n.word(root, i))
                == held_by_top::<M>(m, m.word(root, i)),
    ensures
        index >= count ==> times(
            teardown::held_by_tops::<M>(n, n.words[root], count),
            frame,
        ) == times(teardown::held_by_tops::<M>(m, m.words[root], count), frame),
        index < count ==> times(teardown::held_by_tops::<M>(n, n.words[root], count), frame)
            + times(held_by_top::<M>(m, m.word(root, index)), frame) == times(
            teardown::held_by_tops::<M>(m, m.words[root], count),
            frame,
        ) + times(held_by_top::<M>(n, n.word(root, index)), frame),
    decreases count,
{
    if count > 0 {
        one_top_differs::<M>(m, n, root, (count - 1) as nat, index, frame);
        one_top_more::<M>(m, root, count, frame);
        one_top_more::<M>(n, root, count, frame);
        if count - 1 != index {
            assert(held_by_top::<M>(n, n.word(root, count - 1)) == held_by_top::<M>(
                m,
                m.word(root, count - 1),
            ));
        }
    }
}

proof fn one_top_more<M: Machine>(m: MachineView, root: u64, count: nat, frame: u64)
    requires
        count > 0,
    ensures
        times(teardown::held_by_tops::<M>(m, m.words[root], count), frame) == times(
            teardown::held_by_tops::<M>(m, m.words[root], (count - 1) as nat),
            frame,
        ) + times(held_by_top::<M>(m, m.word(root, count - 1)), frame),
{
    let before = teardown::held_by_tops::<M>(m, m.words[root], (count - 1) as nat);
    let top = held_by_top::<M>(m, m.word(root, count - 1));
    times_of_both(before, top, frame);
    assert(before + top =~= teardown::held_by_tops::<M>(m, m.words[root], count));
}

// ---- trees that are looked at apart ------------------------------------------------

/// Two memories with the same words in every table of a tree.
spec fn same_tables<M: Machine>(m: MachineView, n: MachineView, table: u64, top: int) -> bool {
    forall|p: Seq<int>|
        tree::is_path(p, top) ==> (#[trigger] tree::reached::<M>(m, table, top, p) matches Some(t)
            ==> n.words[t] == m.words[t])
}

proof fn a_tree_is_local<M: Machine>(m: MachineView, n: MachineView, table: u64, top: int)
    requires
        tree::is_tree::<M>(m, table, top),
        same_tables::<M>(m, n, table, top),
        forall|frame: u64| #[trigger] n.has(frame) == m.has(frame),
    ensures
        tree::is_tree::<M>(n, table, top),
        forall|p: Seq<int>|
            tree::is_path(p, top) ==> #[trigger] tree::reached::<M>(n, table, top, p)
                == tree::reached::<M>(m, table, top, p),
{
    assert forall|p: Seq<int>| tree::is_path(p, top) implies #[trigger] tree::reached::<M>(
        n,
        table,
        top,
        p,
    ) == tree::reached::<M>(m, table, top, p) by {
        tree::unchanged_where_looked::<M>(m, n, table, top, p);
    }
    assert forall|p: Seq<int>| tree::is_path(p, top) implies (#[trigger] tree::reached::<M>(
        n,
        table,
        top,
        p,
    ) matches Some(t) ==> n.has(t)) by {
        if tree::reached::<M>(n, table, top, p) is Some {
            assert(m.has(tree::reached::<M>(m, table, top, p)->0));
        }
    }
}

proof fn a_refusal_is_local<M: Machine>(
    m: MachineView,
    n: MachineView,
    table: u64,
    virt: u64,
    level: nat,
    available: nat,
)
    requires
        same_tables::<M>(m, n, table, level as int),
    ensures
        change::refusal::<M>(n, table, virt, level, available) == change::refusal::<M>(
            m,
            table,
            virt,
            level,
            available,
        ),
    decreases level,
{
    let none = Seq::<int>::empty();
    assert(tree::is_path(none, level as int));
    assert(tree::reached::<M>(m, table, level as int, none) == Some(table));
    let index = walk::index_at(virt, level as int);
    if level > 0 && tree::step::<M>(m, table, index, level as int) is Some {
        let next = tree::step::<M>(m, table, index, level as int)->0;
        a_part_of_the_same::<M>(m, n, table, level as int, index, next);
        a_refusal_is_local::<M>(m, n, next, virt, (level - 1) as nat, available);
    }
}

proof fn a_part_of_the_same<M: Machine>(
    m: MachineView,
    n: MachineView,
    table: u64,
    top: int,
    index: int,
    next: u64,
)
    requires
        top >= 1,
        0 <= index < ENTRIES,
        same_tables::<M>(m, n, table, top),
        tree::step::<M>(m, table, index, top) == Some(next),
    ensures
        same_tables::<M>(m, n, next, top - 1),
{
    assert forall|q: Seq<int>| tree::is_path(q, top - 1) implies (#[trigger] tree::reached::<M>(
        m,
        next,
        top - 1,
        q,
    ) matches Some(t) ==> n.words[t] == m.words[t]) by {
        teardown::longer_path(index, q, top);
        teardown::subtree_reached::<M>(m, table, top, index, next, q);
    }
}

/// A blank table leads nowhere.
proof fn blank_leads_nowhere<M: Machine>(m: MachineView, table: u64, top: int, path: Seq<int>)
    requires
        m.words[table] == walk::blank(),
        tree::is_path(path, top),
    ensures
        tree::reached::<M>(m, table, top, path) == (if path.len() == 0 {
            Some(table)
        } else {
            None
        }),
    decreases path.len(),
{
    M::format_holds();
    if path.len() > 0 {
        assert(tree::is_path(path.drop_last(), top));
        blank_leads_nowhere::<M>(m, table, top, path.drop_last());
        assert(m.word(table, path.last()) == 0);
    }
}

/// And holds nothing.
proof fn blank_holds_nothing<M: Machine>(m: MachineView, table: u64, height: nat, count: nat)
    requires
        m.words[table] == walk::blank(),
        count <= ENTRIES,
    ensures
        teardown::held_by_entries::<M>(m, table, height, count) == Seq::<u64>::empty(),
    decreases count,
{
    M::format_holds();
    if count > 0 && height > 0 {
        blank_holds_nothing::<M>(m, table, height, (count - 1) as nat);
        assert(m.word(table, count - 1) == 0);
    }
}

// ---- a page put in -------------------------------------------------------------------

/// Frames a tree has no use of yet, each of them blank.
spec fn stand_apart<M: Machine>(m: MachineView, table: u64, top: int, stock: Seq<u64>) -> bool {
    &&& forall|i: int|
        0 <= i < stock.len() ==> m.has(#[trigger] stock[i]) && m.words[stock[i]] == walk::blank()
            && M::nameable(stock[i]) && teardown::is_outside::<M>(m, table, top, stock[i])
    &&& forall|i: int, j: int|
        0 <= i < j < stock.len() ==> #[trigger] stock[i] != #[trigger] stock[j]
}

/// A page put in under a table: the memory, and the frames not used.
spec fn put_under<M: Machine>(
    m: MachineView,
    table: u64,
    virt: u64,
    level: nat,
    under: u64,
    stock: Seq<u64>,
    bits: u64,
) -> (MachineView, Seq<u64>) {
    let (open, left, last) = change::way_made::<M>(m, table, virt, level, under, stock);
    (open.stored(last, walk::index_at(virt, 0), bits), left)
}

/// Nothing but a tree and the frames in hand is written to.
spec fn rest_untouched<M: Machine>(
    m: MachineView,
    after: MachineView,
    table: u64,
    top: int,
    stock: Seq<u64>,
) -> bool {
    forall|frame: u64|
        teardown::is_outside::<M>(m, table, top, frame) && !stock.contains(frame)
            ==> #[trigger] after.words[frame] == m.words[frame]
}

spec fn one_if(b: bool) -> nat {
    if b {
        1
    } else {
        0
    }
}

/// A page put in under a table adds what it names, and the frames that went
/// into tables, to what the table holds.
#[verifier::spinoff_prover]
proof fn putting_under<M: Machine>(
    m: MachineView,
    table: u64,
    virt: u64,
    level: nat,
    under: u64,
    stock: Seq<u64>,
    bits: u64,
    frame: u64,
)
    requires
        level <= 2,
        tree::is_tree::<M>(m, table, level as int),
        stand_apart::<M>(m, table, level as int, stock),
        change::refusal::<M>(m, table, virt, level, stock.len()) is None,
        M::is_present(bits),
    ensures
        ({
            let (after, left) = put_under::<M>(m, table, virt, level, under, stock, bits);
            &&& rest_untouched::<M>(m, after, table, level as int, stock)
            &&& times(
                teardown::held_by_entries::<M>(after, table, level + 1, ENTRIES as nat),
                frame,
            ) + times(left, frame) == times(
                teardown::held_by_entries::<M>(m, table, level + 1, ENTRIES as nat),
                frame,
            ) + times(stock, frame) + one_if(M::named(bits) == frame)
        }),
    decreases level, 1int,
{
    let (after, left) = put_under::<M>(m, table, virt, level, under, stock, bits);
    let index = walk::index_at(virt, level as int);
    let none = Seq::<int>::empty();
    assert(tree::is_path(none, level as int));
    assert(tree::reached::<M>(m, table, level as int, none) == Some(table));
    assert(m.has(table));
    if level == 0 {
        assert(after.words[table] == m.words[table].update(index, bits));
        assert forall|i: int| 0 <= i < ENTRIES && i != index implies #[trigger] held_by_entry::<M>(
            after,
            table,
            1,
            i,
        ) == held_by_entry::<M>(m, table, 1, i) by {
            assert(after.word(table, i) == m.word(table, i));
        }
        one_entry_differs::<M>(m, after, table, 1, ENTRIES as nat, index, frame);
        assert(after.word(table, index) == bits);
        let added = seq![M::named(bits)];
        assert(added.drop_last() =~= Seq::<u64>::empty());
        assert(held_by_entry::<M>(after, table, 1, index) == added);
        assert(times(added.drop_last(), frame) == 0);
        assert(held_by_entry::<M>(m, table, 1, index) == Seq::<u64>::empty());
    } else {
        putting_further_down::<M>(m, table, virt, level, under, stock, bits, frame);
        let next = M::named(after.word(table, index));
        assert forall|i: int| 0 <= i < ENTRIES && i != index implies #[trigger] held_by_entry::<M>(
            after,
            table,
            level + 1,
            i,
        ) == held_by_entry::<M>(m, table, level + 1, i) by {
            assert(is_same_entry::<M>(m, after, table, level, i));
        }
        one_entry_differs::<M>(m, after, table, level + 1, ENTRIES as nat, index, frame);
        assert(held_by_entry::<M>(after, table, level + 1, index)
            == teardown::held_by_table::<M>(after, next, level));
        assert(times(Seq::<u64>::empty(), frame) == 0);
        assert(held_by_entry::<M>(m, table, level + 1, index) == part_before::<M>(
            m,
            table,
            index,
            level,
        ));
    }
}

/// A descriptor that is what it was, and leads to what it led to.
spec fn is_same_entry<M: Machine>(
    m: MachineView,
    after: MachineView,
    table: u64,
    level: nat,
    index: int,
) -> bool {
    let bits = m.word(table, index);
    &&& after.word(table, index) == bits
    &&& M::is_present(bits) && !M::stops(bits, level as int) ==> {
        &&& same_tables::<M>(m, after, M::named(bits), level - 1)
        &&& teardown::held_by_table::<M>(after, M::named(bits), level)
            == teardown::held_by_table::<M>(m, M::named(bits), level)
    }
}

/// What a descriptor leads to, where it leads anywhere.
spec fn part_before<M: Machine>(m: MachineView, table: u64, index: int, level: nat) -> Seq<u64> {
    let bits = m.word(table, index);
    if M::is_present(bits) {
        teardown::held_by_table::<M>(m, M::named(bits), level)
    } else {
        Seq::empty()
    }
}

/// The level below a table on the way to an address: the memory with the way
/// there made, the table, and the frames left.
spec fn level_below<M: Machine>(
    m: MachineView,
    table: u64,
    virt: u64,
    level: nat,
    under: u64,
    stock: Seq<u64>,
) -> (MachineView, u64, Seq<u64>) {
    let index = walk::index_at(virt, level as int);
    let was = m.word(table, index);
    if !M::is_present(was) {
        (
            m.stored(table, index, M::table_bits(stock.last(), under)),
            stock.last(),
            stock.drop_last(),
        )
    } else {
        (change::opened_up::<M>(m, table, index, under), M::named(was), stock)
    }
}

/// What is on the level below: a blank table out of the frames in hand, or the
/// part of the tree that was there.
#[verifier::spinoff_prover]
#[verifier::rlimit(40)]
proof fn the_level_below<M: Machine>(
    m: MachineView,
    table: u64,
    virt: u64,
    level: nat,
    under: u64,
    stock: Seq<u64>,
)
    requires
        1 <= level <= 3,
        tree::is_tree::<M>(m, table, level as int),
        stand_apart::<M>(m, table, level as int, stock),
        change::refusal::<M>(m, table, virt, level, stock.len()) is None,
    ensures
        ({
            let (m1, next, rest) = level_below::<M>(m, table, virt, level, under, stock);
            let index = walk::index_at(virt, level as int);
            let was = m.word(table, index);
            let way = m1.word(table, index);
            &&& tree::is_tree::<M>(m1, next, level - 1)
            &&& stand_apart::<M>(m1, next, level - 1, rest)
            &&& change::refusal::<M>(m1, next, virt, (level - 1) as nat, rest.len()) is None
            &&& teardown::is_outside::<M>(m1, next, level - 1, table)
            &&& M::is_present(way) && !M::stops(way, level as int) && M::named(way) == next
            &&& M::is_present(was) ==> !M::stops(was, level as int)
            &&& !M::is_present(was) ==> stock.len() > 0
            &&& m.has(table)
            &&& !stock.contains(table)
            &&& forall|i: int|
                0 <= i < ENTRIES && i != index ==> #[trigger] m1.word(table, i) == m.word(table, i)
            &&& forall|f: u64| f != table ==> #[trigger] m1.words[f] == m.words[f]
            &&& !M::is_present(was) ==> forall|p: Seq<int>|
                tree::is_path(p, level - 1) ==> #[trigger] tree::reached::<M>(m1, next, level - 1, p)
                    == (if p.len() == 0 {
                    Some(next)
                } else {
                    None
                })
            &&& M::is_present(was) ==> forall|p: Seq<int>|
                tree::is_path(p, level - 1) ==> #[trigger] tree::reached::<M>(m1, next, level - 1, p)
                    == tree::reached::<M>(m, next, level - 1, p)
        }),
{
    M::format_holds();
    let top = level as int;
    let less = (level - 1) as nat;
    let index = walk::index_at(virt, top);
    let was = m.word(table, index);
    let none = Seq::<int>::empty();
    assert(tree::is_path(none, top));
    assert(tree::reached::<M>(m, table, top, none) == Some(table));
    assert(m.has(table));
    assert forall|i: int| 0 <= i < stock.len() implies #[trigger] stock[i] != table by {
        assert(teardown::is_outside::<M>(m, table, top, stock[i]));
    }
    let fresh = !M::is_present(was);
    let (m1, next, rest) = level_below::<M>(m, table, virt, level, under, stock);
    let way = m1.word(table, index);
    if fresh {
        assert(stock[stock.len() - 1] == next);
    }
    assert(M::is_present(way) && !M::stops(way, top) && M::named(way) == next);
    assert forall|f: u64| #[trigger] m1.has(f) == m.has(f) by {
    }
    assert forall|f: u64| f != table implies #[trigger] m1.words[f] == m.words[f] by {
    }
    // The part below.
    if fresh {
        assert(teardown::is_outside::<M>(m, table, top, next));
        assert forall|p: Seq<int>| tree::is_path(p, top - 1) implies #[trigger] tree::reached::<M>(
            m1,
            next,
            top - 1,
            p,
        ) == (if p.len() == 0 {
            Some(next)
        } else {
            None
        }) by {
            blank_leads_nowhere::<M>(m1, next, top - 1, p);
        }
        assert forall|p: Seq<int>, q: Seq<int>|
            #![trigger tree::reached::<M>(m1, next, top - 1, p), tree::reached::<M>(m1, next, top - 1, q)]
            tree::is_path(p, top - 1) && tree::is_path(q, top - 1) && tree::reached::<M>(
                m1,
                next,
                top - 1,
                p,
            ) is Some && tree::reached::<M>(m1, next, top - 1, p) == tree::reached::<M>(
                m1,
                next,
                top - 1,
                q,
            ) implies p == q by {
            assert(p =~= q);
        }
        assert(m1.word(next, walk::index_at(virt, top - 1)) == 0);
    } else {
        assert(tree::step::<M>(m, table, index, top) == Some(next));
        teardown::subtree_is_tree::<M>(m, table, top, index, next);
        part_is_apart::<M>(m, table, top, index, next);
        a_tree_is_local::<M>(m, m1, next, top - 1);
        a_refusal_is_local::<M>(m, m1, next, virt, less, stock.len());
    }
    assert(stand_apart::<M>(m1, next, top - 1, rest)) by {
        assert forall|i: int| 0 <= i < rest.len() implies m1.has(#[trigger] rest[i])
            && m1.words[rest[i]] == walk::blank() && M::nameable(rest[i])
            && teardown::is_outside::<M>(m1, next, top - 1, rest[i]) by {
            assert(rest[i] == stock[i]);
            assert(teardown::is_outside::<M>(m, table, top, stock[i]));
            if fresh {
                assert(stock[i] != stock[stock.len() - 1]);
            } else {
                outside_the_part::<M>(m, table, top, index, next, stock[i]);
                assert forall|p: Seq<int>| tree::is_path(p, top - 1) implies #[trigger] tree::reached::<
                    M,
                >(m1, next, top - 1, p) != Some(rest[i]) by {
                    assert(tree::reached::<M>(m, next, top - 1, p) != Some(stock[i]));
                }
            }
        }
        assert forall|i: int, j: int| 0 <= i < j < rest.len() implies #[trigger] rest[i]
            != #[trigger] rest[j] by {
            assert(stock[i] != stock[j]);
        }
    }
    assert(!stock.contains(table));
    assert(teardown::is_outside::<M>(m1, next, top - 1, table)) by {
        assert forall|p: Seq<int>| tree::is_path(p, top - 1) implies #[trigger] tree::reached::<M>(
            m1,
            next,
            top - 1,
            p,
        ) != Some(table) by {
            if !fresh {
                assert(tree::reached::<M>(m1, next, top - 1, p) == tree::reached::<M>(
                    m,
                    next,
                    top - 1,
                    p,
                ));
                teardown::longer_path(index, p, top);
                teardown::subtree_reached::<M>(m, table, top, index, next, p);
                if tree::reached::<M>(m, next, top - 1, p) == Some(table) {
                    assert((seq![index] + p) == none);
                    assert((seq![index] + p).len() > 0);
                }
            }
        }
    }
}

/// One level of the way down to a page put in.
#[verifier::spinoff_prover]
#[verifier::rlimit(60)]
proof fn putting_further_down<M: Machine>(
    m: MachineView,
    table: u64,
    virt: u64,
    level: nat,
    under: u64,
    stock: Seq<u64>,
    bits: u64,
    frame: u64,
)
    requires
        1 <= level <= 3,
        tree::is_tree::<M>(m, table, level as int),
        stand_apart::<M>(m, table, level as int, stock),
        change::refusal::<M>(m, table, virt, level, stock.len()) is None,
        M::is_present(bits),
    ensures
        ({
            let (after, left) = put_under::<M>(m, table, virt, level, under, stock, bits);
            let index = walk::index_at(virt, level as int);
            let way = after.word(table, index);
            &&& rest_untouched::<M>(m, after, table, level as int, stock)
            &&& M::is_present(way) && !M::stops(way, level as int)
            &&& M::is_present(m.word(table, index)) ==> !M::stops(
                m.word(table, index),
                level as int,
            )
            &&& forall|i: int|
                0 <= i < ENTRIES && i != index ==> #[trigger] is_same_entry::<M>(
                    m,
                    after,
                    table,
                    level,
                    i,
                )
            &&& times(teardown::held_by_table::<M>(after, M::named(way), level), frame) + times(
                left,
                frame,
            ) == times(part_before::<M>(m, table, index, level), frame) + times(stock, frame)
                + one_if(M::named(bits) == frame)
        }),
    decreases level, 0int,
{
    M::format_holds();
    let top = level as int;
    let less = (level - 1) as nat;
    let (after, left) = put_under::<M>(m, table, virt, level, under, stock, bits);
    let index = walk::index_at(virt, top);
    let none = Seq::<int>::empty();
    assert(tree::is_path(none, top));
    assert(tree::reached::<M>(m, table, top, none) == Some(table));
    let fresh = !M::is_present(m.word(table, index));
    let (m1, next, rest) = level_below::<M>(m, table, virt, level, under, stock);
    the_level_below::<M>(m, table, virt, level, under, stock);
    assert((after, left) == put_under::<M>(m1, next, virt, less, under, rest, bits));
    if fresh {
        assert(stock[stock.len() - 1] == next);
        assert(teardown::is_outside::<M>(m, table, top, next));
    } else {
        assert(tree::step::<M>(m, table, index, top) == Some(next));
        part_is_apart::<M>(m, table, top, index, next);
    }
    putting_under::<M>(m1, next, virt, less, under, rest, bits, frame);
    // What is left alone.
    assert forall|f: u64|
        teardown::is_outside::<M>(m1, next, top - 1, f) && !stock.contains(
            f,
        ) implies #[trigger] after.words[f] == m1.words[f] by {
        assert(!rest.contains(f)) by {
            if rest.contains(f) {
                let i = choose|i: int| 0 <= i < rest.len() && rest[i] == f;
                assert(stock[i] == f);
            }
        }
    }
    assert(after.words[table] == m1.words[table]);
    assert forall|f: u64|
        teardown::is_outside::<M>(m, table, top, f) && !stock.contains(
            f,
        ) implies #[trigger] after.words[f] == m.words[f] by {
        assert(tree::reached::<M>(m, table, top, none) != Some(f));
        assert(teardown::is_outside::<M>(m1, next, top - 1, f)) by {
            if fresh {
                assert(stock.contains(next)) by {
                    assert(stock[stock.len() - 1] == next);
                }
            } else {
                outside_the_part::<M>(m, table, top, index, next, f);
                assert forall|p: Seq<int>| tree::is_path(p, top - 1) implies #[trigger] tree::reached::<
                    M,
                >(m1, next, top - 1, p) != Some(f) by {
                    assert(tree::reached::<M>(m, next, top - 1, p) != Some(f));
                }
            }
        }
        assert(m1.words[f] == m.words[f]);
    }
    // The other descriptors.
    assert forall|i: int| 0 <= i < ENTRIES && i != index implies #[trigger] is_same_entry::<M>(
        m,
        after,
        table,
        level,
        i,
    ) by {
        let other = m.word(table, i);
        assert(after.word(table, i) == other);
        if M::is_present(other) && !M::stops(other, top) {
            let d = M::named(other);
            assert(tree::step::<M>(m, table, i, top) == Some(d));
            assert forall|q: Seq<int>| tree::is_path(q, top - 1) implies (#[trigger] tree::reached::<
                M,
            >(m, d, top - 1, q) matches Some(t) ==> after.words[t] == m.words[t]) by {
                if tree::reached::<M>(m, d, top - 1, q) is Some {
                    let t = tree::reached::<M>(m, d, top - 1, q)->0;
                    let way_there = seq![i] + q;
                    teardown::longer_path(i, q, top);
                    teardown::subtree_reached::<M>(m, table, top, i, d, q);
                    assert(tree::reached::<M>(m, table, top, way_there) == Some(t));
                    assert(way_there[0] == i);
                    assert(t != table) by {
                        if t == table {
                            assert(way_there == none);
                        }
                    }
                    assert(!stock.contains(t)) by {
                        if stock.contains(t) {
                            let k = choose|k: int| 0 <= k < stock.len() && stock[k] == t;
                            assert(teardown::is_outside::<M>(m, table, top, stock[k]));
                        }
                    }
                    assert(teardown::is_outside::<M>(m1, next, top - 1, t)) by {
                        assert forall|p: Seq<int>|
                            tree::is_path(p, top - 1) implies #[trigger] tree::reached::<M>(
                            m1,
                            next,
                            top - 1,
                            p,
                        ) != Some(t) by {
                            if fresh {
                                assert(stock[stock.len() - 1] == next);
                            } else {
                                assert(tree::reached::<M>(m1, next, top - 1, p)
                                    == tree::reached::<M>(m, next, top - 1, p));
                                let way_here = seq![index] + p;
                                teardown::longer_path(index, p, top);
                                teardown::subtree_reached::<M>(m, table, top, index, next, p);
                                assert(way_here[0] == index);
                                if tree::reached::<M>(m, next, top - 1, p) == Some(t) {
                                    assert(way_here == way_there);
                                }
                            }
                        }
                    }
                }
            }
            teardown::holding_is_local::<M>(m, after, d, level, ENTRIES as nat);
        }
    }
    // What the part holds.
    let inside = teardown::held_by_entries::<M>(after, next, level, ENTRIES as nat);
    times_of_one_more(inside, next, frame);
    assert(teardown::held_by_table::<M>(after, next, level) == inside.push(next));
    if fresh {
        blank_holds_nothing::<M>(m1, next, level, ENTRIES as nat);
        times_of_one_more(rest, next, frame);
        assert(rest.push(next) =~= stock);
    } else {
        teardown::holding_is_local::<M>(m, m1, next, level, ENTRIES as nat);
        let before = teardown::held_by_entries::<M>(m, next, level, ENTRIES as nat);
        times_of_one_more(before, next, frame);
        assert(teardown::held_by_table::<M>(m, next, level) == before.push(next));
    }
}

/// A store, if it is one, to a table of a tree or to one of the frames in hand.
spec fn stores_inside<M: Machine>(
    event: Event,
    m: MachineView,
    table: u64,
    top: int,
    stock: Seq<u64>,
) -> bool {
    event matches Event::Store { table: written, .. } ==> !teardown::is_outside::<M>(
        m,
        table,
        top,
        written,
    ) || stock.contains(written)
}

/// Putting a page in under a table stores to nothing but the tables under it
/// and the frames in hand.
#[verifier::spinoff_prover]
proof fn what_is_stored<M: Machine>(
    m: MachineView,
    table: u64,
    virt: u64,
    level: nat,
    under: u64,
    stock: Seq<u64>,
    bits: u64,
)
    requires
        level <= 3,
        tree::is_tree::<M>(m, table, level as int),
        stand_apart::<M>(m, table, level as int, stock),
        change::refusal::<M>(m, table, virt, level, stock.len()) is None,
    ensures
        ({
            let after = put_under::<M>(m, table, virt, level, under, stock, bits).0;
            &&& teardown::goes_on_from(after.journal, m.journal)
            &&& forall|k: int|
                m.journal.len() <= k < after.journal.len() ==> #[trigger] stores_inside::<M>(
                    after.journal[k],
                    m,
                    table,
                    level as int,
                    stock,
                )
        }),
    decreases level,
{
    let top = level as int;
    let after = put_under::<M>(m, table, virt, level, under, stock, bits).0;
    let none = Seq::<int>::empty();
    assert(tree::is_path(none, top));
    assert(tree::reached::<M>(m, table, top, none) == Some(table));
    assert(!teardown::is_outside::<M>(m, table, top, table));
    if level == 0 {
        assert(after.journal.take(m.journal.len() as int) =~= m.journal);
    } else {
        let (m1, next, rest) = level_below::<M>(m, table, virt, level, under, stock);
        let index = walk::index_at(virt, top);
        let fresh = !M::is_present(m.word(table, index));
        the_level_below::<M>(m, table, virt, level, under, stock);
        what_is_stored::<M>(m1, next, virt, (level - 1) as nat, under, rest, bits);
        assert(m1.journal.take(m.journal.len() as int) =~= m.journal);
        assert(after.journal.take(m1.journal.len() as int) == m1.journal);
        assert(after.journal.take(m.journal.len() as int) =~= after.journal.take(
            m1.journal.len() as int,
        ).take(m.journal.len() as int));
        assert forall|k: int|
            m.journal.len() <= k < after.journal.len() implies #[trigger] stores_inside::<M>(
            after.journal[k],
            m,
            table,
            top,
            stock,
        ) by {
            if k < m1.journal.len() {
                assert(after.journal[k] == after.journal.take(m1.journal.len() as int)[k]);
                assert(after.journal[k] == m1.journal[k]);
            } else {
                assert(stores_inside::<M>(after.journal[k], m1, next, top - 1, rest));
                if after.journal[k] is Store {
                    let written = after.journal[k]->table;
                    if rest.contains(written) {
                        let i = choose|i: int| 0 <= i < rest.len() && rest[i] == written;
                        assert(stock[i] == written);
                    } else {
                        let p = choose|p: Seq<int>|
                            tree::is_path(p, top - 1) && #[trigger] tree::reached::<M>(
                                m1,
                                next,
                                top - 1,
                                p,
                            ) == Some(written);
                        if fresh {
                            assert(stock[stock.len() - 1] == written);
                        } else {
                            assert(tree::step::<M>(m, table, index, top) == Some(next));
                            teardown::longer_path(index, p, top);
                            teardown::subtree_reached::<M>(m, table, top, index, next, p);
                            assert(tree::reached::<M>(m, table, top, seq![index] + p) == Some(
                                written,
                            ));
                        }
                    }
                }
            }
        }
    }
}

/// A part of a tree does not have the table above it in it.
proof fn part_is_apart<M: Machine>(m: MachineView, table: u64, top: int, index: int, next: u64)
    requires
        tree::is_tree::<M>(m, table, top),
        top >= 1,
        0 <= index < ENTRIES,
        tree::step::<M>(m, table, index, top) == Some(next),
    ensures
        teardown::is_outside::<M>(m, next, top - 1, table),
{
    let none = Seq::<int>::empty();
    assert(tree::is_path(none, top));
    assert(tree::reached::<M>(m, table, top, none) == Some(table));
    assert forall|p: Seq<int>| tree::is_path(p, top - 1) implies #[trigger] tree::reached::<M>(
        m,
        next,
        top - 1,
        p,
    ) != Some(table) by {
        teardown::longer_path(index, p, top);
        teardown::subtree_reached::<M>(m, table, top, index, next, p);
        if tree::reached::<M>(m, next, top - 1, p) == Some(table) {
            assert((seq![index] + p) == none);
            assert((seq![index] + p).len() > 0);
        }
    }
}

/// What is outside a tree is outside each part of it.
proof fn outside_the_part<M: Machine>(
    m: MachineView,
    table: u64,
    top: int,
    index: int,
    next: u64,
    frame: u64,
)
    requires
        top >= 1,
        0 <= index < ENTRIES,
        tree::step::<M>(m, table, index, top) == Some(next),
        teardown::is_outside::<M>(m, table, top, frame),
    ensures
        teardown::is_outside::<M>(m, next, top - 1, frame),
{
    assert forall|p: Seq<int>| tree::is_path(p, top - 1) implies #[trigger] tree::reached::<M>(
        m,
        next,
        top - 1,
        p,
    ) != Some(frame) by {
        teardown::longer_path(index, p, top);
        teardown::subtree_reached::<M>(m, table, top, index, next, p);
    }
}

// ---- a space ------------------------------------------------------------------------

/// A page put in below the kernel's half is held from then on, and so is every
/// frame that became a table on the way to it, once each and nothing besides.
pub proof fn a_page_put_in_is_held<M: Machine>(
    m: MachineView,
    root: u64,
    virt: u64,
    phys: u64,
    flags: u64,
    stock: Seq<u64>,
    frame: u64,
)
    requires
        tree::is_tree::<M>(m, root, 3),
        tree::are_spare::<M>(m, root, stock),
        change::refusal::<M>(m, root, virt, 3, stock.len()) is None,
        walk::index_at(virt, 3) < 256,
        M::nameable(phys),
    ensures
        ({
            let (after, left) = change::published::<M>(m, root, virt, phys, flags, stock);
            held::<M>(after, root, frame) + times(left, frame) == held::<M>(m, root, frame) + times(
                stock,
                frame,
            ) + (if phys == frame {
                1int
            } else {
                0
            })
        }),
{
    M::format_holds();
    let bits = M::leaf_bits(phys, flags);
    let (after, left) = change::published::<M>(m, root, virt, phys, flags, stock);
    let index = walk::index_at(virt, 3);
    spare_stands_apart::<M>(m, root, stock);
    assert((after, left) == put_under::<M>(m, root, virt, 3, flags, stock, bits));
    putting_further_down::<M>(m, root, virt, 3, flags, stock, bits, frame);
    assert forall|i: int| 0 <= i < 256 && i != index implies #[trigger] held_by_top::<M>(
        after,
        after.word(root, i),
    ) == held_by_top::<M>(m, m.word(root, i)) by {
        assert(is_same_entry::<M>(m, after, root, 3, i));
    }
    one_top_differs::<M>(m, after, root, 256, index, frame);
}

/// A page put in writes to the space's own tables and to the frames in hand,
/// and nowhere else.
pub proof fn a_page_put_in_touches_only_its_space<M: Machine>(
    m: MachineView,
    root: u64,
    virt: u64,
    phys: u64,
    flags: u64,
    stock: Seq<u64>,
    frame: u64,
)
    requires
        tree::is_tree::<M>(m, root, 3),
        tree::are_spare::<M>(m, root, stock),
        change::refusal::<M>(m, root, virt, 3, stock.len()) is None,
        M::nameable(phys),
        teardown::is_outside::<M>(m, root, 3, frame),
        !stock.contains(frame),
    ensures
        change::published::<M>(m, root, virt, phys, flags, stock).0.words[frame] == m.words[frame],
{
    M::format_holds();
    let bits = M::leaf_bits(phys, flags);
    spare_stands_apart::<M>(m, root, stock);
    putting_further_down::<M>(m, root, virt, 3, flags, stock, bits, frame);
    assert(change::published::<M>(m, root, virt, phys, flags, stock) == put_under::<M>(
        m,
        root,
        virt,
        3,
        flags,
        stock,
        bits,
    ));
}

/// Putting a page in stores to nothing but the space's tables and the frames in
/// hand.
pub proof fn a_page_put_in_stores_in_its_space<M: Machine>(
    m: MachineView,
    root: u64,
    virt: u64,
    phys: u64,
    flags: u64,
    stock: Seq<u64>,
)
    requires
        tree::is_tree::<M>(m, root, 3),
        tree::are_spare::<M>(m, root, stock),
        change::refusal::<M>(m, root, virt, 3, stock.len()) is None,
    ensures
        ({
            let after = change::published::<M>(m, root, virt, phys, flags, stock).0;
            &&& teardown::goes_on_from(after.journal, m.journal)
            &&& forall|k: int|
                m.journal.len() <= k < after.journal.len() ==> (
                #[trigger] after.journal[k] matches Event::Store { table, .. }
                    ==> !teardown::is_outside::<M>(m, root, 3, table) || stock.contains(table))
        }),
{
    let after = change::published::<M>(m, root, virt, phys, flags, stock).0;
    let bits = M::leaf_bits(phys, flags);
    spare_stands_apart::<M>(m, root, stock);
    what_is_stored::<M>(m, root, virt, 3, flags, stock, bits);
    assert(after == put_under::<M>(m, root, virt, 3, flags, stock, bits).0);
    assert forall|k: int| m.journal.len() <= k < after.journal.len() implies (
    #[trigger] after.journal[k] matches Event::Store { table, .. } ==> !teardown::is_outside::<M>(
        m,
        root,
        3,
        table,
    ) || stock.contains(table)) by {
        assert(stores_inside::<M>(after.journal[k], m, root, 3, stock));
    }
}

proof fn spare_stands_apart<M: Machine>(m: MachineView, root: u64, stock: Seq<u64>)
    requires
        tree::are_spare::<M>(m, root, stock),
    ensures
        stand_apart::<M>(m, root, 3, stock),
{
    assert forall|i: int| 0 <= i < stock.len() implies m.has(#[trigger] stock[i])
        && m.words[stock[i]] == walk::blank() && M::nameable(stock[i])
        && teardown::is_outside::<M>(m, root, 3, stock[i]) by {
        assert(tree::is_spare::<M>(m, root, stock[i]));
    }
}

/// What a space's own half holds depends on nothing outside it.
pub proof fn holding_stays<M: Machine>(m: MachineView, after: MachineView, root: u64, frame: u64)
    requires
        forall|p: Seq<int>|
            sweep::is_own(p) ==> (#[trigger] tree::reached::<M>(m, root, 3, p) matches Some(t)
                ==> after.words[t] == m.words[t]),
    ensures
        held::<M>(after, root, frame) == held::<M>(m, root, frame),
{
    let none = Seq::<int>::empty();
    assert(sweep::is_own(none));
    assert(tree::reached::<M>(m, root, 3, none) == Some(root));
    assert forall|i: int| 0 <= i < 256 implies #[trigger] held_by_top::<M>(
        after,
        after.word(root, i),
    ) == held_by_top::<M>(m, m.word(root, i)) by {
        let bits = m.word(root, i);
        if M::is_present(bits) && !M::stops(bits, 3) {
            let next = M::named(bits);
            assert(tree::step::<M>(m, root, i, 3) == Some(next));
            assert forall|q: Seq<int>| tree::is_path(q, 2) implies (#[trigger] tree::reached::<M>(
                m,
                next,
                2,
                q,
            ) matches Some(t) ==> after.words[t] == m.words[t]) by {
                teardown::longer_path(i, q, 3);
                teardown::subtree_reached::<M>(m, root, 3, i, next, q);
                assert((seq![i] + q)[0] == i);
                assert(sweep::is_own(seq![i] + q));
            }
            teardown::holding_is_local::<M>(m, after, next, 3, ENTRIES as nat);
        }
    }
    one_top_differs::<M>(m, after, root, 256, 256, frame);
}

/// A space with nothing in its own half holds nothing.
pub proof fn nothing_is_held<M: Machine>(m: MachineView, root: u64, count: nat, frame: u64)
    requires
        count <= 256,
        forall|i: int| 0 <= i < 256 ==> !M::is_present(#[trigger] m.word(root, i)),
    ensures
        times(teardown::held_by_tops::<M>(m, m.words[root], count), frame) == 0,
    decreases count,
{
    if count > 0 {
        nothing_is_held::<M>(m, root, (count - 1) as nat, frame);
        assert(!M::is_present(m.word(root, count - 1)));
    }
}

// ---- a descriptor written over ----------------------------------------------------------

/// The other descriptors of a table hold what they held when something in the
/// tree below one of them is written.
proof fn other_entries_stay<M: Machine>(
    m: MachineView,
    after: MachineView,
    table: u64,
    top: int,
    at: Seq<int>,
    written: u64,
    entry: int,
)
    requires
        top >= 1,
        tree::is_tree::<M>(m, table, top),
        tree::is_path(at, top),
        tree::reached::<M>(m, table, top, at) == Some(written),
        forall|frame: u64| frame != written ==> #[trigger] after.words[frame] == m.words[frame],
        0 <= entry < ENTRIES,
        at.len() > 0 ==> entry != at[0],
        M::is_present(m.word(table, entry)),
        !M::stops(m.word(table, entry), top),
    ensures
        teardown::held_by_table::<M>(after, M::named(m.word(table, entry)), top as nat)
            == teardown::held_by_table::<M>(m, M::named(m.word(table, entry)), top as nat),
{
    let next = M::named(m.word(table, entry));
    assert(tree::step::<M>(m, table, entry, top) == Some(next));
    assert forall|q: Seq<int>| tree::is_path(q, top - 1) implies (#[trigger] tree::reached::<M>(
        m,
        next,
        top - 1,
        q,
    ) matches Some(t) ==> after.words[t] == m.words[t]) by {
        if tree::reached::<M>(m, next, top - 1, q) is Some {
            let t = tree::reached::<M>(m, next, top - 1, q)->0;
            let way = seq![entry] + q;
            teardown::longer_path(entry, q, top);
            teardown::subtree_reached::<M>(m, table, top, entry, next, q);
            assert(way[0] == entry);
            if t == written {
                assert(way == at);
            }
        }
    }
    teardown::holding_is_local::<M>(m, after, next, top as nat, ENTRIES as nat);
}

/// A path that goes on below a table, seen from the table it goes on to.
proof fn rest_of_the_way<M: Machine>(
    m: MachineView,
    table: u64,
    top: int,
    at: Seq<int>,
    next: u64,
)
    requires
        top >= 1,
        tree::is_path(at, top),
        at.len() > 0,
        tree::reached::<M>(m, table, top, at) is Some,
        tree::step::<M>(m, table, at[0], top) == Some(next),
    ensures
        tree::is_path(at.skip(1), top - 1),
        tree::reached::<M>(m, next, top - 1, at.skip(1)) == tree::reached::<M>(m, table, top, at),
{
    let rest = at.skip(1);
    assert forall|i: int| 0 <= i < rest.len() implies 0 <= #[trigger] rest[i] < ENTRIES by {
        assert(rest[i] == at[i + 1]);
    }
    assert(seq![at[0]] + rest =~= at);
    teardown::subtree_reached::<M>(m, table, top, at[0], next, rest);
}

/// A path that leads somewhere takes a first step.
proof fn first_step<M: Machine>(m: MachineView, table: u64, top: int, at: Seq<int>)
    requires
        tree::is_path(at, top),
        at.len() > 0,
        tree::reached::<M>(m, table, top, at) is Some,
    ensures
        tree::step::<M>(m, table, at[0], top) is Some,
    decreases at.len(),
{
    let before = at.drop_last();
    assert(tree::is_path(before, top));
    if before.len() == 0 {
        assert(tree::reached::<M>(m, table, top, before) == Some(table));
        assert(at.last() == at[0]);
    } else {
        first_step::<M>(m, table, top, before);
        assert(before[0] == at[0]);
    }
}

/// A descriptor written over, somewhere below a table: what the table holds
/// changes by what the descriptor did.
#[verifier::spinoff_prover]
proof fn writing_under<M: Machine>(
    m: MachineView,
    table: u64,
    top: nat,
    at: Seq<int>,
    written: u64,
    index: int,
    bits: u64,
    frame: u64,
)
    requires
        tree::is_tree::<M>(m, table, top as int),
        tree::is_path(at, top as int),
        tree::reached::<M>(m, table, top as int, at) == Some(written),
        0 <= index < ENTRIES,
        at.len() < top ==> !M::is_present(bits),
    ensures
        ({
            let after = m.stored(written, index, bits);
            let height = (top + 1 - at.len()) as nat;
            times(
                teardown::held_by_entries::<M>(after, table, top + 1, ENTRIES as nat),
                frame,
            ) + times(held_by_entry::<M>(m, written, height, index), frame) == times(
                teardown::held_by_entries::<M>(m, table, top + 1, ENTRIES as nat),
                frame,
            ) + times(held_by_entry::<M>(after, written, height, index), frame)
        }),
    decreases at.len(),
{
    let after = m.stored(written, index, bits);
    assert(m.has(written));
    let none = Seq::<int>::empty();
    assert(tree::is_path(none, top as int));
    assert(tree::reached::<M>(m, table, top as int, none) == Some(table));
    if at.len() == 0 {
        assert(at =~= none);
        assert forall|i: int| 0 <= i < ENTRIES && i != index implies #[trigger] held_by_entry::<M>(
            after,
            table,
            top + 1,
            i,
        ) == held_by_entry::<M>(m, table, top + 1, i) by {
            assert(after.word(table, i) == m.word(table, i));
            if top >= 1 && M::is_present(m.word(table, i)) && !M::stops(
                m.word(table, i),
                top as int,
            ) {
                other_entries_stay::<M>(m, after, table, top as int, at, written, i);
            }
        }
        one_entry_differs::<M>(m, after, table, top + 1, ENTRIES as nat, index, frame);
    } else {
        let first = at[0];
        first_step::<M>(m, table, top as int, at);
        let next = tree::step::<M>(m, table, first, top as int)->0;
        rest_of_the_way::<M>(m, table, top as int, at, next);
        teardown::subtree_is_tree::<M>(m, table, top as int, first, next);
        writing_under::<M>(m, next, (top - 1) as nat, at.skip(1), written, index, bits, frame);
        assert(table != written) by {
            if table == written {
                assert(at == none);
            }
        }
        assert forall|i: int| 0 <= i < ENTRIES && i != first implies #[trigger] held_by_entry::<M>(
            after,
            table,
            top + 1,
            i,
        ) == held_by_entry::<M>(m, table, top + 1, i) by {
            assert(after.word(table, i) == m.word(table, i));
            if M::is_present(m.word(table, i)) && !M::stops(m.word(table, i), top as int) {
                other_entries_stay::<M>(m, after, table, top as int, at, written, i);
            }
        }
        one_entry_differs::<M>(m, after, table, top + 1, ENTRIES as nat, first, frame);
        assert(after.word(table, first) == m.word(table, first));
        let inside = teardown::held_by_entries::<M>(m, next, top, ENTRIES as nat);
        let inside_after = teardown::held_by_entries::<M>(after, next, top, ENTRIES as nat);
        times_of_one_more(inside, next, frame);
        times_of_one_more(inside_after, next, frame);
        assert(held_by_entry::<M>(m, table, top + 1, first) == inside.push(next));
        assert(held_by_entry::<M>(after, table, top + 1, first) == inside_after.push(next));
    }
}

/// A descriptor written over in the half of a space a program owns: what the
/// space holds changes by what the descriptor did. One that leads to a table
/// is only ever cleared.
#[verifier::spinoff_prover]
proof fn writing_in_a_space<M: Machine>(
    m: MachineView,
    root: u64,
    at: Seq<int>,
    written: u64,
    index: int,
    bits: u64,
    frame: u64,
)
    requires
        tree::is_tree::<M>(m, root, 3),
        sweep::is_own(at.push(index)) || at.len() == 3 && sweep::is_own(at),
        tree::reached::<M>(m, root, 3, at) == Some(written),
        0 <= index < ENTRIES,
        at.len() < 3 ==> !M::is_present(bits) && !M::stops(m.word(written, index), 3 - at.len()),
    ensures
        ({
            let after = m.stored(written, index, bits);
            let height = (4 - at.len()) as nat;
            held::<M>(after, root, frame) + times(
                held_by_entry::<M>(m, written, height, index),
                frame,
            ) == held::<M>(m, root, frame) + times(
                held_by_entry::<M>(after, written, height, index),
                frame,
            )
        }),
{
    let after = m.stored(written, index, bits);
    if at.len() < 3 {
        assert(at =~= at.push(index).drop_last());
        assert forall|i: int| 0 <= i < at.len() implies 0 <= #[trigger] at[i] < ENTRIES by {
            assert(at.push(index)[i] == at[i]);
        }
    }
    assert(tree::is_path(at, 3));
    assert(m.has(written));
    let none = Seq::<int>::empty();
    assert(tree::is_path(none, 3));
    assert(tree::reached::<M>(m, root, 3, none) == Some(root));
    if at.len() == 0 {
        assert(at =~= none);
        assert(at.push(index)[0] == index);
        assert forall|i: int| 0 <= i < 256 && i != index implies #[trigger] held_by_top::<M>(
            after,
            after.word(root, i),
        ) == held_by_top::<M>(m, m.word(root, i)) by {
            assert(after.word(root, i) == m.word(root, i));
            if M::is_present(m.word(root, i)) && !M::stops(m.word(root, i), 3) {
                other_entries_stay::<M>(m, after, root, 3, at, written, i);
            }
        }
        one_top_differs::<M>(m, after, root, 256, index, frame);
        assert(held_by_top::<M>(m, m.word(root, index)) == held_by_entry::<M>(m, root, 4, index));
        assert(held_by_top::<M>(after, after.word(root, index)) == held_by_entry::<M>(
            after,
            root,
            4,
            index,
        ));
    } else {
        let first = at[0];
        if at.len() < 3 {
            assert(at.push(index)[0] == first);
        }
        first_step::<M>(m, root, 3, at);
        let next = tree::step::<M>(m, root, first, 3)->0;
        rest_of_the_way::<M>(m, root, 3, at, next);
        teardown::subtree_is_tree::<M>(m, root, 3, first, next);
        writing_under::<M>(m, next, 2, at.skip(1), written, index, bits, frame);
        assert(root != written) by {
            if root == written {
                assert(at == none);
            }
        }
        assert forall|i: int| 0 <= i < 256 && i != first implies #[trigger] held_by_top::<M>(
            after,
            after.word(root, i),
        ) == held_by_top::<M>(m, m.word(root, i)) by {
            assert(after.word(root, i) == m.word(root, i));
            if M::is_present(m.word(root, i)) && !M::stops(m.word(root, i), 3) {
                other_entries_stay::<M>(m, after, root, 3, at, written, i);
            }
        }
        one_top_differs::<M>(m, after, root, 256, first, frame);
        assert(after.word(root, first) == m.word(root, first));
        let inside = teardown::held_by_entries::<M>(m, next, 3, ENTRIES as nat);
        let inside_after = teardown::held_by_entries::<M>(after, next, 3, ENTRIES as nat);
        times_of_one_more(inside, next, frame);
        times_of_one_more(inside_after, next, frame);
        assert(held_by_top::<M>(m, m.word(root, first)) == inside.push(next));
        assert(held_by_top::<M>(after, after.word(root, first)) == inside_after.push(next));
    }
}

/// A table with nothing present in it holds nothing.
proof fn bare_holds_nothing<M: Machine>(m: MachineView, table: u64, height: nat, count: nat)
    requires
        change::is_bare::<M>(m, table),
        count <= ENTRIES,
    ensures
        teardown::held_by_entries::<M>(m, table, height, count) == Seq::<u64>::empty(),
    decreases count,
{
    if count > 0 && height > 0 {
        bare_holds_nothing::<M>(m, table, height, (count - 1) as nat);
        assert(!M::is_present(m.word(table, count - 1)));
    }
}

/// The tables handed back are what a space holds no more.
proof fn reclaiming_gives_up<M: Machine>(
    m: MachineView,
    root: u64,
    virt: u64,
    level: int,
    gone: Seq<u64>,
    frame: u64,
)
    requires
        tree::is_tree::<M>(m, root, 3),
        virt < USER_LIMIT,
    ensures
        ({
            let (after, all) = change::reclaimed::<M>(m, root, virt, level, gone);
            held::<M>(after, root, frame) + times(all, frame) == held::<M>(m, root, frame) + times(
                gone,
                frame,
            )
        }),
    decreases 4 - level,
{
    M::format_holds();
    if 1 <= level <= 3 {
        let at = tree::path_of(virt).take(3 - level);
        let index = walk::index_at(virt, level);
        tree::path_of_is_path(virt, 3 - level);
        if tree::reached::<M>(m, root, 3, at) is Some {
            let parent = tree::reached::<M>(m, root, 3, at)->0;
            let next = tree::step::<M>(m, parent, index, level);
            if next is Some && change::is_bare::<M>(m, next->0) && m.count(next->0) == 1 {
                let table = next->0;
                let after = m.stored(parent, index, 0);
                change::one_table_handed_back::<M>(m, root, virt, level, parent, table);
                sweep::own_addresses_take_own_ways(virt, 4 - level);
                assert(at.push(index) =~= tree::path_of(virt).take(4 - level));
                writing_in_a_space::<M>(m, root, at, parent, index, 0, frame);
                bare_holds_nothing::<M>(m, table, level as nat, ENTRIES as nat);
                let none = Seq::<u64>::empty();
                times_of_one_more(none, table, frame);
                assert(held_by_entry::<M>(m, parent, (level + 1) as nat, index) == none.push(
                    table,
                ));
                assert(m.has(parent));
                assert(after.word(parent, index) == 0);
                assert(held_by_entry::<M>(after, parent, (level + 1) as nat, index) == none);
                times_of_one_more(gone, table, frame);
                reclaiming_gives_up::<M>(after, root, virt, level + 1, gone.push(table), frame);
            }
        }
    }
}

/// A page taken away, and every table that leaves with it, is held once less,
/// and nothing besides is.
pub proof fn a_page_taken_away_is_held_no_more<M: Machine>(
    m: MachineView,
    root: u64,
    virt: u64,
    frame: u64,
)
    requires
        tree::is_tree::<M>(m, root, 3),
        tree::leaf_at::<M>(m, root, virt) is Some,
        virt < USER_LIMIT,
    ensures
        ({
            let (after, gone) = change::unmapped::<M>(m, root, virt);
            let page = M::named(tree::leaf_at::<M>(m, root, virt)->0);
            held::<M>(after, root, frame) + times(gone, frame) + (if page == frame {
                1int
            } else {
                0
            }) == held::<M>(m, root, frame)
        }),
{
    M::format_holds();
    let bits = tree::leaf_at::<M>(m, root, virt)->0;
    let table = tree::leaf_table::<M>(m, root, virt)->0;
    let index = walk::index_at(virt, 0);
    let cleared = change::rewritten::<M>(m, root, virt, 0);
    tree::path_of_is_path(virt, 3);
    sweep::own_addresses_take_own_ways(virt, 3);
    assert(m.has(table));
    writing_in_a_space::<M>(m, root, tree::path_of(virt), table, index, 0, frame);
    let none = Seq::<u64>::empty();
    times_of_one_more(none, M::named(bits), frame);
    assert(held_by_entry::<M>(m, table, 1, index) =~= none.push(M::named(bits)));
    assert(cleared.word(table, index) == 0);
    assert(held_by_entry::<M>(cleared, table, 1, index) == none);
    change::rewriting::<M>(m, root, virt, 0);
    reclaiming_gives_up::<M>(cleared, root, virt, 1, none, frame);
}

// ---- ranges taken away ------------------------------------------------------------------

proof fn times_backwards(frames: Seq<u64>, frame: u64)
    ensures
        times(frames.reverse(), frame) == times(frames, frame),
    decreases frames.len(),
{
    if frames.len() == 0 {
        assert(frames.reverse() =~= frames);
    } else {
        let before = frames.drop_last();
        let last = seq![frames.last()];
        times_backwards(before, frame);
        times_of_both(last, before.reverse(), frame);
        assert(frames.reverse() =~= last + before.reverse());
        assert(last.drop_last() =~= Seq::<u64>::empty());
        assert(times(last.drop_last(), frame) == 0);
    }
}

/// How many references to a frame a turn of the lock has still to answer for:
/// what the space holds, and what is held back until the flush.
pub open spec fn owed<M: Machine>(turn: Turn, root: u64, frame: u64) -> nat {
    held::<M>(turn.memory, root, frame) + times(turn.retired, frame)
}

/// Two moments of a turn with as many references to a frame left over, past
/// the ones it has to answer for.
spec fn is_even<M: Machine>(before: Turn, after: Turn, root: u64, frame: u64) -> bool {
    after.memory.count(frame) - owed::<M>(after, root, frame) == before.memory.count(frame) - owed::<
        M,
    >(before, root, frame)
}

proof fn flushing_is_even<M: Machine>(turn: Turn, root: u64, frame: u64)
    requires
        turn.memory.count(frame) >= owed::<M>(turn, root, frame),
    ensures
        is_even::<M>(turn, turn.flushed(), root, frame),
{
    let told = turn.tlb.flushed(turn.memory);
    space::flushing_moves_nothing::<M>(turn, root);
    holding_stays::<M>(turn.memory, turn.flushed().memory, root, frame);
    assert(told.count(frame) == turn.memory.count(frame));
    giving_back_as_many(told, turn.retired, frame);
    assert(times(Seq::<u64>::empty(), frame) == 0);
}

proof fn one_page_is_even<M: Machine>(turn: Turn, root: u64, virt: u64, frame: u64)
    requires
        tree::is_tree::<M>(turn.memory, root, 3),
        virt < USER_LIMIT,
        turn.memory.count(frame) >= owed::<M>(turn, root, frame),
    ensures
        tree::is_tree::<M>(turn.page_unmapped::<M>(root, virt).memory, root, 3),
        is_even::<M>(turn, turn.page_unmapped::<M>(root, virt), root, frame),
{
    let leaf = tree::leaf_at::<M>(turn.memory, root, virt);
    space::one_page_taken_away::<M>(turn, root, virt);
    if leaf is Some {
        let (after, gone) = change::unmapped::<M>(turn.memory, root, virt);
        let mid = Turn { memory: after, tlb: change::left_behind(turn.tlb, virt, gone), ..turn };
        let page = seq![M::named(leaf->0)];
        let freed = turn.freed::<M>(root, virt, leaf->0);
        change::unmapping::<M>(turn.memory, root, virt);
        a_page_taken_away_is_held_no_more::<M>(turn.memory, root, virt, frame);
        times_backwards(gone, frame);
        times_of_both(page, gone.reverse(), frame);
        assert(page.drop_last() =~= Seq::<u64>::empty());
        assert(times(page.drop_last(), frame) == 0);
        let ready = if mid.retired.len() + freed.len() > RETIRED_MAX {
            mid.flushed()
        } else {
            mid
        };
        if mid.retired.len() + freed.len() > RETIRED_MAX {
            flushing_is_even::<M>(mid, root, frame);
        }
        times_of_both(ready.retired, freed, frame);
        assert(turn.page_unmapped::<M>(root, virt) == (Turn {
            retired: ready.retired + freed,
            ..ready
        }));
    }
}

proof fn pages_are_even<M: Machine>(turn: Turn, root: u64, start: u64, count: nat, frame: u64)
    requires
        tree::is_tree::<M>(turn.memory, root, 3),
        count > 0 ==> start + (count - 1) * 0x1000 < USER_LIMIT,
        turn.memory.count(frame) >= owed::<M>(turn, root, frame),
    ensures
        tree::is_tree::<M>(turn.pages_unmapped::<M>(root, start, count).memory, root, 3),
        is_even::<M>(turn, turn.pages_unmapped::<M>(root, start, count), root, frame),
    decreases count,
{
    if count > 0 {
        let less = (count - 1) as nat;
        pages_are_even::<M>(turn, root, start, less, frame);
        one_page_is_even::<M>(
            turn.pages_unmapped::<M>(root, start, less),
            root,
            (start + less * 0x1000) as u64,
            frame,
        );
    }
}

/// Taking a range away gives back exactly what the space held through it: a
/// frame that had a reference for each that the space has still does, and the
/// ones left over are as many as they were.
pub proof fn taking_a_range_away_gives_back_what_it_held<M: Machine>(
    m: MachineView,
    root: u64,
    start: u64,
    end: u64,
    frame: u64,
)
    requires
        tree::is_tree::<M>(m, root, 3),
        end <= USER_LIMIT,
        m.count(frame) >= held::<M>(m, root, frame),
    ensures
        ({
            let after = space_ops::range_taken_away::<M>(m, root, start, end);
            after.count(frame) - held::<M>(after, root, frame) == m.count(frame) - held::<M>(
                m,
                root,
                frame,
            )
        }),
    decreases end - start,
{
    if start < end {
        let stop = if end - start < UNMAP_CHUNK * PAGE_SIZE_U64 {
            end
        } else {
            (start + UNMAP_CHUNK * PAGE_SIZE_U64) as u64
        };
        let first = Turn { memory: m, tlb: Tlb::Clean, retired: Seq::empty() };
        let count = space::pages_in(start as int, stop as int);
        let last = first.pages_unmapped::<M>(root, start, count);
        assert(times(Seq::<u64>::empty(), frame) == 0);
        pages_are_even::<M>(first, root, start, count, frame);
        flushing_is_even::<M>(last, root, frame);
        space::flushing_moves_nothing::<M>(last, root);
        let mid = space_ops::one_turn::<M>(m, root, start, stop);
        assert(mid == last.flushed().memory);
        taking_a_range_away_gives_back_what_it_held::<M>(mid, root, stop, end, frame);
    }
}

// ---- pages replaced ---------------------------------------------------------------------

/// A page written over by another is held once less, and the other once more.
pub proof fn a_page_written_over<M: Machine>(
    m: MachineView,
    root: u64,
    virt: u64,
    bits: u64,
    frame: u64,
)
    requires
        tree::is_tree::<M>(m, root, 3),
        tree::leaf_at::<M>(m, root, virt) is Some,
        virt < USER_LIMIT,
        M::is_present(bits),
    ensures
        held::<M>(change::rewritten::<M>(m, root, virt, bits), root, frame) + (if M::named(
            tree::leaf_at::<M>(m, root, virt)->0,
        ) == frame {
            1int
        } else {
            0
        }) == held::<M>(m, root, frame) + (if M::named(bits) == frame {
            1int
        } else {
            0
        }),
{
    let was = tree::leaf_at::<M>(m, root, virt)->0;
    let table = tree::leaf_table::<M>(m, root, virt)->0;
    let index = walk::index_at(virt, 0);
    let after = change::rewritten::<M>(m, root, virt, bits);
    tree::path_of_is_path(virt, 3);
    sweep::own_addresses_take_own_ways(virt, 3);
    assert(m.has(table));
    writing_in_a_space::<M>(m, root, tree::path_of(virt), table, index, bits, frame);
    let none = Seq::<u64>::empty();
    times_of_one_more(none, M::named(was), frame);
    times_of_one_more(none, M::named(bits), frame);
    assert(held_by_entry::<M>(m, table, 1, index) =~= none.push(M::named(was)));
    assert(after.word(table, index) == bits);
    assert(held_by_entry::<M>(after, table, 1, index) =~= none.push(M::named(bits)));
}

/// A frame that no table of a space is can be written without the space
/// holding anything else.
pub(crate) proof fn written_out_of_sight<M: Machine>(
    m: MachineView,
    after: MachineView,
    root: u64,
    written: u64,
    frame: u64,
)
    requires
        forall|p: Seq<int>|
            tree::is_path(p, 3) ==> #[trigger] tree::reached::<M>(m, root, 3, p) != Some(written),
        forall|other: u64| other != written ==> #[trigger] after.words[other] == m.words[other],
    ensures
        held::<M>(after, root, frame) == held::<M>(m, root, frame),
{
    assert forall|p: Seq<int>| sweep::is_own(p) implies (#[trigger] tree::reached::<M>(
        m,
        root,
        3,
        p,
    ) matches Some(t) ==> after.words[t] == m.words[t]) by {
        assert(tree::reached::<M>(m, root, 3, p) != Some(written));
    }
    holding_stays::<M>(m, after, root, frame);
}

/// Giving a space a page of its own moves a reference and loses none: whether
/// the page is taken back, copied or left alone, every frame has as many
/// references past the ones the space holds as it had.
pub proof fn a_private_page_moves_a_reference<M: Machine>(
    m: MachineView,
    root: u64,
    page: u64,
    spare: Option<u64>,
    frame: u64,
)
    requires
        tables::is_space::<M>(m, root),
        space_ops::may_be_had::<M>(m, spare),
        page < USER_LIMIT,
    ensures
        ({
            let after = space_ops::broken::<M>(m, root, page, spare).0;
            after.count(frame) - held::<M>(after, root, frame) == m.count(frame) - held::<M>(
                m,
                root,
                frame,
            )
        }),
{
    M::format_holds();
    let ready = match spare {
        None => m.noting(Event::NoFrame),
        Some(copy) => m.handed_over(copy),
    };
    let (done, _, used) = space_ops::made_private::<M>(ready, root, page, spare);
    let leaf = tree::leaf_at::<M>(m, root, page);
    if spare is Some {
        let copy = spare->0;
        assert forall|p: Seq<int>| tree::is_path(p, 3) implies #[trigger] tree::reached::<M>(
            m,
            root,
            3,
            p,
        ) != Some(copy) by {
        }
        written_out_of_sight::<M>(m, ready, root, copy, frame);
        tables::nothing_taken_yet::<M>(m);
        tables::one_more_taken::<M>(m, m, Seq::empty(), copy);
        tables::taking_keeps_held::<M>(m, ready, Seq::<u64>::empty().push(copy));
    } else {
        tables::had_no_frame(m, m);
        holding_stays::<M>(m, ready, root, frame);
    }
    tables::a_space_is_not_disturbed::<M>(m, ready, root);
    assert(tree::leaf_at::<M>(ready, root, page) == leaf);
    assert(held::<M>(ready, root, frame) == held::<M>(m, root, frame));
    if leaf is Some {
        let flags = M::flags_in(leaf->0);
        let phys = M::named(leaf->0);
        let own = space_ops::private_flags(flags);
        if used {
            let copy = spare->0;
            let filled = space_ops::filled_copy(ready, phys, copy, flags);
            assert forall|p: Seq<int>| tree::is_path(p, 3) implies #[trigger] tree::reached::<M>(
                ready,
                root,
                3,
                p,
            ) != Some(copy) by {
                assert(tree::reached::<M>(m, root, 3, p) != Some(copy));
            }
            written_out_of_sight::<M>(ready, filled, root, copy, frame);
            assert forall|p: Seq<int>| tree::is_path(p, 3) implies (#[trigger] tree::reached::<M>(
                ready,
                root,
                3,
                p,
            ) matches Some(t) ==> filled.words[t] == ready.words[t]) by {
                assert(tree::reached::<M>(ready, root, 3, p) != Some(copy));
            }
            sweep::out_of_sight::<M>(ready, filled, root);
            is_still_a_tree::<M>(ready, filled, root, copy);
            assert(tree::leaf_at::<M>(filled, root, page) == leaf);
            let bits = M::leaf_bits(copy, own);
            a_page_written_over::<M>(filled, root, page, bits, frame);
            let put = change::rewritten::<M>(filled, root, page, bits);
            holding_stays::<M>(put, done, root, frame);
        } else if flags & COW != 0 && ready.count(phys) <= 1 {
            let bits = M::leaf_bits(phys, own);
            a_page_written_over::<M>(ready, root, page, bits, frame);
            let put = change::rewritten::<M>(ready, root, page, bits);
            holding_stays::<M>(put, done, root, frame);
        }
    }
    if spare is Some && !used {
        holding_stays::<M>(done, done.released(spare->0), root, frame);
    }
}

/// What is written out of a tree's sight leaves it a tree.
proof fn is_still_a_tree<M: Machine>(m: MachineView, after: MachineView, root: u64, written: u64)
    requires
        tree::is_tree::<M>(m, root, 3),
        forall|p: Seq<int>|
            tree::is_path(p, 3) ==> #[trigger] tree::reached::<M>(m, root, 3, p) != Some(written),
        forall|other: u64| other != written ==> #[trigger] after.words[other] == m.words[other],
        forall|other: u64|
            other != written ==> #[trigger] after.words.dom().contains(other)
                == m.words.dom().contains(other),
    ensures
        tree::is_tree::<M>(after, root, 3),
{
    assert forall|p: Seq<int>| tree::is_path(p, 3) implies (#[trigger] tree::reached::<M>(
        m,
        root,
        3,
        p,
    ) matches Some(t) ==> after.words[t] == m.words[t]) by {
        assert(tree::reached::<M>(m, root, 3, p) != Some(written));
    }
    sweep::out_of_sight::<M>(m, after, root);
    assert forall|p: Seq<int>| tree::is_path(p, 3) implies (#[trigger] tree::reached::<M>(
        after,
        root,
        3,
        p,
    ) matches Some(t) ==> after.has(t)) by {
        if tree::reached::<M>(after, root, 3, p) is Some {
            let t = tree::reached::<M>(after, root, 3, p)->0;
            assert(tree::reached::<M>(m, root, 3, p) == Some(t));
            assert(m.has(t));
            assert(after.words.dom().contains(t) == m.words.dom().contains(t));
        }
    }
}

// ---- nothing in the way --------------------------------------------------------------------

/// No descriptor above the last level under a table maps what it covers
/// itself.
pub open spec fn is_open_below<M: Machine>(m: MachineView, table: u64, level: nat) -> bool
    decreases level,
{
    level == 0 || forall|i: int|
        0 <= i < ENTRIES && M::is_present(#[trigger] m.word(table, i)) ==> !M::stops(
            m.word(table, i),
            level as int,
        ) && is_open_below::<M>(m, M::named(m.word(table, i)), (level - 1) as nat)
}

/// No descriptor above the last level in a space's own half maps what it
/// covers itself.
pub open spec fn is_open<M: Machine>(m: MachineView, root: u64) -> bool {
    forall|i: int|
        0 <= i < 256 && M::is_present(#[trigger] m.word(root, i)) ==> !M::stops(m.word(root, i), 3)
            && is_open_below::<M>(m, M::named(m.word(root, i)), 2)
}

proof fn openness_is_local<M: Machine>(m: MachineView, n: MachineView, table: u64, level: nat)
    requires
        is_open_below::<M>(m, table, level),
        same_tables::<M>(m, n, table, level as int),
    ensures
        is_open_below::<M>(n, table, level),
    decreases level,
{
    let none = Seq::<int>::empty();
    assert(tree::is_path(none, level as int));
    assert(tree::reached::<M>(m, table, level as int, none) == Some(table));
    if level > 0 {
        assert forall|i: int|
            0 <= i < ENTRIES && M::is_present(#[trigger] n.word(table, i)) implies !M::stops(
            n.word(table, i),
            level as int,
        ) && is_open_below::<M>(n, M::named(n.word(table, i)), (level - 1) as nat) by {
            assert(m.word(table, i) == n.word(table, i));
            let next = M::named(m.word(table, i));
            assert(tree::step::<M>(m, table, i, level as int) == Some(next));
            a_part_of_the_same::<M>(m, n, table, level as int, i, next);
            openness_is_local::<M>(m, n, next, (level - 1) as nat);
        }
    }
}

/// What is written where none of a space's own tables is leaves it open.
pub proof fn openness_stays<M: Machine>(m: MachineView, after: MachineView, root: u64)
    requires
        is_open::<M>(m, root),
        forall|p: Seq<int>|
            sweep::is_own(p) ==> (#[trigger] tree::reached::<M>(m, root, 3, p) matches Some(t)
                ==> after.words[t] == m.words[t]),
    ensures
        is_open::<M>(after, root),
{
    let none = Seq::<int>::empty();
    assert(sweep::is_own(none));
    assert(tree::reached::<M>(m, root, 3, none) == Some(root));
    assert forall|i: int| 0 <= i < 256 && M::is_present(#[trigger] after.word(root, i)) implies !M::stops(
        after.word(root, i),
        3,
    ) && is_open_below::<M>(after, M::named(after.word(root, i)), 2) by {
        assert(m.word(root, i) == after.word(root, i));
        let next = M::named(m.word(root, i));
        assert(tree::step::<M>(m, root, i, 3) == Some(next));
        assert forall|q: Seq<int>| tree::is_path(q, 2) implies (#[trigger] tree::reached::<M>(
            m,
            next,
            2,
            q,
        ) matches Some(t) ==> after.words[t] == m.words[t]) by {
            teardown::longer_path(i, q, 3);
            teardown::subtree_reached::<M>(m, root, 3, i, next, q);
            assert((seq![i] + q)[0] == i);
            assert(sweep::is_own(seq![i] + q));
        }
        openness_is_local::<M>(m, after, next, 2);
    }
}

/// A page put in under a table leaves what is under it open.
#[verifier::spinoff_prover]
proof fn putting_leaves_it_open<M: Machine>(
    m: MachineView,
    table: u64,
    virt: u64,
    level: nat,
    under: u64,
    stock: Seq<u64>,
    bits: u64,
)
    requires
        level <= 2,
        tree::is_tree::<M>(m, table, level as int),
        stand_apart::<M>(m, table, level as int, stock),
        change::refusal::<M>(m, table, virt, level, stock.len()) is None,
        M::is_present(bits),
        is_open_below::<M>(m, table, level),
    ensures
        is_open_below::<M>(
            put_under::<M>(m, table, virt, level, under, stock, bits).0,
            table,
            level,
        ),
    decreases level, 1int,
{
    if level > 0 {
        let after = put_under::<M>(m, table, virt, level, under, stock, bits).0;
        let index = walk::index_at(virt, level as int);
        putting_further_down::<M>(m, table, virt, level, under, stock, bits, 0);
        the_way_stays_open::<M>(m, table, virt, level, under, stock, bits);
        assert forall|i: int|
            0 <= i < ENTRIES && M::is_present(#[trigger] after.word(table, i)) implies !M::stops(
            after.word(table, i),
            level as int,
        ) && is_open_below::<M>(after, M::named(after.word(table, i)), (level - 1) as nat) by {
            if i != index {
                assert(is_same_entry::<M>(m, after, table, level, i));
                assert(M::is_present(m.word(table, i)));
                openness_is_local::<M>(
                    m,
                    after,
                    M::named(m.word(table, i)),
                    (level - 1) as nat,
                );
            }
        }
    }
}

/// So is the way to the page.
proof fn the_way_stays_open<M: Machine>(
    m: MachineView,
    table: u64,
    virt: u64,
    level: nat,
    under: u64,
    stock: Seq<u64>,
    bits: u64,
)
    requires
        1 <= level <= 3,
        tree::is_tree::<M>(m, table, level as int),
        stand_apart::<M>(m, table, level as int, stock),
        change::refusal::<M>(m, table, virt, level, stock.len()) is None,
        M::is_present(bits),
        ({
            let was = m.word(table, walk::index_at(virt, level as int));
            M::is_present(was) ==> is_open_below::<M>(m, M::named(was), (level - 1) as nat)
        }),
    ensures
        ({
            let after = put_under::<M>(m, table, virt, level, under, stock, bits).0;
            is_open_below::<M>(
                after,
                M::named(after.word(table, walk::index_at(virt, level as int))),
                (level - 1) as nat,
            )
        }),
    decreases level, 0int,
{
    M::format_holds();
    let less = (level - 1) as nat;
    let index = walk::index_at(virt, level as int);
    let (m1, next, rest) = level_below::<M>(m, table, virt, level, under, stock);
    the_level_below::<M>(m, table, virt, level, under, stock);
    putting_further_down::<M>(m, table, virt, level, under, stock, bits, 0);
    let after = put_under::<M>(m, table, virt, level, under, stock, bits).0;
    assert(after == put_under::<M>(m1, next, virt, less, under, rest, bits).0);
    if !M::is_present(m.word(table, index)) {
        assert(stock[stock.len() - 1] == next);
        assert(m1.words[next] == walk::blank());
        assert(is_open_below::<M>(m1, next, less)) by {
            assert forall|i: int| 0 <= i < ENTRIES implies !M::is_present(
                #[trigger] m1.word(next, i),
            ) by {
                assert(m1.word(next, i) == 0);
            }
        }
    } else {
        assert(tree::step::<M>(m, table, index, level as int) == Some(next));
        part_is_apart::<M>(m, table, level as int, index, next);
        openness_is_local::<M>(m, m1, next, less);
    }
    putting_leaves_it_open::<M>(m1, next, virt, less, under, rest, bits);
    what_is_written_first::<M>(m, table, virt, level, under, stock, bits);
}

/// The descriptor on the way down is what the first step made of it.
proof fn what_is_written_first<M: Machine>(
    m: MachineView,
    table: u64,
    virt: u64,
    level: nat,
    under: u64,
    stock: Seq<u64>,
    bits: u64,
)
    requires
        1 <= level <= 3,
        tree::is_tree::<M>(m, table, level as int),
        stand_apart::<M>(m, table, level as int, stock),
        change::refusal::<M>(m, table, virt, level, stock.len()) is None,
        M::is_present(bits),
    ensures
        ({
            let after = put_under::<M>(m, table, virt, level, under, stock, bits).0;
            let (m1, next, _) = level_below::<M>(m, table, virt, level, under, stock);
            M::named(after.word(table, walk::index_at(virt, level as int))) == next
        }),
{
    let less = (level - 1) as nat;
    let (m1, next, rest) = level_below::<M>(m, table, virt, level, under, stock);
    the_level_below::<M>(m, table, virt, level, under, stock);
    putting_under::<M>(m1, next, virt, less, under, rest, bits, 0);
    let after = put_under::<M>(m, table, virt, level, under, stock, bits).0;
    assert(after == put_under::<M>(m1, next, virt, less, under, rest, bits).0);
    assert(!rest.contains(table)) by {
        if rest.contains(table) {
            let i = choose|i: int| 0 <= i < rest.len() && rest[i] == table;
            assert(stock[i] == table);
        }
    }
    assert(after.words[table] == m1.words[table]);
}

/// A page put in leaves a space open.
pub proof fn a_page_put_in_leaves_it_open<M: Machine>(
    m: MachineView,
    root: u64,
    virt: u64,
    phys: u64,
    flags: u64,
    stock: Seq<u64>,
)
    requires
        tree::is_tree::<M>(m, root, 3),
        tree::are_spare::<M>(m, root, stock),
        change::refusal::<M>(m, root, virt, 3, stock.len()) is None,
        walk::index_at(virt, 3) < 256,
        M::nameable(phys),
        is_open::<M>(m, root),
    ensures
        is_open::<M>(change::published::<M>(m, root, virt, phys, flags, stock).0, root),
{
    M::format_holds();
    let bits = M::leaf_bits(phys, flags);
    let index = walk::index_at(virt, 3);
    let after = change::published::<M>(m, root, virt, phys, flags, stock).0;
    spare_stands_apart::<M>(m, root, stock);
    assert(after == put_under::<M>(m, root, virt, 3, flags, stock, bits).0);
    putting_further_down::<M>(m, root, virt, 3, flags, stock, bits, 0);
    the_way_stays_open::<M>(m, root, virt, 3, flags, stock, bits);
    assert forall|i: int| 0 <= i < 256 && M::is_present(#[trigger] after.word(root, i)) implies !M::stops(
        after.word(root, i),
        3,
    ) && is_open_below::<M>(after, M::named(after.word(root, i)), 2) by {
        if i != index {
            assert(is_same_entry::<M>(m, after, root, 3, i));
            assert(M::is_present(m.word(root, i)));
            openness_is_local::<M>(m, after, M::named(m.word(root, i)), 2);
        }
    }
}

/// Nothing stands in the way of a page in an open space that has nothing at
/// the address, with the tables on the way there or frames enough for them.
pub proof fn nothing_stands_in_the_way<M: Machine>(
    m: MachineView,
    root: u64,
    virt: u64,
    table: u64,
    n: int,
    available: nat,
)
    requires
        0 <= n <= 3,
        virt < USER_LIMIT,
        tree::reached::<M>(m, root, 3, tree::path_of(virt).take(n)) == Some(table),
        n == 0 ==> is_open::<M>(m, root),
        n > 0 ==> is_open_below::<M>(m, table, (3 - n) as nat),
        tree::leaf_at::<M>(m, root, virt) is None,
        available >= 3 || tree::leaf_table::<M>(m, root, virt) is Some,
    ensures
        change::refusal::<M>(m, table, virt, (3 - n) as nat, available) is None,
    decreases 3 - n,
{
    tree::path_of_is_path(virt, n);
    tree::path_of_is_path(virt, 3);
    if n < 3 {
        let level = 3 - n;
        let index = walk::index_at(virt, level);
        let bits = m.word(table, index);
        tree::path_of_is_path(virt, n + 1);
        tree::one_level_down::<M>(m, root, virt, level);
        assert(virt as int / 0x80_0000_0000 < 256);
        if n == 0 {
            assert(tree::path_of(virt).take(0) =~= Seq::<int>::empty());
            assert(table == root);
        }
        if !M::is_present(bits) {
            if tree::leaf_table::<M>(m, root, virt) is Some {
                change::stops_for_good::<M>(m, root, virt, n + 1);
            }
        } else {
            assert(!M::stops(bits, level));
            nothing_stands_in_the_way::<M>(m, root, virt, M::named(bits), n + 1, available);
        }
    }
}

} // verus!
