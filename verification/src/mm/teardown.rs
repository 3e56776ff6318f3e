//! Taking a hierarchy apart, and the kernel's half of one.

use crate::mm::change::Tables;
use crate::mm::tree;
use crate::mm::walk::{self, index_of, Event, Machine, MachineView, ENTRIES};
use vstd::prelude::*;

verus! {

/// Every frame the first `count` descriptors of a table reach released, and
/// the descriptors cleared. The table's descriptors are `height - 1` levels up
/// from the last.
pub open spec fn entries_freed<M: Machine>(m: MachineView, table: u64, height: nat, count: nat) -> MachineView
    decreases height, count,
{
    if count == 0 || height == 0 {
        m
    } else {
        let before = entries_freed::<M>(m, table, height, (count - 1) as nat);
        let bits = before.word(table, count - 1);
        if !M::is_present(bits) {
            before
        } else {
            let freed = if height == 1 || M::stops(bits, height - 1) {
                before.released(M::named(bits))
            } else {
                table_freed::<M>(before, M::named(bits), (height - 1) as nat)
            };
            freed.stored(table, count - 1, 0)
        }
    }
}

/// Every frame a table reaches released, then the table.
pub open spec fn table_freed<M: Machine>(m: MachineView, table: u64, height: nat) -> MachineView
    decreases height, ENTRIES + 1,
{
    entries_freed::<M>(m, table, height, ENTRIES as nat).released(table)
}

/// The first `count` descriptors of the top table taken out.
pub open spec fn detached<M: Machine>(m: MachineView, root: u64, count: nat) -> MachineView
    decreases count,
{
    if count == 0 {
        m
    } else {
        let before = detached::<M>(m, root, (count - 1) as nat);
        if M::is_present(before.word(root, count - 1)) {
            before.stored(root, count - 1, 0)
        } else {
            before
        }
    }
}

/// What the first `count` of some descriptors led to released.
pub open spec fn all_freed<M: Machine>(m: MachineView, tops: Seq<u64>, count: nat) -> MachineView
    decreases count,
{
    if count == 0 {
        m
    } else {
        let before = all_freed::<M>(m, tops, (count - 1) as nat);
        let bits = tops[count - 1];
        if M::is_present(bits) && !M::stops(bits, 3) {
            table_freed::<M>(before, M::named(bits), 3)
        } else {
            before
        }
    }
}

/// How many descriptors of the top table lie below an address.
pub open spec fn tops_below(limit: u64) -> nat {
    if limit as int / 0x80_0000_0000 < ENTRIES {
        (limit as int / 0x80_0000_0000) as nat
    } else {
        ENTRIES as nat
    }
}

/// A hierarchy's mappings below an address gone. They are detached from the
/// top table first, and the detachment made visible, before anything under
/// them is handed back.
pub open spec fn emptied_below<M: Machine>(m: MachineView, root: u64, limit: u64) -> MachineView {
    let count = tops_below(limit);
    all_freed::<M>(
        detached::<M>(m, root, count).noting(Event::FlushAll),
        m.words[root],
        count,
    )
}

/// A part of a hierarchy is a tree of its own, reached by what is left of each
/// path.
pub(crate) proof fn subtree_reached<M: Machine>(
    m: MachineView,
    root: u64,
    top: int,
    index: int,
    child: u64,
    path: Seq<int>,
)
    requires
        top >= 1,
        tree::step::<M>(m, root, index, top) == Some(child),
    ensures
        tree::reached::<M>(m, child, top - 1, path) == tree::reached::<M>(m, root, top, seq![index] + path),
    decreases path.len(),
{
    let whole = seq![index] + path;
    if path.len() == 0 {
        assert(whole.drop_last() =~= Seq::<int>::empty());
        assert(whole.last() == index);
        assert(tree::reached::<M>(m, root, top, whole.drop_last()) == Some(root));
    } else {
        assert(whole.drop_last() =~= seq![index] + path.drop_last());
        subtree_reached::<M>(m, root, top, index, child, path.drop_last());
        assert(whole.last() == path.last());
    }
}

/// A path and the one descriptor before it are a path one level longer.
pub(crate) proof fn longer_path(index: int, path: Seq<int>, top: int)
    requires
        0 <= index < ENTRIES,
        tree::is_path(path, top - 1),
    ensures
        tree::is_path(seq![index] + path, top),
        tree::goes_through(seq![index] + path, Seq::empty(), index),
{
    let whole = seq![index] + path;
    assert forall|i: int| 0 <= i < whole.len() implies 0 <= #[trigger] whole[i] < ENTRIES by {
        if i > 0 {
            assert(whole[i] == path[i - 1]);
        }
    }
    assert(whole.take(1) =~= Seq::<int>::empty().push(index));
}

/// What a descriptor of a tree leads to is a tree.
pub(crate) proof fn subtree_is_tree<M: Machine>(m: MachineView, root: u64, top: int, index: int, child: u64)
    requires
        tree::is_tree::<M>(m, root, top),
        top >= 1,
        0 <= index < ENTRIES,
        tree::step::<M>(m, root, index, top) == Some(child),
    ensures
        tree::is_tree::<M>(m, child, top - 1),
{
    assert forall|p: Seq<int>| tree::is_path(p, top - 1) implies (#[trigger] tree::reached::<M>(
        m,
        child,
        top - 1,
        p,
    ) matches Some(t) ==> m.has(t)) by {
        longer_path(index, p, top);
        subtree_reached::<M>(m, root, top, index, child, p);
    }
    assert forall|p: Seq<int>, q: Seq<int>|
        #![trigger tree::reached::<M>(m, child, top - 1, p), tree::reached::<M>(m, child, top - 1, q)]
        tree::is_path(p, top - 1) && tree::is_path(q, top - 1) && tree::reached::<M>(m, child, top - 1, p) is Some
            && tree::reached::<M>(m, child, top - 1, p) == tree::reached::<M>(
            m,
            child,
            top - 1,
            q,
        ) implies p == q by {
        longer_path(index, p, top);
        longer_path(index, q, top);
        subtree_reached::<M>(m, root, top, index, child, p);
        subtree_reached::<M>(m, root, top, index, child, q);
        let a = seq![index] + p;
        let b = seq![index] + q;
        assert(a == b);
        assert(p =~= a.skip(1));
        assert(q =~= b.skip(1));
    }
}

/// Frames that no path into a tree reaches.
pub open spec fn is_outside<M: Machine>(m: MachineView, root: u64, top: int, frame: u64) -> bool {
    forall|p: Seq<int>| tree::is_path(p, top) ==> #[trigger] tree::reached::<M>(m, root, top, p) != Some(frame)
}

/// Two memories that agree on every frame outside a tree.
pub open spec fn agree_outside<M: Machine>(
    m: MachineView,
    after: MachineView,
    root: u64,
    top: int,
) -> bool {
    &&& forall|frame: u64|
        is_outside::<M>(m, root, top, frame) ==> #[trigger] after.words[frame] == m.words[frame]
    &&& forall|frame: u64| #[trigger] after.has(frame) == m.has(frame)
}

/// With one part of a tree changed in any way and then cut off, the rest is
/// the tree it was.
proof fn cut_off<M: Machine>(
    m: MachineView,
    changed: MachineView,
    root: u64,
    top: int,
    index: int,
    child: u64,
)
    requires
        tree::is_tree::<M>(m, root, top),
        top >= 1,
        0 <= index < ENTRIES,
        tree::step::<M>(m, root, index, top) == Some(child),
        agree_outside::<M>(m, changed, child, top - 1),
    ensures
        ({
            let after = changed.stored(root, index, 0);
            &&& tree::is_tree::<M>(after, root, top)
            &&& agree_outside::<M>(m, after, root, top)
            &&& forall|i: int|
                0 <= i < ENTRIES && i != index ==> #[trigger] after.word(root, i) == m.word(root, i)
            &&& forall|p: Seq<int>|
                tree::is_path(p, top) ==> (#[trigger] tree::reached::<M>(after, root, top, p) is Some
                    ==> tree::reached::<M>(after, root, top, p) == tree::reached::<M>(m, root, top, p))
        }),
{
    let none = Seq::<int>::empty();
    let cleared = m.stored(root, index, 0);
    let after = changed.stored(root, index, 0);
    assert(tree::reached::<M>(m, root, top, none) == Some(root));
    assert(tree::is_path(none, top));
    assert(m.has(root));
    tree::cleared_is_tree::<M>(m, root, top, none, index);
    // The top table is not part of what was cut off, nor is anything still
    // reached.
    assert(is_outside::<M>(m, child, top - 1, root)) by {
        assert forall|q: Seq<int>| tree::is_path(q, top - 1) implies #[trigger] tree::reached::<M>(
            m,
            child,
            top - 1,
            q,
        ) != Some(root) by {
            longer_path(index, q, top);
            subtree_reached::<M>(m, root, top, index, child, q);
            if tree::reached::<M>(m, child, top - 1, q) == Some(root) {
                assert(seq![index] + q == none);
            }
        }
    }
    assert(changed.words[root] == m.words[root]);
    assert forall|p: Seq<int>| tree::is_path(p, top) implies (#[trigger] tree::reached::<M>(
        cleared,
        root,
        top,
        p,
    ) matches Some(t) ==> after.words[t] == cleared.words[t] && tree::reached::<M>(m, root, top, p)
        == Some(t)) by {
        if tree::reached::<M>(cleared, root, top, p) is Some {
            let t = tree::reached::<M>(cleared, root, top, p)->0;
            if tree::goes_through(p, none, index) {
                tree::cleared_leads_nowhere::<M>(m, root, top, none, index, p);
            } else {
                tree::stored_elsewhere::<M>(m, root, top, none, index, 0, p);
                if t != root {
                    assert(is_outside::<M>(m, child, top - 1, t)) by {
                        assert forall|q: Seq<int>| tree::is_path(q, top - 1) implies #[trigger] tree::reached::<
                            M,
                        >(m, child, top - 1, q) != Some(t) by {
                            longer_path(index, q, top);
                            subtree_reached::<M>(m, root, top, index, child, q);
                            if tree::reached::<M>(m, child, top - 1, q) == Some(t) {
                                assert(seq![index] + q == p);
                            }
                        }
                    }
                    assert(changed.words[t] == m.words[t]);
                }
            }
        }
    }
    assert forall|p: Seq<int>| tree::is_path(p, top) implies #[trigger] tree::reached::<M>(after, root, top, p)
        == tree::reached::<M>(cleared, root, top, p) by {
        tree::unchanged_where_looked::<M>(cleared, after, root, top, p);
    }
    assert forall|frame: u64| #[trigger] after.has(frame) == m.has(frame) by {
        assert(changed.has(frame) == m.has(frame));
        assert(changed.has(root));
    }
    assert forall|frame: u64|
        is_outside::<M>(m, root, top, frame) implies #[trigger] after.words[frame]
        == m.words[frame] by {
        assert(frame != root);
        assert(is_outside::<M>(m, child, top - 1, frame)) by {
            assert forall|q: Seq<int>| tree::is_path(q, top - 1) implies #[trigger] tree::reached::<M>(
                m,
                child,
                top - 1,
                q,
            ) != Some(frame) by {
                longer_path(index, q, top);
                subtree_reached::<M>(m, root, top, index, child, q);
            }
        }
        assert(changed.words[frame] == m.words[frame]);
    }
    assert forall|p: Seq<int>| tree::is_path(p, top) implies (#[trigger] tree::reached::<M>(
        after,
        root,
        top,
        p,
    ) matches Some(t) ==> after.has(t)) by {
        assert(tree::reached::<M>(after, root, top, p) == tree::reached::<M>(cleared, root, top, p));
    }
    assert forall|i: int| 0 <= i < ENTRIES && i != index implies #[trigger] after.word(root, i)
        == m.word(root, i) by {
    }
}

/// Clearing a descriptor that leads to no table is a cut as well.
proof fn cut_off_a_page<M: Machine>(m: MachineView, counted: MachineView, root: u64, top: int, index: int)
    requires
        tree::is_tree::<M>(m, root, top),
        top >= 0,
        0 <= index < ENTRIES,
        counted.words == m.words,
    ensures
        ({
            let after = counted.stored(root, index, 0);
            &&& tree::is_tree::<M>(after, root, top)
            &&& agree_outside::<M>(m, after, root, top)
            &&& forall|i: int|
                0 <= i < ENTRIES && i != index ==> #[trigger] after.word(root, i) == m.word(root, i)
            &&& forall|p: Seq<int>|
                tree::is_path(p, top) ==> (#[trigger] tree::reached::<M>(after, root, top, p) is Some
                    ==> tree::reached::<M>(after, root, top, p) == tree::reached::<M>(m, root, top, p))
        }),
{
    let none = Seq::<int>::empty();
    let cleared = m.stored(root, index, 0);
    let after = counted.stored(root, index, 0);
    assert(after.words == cleared.words);
    assert(tree::reached::<M>(m, root, top, none) == Some(root));
    assert(tree::is_path(none, top));
    assert(m.has(root));
    tree::cleared_is_tree::<M>(m, root, top, none, index);
    assert forall|p: Seq<int>| tree::is_path(p, top) implies #[trigger] tree::reached::<M>(after, root, top, p)
        == tree::reached::<M>(cleared, root, top, p) by {
        tree::unchanged_where_looked::<M>(cleared, after, root, top, p);
    }
    assert forall|p: Seq<int>| tree::is_path(p, top) implies (#[trigger] tree::reached::<M>(
        after,
        root,
        top,
        p,
    ) is Some ==> tree::reached::<M>(after, root, top, p) == tree::reached::<M>(m, root, top, p)) by {
        if tree::goes_through(p, none, index) {
            tree::cleared_leads_nowhere::<M>(m, root, top, none, index, p);
        } else {
            tree::stored_elsewhere::<M>(m, root, top, none, index, 0, p);
        }
    }
    assert forall|frame: u64| #[trigger] after.has(frame) == m.has(frame) by {
    }
    assert forall|p: Seq<int>| tree::is_path(p, top) implies (#[trigger] tree::reached::<M>(
        after,
        root,
        top,
        p,
    ) matches Some(t) ==> after.has(t)) by {
        assert(tree::reached::<M>(after, root, top, p) == tree::reached::<M>(cleared, root, top, p));
    }
    assert forall|frame: u64|
        is_outside::<M>(m, root, top, frame) implies #[trigger] after.words[frame]
        == m.words[frame] by {
        assert(frame != root);
    }
}

/// Agreement outside a tree carries on through a smaller one.
pub(crate) proof fn agreement_carries_on<M: Machine>(
    m: MachineView,
    now: MachineView,
    after: MachineView,
    root: u64,
    top: int,
)
    requires
        agree_outside::<M>(m, now, root, top),
        agree_outside::<M>(now, after, root, top),
        forall|p: Seq<int>|
            tree::is_path(p, top) ==> (#[trigger] tree::reached::<M>(now, root, top, p) is Some ==> tree::reached::<
                M,
            >(now, root, top, p) == tree::reached::<M>(m, root, top, p)),
    ensures
        agree_outside::<M>(m, after, root, top),
{
    assert forall|frame: u64|
        is_outside::<M>(m, root, top, frame) implies #[trigger] after.words[frame]
        == m.words[frame] by {
        assert(is_outside::<M>(now, root, top, frame)) by {
            assert forall|p: Seq<int>| tree::is_path(p, top) implies #[trigger] tree::reached::<M>(
                now,
                root,
                top,
                p,
            ) != Some(frame) by {
                assert(tree::reached::<M>(m, root, top, p) != Some(frame));
            }
        }
        assert(now.words[frame] == m.words[frame]);
    }
    assert forall|frame: u64| #[trigger] after.has(frame) == m.has(frame) by {
        assert(now.has(frame) == m.has(frame));
    }
}

impl Tables {
    /// Release every frame the table at `phys` reaches, then the table.
    fn free_table<M: Machine>(machine: &mut M, phys: u64, height: u32)
        requires
            1 <= height <= 3,
            tree::is_tree::<M>(old(machine).state(), phys, height - 1),
        ensures
            final(machine).state() == table_freed::<M>(old(machine).state(), phys, height as nat),
            agree_outside::<M>(old(machine).state(), final(machine).state(), phys, height - 1),
        decreases height,
    {
        let ghost m = machine.state();
        let ghost top = height - 1;
        let mut index: usize = 0;
        while index < ENTRIES
            invariant
                index <= ENTRIES,
                1 <= height <= 3,
                top == height - 1,
                m == old(machine).state(),
                machine.state() == entries_freed::<M>(m, phys, height as nat, index as nat),
                tree::is_tree::<M>(machine.state(), phys, top),
                agree_outside::<M>(m, machine.state(), phys, top),
                forall|p: Seq<int>|
                    tree::is_path(p, top) ==> (#[trigger] tree::reached::<M>(machine.state(), phys, top, p)
                        is Some ==> tree::reached::<M>(machine.state(), phys, top, p) == tree::reached::<M>(
                        m,
                        phys,
                        top,
                        p,
                    )),
            decreases ENTRIES - index,
        {
            proof {
                let none = Seq::<int>::empty();
                assert(tree::is_path(none, top));
                assert(tree::reached::<M>(machine.state(), phys, top, none) == Some(phys));
            }
            let ghost now = machine.state();
            let bits = machine.read(phys, index);
            if machine.present(bits) {
                let phys_below = machine.addr(bits);
                if height == 1 || machine.ends_walk(bits, height - 1) {
                    machine.free(phys_below);
                    proof {
                        cut_off_a_page::<M>(now, machine.state(), phys, top, index as int);
                    }
                } else {
                    proof {
                        assert(tree::step::<M>(now, phys, index as int, top) == Some(phys_below));
                        subtree_is_tree::<M>(now, phys, top, index as int, phys_below);
                    }
                    Tables::free_table(machine, phys_below, height - 1);
                    proof {
                        cut_off::<M>(
                            now,
                            machine.state(),
                            phys,
                            top,
                            index as int,
                            phys_below,
                        );
                    }
                }
                proof {
                    assert(now.has(phys));
                    assert(machine.state().has(phys));
                }
                Tables::store(machine, phys, index, 0);
                proof {
                    agreement_carries_on::<M>(m, now, machine.state(), phys, top);
                    assert forall|p: Seq<int>| tree::is_path(p, top) implies (#[trigger] tree::reached::<M>(
                        machine.state(),
                        phys,
                        top,
                        p,
                    ) is Some ==> tree::reached::<M>(machine.state(), phys, top, p) == tree::reached::<M>(
                        m,
                        phys,
                        top,
                        p,
                    )) by {
                        if tree::reached::<M>(machine.state(), phys, top, p) is Some {
                            assert(tree::reached::<M>(machine.state(), phys, top, p) == tree::reached::<M>(
                                now,
                                phys,
                                top,
                                p,
                            ));
                        }
                    }
                }
            }
            index += 1;
        }
        let ghost last = machine.state();
        machine.free(phys);
        assert(machine.state().words == last.words);
        assert forall|frame: u64| #[trigger] machine.state().has(frame) == m.has(frame) by {
            assert(last.has(frame) == m.has(frame));
        }
    }
}

/// References given back, one after another.
pub open spec fn all_released(m: MachineView, frames: Seq<u64>) -> MachineView
    decreases frames.len(),
{
    if frames.len() == 0 {
        m
    } else {
        all_released(m, frames.drop_last()).released(frames.last())
    }
}

/// Giving references back is noted after what was noted before.
pub(crate) proof fn releasing_goes_on(m: MachineView, frames: Seq<u64>)
    ensures
        goes_on_from(all_released(m, frames).journal, m.journal),
    decreases frames.len(),
{
    if frames.len() == 0 {
        assert(m.journal.take(m.journal.len() as int) =~= m.journal);
    } else {
        releasing_goes_on(m, frames.drop_last());
        one_event_on(
            m.journal,
            all_released(m, frames.drop_last()).journal,
            Event::Free(frames.last()),
        );
    }
}

/// Having run out stays in the journal.
pub(crate) proof fn still_ran_out(before: MachineView, m: MachineView, after: MachineView)
    requires
        walk::ran_out(before, m),
        goes_on_from(after.journal, m.journal),
    ensures
        walk::ran_out(before, after),
{
    let i = choose|i: int|
        before.journal.len() <= i < m.journal.len() && #[trigger] m.journal[i] is NoFrame;
    assert(after.journal.take(m.journal.len() as int)[i] == after.journal[i]);
    assert(after.journal[i] is NoFrame);
}

/// And so does the journal it started from.
pub(crate) proof fn ran_out_further_back(
    start: MachineView,
    before: MachineView,
    after: MachineView,
)
    requires
        walk::ran_out(before, after),
        start.journal.len() <= before.journal.len(),
    ensures
        walk::ran_out(start, after),
{
    let i = choose|i: int|
        before.journal.len() <= i < after.journal.len() && #[trigger] after.journal[i] is NoFrame;
    assert(after.journal[i] is NoFrame);
}

/// What the first `count` descriptors of a table hold: every page, and every
/// table after what is in it.
pub open spec fn held_by_entries<M: Machine>(m: MachineView, table: u64, height: nat, count: nat) -> Seq<
    u64,
>
    decreases height, count,
{
    if count == 0 || height == 0 {
        Seq::empty()
    } else {
        let before = held_by_entries::<M>(m, table, height, (count - 1) as nat);
        let bits = m.word(table, count - 1);
        if !M::is_present(bits) {
            before
        } else if height == 1 || M::stops(bits, height - 1) {
            before.push(M::named(bits))
        } else {
            before + held_by_table::<M>(m, M::named(bits), (height - 1) as nat)
        }
    }
}

/// What a table holds, and then the table.
pub open spec fn held_by_table<M: Machine>(m: MachineView, table: u64, height: nat) -> Seq<u64>
    decreases height, ENTRIES + 1,
{
    held_by_entries::<M>(m, table, height, ENTRIES as nat).push(table)
}

/// What the first `count` of some descriptors of a top table lead to.
pub open spec fn held_by_tops<M: Machine>(m: MachineView, tops: Seq<u64>, count: nat) -> Seq<u64>
    decreases count,
{
    if count == 0 {
        Seq::empty()
    } else {
        let before = held_by_tops::<M>(m, tops, (count - 1) as nat);
        let bits = tops[count - 1];
        if M::is_present(bits) && !M::stops(bits, 3) {
            before + held_by_table::<M>(m, M::named(bits), 3)
        } else {
            before
        }
    }
}

/// Counting down only looks at counts.
proof fn counts_make_counts(m: MachineView, n: MachineView, frames: Seq<u64>)
    requires
        m.counts == n.counts,
    ensures
        all_released(m, frames).counts == all_released(n, frames).counts,
    decreases frames.len(),
{
    if frames.len() > 0 {
        counts_make_counts(m, n, frames.drop_last());
    }
}

/// One list given back and then another is the two together given back.
proof fn one_list_then_another(m: MachineView, first: Seq<u64>, second: Seq<u64>)
    ensures
        all_released(all_released(m, first), second) == all_released(m, first + second),
    decreases second.len(),
{
    if second.len() == 0 {
        assert(first + second =~= first);
    } else {
        one_list_then_another(m, first, second.drop_last());
        assert((first + second).drop_last() =~= first + second.drop_last());
        assert((first + second).last() == second.last());
    }
}

/// What a part of a tree holds depends on nothing outside it.
pub(crate) proof fn holding_is_local<M: Machine>(m: MachineView, n: MachineView, table: u64, height: nat, count: nat)
    requires
        1 <= height,
        count <= ENTRIES,
        forall|p: Seq<int>|
            tree::is_path(p, height - 1) ==> (#[trigger] tree::reached::<M>(m, table, height - 1, p) matches Some(
                t,
            ) ==> n.words[t] == m.words[t]),
    ensures
        held_by_entries::<M>(n, table, height, count) == held_by_entries::<M>(
            m,
            table,
            height,
            count,
        ),
    decreases height, count,
{
    let none = Seq::<int>::empty();
    assert(tree::is_path(none, height - 1));
    assert(tree::reached::<M>(m, table, height - 1, none) == Some(table));
    if count > 0 {
        holding_is_local::<M>(m, n, table, height, (count - 1) as nat);
        let bits = m.word(table, count - 1);
        if M::is_present(bits) && height > 1 && !M::stops(bits, height - 1) {
            let child = M::named(bits);
            assert forall|q: Seq<int>| tree::is_path(q, height - 2) implies (#[trigger] tree::reached::<M>(
                m,
                child,
                height - 2,
                q,
            ) matches Some(t) ==> n.words[t] == m.words[t]) by {
                longer_path(count - 1, q, height - 1);
                subtree_reached::<M>(m, table, height - 1, count - 1, child, q);
            }
            holding_is_local::<M>(m, n, child, (height - 1) as nat, ENTRIES as nat);
            assert(held_by_table::<M>(m, child, (height - 1) as nat) == held_by_entries::<M>(
                m,
                child,
                (height - 1) as nat,
                ENTRIES as nat,
            ).push(child));
            assert(held_by_table::<M>(n, child, (height - 1) as nat) == held_by_entries::<M>(
                n,
                child,
                (height - 1) as nat,
                ENTRIES as nat,
            ).push(child));
        }
    }
}

/// What freeing a table's first descriptors leaves: the rest of the tree as it
/// was, and one reference fewer for each time one of them held a frame.
pub(crate) proof fn freeing_entries<M: Machine>(m: MachineView, table: u64, height: nat, count: nat)
    requires
        1 <= height,
        count <= ENTRIES,
        tree::is_tree::<M>(m, table, height - 1),
    ensures
        ({
            let after = entries_freed::<M>(m, table, height, count);
            &&& tree::is_tree::<M>(after, table, height - 1)
            &&& agree_outside::<M>(m, after, table, height - 1)
            &&& forall|i: int|
                count <= i < ENTRIES ==> #[trigger] after.word(table, i) == m.word(table, i)
            &&& forall|p: Seq<int>|
                tree::is_path(p, height - 1) ==> (#[trigger] tree::reached::<M>(after, table, height - 1, p)
                    is Some ==> tree::reached::<M>(after, table, height - 1, p) == tree::reached::<M>(
                    m,
                    table,
                    height - 1,
                    p,
                ))
            &&& forall|p: Seq<int>|
                tree::is_path(p, height - 1) && p.len() > 0 && p[0] >= count ==> (#[trigger] tree::reached::<M>(
                    m,
                    table,
                    height - 1,
                    p,
                ) matches Some(t) ==> after.words[t] == m.words[t])
            &&& after.counts == all_released(
                m,
                held_by_entries::<M>(m, table, height, count),
            ).counts
        }),
    decreases height, count,
{
    let top = height - 1;
    if count > 0 {
        freeing_entries::<M>(m, table, height, (count - 1) as nat);
        let now = entries_freed::<M>(m, table, height, (count - 1) as nat);
        let index = count - 1;
        let bits = now.word(table, index);
        let list = held_by_entries::<M>(m, table, height, (count - 1) as nat);
        assert(bits == m.word(table, index));
        if M::is_present(bits) {
            let none = Seq::<int>::empty();
            assert(tree::is_path(none, top));
            assert(tree::reached::<M>(now, table, top, none) == Some(table));
            if height == 1 || M::stops(bits, top) {
                let changed = now.released(M::named(bits));
                let after = changed.stored(table, index, 0);
                cut_off_a_page::<M>(now, changed, table, top, index);
                agreement_carries_on::<M>(m, now, after, table, top);
                counts_make_counts(now, all_released(m, list), seq![M::named(bits)]);
                assert(list.push(M::named(bits)).drop_last() =~= list);
                later_parts_untouched::<M>(m, now, after, table, top, index);
                reached_before_and_before_that::<M>(m, now, after, table, top);
            } else {
                let child = M::named(bits);
                assert(tree::step::<M>(now, table, index, top) == Some(child));
                assert(tree::step::<M>(m, table, index, top) == Some(child));
                subtree_is_tree::<M>(now, table, top, index, child);
                freeing_entries::<M>(now, child, (height - 1) as nat, ENTRIES as nat);
                let inner = entries_freed::<M>(now, child, (height - 1) as nat, ENTRIES as nat);
                let changed = inner.released(child);
                let after = changed.stored(table, index, 0);
                assert(changed.words == inner.words);
                assert(agree_outside::<M>(now, changed, child, top - 1)) by {
                    assert forall|frame: u64| #[trigger] changed.has(frame) == now.has(frame) by {
                        assert(inner.has(frame) == now.has(frame));
                    }
                    assert forall|frame: u64|
                        is_outside::<M>(now, child, top - 1, frame) implies #[trigger] changed.words[frame]
                        == now.words[frame] by {
                        assert(inner.words[frame] == now.words[frame]);
                    }
                }
                cut_off::<M>(now, changed, table, top, index, child);
                agreement_carries_on::<M>(m, now, after, table, top);
                // What the part held is what it held at the start.
                assert forall|q: Seq<int>| tree::is_path(q, top - 1) implies (#[trigger] tree::reached::<M>(
                    m,
                    child,
                    top - 1,
                    q,
                ) matches Some(t) ==> now.words[t] == m.words[t]) by {
                    longer_path(index, q, top);
                    subtree_reached::<M>(m, table, top, index, child, q);
                    assert((seq![index] + q)[0] == index);
                }
                holding_is_local::<M>(m, now, child, (height - 1) as nat, ENTRIES as nat);
                let part = held_by_entries::<M>(m, child, (height - 1) as nat, ENTRIES as nat);
                let whole = part.push(child);
                assert(whole.drop_last() =~= part);
                assert(held_by_table::<M>(m, child, (height - 1) as nat) == whole);
                assert(table_freed::<M>(now, child, (height - 1) as nat) == changed);
                counts_make_counts(now, all_released(m, list), whole);
                one_list_then_another(m, list, whole);
                later_parts_untouched::<M>(m, now, after, table, top, index);
                reached_before_and_before_that::<M>(m, now, after, table, top);
                assert(after.counts == changed.counts);
                assert(all_released(now, whole).counts == all_released(now, part).released(
                    child,
                ).counts);
                assert(changed.counts == all_released(now, whole).counts);
            }
        }
    }
}

/// What was reached at each of two steps was reached at the start.
proof fn reached_before_and_before_that<M: Machine>(
    m: MachineView,
    now: MachineView,
    after: MachineView,
    table: u64,
    top: int,
)
    requires
        forall|p: Seq<int>|
            tree::is_path(p, top) ==> (#[trigger] tree::reached::<M>(now, table, top, p) is Some ==> tree::reached::<
                M,
            >(now, table, top, p) == tree::reached::<M>(m, table, top, p)),
        forall|p: Seq<int>|
            tree::is_path(p, top) ==> (#[trigger] tree::reached::<M>(after, table, top, p) is Some
                ==> tree::reached::<M>(after, table, top, p) == tree::reached::<M>(now, table, top, p)),
    ensures
        forall|p: Seq<int>|
            tree::is_path(p, top) ==> (#[trigger] tree::reached::<M>(after, table, top, p) is Some
                ==> tree::reached::<M>(after, table, top, p) == tree::reached::<M>(m, table, top, p)),
{
    assert forall|p: Seq<int>| tree::is_path(p, top) implies (#[trigger] tree::reached::<M>(
        after,
        table,
        top,
        p,
    ) is Some ==> tree::reached::<M>(after, table, top, p) == tree::reached::<M>(m, table, top, p)) by {
        if tree::reached::<M>(after, table, top, p) is Some {
            assert(tree::reached::<M>(now, table, top, p) is Some);
        }
    }
}

/// Freeing what one descriptor leads to touches nothing that later ones lead
/// to.
proof fn later_parts_untouched<M: Machine>(
    m: MachineView,
    now: MachineView,
    after: MachineView,
    table: u64,
    top: int,
    index: int,
)
    requires
        tree::is_tree::<M>(m, table, top),
        tree::is_tree::<M>(now, table, top),
        0 <= index < ENTRIES,
        forall|i: int| index <= i < ENTRIES ==> #[trigger] now.word(table, i) == m.word(table, i),
        forall|p: Seq<int>|
            tree::is_path(p, top) && p.len() > 0 && p[0] >= index ==> (#[trigger] tree::reached::<M>(
                m,
                table,
                top,
                p,
            ) matches Some(t) ==> now.words[t] == m.words[t]),
        ({
            let bits = now.word(table, index);
            ||| (exists|changed: MachineView|
                changed.words == now.words && after == #[trigger] changed.stored(table, index, 0))
            ||| (exists|changed: MachineView|
                top >= 1 && tree::step::<M>(now, table, index, top) is Some && agree_outside::<M>(
                    now,
                    changed,
                    M::named(bits),
                    top - 1,
                ) && after == #[trigger] changed.stored(table, index, 0))
        }),
    ensures
        forall|p: Seq<int>|
            tree::is_path(p, top) && p.len() > 0 && p[0] > index ==> (#[trigger] tree::reached::<M>(
                m,
                table,
                top,
                p,
            ) matches Some(t) ==> after.words[t] == m.words[t]),
{
    let none = Seq::<int>::empty();
    assert forall|p: Seq<int>|
        tree::is_path(p, top) && p.len() > 0 && p[0] > index implies (#[trigger] tree::reached::<M>(
        m,
        table,
        top,
        p,
    ) matches Some(t) ==> after.words[t] == m.words[t]) by {
        if tree::reached::<M>(m, table, top, p) is Some {
            let t = tree::reached::<M>(m, table, top, p)->0;
            assert(tree::reached::<M>(m, table, top, none) == Some(table));
            assert(tree::is_path(none, top));
            if t == table {
                assert(p == none);
            }
            assert(now.words[t] == m.words[t]);
            if exists|changed: MachineView|
                changed.words == now.words && after == #[trigger] changed.stored(table, index, 0) {
            } else {
                let changed = choose|changed: MachineView|
                    top >= 1 && tree::step::<M>(now, table, index, top) is Some && agree_outside::<
                        M,
                    >(now, changed, M::named(now.word(table, index)), top - 1) && after
                        == #[trigger] changed.stored(table, index, 0);
                let child = M::named(now.word(table, index));
                still_there::<M>(m, now, table, top, index, p);
                assert(is_outside::<M>(now, child, top - 1, t)) by {
                    assert forall|q: Seq<int>| tree::is_path(q, top - 1) implies #[trigger] tree::reached::<M>(
                        now,
                        child,
                        top - 1,
                        q,
                    ) != Some(t) by {
                        longer_path(index, q, top);
                        subtree_reached::<M>(now, table, top, index, child, q);
                        if tree::reached::<M>(now, child, top - 1, q) == Some(t) {
                            assert((seq![index] + q)[0] == index);
                            assert(tree::reached::<M>(now, table, top, seq![index] + q) == Some(t));
                            assert(p == seq![index] + q);
                        }
                    }
                }
                assert(changed.words[t] == now.words[t]);
            }
        }
    }
}

/// A path through a descriptor nothing was freed under reaches what it did.
proof fn still_there<M: Machine>(
    m: MachineView,
    now: MachineView,
    table: u64,
    top: int,
    index: int,
    p: Seq<int>,
)
    requires
        tree::is_path(p, top),
        p.len() > 0,
        p[0] >= index,
        0 <= index,
        forall|i: int| index <= i < ENTRIES ==> #[trigger] now.word(table, i) == m.word(table, i),
        forall|p: Seq<int>|
            tree::is_path(p, top) && p.len() > 0 && p[0] >= index ==> (#[trigger] tree::reached::<M>(
                m,
                table,
                top,
                p,
            ) matches Some(t) ==> now.words[t] == m.words[t]),
    ensures
        tree::reached::<M>(now, table, top, p) == tree::reached::<M>(m, table, top, p),
    decreases p.len(),
{
    let before = p.drop_last();
    assert(tree::is_path(before, top));
    if before.len() == 0 {
        assert(before =~= Seq::<int>::empty());
        assert(p.last() == p[0]);
        assert(now.word(table, p.last()) == m.word(table, p.last()));
        assert(tree::reached::<M>(m, table, top, before) == Some(table));
        assert(tree::reached::<M>(now, table, top, before) == Some(table));
    } else {
        still_there::<M>(m, now, table, top, index, before);
        assert(before[0] == p[0]);
        if tree::reached::<M>(m, table, top, before) is Some {
            let t = tree::reached::<M>(m, table, top, before)->0;
            assert(now.words[t] == m.words[t]);
        }
    }
}

/// What detaching leaves of the top table, and everything else as it was.
pub(crate) proof fn detaching<M: Machine>(m: MachineView, root: u64, count: nat)
    requires
        m.has(root),
        count <= ENTRIES,
    ensures
        ({
            let after = detached::<M>(m, root, count);
            &&& forall|i: int| 0 <= i < count ==> !M::is_present(#[trigger] after.word(root, i))
            &&& forall|i: int|
                count <= i < ENTRIES ==> #[trigger] after.word(root, i) == m.word(root, i)
            &&& forall|frame: u64|
                frame != root ==> #[trigger] after.words[frame] == m.words[frame]
            &&& forall|frame: u64| #[trigger] after.has(frame) == m.has(frame)
            &&& after.counts == m.counts
        }),
    decreases count,
{
    M::format_holds();
    if count > 0 {
        detaching::<M>(m, root, (count - 1) as nat);
        let now = detached::<M>(m, root, (count - 1) as nat);
        let after = detached::<M>(m, root, count);
        assert(now.has(root) == m.has(root));
        assert forall|frame: u64| #[trigger] after.has(frame) == m.has(frame) by {
            assert(now.has(frame) == m.has(frame));
        }
        assert forall|i: int| 0 <= i < count implies !M::is_present(
            #[trigger] after.word(root, i),
        ) by {
            if i < count - 1 {
                assert(!M::is_present(now.word(root, i)));
            }
        }
        assert forall|i: int| count <= i < ENTRIES implies #[trigger] after.word(root, i)
            == m.word(root, i) by {
            assert(now.word(root, i) == m.word(root, i));
        }
    }
}

/// How far a teardown has come: what descriptors from `done` on lead to is
/// untouched, and so is whatever the hierarchy does not reach.
pub open spec fn is_torn_down_to<M: Machine>(
    m: MachineView,
    now: MachineView,
    root: u64,
    done: int,
) -> bool {
    &&& forall|frame: u64| #[trigger] now.has(frame) == m.has(frame)
    &&& forall|p: Seq<int>|
        tree::is_path(p, 3) && p.len() > 0 && p[0] >= done ==> (#[trigger] tree::reached::<M>(
            m,
            root,
            3,
            p,
        ) matches Some(t) ==> now.words[t] == m.words[t])
    &&& forall|frame: u64|
        is_outside::<M>(m, root, 3, frame) ==> #[trigger] now.words[frame] == m.words[frame]
}

/// What a descriptor not torn down yet leads to is the tree it was.
pub(crate) proof fn part_still_whole<M: Machine>(m: MachineView, now: MachineView, root: u64, done: int, index: int, child: u64)
    requires
        tree::is_tree::<M>(m, root, 3),
        is_torn_down_to::<M>(m, now, root, done),
        0 <= done <= index < ENTRIES,
        tree::step::<M>(m, root, index, 3) == Some(child),
    ensures
        tree::is_tree::<M>(now, child, 2),
        forall|q: Seq<int>|
            tree::is_path(q, 2) ==> #[trigger] tree::reached::<M>(now, child, 2, q) == tree::reached::<M>(
                m,
                root,
                3,
                seq![index] + q,
            ),
        held_by_entries::<M>(now, child, 3, ENTRIES as nat) == held_by_entries::<M>(
            m,
            child,
            3,
            ENTRIES as nat,
        ),
{
    subtree_is_tree::<M>(m, root, 3, index, child);
    assert forall|q: Seq<int>| tree::is_path(q, 2) implies (#[trigger] tree::reached::<M>(m, child, 2, q)
        matches Some(t) ==> now.words[t] == m.words[t]) && tree::reached::<M>(m, child, 2, q)
        == tree::reached::<M>(m, root, 3, seq![index] + q) by {
        longer_path(index, q, 3);
        subtree_reached::<M>(m, root, 3, index, child, q);
        assert((seq![index] + q)[0] == index);
    }
    assert forall|q: Seq<int>| tree::is_path(q, 2) implies #[trigger] tree::reached::<M>(now, child, 2, q)
        == tree::reached::<M>(m, child, 2, q) by {
        tree::unchanged_where_looked::<M>(m, now, child, 2, q);
    }
    assert forall|q: Seq<int>| tree::is_path(q, 2) implies (#[trigger] tree::reached::<M>(now, child, 2, q)
        matches Some(t) ==> now.has(t)) by {
        assert(tree::reached::<M>(now, child, 2, q) == tree::reached::<M>(m, child, 2, q));
        if tree::reached::<M>(m, child, 2, q) is Some {
            let t = tree::reached::<M>(m, child, 2, q)->0;
            assert(now.has(t) == m.has(t));
        }
    }
    holding_is_local::<M>(m, now, child, 3, ENTRIES as nat);
}

/// Tearing down what one descriptor leads to leaves the later ones alone.
proof fn one_part_torn_down<M: Machine>(
    m: MachineView,
    now: MachineView,
    after: MachineView,
    root: u64,
    index: int,
    child: u64,
)
    requires
        tree::is_tree::<M>(m, root, 3),
        is_torn_down_to::<M>(m, now, root, index),
        0 <= index < ENTRIES,
        tree::step::<M>(m, root, index, 3) == Some(child),
        agree_outside::<M>(now, after, child, 2),
    ensures
        is_torn_down_to::<M>(m, after, root, index + 1),
        after.words[root] == now.words[root],
{
    part_still_whole::<M>(m, now, root, index, index, child);
    let none = Seq::<int>::empty();
    assert(tree::is_path(none, 3));
    assert(tree::reached::<M>(m, root, 3, none) == Some(root));
    assert forall|t: u64|
        (forall|q: Seq<int>|
            tree::is_path(q, 2) ==> #[trigger] tree::reached::<M>(m, root, 3, seq![index] + q) != Some(
                t,
            )) implies #[trigger] after.words[t] == now.words[t] by {
        assert(is_outside::<M>(now, child, 2, t)) by {
            assert forall|q: Seq<int>| tree::is_path(q, 2) implies #[trigger] tree::reached::<M>(
                now,
                child,
                2,
                q,
            ) != Some(t) by {
                assert(tree::reached::<M>(m, root, 3, seq![index] + q) != Some(t));
            }
        }
    }
    assert forall|p: Seq<int>|
        tree::is_path(p, 3) && (p.len() == 0 || p[0] > index) implies (#[trigger] tree::reached::<M>(
        m,
        root,
        3,
        p,
    ) matches Some(t) ==> after.words[t] == now.words[t]) by {
        if tree::reached::<M>(m, root, 3, p) is Some {
            let t = tree::reached::<M>(m, root, 3, p)->0;
            assert forall|q: Seq<int>| tree::is_path(q, 2) implies #[trigger] tree::reached::<M>(
                m,
                root,
                3,
                seq![index] + q,
            ) != Some(t) by {
                longer_path(index, q, 3);
                if tree::reached::<M>(m, root, 3, seq![index] + q) == Some(t) {
                    assert(p == seq![index] + q);
                    assert((seq![index] + q)[0] == index);
                }
            }
        }
    }
    assert(after.words[root] == now.words[root]);
    assert forall|frame: u64| #[trigger] after.has(frame) == m.has(frame) by {
        assert(now.has(frame) == m.has(frame));
    }
    assert forall|frame: u64|
        is_outside::<M>(m, root, 3, frame) implies #[trigger] after.words[frame]
        == m.words[frame] by {
        assert forall|q: Seq<int>| tree::is_path(q, 2) implies #[trigger] tree::reached::<M>(
            m,
            root,
            3,
            seq![index] + q,
        ) != Some(frame) by {
            longer_path(index, q, 3);
        }
        assert(now.words[frame] == m.words[frame]);
    }
}

impl Tables {
    /// Release every mapping below `limit`, every table that held one, and
    /// nothing above it.
    ///
    /// The whole of the range is detached from the top table first and the
    /// detachment made visible before anything under it is handed back. A
    /// frame released while a mapping to it still exists can be given to
    /// another address space and written through the old one, and the walker
    /// is allowed to act on such a descriptor speculatively, without any
    /// instruction naming that address.
    pub fn free_below<M: Machine>(&self, machine: &mut M, limit: u64)
        requires
            tree::is_tree::<M>(old(machine).state(), self.top(), 3),
        ensures
            final(machine).state() == emptied_below::<M>(
                old(machine).state(),
                self.top(),
                limit,
            ),
            is_torn_down_to::<M>(
                old(machine).state(),
                final(machine).state(),
                self.top(),
                tops_below(limit) as int,
            ),
            forall|i: int|
                0 <= i < tops_below(limit) ==> !M::is_present(
                    #[trigger] final(machine).state().word(self.top(), i),
                ),
            forall|i: int|
                tops_below(limit) <= i < ENTRIES ==> #[trigger] final(machine).state().word(
                    self.top(),
                    i,
                ) == old(machine).state().word(self.top(), i),
    {
        let ghost m = machine.state();
        let root = self.root();
        let below: u64 = limit / 0x80_0000_0000;
        let tops: usize = if below < ENTRIES as u64 {
            below as usize
        } else {
            ENTRIES
        };
        proof {
            let none = Seq::<int>::empty();
            assert(tree::is_path(none, 3));
            assert(tree::reached::<M>(m, root, 3, none) == Some(root));
            assert(m.has(root));
        }
        let mut taken: Vec<u64> = Vec::new();
        let mut index: usize = 0;
        while index < tops
            invariant
                index <= tops <= ENTRIES,
                m == old(machine).state(),
                m.has(root),
                machine.state() == detached::<M>(m, root, index as nat),
                taken@ == m.words[root].take(index as int),
            decreases tops - index,
        {
            proof {
                detaching::<M>(m, root, index as nat);
                assert(machine.state().has(root) == m.has(root));
                assert(machine.state().word(root, index as int) == m.word(root, index as int));
            }
            let bits = machine.read(root, index);
            taken.push(bits);
            if machine.present(bits) {
                Tables::store(machine, root, index, 0);
            }
            index += 1;
            assert(taken@ =~= m.words[root].take(index as int));
        }
        machine.flush_all();
        let ghost cut = machine.state();
        proof {
            detaching::<M>(m, root, tops as nat);
            assert forall|frame: u64| #[trigger] cut.has(frame) == m.has(frame) by {
                assert(detached::<M>(m, root, tops as nat).has(frame) == m.has(frame));
            }
            assert(is_torn_down_to::<M>(m, cut, root, 0)) by {
                let none = Seq::<int>::empty();
                assert(tree::is_path(none, 3));
                assert forall|p: Seq<int>|
                    tree::is_path(p, 3) && p.len() > 0 && p[0] >= 0 implies (#[trigger] tree::reached::<M>(
                    m,
                    root,
                    3,
                    p,
                ) matches Some(t) ==> cut.words[t] == m.words[t]) by {
                    if tree::reached::<M>(m, root, 3, p) is Some {
                        let t = tree::reached::<M>(m, root, 3, p)->0;
                        assert(tree::reached::<M>(m, root, 3, none) == Some(root));
                        if t == root {
                            assert(p == none);
                        }
                        assert(detached::<M>(m, root, tops as nat).words[t] == m.words[t]);
                    }
                }
                assert forall|frame: u64|
                    is_outside::<M>(m, root, 3, frame) implies #[trigger] cut.words[frame]
                    == m.words[frame] by {
                    assert(tree::reached::<M>(m, root, 3, none) == Some(root));
                    assert(frame != root);
                    assert(detached::<M>(m, root, tops as nat).words[frame] == m.words[frame]);
                }
            }
        }
        let mut next: usize = 0;
        while next < tops
            invariant
                next <= tops <= ENTRIES,
                root == self.top(),
                m.has(root),
                tree::is_tree::<M>(m, root, 3),
                taken@ == m.words[root].take(tops as int),
                machine.state() == all_freed::<M>(cut, m.words[root], next as nat),
                is_torn_down_to::<M>(m, machine.state(), root, next as int),
                machine.state().words[root] == cut.words[root],
            decreases tops - next,
        {
            let bits = taken[next];
            assert(bits == m.word(root, next as int));
            if machine.present(bits) && !machine.ends_walk(bits, 3) {
                let child = machine.addr(bits);
                let ghost now = machine.state();
                proof {
                    assert(tree::step::<M>(m, root, next as int, 3) == Some(child));
                    part_still_whole::<M>(m, now, root, next as int, next as int, child);
                }
                Tables::free_table(machine, child, 3);
                proof {
                    one_part_torn_down::<M>(m, now, machine.state(), root, next as int, child);
                }
            }
            next += 1;
        }
        proof {
            assert forall|i: int| 0 <= i < tops implies !M::is_present(
                #[trigger] machine.state().word(root, i),
            ) by {
                assert(!M::is_present(detached::<M>(m, root, tops as nat).word(root, i)));
            }
            assert forall|i: int| tops <= i < ENTRIES implies #[trigger] machine.state().word(
                root,
                i,
            ) == m.word(root, i) by {
                assert(detached::<M>(m, root, tops as nat).word(root, i) == m.word(root, i));
            }
        }
    }

    /// Copy the descriptors `[from, to)` of the top table out of `src`,
    /// without taking a reference on what they name.
    ///
    /// This is how the kernel half gets into a fresh address space: one set of
    /// tables below the top that every space names, never torn down, so an
    /// address in that half is reached through any of them.
    pub fn adopt_top<M: Machine>(&self, machine: &mut M, src: &Tables, from: usize, to: usize)
        requires
            old(machine).state().has(self.top()),
            old(machine).state().has(src.top()),
            to <= ENTRIES,
        ensures
            final(machine).state() == adopted(
                old(machine).state(),
                self.top(),
                src.top(),
                from as int,
                to as int,
            ),
    {
        let ghost m = machine.state();
        let root = self.root();
        let other = src.root();
        let mut index: usize = from;
        while index < to
            invariant
                from <= index,
                index <= to || index == from,
                to <= ENTRIES,
                m == old(machine).state(),
                m.has(root),
                m.has(other),
                machine.state() == adopted(m, root, other, from as int, index as int),
            decreases to - index,
        {
            proof {
                adopting(m, root, other, from as int, index as int);
                assert(machine.state().has(root) == m.has(root));
                assert(machine.state().has(other) == m.has(other));
            }
            let bits = machine.read(other, index);
            if bits != 0 {
                Tables::store(machine, root, index, bits);
            }
            index += 1;
        }
        assert(adopted(m, root, other, from as int, to as int) == machine.state());
    }

    /// The descriptors the walk of `virt` reads, top first, for a fault
    /// report: the level, the index and the descriptor of each. Stops at the
    /// first that is absent or ends the walk.
    pub fn walk_of<M: Machine>(&self, machine: &M, virt: u64) -> (read: Vec<(u32, usize, u64)>)
        requires
            tree::is_tree::<M>(machine.state(), self.top(), 3),
        ensures
            read@ == trail::<M>(machine.state(), self.top(), virt, 3),
            1 <= read@.len() <= 4,
    {
        let mut read: Vec<(u32, usize, u64)> = Vec::new();
        let mut table = self.root();
        let mut level: u32 = 3;
        let ghost whole = trail::<M>(machine.state(), self.top(), virt, 3);
        proof {
            tree::path_of_is_path(virt, 0);
            assert(Seq::<(u32, usize, u64)>::empty() + whole =~= whole);
        }
        while level > 0
            invariant
                level <= 3,
                read@.len() == 3 - level,
                tree::is_tree::<M>(machine.state(), self.top(), 3),
                tree::reached::<M>(machine.state(), self.top(), 3, tree::path_of(virt).take(3 - level)) == Some(
                    table,
                ),
                whole == trail::<M>(machine.state(), self.top(), virt, 3),
                read@ + trail::<M>(machine.state(), table, virt, level as nat) == whole,
            decreases level,
        {
            proof {
                tree::path_of_is_path(virt, 3 - level);
                tree::one_level_down::<M>(machine.state(), self.top(), virt, level as int);
            }
            let index = index_of(virt, level);
            let bits = machine.read(table, index);
            let ghost before = read@;
            read.push((level, index, bits));
            if !machine.present(bits) || machine.ends_walk(bits, level) {
                assert(read@ =~= whole);
                return read;
            }
            table = machine.addr(bits);
            proof {
                let rest = trail::<M>(machine.state(), table, virt, (level - 1) as nat);
                assert(before + (seq![(level, index, bits)] + rest) =~= read@ + rest);
            }
            level -= 1;
        }
        proof {
            tree::path_of_is_path(virt, 3);
        }
        let index = index_of(virt, 0);
        let bits = machine.read(table, index);
        read.push((0, index, bits));
        assert(read@ =~= whole);
        read
    }
}

/// A range of descriptors of one top table copied into another, but for the
/// ones with nothing in them.
pub open spec fn adopted(m: MachineView, root: u64, src: u64, from: int, to: int) -> MachineView
    decreases to - from,
{
    if to <= from {
        m
    } else {
        let before = adopted(m, root, src, from, to - 1);
        let bits = before.word(src, to - 1);
        if bits != 0 {
            before.stored(root, to - 1, bits)
        } else {
            before
        }
    }
}

/// What adopting leaves.
pub proof fn adopting(m: MachineView, root: u64, src: u64, from: int, to: int)
    requires
        m.has(root),
        m.has(src),
        0 <= from,
        to <= ENTRIES,
    ensures
        ({
            let after = adopted(m, root, src, from, to);
            &&& forall|frame: u64| #[trigger] after.has(frame) == m.has(frame)
            &&& forall|frame: u64| frame != root ==> #[trigger] after.words[frame]
                == m.words[frame]
            &&& forall|i: int|
                0 <= i < ENTRIES ==> #[trigger] after.word(root, i) == (if from <= i < to
                    && m.word(src, i) != 0 {
                    m.word(src, i)
                } else {
                    m.word(root, i)
                })
            &&& after.counts == m.counts
        }),
    decreases to - from,
{
    if to > from {
        adopting(m, root, src, from, to - 1);
        let now = adopted(m, root, src, from, to - 1);
        let after = adopted(m, root, src, from, to);
        assert(now.has(root) == m.has(root));
        assert(now.has(src) == m.has(src));
        assert(now.word(src, to - 1) == m.word(src, to - 1)) by {
            if src == root {
                assert(now.word(root, to - 1) == m.word(root, to - 1));
            } else {
                assert(now.words[src] == m.words[src]);
            }
        }
        assert forall|frame: u64| #[trigger] after.has(frame) == m.has(frame) by {
            assert(now.has(frame) == m.has(frame));
        }
        assert forall|i: int| 0 <= i < ENTRIES implies #[trigger] after.word(root, i) == (if from
            <= i < to && m.word(src, i) != 0 {
            m.word(src, i)
        } else {
            m.word(root, i)
        }) by {
            assert(now.word(root, i) == (if from <= i < to - 1 && m.word(src, i) != 0 {
                m.word(src, i)
            } else {
                m.word(root, i)
            }));
        }
    }
}

/// The descriptors a walk reads on its way to an address.
pub open spec fn trail<M: Machine>(m: MachineView, table: u64, virt: u64, level: nat) -> Seq<
    (u32, usize, u64),
>
    decreases level,
{
    let index = walk::index_at(virt, level as int);
    let bits = m.word(table, index);
    let here = seq![(level as u32, index as usize, bits)];
    if !M::is_present(bits) || level == 0 || M::stops(bits, level as int) {
        here
    } else {
        here + trail::<M>(m, M::named(bits), virt, (level - 1) as nat)
    }
}

/// What is left of a hierarchy torn down below some descriptor of its top
/// table: a tree, with nothing under the descriptors below, and under the rest
/// what there was.
pub proof fn what_a_teardown_leaves<M: Machine>(
    m: MachineView,
    after: MachineView,
    root: u64,
    done: int,
)
    requires
        tree::is_tree::<M>(m, root, 3),
        0 <= done <= ENTRIES,
        is_torn_down_to::<M>(m, after, root, done),
        forall|i: int| 0 <= i < done ==> !M::is_present(#[trigger] after.word(root, i)),
        forall|i: int| done <= i < ENTRIES ==> #[trigger] after.word(root, i) == m.word(root, i),
    ensures
        tree::is_tree::<M>(after, root, 3),
        forall|virt: u64|
            walk::index_at(virt, 3) < done ==> #[trigger] tree::leaf_at::<M>(
                after,
                root,
                virt,
            ) is None,
        forall|virt: u64|
            walk::index_at(virt, 3) >= done ==> #[trigger] tree::leaf_at::<M>(after, root, virt)
                == tree::leaf_at::<M>(m, root, virt),
{
    let none = Seq::<int>::empty();
    assert(tree::is_path(none, 3));
    assert(tree::reached::<M>(m, root, 3, none) == Some(root));
    assert forall|p: Seq<int>| tree::is_path(p, 3) implies #[trigger] tree::reached::<M>(after, root, 3, p)
        == (if p.len() > 0 && p[0] < done {
        None
    } else {
        tree::reached::<M>(m, root, 3, p)
    }) by {
        left_of_a_path::<M>(m, after, root, done, p);
    }
    assert forall|p: Seq<int>| tree::is_path(p, 3) implies (#[trigger] tree::reached::<M>(after, root, 3, p)
        matches Some(t) ==> after.has(t)) by {
        if tree::reached::<M>(after, root, 3, p) is Some {
            let t = tree::reached::<M>(after, root, 3, p)->0;
            assert(tree::reached::<M>(m, root, 3, p) == Some(t));
            assert(after.has(t) == m.has(t));
        }
    }
    assert forall|virt: u64|
        walk::index_at(virt, 3) >= done implies #[trigger] tree::leaf_at::<M>(after, root, virt)
        == tree::leaf_at::<M>(m, root, virt) by {
        tree::path_of_is_path(virt, 3);
        assert(tree::path_of(virt)[0] == walk::index_at(virt, 3));
        assert(tree::reached::<M>(after, root, 3, tree::path_of(virt)) == tree::reached::<M>(
            m,
            root,
            3,
            tree::path_of(virt),
        ));
    }
    assert forall|virt: u64|
        walk::index_at(virt, 3) < done implies #[trigger] tree::leaf_at::<M>(
        after,
        root,
        virt,
    ) is None by {
        tree::path_of_is_path(virt, 3);
        assert(tree::path_of(virt)[0] == walk::index_at(virt, 3));
        assert(tree::reached::<M>(after, root, 3, tree::path_of(virt)) is None);
    }
}

/// Where one path leads after a teardown.
proof fn left_of_a_path<M: Machine>(
    m: MachineView,
    after: MachineView,
    root: u64,
    done: int,
    p: Seq<int>,
)
    requires
        tree::is_path(p, 3),
        is_torn_down_to::<M>(m, after, root, done),
        forall|i: int| 0 <= i < done ==> !M::is_present(#[trigger] after.word(root, i)),
        forall|i: int| done <= i < ENTRIES ==> #[trigger] after.word(root, i) == m.word(root, i),
    ensures
        tree::reached::<M>(after, root, 3, p) == (if p.len() > 0 && p[0] < done {
            None
        } else {
            tree::reached::<M>(m, root, 3, p)
        }),
    decreases p.len(),
{
    if p.len() > 0 {
        let before = p.drop_last();
        assert(tree::is_path(before, 3));
        left_of_a_path::<M>(m, after, root, done, before);
        if before.len() == 0 {
            assert(p.last() == p[0]);
            if p[0] < done {
                assert(!M::is_present(after.word(root, p[0])));
            } else {
                assert(after.word(root, p[0]) == m.word(root, p[0]));
            }
        } else {
            assert(before[0] == p[0]);
            if p[0] >= done && tree::reached::<M>(m, root, 3, before) is Some {
                let t = tree::reached::<M>(m, root, 3, before)->0;
                assert(after.words[t] == m.words[t]);
            }
        }
    }
}

/// Freeing every part in turn counts down once for everything the parts hold.
pub(crate) proof fn freeing_parts<M: Machine>(m: MachineView, cut: MachineView, root: u64, count: nat)
    requires
        tree::is_tree::<M>(m, root, 3),
        is_torn_down_to::<M>(m, cut, root, 0),
        cut.counts == m.counts,
        count <= ENTRIES,
    ensures
        is_torn_down_to::<M>(
            m,
            all_freed::<M>(cut, m.words[root], count),
            root,
            count as int,
        ),
        all_freed::<M>(cut, m.words[root], count).counts == all_released(
            m,
            held_by_tops::<M>(m, m.words[root], count),
        ).counts,
    decreases count,
{
    if count > 0 {
        freeing_parts::<M>(m, cut, root, (count - 1) as nat);
        let now = all_freed::<M>(cut, m.words[root], (count - 1) as nat);
        let index = count - 1;
        let bits = m.words[root][index];
        let list = held_by_tops::<M>(m, m.words[root], (count - 1) as nat);
        assert(bits == m.word(root, index));
        if M::is_present(bits) && !M::stops(bits, 3) {
            let child = M::named(bits);
            assert(tree::step::<M>(m, root, index, 3) == Some(child));
            part_still_whole::<M>(m, now, root, index, index, child);
            freeing_entries::<M>(now, child, 3, ENTRIES as nat);
            let inner = entries_freed::<M>(now, child, 3, ENTRIES as nat);
            let after = inner.released(child);
            assert(table_freed::<M>(now, child, 3) == after);
            assert(agree_outside::<M>(now, after, child, 2)) by {
                assert forall|frame: u64| #[trigger] after.has(frame) == now.has(frame) by {
                    assert(inner.has(frame) == now.has(frame));
                }
                assert forall|frame: u64|
                    is_outside::<M>(now, child, 2, frame) implies #[trigger] after.words[frame]
                    == now.words[frame] by {
                    assert(inner.words[frame] == now.words[frame]);
                }
            }
            one_part_torn_down::<M>(m, now, after, root, index, child);
            let part = held_by_entries::<M>(m, child, 3, ENTRIES as nat);
            let whole = part.push(child);
            assert(whole.drop_last() =~= part);
            assert(held_by_table::<M>(m, child, 3) == whole);
            counts_make_counts(now, all_released(m, list), whole);
            one_list_then_another(m, list, whole);
            assert(all_released(now, whole).counts == all_released(now, part).released(
                child,
            ).counts);
        } else {
            assert forall|p: Seq<int>|
                tree::is_path(p, 3) && p.len() > 0 && p[0] >= count implies (#[trigger] tree::reached::<M>(
                m,
                root,
                3,
                p,
            ) matches Some(t) ==> now.words[t] == m.words[t]) by {
            }
        }
    }
}

/// Parts detached from the top table, and the walker told, are still whole.
pub(crate) proof fn detached_is_whole<M: Machine>(m: MachineView, root: u64, count: nat)
    requires
        tree::is_tree::<M>(m, root, 3),
        count <= ENTRIES,
    ensures
        ({
            let cut = detached::<M>(m, root, count).noting(Event::FlushAll);
            is_torn_down_to::<M>(m, cut, root, 0) && cut.counts == m.counts
        }),
{
    let none = Seq::<int>::empty();
    assert(tree::is_path(none, 3));
    assert(tree::reached::<M>(m, root, 3, none) == Some(root));
    assert(m.has(root));
    detaching::<M>(m, root, count);
    let det = detached::<M>(m, root, count);
    let cut = det.noting(Event::FlushAll);
    assert(is_torn_down_to::<M>(m, cut, root, 0)) by {
        assert forall|frame: u64| #[trigger] cut.has(frame) == m.has(frame) by {
            assert(det.has(frame) == m.has(frame));
        }
        assert forall|p: Seq<int>|
            tree::is_path(p, 3) && p.len() > 0 && p[0] >= 0 implies (#[trigger] tree::reached::<M>(
            m,
            root,
            3,
            p,
        ) matches Some(t) ==> cut.words[t] == m.words[t]) by {
            if tree::reached::<M>(m, root, 3, p) is Some {
                let t = tree::reached::<M>(m, root, 3, p)->0;
                if t == root {
                    assert(p == none);
                }
                assert(det.words[t] == m.words[t]);
            }
        }
        assert forall|frame: u64|
            is_outside::<M>(m, root, 3, frame) implies #[trigger] cut.words[frame]
            == m.words[frame] by {
            assert(frame != root);
            assert(det.words[frame] == m.words[frame]);
        }
    }
}

/// Tearing a hierarchy down gives back exactly what it holds: one reference
/// for every page mapped below the limit and for every table below the top
/// that led to one, and none besides.
pub proof fn a_teardown_gives_back_what_was_held<M: Machine>(m: MachineView, root: u64, limit: u64)
    requires
        tree::is_tree::<M>(m, root, 3),
    ensures
        emptied_below::<M>(m, root, limit).counts == all_released(
            m,
            held_by_tops::<M>(m, m.words[root], tops_below(limit)),
        ).counts,
{
    let count = tops_below(limit);
    let cut = detached::<M>(m, root, count).noting(Event::FlushAll);
    detached_is_whole::<M>(m, root, count);
    freeing_parts::<M>(m, cut, root, count);
}

/// What a machine was asked to do before stays at the front of its journal.
pub open spec fn goes_on_from(after: Seq<Event>, before: Seq<Event>) -> bool {
    after.len() >= before.len() && after.take(before.len() as int) == before
}

pub(crate) proof fn goes_on_further(a: Seq<Event>, b: Seq<Event>, c: Seq<Event>)
    requires
        goes_on_from(b, a),
        goes_on_from(c, b),
    ensures
        goes_on_from(c, a),
{
    assert(c.take(a.len() as int) =~= c.take(b.len() as int).take(a.len() as int));
}

pub(crate) proof fn one_event_on(a: Seq<Event>, b: Seq<Event>, event: Event)
    requires
        goes_on_from(b, a),
    ensures
        goes_on_from(b.push(event), a),
{
    assert(b.push(event).take(a.len() as int) =~= b.take(a.len() as int));
}

pub(crate) proof fn freeing_goes_on<M: Machine>(m: MachineView, table: u64, height: nat, count: nat)
    ensures
        goes_on_from(entries_freed::<M>(m, table, height, count).journal, m.journal),
    decreases height, count,
{
    if count == 0 || height == 0 {
        assert(m.journal.take(m.journal.len() as int) =~= m.journal);
    } else {
        freeing_goes_on::<M>(m, table, height, (count - 1) as nat);
        let before = entries_freed::<M>(m, table, height, (count - 1) as nat);
        let bits = before.word(table, count - 1);
        if M::is_present(bits) {
            let freed = if height == 1 || M::stops(bits, height - 1) {
                one_event_on(m.journal, before.journal, Event::Free(M::named(bits)));
                before.released(M::named(bits))
            } else {
                let child = M::named(bits);
                freeing_goes_on::<M>(before, child, (height - 1) as nat, ENTRIES as nat);
                let inner = entries_freed::<M>(
                    before,
                    child,
                    (height - 1) as nat,
                    ENTRIES as nat,
                );
                goes_on_further(m.journal, before.journal, inner.journal);
                one_event_on(m.journal, inner.journal, Event::Free(child));
                assert(table_freed::<M>(before, child, (height - 1) as nat) == inner.released(
                    child,
                ));
                table_freed::<M>(before, child, (height - 1) as nat)
            };
            one_event_on(m.journal, freed.journal, Event::Barrier);
            one_event_on(
                m.journal,
                freed.journal.push(Event::Barrier),
                Event::Store { table, index: (count - 1) as usize, bits: 0 },
            );
        }
    }
}

pub(crate) proof fn freeing_all_goes_on<M: Machine>(m: MachineView, tops: Seq<u64>, count: nat)
    ensures
        goes_on_from(all_freed::<M>(m, tops, count).journal, m.journal),
    decreases count,
{
    if count == 0 {
        assert(m.journal.take(m.journal.len() as int) =~= m.journal);
    } else {
        freeing_all_goes_on::<M>(m, tops, (count - 1) as nat);
        let before = all_freed::<M>(m, tops, (count - 1) as nat);
        let bits = tops[count - 1];
        if M::is_present(bits) && !M::stops(bits, 3) {
            freeing_goes_on::<M>(before, M::named(bits), 3, ENTRIES as nat);
            let inner = entries_freed::<M>(before, M::named(bits), 3, ENTRIES as nat);
            goes_on_further(m.journal, before.journal, inner.journal);
            one_event_on(m.journal, inner.journal, Event::Free(M::named(bits)));
        }
    }
}

pub(crate) proof fn detaching_frees_nothing<M: Machine>(m: MachineView, root: u64, count: nat)
    ensures
        ({
            let after = detached::<M>(m, root, count).journal;
            &&& goes_on_from(after, m.journal)
            &&& forall|i: int|
                m.journal.len() <= i < after.len() ==> !(#[trigger] after[i] is Free)
        }),
    decreases count,
{
    if count == 0 {
        assert(m.journal.take(m.journal.len() as int) =~= m.journal);
    } else {
        detaching_frees_nothing::<M>(m, root, (count - 1) as nat);
        let before = detached::<M>(m, root, (count - 1) as nat);
        one_event_on(m.journal, before.journal, Event::Barrier);
        one_event_on(
            m.journal,
            before.journal.push(Event::Barrier),
            Event::Store { table: root, index: (count - 1) as usize, bits: 0 },
        );
    }
}

/// A teardown gives nothing back before the walker has been told: between its
/// start and the moment everything cached is thrown away, no reference goes.
pub proof fn nothing_is_given_back_before_the_flush<M: Machine>(m: MachineView, root: u64, limit: u64)
    ensures
        ({
            let after = emptied_below::<M>(m, root, limit).journal;
            let flush = detached::<M>(m, root, tops_below(limit)).journal.len() as int;
            &&& goes_on_from(after, m.journal)
            &&& m.journal.len() <= flush < after.len()
            &&& after[flush] is FlushAll
            &&& forall|i: int| m.journal.len() <= i < flush ==> !(#[trigger] after[i] is Free)
        }),
{
    let count = tops_below(limit);
    let det = detached::<M>(m, root, count);
    let cut = det.noting(Event::FlushAll);
    detaching_frees_nothing::<M>(m, root, count);
    freeing_all_goes_on::<M>(cut, m.words[root], count);
    let after = emptied_below::<M>(m, root, limit).journal;
    one_event_on(m.journal, det.journal, Event::FlushAll);
    goes_on_further(m.journal, cut.journal, after);
    assert forall|i: int| 0 <= i < cut.journal.len() implies #[trigger] after[i]
        == cut.journal[i] by {
        assert(after.take(cut.journal.len() as int)[i] == after[i]);
    }
}

/// A blank top table that takes over the kernel's half of another is a tree,
/// with nothing in the half a program owns, and with what the other has in the
/// kernel's.
pub proof fn a_fresh_space_shares_the_kernel_half<M: Machine>(m: MachineView, root: u64, kernel: u64)
    requires
        tree::is_tree::<M>(m, kernel, 3),
        tree::is_spare::<M>(m, kernel, root),
    ensures
        ({
            let after = adopted(m, root, kernel, 256, ENTRIES as int);
            &&& tree::is_tree::<M>(after, root, 3)
            &&& forall|virt: u64|
                walk::index_at(virt, 3) < 256 ==> #[trigger] tree::leaf_at::<M>(
                    after,
                    root,
                    virt,
                ) is None
            &&& forall|virt: u64|
                walk::index_at(virt, 3) >= 256 ==> #[trigger] tree::leaf_at::<M>(after, root, virt)
                    == tree::leaf_at::<M>(m, kernel, virt)
            &&& forall|p: Seq<int>|
                tree::is_path(p, 3) && p.len() > 0 ==> #[trigger] tree::reached::<M>(after, root, 3, p) == (if p[0]
                    < 256 {
                    None
                } else {
                    tree::reached::<M>(m, kernel, 3, p)
                })
        }),
{
    M::format_holds();
    let none = Seq::<int>::empty();
    assert(tree::is_path(none, 3));
    assert(tree::reached::<M>(m, kernel, 3, none) == Some(kernel));
    assert(root != kernel);
    let after = adopted(m, root, kernel, 256, ENTRIES as int);
    adopting(m, root, kernel, 256, ENTRIES as int);
    assert forall|p: Seq<int>| tree::is_path(p, 3) && p.len() > 0 implies #[trigger] tree::reached::<M>(
        after,
        root,
        3,
        p,
    ) == (if p[0] < 256 {
        None
    } else {
        tree::reached::<M>(m, kernel, 3, p)
    }) by {
        through_the_kernel_half::<M>(m, after, root, kernel, p);
    }
    assert(tree::reached::<M>(after, root, 3, none) == Some(root));
    assert forall|p: Seq<int>| tree::is_path(p, 3) && p.len() == 0 implies p == none by {
        assert(p =~= none);
    }
    assert forall|p: Seq<int>| tree::is_path(p, 3) implies (#[trigger] tree::reached::<M>(after, root, 3, p)
        matches Some(t) ==> after.has(t) && (p.len() > 0 ==> t != root && tree::reached::<M>(
        m,
        kernel,
        3,
        p,
    ) == Some(t))) by {
        if tree::reached::<M>(after, root, 3, p) is Some {
            let t = tree::reached::<M>(after, root, 3, p)->0;
            if p.len() > 0 {
                assert(tree::reached::<M>(m, kernel, 3, p) == Some(t));
                assert(after.has(t) == m.has(t));
            } else {
                assert(after.has(root) == m.has(root));
            }
        }
    }
    assert forall|p: Seq<int>, q: Seq<int>|
        #![trigger tree::reached::<M>(after, root, 3, p), tree::reached::<M>(after, root, 3, q)]
        tree::is_path(p, 3) && tree::is_path(q, 3) && tree::reached::<M>(after, root, 3, p) is Some && tree::reached::<M>(
            after,
            root,
            3,
            p,
        ) == tree::reached::<M>(after, root, 3, q) implies p == q by {
        if p.len() > 0 && q.len() > 0 {
            assert(tree::reached::<M>(m, kernel, 3, p) == tree::reached::<M>(m, kernel, 3, q));
        } else if p.len() == 0 && q.len() == 0 {
            assert(p =~= q);
        }
    }
    assert forall|virt: u64|
        walk::index_at(virt, 3) >= 256 implies #[trigger] tree::leaf_at::<M>(after, root, virt)
        == tree::leaf_at::<M>(m, kernel, virt) by {
        tree::path_of_is_path(virt, 3);
        assert(tree::path_of(virt)[0] == walk::index_at(virt, 3));
        assert(tree::reached::<M>(after, root, 3, tree::path_of(virt)) == tree::reached::<M>(
            m,
            kernel,
            3,
            tree::path_of(virt),
        ));
        if tree::reached::<M>(m, kernel, 3, tree::path_of(virt)) is Some {
            let t = tree::reached::<M>(m, kernel, 3, tree::path_of(virt))->0;
            assert(t != root);
            assert(after.words[t] == m.words[t]);
        }
    }
    assert forall|virt: u64|
        walk::index_at(virt, 3) < 256 implies #[trigger] tree::leaf_at::<M>(
        after,
        root,
        virt,
    ) is None by {
        tree::path_of_is_path(virt, 3);
        assert(tree::path_of(virt)[0] == walk::index_at(virt, 3));
        assert(tree::reached::<M>(after, root, 3, tree::path_of(virt)) is None);
    }
}

/// Where one path leads in a space that shares the kernel's half.
proof fn through_the_kernel_half<M: Machine>(
    m: MachineView,
    after: MachineView,
    root: u64,
    kernel: u64,
    p: Seq<int>,
)
    requires
        tree::is_path(p, 3),
        p.len() > 0,
        !M::is_present(0),
        tree::is_spare::<M>(m, kernel, root),
        forall|frame: u64| frame != root ==> #[trigger] after.words[frame] == m.words[frame],
        forall|i: int|
            0 <= i < ENTRIES ==> #[trigger] after.word(root, i) == (if 256 <= i < ENTRIES && m.word(
                kernel,
                i,
            ) != 0 {
                m.word(kernel, i)
            } else {
                m.word(root, i)
            }),
    ensures
        tree::reached::<M>(after, root, 3, p) == (if p[0] < 256 {
            None
        } else {
            tree::reached::<M>(m, kernel, 3, p)
        }),
    decreases p.len(),
{
    let before = p.drop_last();
    assert(tree::is_path(before, 3));
    assert(m.words[root] == walk::blank());
    if before.len() == 0 {
        assert(p.last() == p[0]);
        assert(tree::reached::<M>(after, root, 3, before) == Some(root));
        assert(tree::reached::<M>(m, kernel, 3, before) == Some(kernel));
        assert(m.word(root, p[0]) == 0);
        assert(after.word(root, p[0]) == (if p[0] >= 256 {
            m.word(kernel, p[0])
        } else {
            0
        }));
    } else {
        through_the_kernel_half::<M>(m, after, root, kernel, before);
        assert(before[0] == p[0]);
        if p[0] >= 256 && tree::reached::<M>(m, kernel, 3, before) is Some {
            let t = tree::reached::<M>(m, kernel, 3, before)->0;
            assert(t != root);
            assert(after.words[t] == m.words[t]);
        }
    }
}

} // verus!
