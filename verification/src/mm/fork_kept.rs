//! What a fork leaves alone: every frame somebody held that is not one of the
//! parent's own tables keeps what is in it.

use crate::mm::change;
use crate::mm::fork;
use crate::mm::fork_counts;
use crate::mm::fork_told;
use crate::mm::sweep;
use crate::mm::teardown;
use crate::mm::tree;
use crate::mm::walk::{self, Machine, MachineView, Tlb, ENTRIES};
use crate::mm::USER_LIMIT;
use vstd::prelude::*;

verus! {

/// A frame is one of the tables of a space's own half.
pub open spec fn is_own_table<M: Machine>(m: MachineView, root: u64, frame: u64) -> bool {
    exists|p: Seq<int>|
        sweep::is_own(p) && #[trigger] tree::reached::<M>(m, root, 3, p) == Some(frame)
}

/// What was in every frame somebody held, past the parent's own tables, is
/// still in it: a program's pages are what they were.
#[verifier::opaque]
pub open spec fn rest_is_kept<M: Machine>(
    start: MachineView,
    m: MachineView,
    parent: u64,
) -> bool {
    &&& forall|frame: u64| #[trigger] m.has(frame) == start.has(frame)
    &&& forall|frame: u64|
        start.count(frame) > 0 && start.has(frame) && !is_own_table::<M>(start, parent, frame)
            ==> #[trigger] m.words[frame] == start.words[frame]
}

/// The tables of the child's own half are frames nobody held.
#[verifier::opaque]
pub open spec fn tables_are_new<M: Machine>(
    start: MachineView,
    m: MachineView,
    child: u64,
) -> bool {
    forall|p: Seq<int>|
        sweep::is_own(p) ==> (#[trigger] tree::reached::<M>(m, child, 3, p) matches Some(t)
            ==> start.count(t) <= 0)
}

/// The same words keep the same.
pub(crate) proof fn kept_by_the_same<M: Machine>(
    start: MachineView,
    m: MachineView,
    after: MachineView,
    child: u64,
    parent: u64,
)
    requires
        rest_is_kept::<M>(start, m, parent),
        tables_are_new::<M>(start, m, child),
        after.words == m.words,
    ensures
        rest_is_kept::<M>(start, after, parent),
        tables_are_new::<M>(start, after, child),
{
    reveal(rest_is_kept);
    reveal(tables_are_new);
    assert forall|frame: u64| #[trigger] after.has(frame) == start.has(frame) by {
        assert(m.has(frame) == start.has(frame));
    }
    sweep::same_words_same_ways::<M>(m, after, child);
    assert forall|p: Seq<int>| sweep::is_own(p) implies (#[trigger] tree::reached::<M>(
        after,
        child,
        3,
        p,
    ) matches Some(t) ==> start.count(t) <= 0) by {
        assert(tree::reached::<M>(after, child, 3, p) == tree::reached::<M>(m, child, 3, p));
    }
}

/// A fork with nothing done yet.
pub(crate) proof fn nothing_written_yet<M: Machine>(start: MachineView, parent: u64)
    ensures
        rest_is_kept::<M>(start, start, parent),
        rest_is_kept::<M>(start, start.noting(walk::Event::NoFrame), parent),
{
    reveal(rest_is_kept);
}

/// A fresh child writes nothing but its top table.
pub(crate) proof fn kept_from_the_start<M: Machine>(
    start: MachineView,
    m: MachineView,
    child: u64,
    parent: u64,
    kernel: u64,
)
    requires
        start.count(child) == 0,
        start.has(child),
        start.has(kernel),
        m == teardown::adopted(start.handed_over(child), child, kernel, 256, ENTRIES as int),
    ensures
        rest_is_kept::<M>(start, m, parent),
        tables_are_new::<M>(start, m, child),
{
    M::format_holds();
    reveal(rest_is_kept);
    reveal(tables_are_new);
    let ready = start.handed_over(child);
    teardown::adopting(ready, child, kernel, 256, ENTRIES as int);
    assert forall|frame: u64| #[trigger] m.has(frame) == start.has(frame) by {
        assert(ready.has(frame) == start.has(frame));
    }
    assert forall|frame: u64|
        start.count(frame) > 0 && start.has(frame) && !is_own_table::<M>(
            start,
            parent,
            frame,
        ) implies #[trigger] m.words[frame] == start.words[frame] by {
        assert(frame != child);
        assert(ready.words[frame] == start.words[frame]);
    }
    assert forall|i: int| 0 <= i < 256 implies !M::is_present(#[trigger] m.word(child, i)) by {
        assert(m.word(child, i) == ready.word(child, i));
    }
    assert forall|p: Seq<int>| sweep::is_own(p) implies (#[trigger] tree::reached::<M>(
        m,
        child,
        3,
        p,
    ) matches Some(t) ==> start.count(t) <= 0) by {
        if p.len() > 0 {
            leads_nowhere::<M>(m, child, p);
        }
    }
}

/// Where nothing is in a space's own half no way leads down it.
proof fn leads_nowhere<M: Machine>(m: MachineView, child: u64, p: Seq<int>)
    requires
        sweep::is_own(p),
        p.len() > 0,
        forall|i: int| 0 <= i < 256 ==> !M::is_present(#[trigger] m.word(child, i)),
    ensures
        tree::reached::<M>(m, child, 3, p) is None,
    decreases p.len(),
{
    let before = p.drop_last();
    if before.len() == 0 {
        assert(tree::reached::<M>(m, child, 3, before) == Some(child));
        assert(p.last() == p[0]);
        assert(!M::is_present(m.word(child, p[0])));
    } else {
        assert(before[0] == p[0]);
        assert(sweep::is_own(before));
        leads_nowhere::<M>(m, child, before);
    }
}

/// A frame taken from what nobody held.
pub(crate) proof fn kept_with_one_more<M: Machine>(
    start: MachineView,
    m: MachineView,
    child: u64,
    parent: u64,
    fresh: u64,
)
    requires
        rest_is_kept::<M>(start, m, parent),
        tables_are_new::<M>(start, m, child),
        fork_counts::all_counted::<M>(start, m, child),
        m.count(fresh) == 0,
        m.has(fresh),
        forall|p: Seq<int>|
            tree::is_path(p, 3) ==> #[trigger] tree::reached::<M>(m, child, 3, p) != Some(fresh),
    ensures
        rest_is_kept::<M>(start, m.handed_over(fresh), parent),
        tables_are_new::<M>(start, m.handed_over(fresh), child),
{
    reveal(rest_is_kept);
    reveal(tables_are_new);
    let after = m.handed_over(fresh);
    assert forall|frame: u64| #[trigger] after.has(frame) == start.has(frame) by {
        assert(m.has(frame) == start.has(frame));
    }
    assert(start.count(fresh) <= 0) by {
        reveal(fork_counts::all_counted);
        if start.count(fresh) > 0 {
            assert(m.count(fresh) > 0);
        }
    }
    assert forall|p: Seq<int>| tree::is_path(p, 3) implies (#[trigger] tree::reached::<M>(
        m,
        child,
        3,
        p,
    ) matches Some(t) ==> after.words[t] == m.words[t]) by {
        assert(tree::reached::<M>(m, child, 3, p) != Some(fresh));
    }
    sweep::out_of_sight::<M>(m, after, child);
    assert forall|p: Seq<int>| sweep::is_own(p) implies (#[trigger] tree::reached::<M>(
        after,
        child,
        3,
        p,
    ) matches Some(t) ==> start.count(t) <= 0) by {
        assert(tree::reached::<M>(after, child, 3, p) == tree::reached::<M>(m, child, 3, p));
    }
}

/// Putting a page in for the child writes nothing anybody held, and its tables
/// are still new.
#[verifier::spinoff_prover]
proof fn kept_by_a_page<M: Machine>(
    start: MachineView,
    m: MachineView,
    child: u64,
    parent: u64,
    virt: u64,
    phys: u64,
    flags: u64,
    stock: Seq<u64>,
)
    requires
        sweep::side_by_side::<M>(m, child, parent, stock),
        virt < USER_LIMIT,
        change::refusal::<M>(m, child, virt, 3, stock.len()) is None,
        rest_is_kept::<M>(start, m, parent),
        tables_are_new::<M>(start, m, child),
        forall|i: int| 0 <= i < stock.len() ==> start.count(#[trigger] stock[i]) <= 0,
    ensures
        ({
            let after = change::published::<M>(m, child, virt, phys, flags, stock).0;
            &&& tables_are_new::<M>(start, after, child)
            &&& rest_is_kept::<M>(start, after, parent)
        }),
{
    reveal(rest_is_kept);
    reveal(tables_are_new);
    let bits = M::leaf_bits(phys, flags);
    change::the_way_is_made::<M>(m, child, virt, flags, stock);
    let (open, left, table) = change::way_made::<M>(m, child, virt, 3, flags, stock);
    let after = change::published::<M>(m, child, virt, phys, flags, stock).0;
    change::written_at_the_end::<M>(m, child, virt, stock, open, left, table, bits);
    tree::path_of_is_path(virt, 3);
    assert forall|t: u64| stock.contains(t) implies start.count(t) <= 0 by {
        let i = choose|i: int| 0 <= i < stock.len() && stock[i] == t;
        assert(start.count(stock[i]) <= 0);
    }
    assert forall|p: Seq<int>| sweep::is_own(p) implies (#[trigger] tree::reached::<M>(
        open,
        child,
        3,
        p,
    ) matches Some(t) ==> start.count(t) <= 0) by {
        if tree::reached::<M>(open, child, 3, p) is Some {
            let t = tree::reached::<M>(open, child, 3, p)->0;
            if !stock.contains(t) {
                assert(tree::reached::<M>(m, child, 3, p) == Some(t));
            }
        }
    }
    assert forall|p: Seq<int>| sweep::is_own(p) implies (#[trigger] tree::reached::<M>(
        after,
        child,
        3,
        p,
    ) matches Some(t) ==> start.count(t) <= 0) by {
        assert(tree::reached::<M>(after, child, 3, p) == tree::reached::<M>(open, child, 3, p));
    }
    assert(open.has(table));
    assert forall|frame: u64| #[trigger] after.has(frame) == start.has(frame) by {
        assert(open.has(frame) == m.has(frame));
        assert(m.has(frame) == start.has(frame));
    }
    assert forall|frame: u64|
        start.count(frame) > 0 && start.has(frame) && !is_own_table::<M>(
            start,
            parent,
            frame,
        ) implies #[trigger] after.words[frame] == start.words[frame] by {
        assert(m.has(frame) == start.has(frame));
        assert(m.words[frame] == start.words[frame]);
        assert(!stock.contains(frame));
        assert(!change::on_the_way::<M>(open, child, virt, 3, frame)) by {
            if change::on_the_way::<M>(open, child, virt, 3, frame) {
                let k = choose|k: int|
                    0 <= k < 3 && #[trigger] tree::reached::<M>(
                        open,
                        child,
                        3,
                        tree::path_of(virt).take(k),
                    ) == Some(frame);
                sweep::own_addresses_take_own_ways(virt, k);
            }
        }
        assert(open.words[frame] == m.words[frame]);
        sweep::own_addresses_take_own_ways(virt, 3);
        assert(tree::reached::<M>(open, child, 3, tree::path_of(virt)) == Some(table));
        assert(frame != table);
    }
}

/// One page more shared.
#[verifier::spinoff_prover]
proof fn one_page_keeps<M: Machine>(
    start: MachineView,
    m: MachineView,
    child: u64,
    parent: u64,
    virt: u64,
    stock: Seq<u64>,
    tlb: Tlb,
)
    requires
        sweep::side_by_side::<M>(m, child, parent, stock),
        virt < USER_LIMIT,
        rest_is_kept::<M>(start, m, parent),
        tables_are_new::<M>(start, m, child),
        forall|i: int| 0 <= i < stock.len() ==> start.count(#[trigger] stock[i]) <= 0,
        forall|p: Seq<int>|
            tree::is_path(p, 3) ==> #[trigger] tree::reached::<M>(m, parent, 3, p)
                == tree::reached::<M>(start, parent, 3, p),
    ensures
        ({
            let s = sweep::page_shared::<M>(m, child, parent, virt, stock, tlb);
            &&& rest_is_kept::<M>(start, s.memory, parent)
            &&& tables_are_new::<M>(start, s.memory, child)
        }),
{
    let s = sweep::page_shared::<M>(m, child, parent, virt, stock, tlb);
    let after = s.memory;
    let page = tree::leaf_at::<M>(m, parent, virt);
    if page is Some {
        let bits = page->0;
        let phys = M::named(bits);
        let flags = sweep::given_flags::<M>(bits);
        let counted = m.shared(phys);
        let ready = sweep::marked::<M>(m, parent, virt, bits);
        let table = tree::leaf_table::<M>(m, parent, virt)->0;
        tree::path_of_is_path(virt, 3);
        sweep::own_addresses_take_own_ways(virt, 3);
        sweep::same_words_same_ways::<M>(m, counted, parent);
        assert(tree::reached::<M>(counted, parent, 3, tree::path_of(virt)) == Some(table));
        assert(tree::reached::<M>(start, parent, 3, tree::path_of(virt)) == Some(table));
        assert(is_own_table::<M>(start, parent, table));
        assert(m.has(table));
        fork_counts::ready_to_share::<M>(m, child, parent, virt, bits, stock);
        assert(rest_is_kept::<M>(start, ready, parent)) by {
            reveal(rest_is_kept);
            assert forall|frame: u64| #[trigger] ready.has(frame) == start.has(frame) by {
                assert(m.has(frame) == start.has(frame));
            }
            assert forall|frame: u64|
                start.count(frame) > 0 && start.has(frame) && !is_own_table::<M>(
                    start,
                    parent,
                    frame,
                ) implies #[trigger] ready.words[frame] == start.words[frame] by {
                assert(frame != table);
                assert(m.words[frame] == start.words[frame]);
            }
        }
        assert forall|p: Seq<int>| tree::is_path(p, 3) implies (#[trigger] tree::reached::<M>(
            m,
            child,
            3,
            p,
        ) matches Some(t) ==> ready.words[t] == m.words[t]) by {
            assert(tree::reached::<M>(m, parent, 3, tree::path_of(virt)) == Some(table));
            assert(tree::reached::<M>(m, child, 3, p) != Some(table));
        }
        sweep::out_of_sight::<M>(m, ready, child);
        assert(tables_are_new::<M>(start, ready, child)) by {
            reveal(tables_are_new);
            assert forall|p: Seq<int>| sweep::is_own(p) implies (#[trigger] tree::reached::<M>(
                ready,
                child,
                3,
                p,
            ) matches Some(t) ==> start.count(t) <= 0) by {
                assert(tree::reached::<M>(ready, child, 3, p) == tree::reached::<M>(
                    m,
                    child,
                    3,
                    p,
                ));
            }
        }
        if change::refusal::<M>(ready, child, virt, 3, stock.len()) is Some {
            kept_by_the_same::<M>(start, ready, after, child, parent);
        } else {
            kept_by_a_page::<M>(start, ready, child, parent, virt, phys, flags, stock);
        }
    }
}

/// A run of pages more.
#[verifier::spinoff_prover]
pub(crate) proof fn some_pages_keep<M: Machine>(
    start: MachineView,
    m: MachineView,
    child: u64,
    parent: u64,
    kernel: u64,
    at: u64,
    count: nat,
    stock: Seq<u64>,
    tlb: Tlb,
)
    requires
        fork::is_family::<M>(start, m, child, parent, kernel, stock),
        fork::is_forked_to::<M>(start, m, child, parent, at as int),
        fork_told::is_told::<M>(start, m, parent),
        rest_is_kept::<M>(start, m, parent),
        tables_are_new::<M>(start, m, child),
        fork_counts::none_lost::<M>(start, m, child, stock),
        at % 0x1000 == 0,
        at + count * 0x1000 <= USER_LIMIT,
    ensures
        ({
            let s = sweep::pages_shared::<M>(m, child, parent, at, count, stock, tlb);
            &&& rest_is_kept::<M>(start, s.memory, parent)
            &&& tables_are_new::<M>(start, s.memory, child)
            &&& s.stock.len() <= stock.len()
            &&& s.stock == stock.take(s.stock.len() as int)
            &&& forall|p: Seq<int>|
                tree::is_path(p, 3) ==> #[trigger] tree::reached::<M>(s.memory, parent, 3, p)
                    == tree::reached::<M>(start, parent, 3, p)
        }),
    decreases count,
{
    assert(forall|i: int| 0 <= i < stock.len() ==> start.count(#[trigger] stock[i]) <= 0) by {
        reveal(fork_counts::none_lost);
    }
    if count == 0 {
        reveal(fork_told::is_told);
        assert(stock.take(stock.len() as int) =~= stock);
    } else {
        let less = (count - 1) as nat;
        some_pages_keep::<M>(start, m, child, parent, kernel, at, less, stock, tlb);
        let before = sweep::pages_shared::<M>(m, child, parent, at, less, stock, tlb);
        if before.result is Ok {
            let next = (at + less * 0x1000) as u64;
            assert(sweep::side_by_side::<M>(before.memory, child, parent, before.stock)) by {
                fork::some_pages_further::<M>(
                    start,
                    m,
                    child,
                    parent,
                    kernel,
                    at,
                    less,
                    stock,
                    tlb,
                );
            }
            assert forall|i: int| 0 <= i < before.stock.len() implies start.count(
                #[trigger] before.stock[i],
            ) <= 0 by {
                assert(before.stock[i] == stock[i]);
            }
            one_page_keeps::<M>(
                start,
                before.memory,
                child,
                parent,
                next,
                before.stock,
                before.tlb,
            );
            fork::where_sharing_leads::<M>(
                before.memory,
                child,
                parent,
                next,
                before.stock,
                before.tlb,
            );
            let s = sweep::page_shared::<M>(
                before.memory,
                child,
                parent,
                next,
                before.stock,
                before.tlb,
            );
            assert(s.stock =~= stock.take(s.stock.len() as int));
            assert forall|p: Seq<int>| tree::is_path(p, 3) implies #[trigger] tree::reached::<M>(
                s.memory,
                parent,
                3,
                p,
            ) == tree::reached::<M>(start, parent, 3, p) by {
                assert(tree::reached::<M>(before.memory, parent, 3, p) == tree::reached::<M>(
                    start,
                    parent,
                    3,
                    p,
                ));
            }
        }
    }
}

/// Tearing the child down writes nothing anybody held.
pub(crate) proof fn kept_after_a_teardown<M: Machine>(
    start: MachineView,
    m: MachineView,
    after: MachineView,
    child: u64,
    parent: u64,
)
    requires
        rest_is_kept::<M>(start, m, parent),
        tables_are_new::<M>(start, m, child),
        teardown::is_torn_down_to::<M>(m, after, child, 256),
    ensures
        rest_is_kept::<M>(start, after, parent),
{
    reveal(rest_is_kept);
    reveal(tables_are_new);
    assert forall|frame: u64| #[trigger] after.has(frame) == start.has(frame) by {
        assert(after.has(frame) == m.has(frame));
        assert(m.has(frame) == start.has(frame));
    }
    assert forall|frame: u64|
        start.count(frame) > 0 && start.has(frame) && !is_own_table::<M>(
            start,
            parent,
            frame,
        ) implies #[trigger] after.words[frame] == start.words[frame] by {
        assert(m.words[frame] == start.words[frame]);
        if !teardown::is_outside::<M>(m, child, 3, frame) {
            let q = choose|q: Seq<int>|
                tree::is_path(q, 3) && #[trigger] tree::reached::<M>(m, child, 3, q) == Some(frame);
            assert(!sweep::is_own(q));
            assert(q.len() > 0 && q[0] >= 256);
        }
        assert(after.words[frame] == m.words[frame]);
    }
}

} // verus!
