//! The translations a fork leaves behind: every descriptor of the parent's
//! that it writes has what was cached for it thrown away afterwards.

use crate::mm::change;
use crate::mm::fork;
use crate::mm::fork_counts;
use crate::mm::holding;
use crate::mm::sweep;
use crate::mm::tables;
use crate::mm::teardown;
use crate::mm::tree;
use crate::mm::walk::{self, Event, Machine, MachineView, Tlb, ENTRIES};
use crate::mm::USER_LIMIT;
use vstd::prelude::*;

verus! {

/// The last descriptor of an address of a space was written.
pub open spec fn is_store_at<M: Machine>(
    event: Event,
    m: MachineView,
    root: u64,
    virt: u64,
) -> bool {
    event matches Event::Store { table, index, .. } && tree::leaf_table::<M>(m, root, virt) == Some(
        table,
    ) && index == walk::index_at(virt, 0)
}

/// What was cached for an address went.
pub open spec fn throws_away(event: Event, virt: u64) -> bool {
    match event {
        Event::FlushAll => true,
        Event::FlushPage(page) => tree::page_of(page) == tree::page_of(virt),
        _ => false,
    }
}

/// The parent's tables are where they were, and each of their last descriptors
/// that has been written since has had what was cached for its address thrown
/// away after that.
#[verifier::opaque]
pub open spec fn is_told<M: Machine>(start: MachineView, m: MachineView, parent: u64) -> bool {
    &&& teardown::goes_on_from(m.journal, start.journal)
    &&& forall|p: Seq<int>|
        tree::is_path(p, 3) ==> #[trigger] tree::reached::<M>(m, parent, 3, p)
            == tree::reached::<M>(start, parent, 3, p)
    &&& forall|i: int, virt: u64|
        #![trigger is_store_at::<M>(m.journal[i], start, parent, virt)]
        start.journal.len() <= i < m.journal.len() && virt < USER_LIMIT && is_store_at::<M>(
            m.journal[i],
            start,
            parent,
            virt,
        ) ==> exists|j: int| i < j < m.journal.len() && #[trigger] throws_away(m.journal[j], virt)
}

/// What throwing away what is noted throws away.
spec fn covers_page(tlb: Tlb, virt: u64) -> bool {
    match tlb {
        Tlb::Clean => false,
        Tlb::Page(page) => tree::page_of(page) == tree::page_of(virt),
        Tlb::All => true,
    }
}

/// The parent's tables are where they were, and each of their last descriptors
/// that has been written since `before` is noted.
#[verifier::opaque]
spec fn is_noted<M: Machine>(
    start: MachineView,
    before: MachineView,
    m: MachineView,
    parent: u64,
    tlb: Tlb,
) -> bool {
    &&& teardown::goes_on_from(m.journal, before.journal)
    &&& forall|p: Seq<int>|
        tree::is_path(p, 3) ==> #[trigger] tree::reached::<M>(m, parent, 3, p)
            == tree::reached::<M>(start, parent, 3, p)
    &&& forall|i: int, virt: u64|
        #![trigger is_store_at::<M>(m.journal[i], start, parent, virt)]
        before.journal.len() <= i < m.journal.len() && virt < USER_LIMIT && is_store_at::<M>(
            m.journal[i],
            start,
            parent,
            virt,
        ) ==> covers_page(tlb, virt)
}

/// No store since some moment was to a table of a space's own.
spec fn stores_elsewhere<M: Machine>(
    journal: Seq<Event>,
    from: int,
    start: MachineView,
    parent: u64,
) -> bool {
    forall|k: int|
        from <= k < journal.len() ==> (#[trigger] journal[k] matches Event::Store { table, .. }
            ==> forall|virt: u64|
            virt < USER_LIMIT ==> #[trigger] tree::leaf_table::<M>(start, parent, virt) != Some(
                table,
            ))
}

/// What was told stays told while nothing of the parent's is written.
proof fn still_told<M: Machine>(
    start: MachineView,
    m: MachineView,
    after: MachineView,
    parent: u64,
)
    requires
        is_told::<M>(start, m, parent),
        teardown::goes_on_from(after.journal, m.journal),
        stores_elsewhere::<M>(after.journal, m.journal.len() as int, start, parent),
        forall|p: Seq<int>|
            tree::is_path(p, 3) ==> #[trigger] tree::reached::<M>(after, parent, 3, p)
                == tree::reached::<M>(m, parent, 3, p),
    ensures
        is_told::<M>(start, after, parent),
{
    reveal(is_told);
    teardown::goes_on_further(start.journal, m.journal, after.journal);
    assert forall|k: int| 0 <= k < m.journal.len() implies #[trigger] after.journal[k]
        == m.journal[k] by {
        assert(after.journal.take(m.journal.len() as int)[k] == after.journal[k]);
    }
    assert forall|i: int, virt: u64|
        #![trigger is_store_at::<M>(after.journal[i], start, parent, virt)]
        start.journal.len() <= i < after.journal.len() && virt < USER_LIMIT && is_store_at::<M>(
            after.journal[i],
            start,
            parent,
            virt,
        ) implies exists|j: int|
        i < j < after.journal.len() && #[trigger] throws_away(after.journal[j], virt) by {
        if i < m.journal.len() {
            assert(is_store_at::<M>(m.journal[i], start, parent, virt));
            let j = choose|j: int|
                i < j < m.journal.len() && #[trigger] throws_away(m.journal[j], virt);
            assert(throws_away(after.journal[j], virt));
        } else {
            assert(tree::leaf_table::<M>(start, parent, virt) is Some);
        }
    }
}

/// A change that writes nothing, and moves none of the parent's tables, leaves
/// what was told told.
pub(crate) proof fn told_all_along<M: Machine>(
    start: MachineView,
    m: MachineView,
    after: MachineView,
    parent: u64,
)
    requires
        is_told::<M>(start, m, parent),
        teardown::goes_on_from(after.journal, m.journal),
        forall|k: int|
            m.journal.len() <= k < after.journal.len() ==> !(#[trigger] after.journal[k] is Store),
        forall|p: Seq<int>|
            tree::is_path(p, 3) ==> #[trigger] tree::reached::<M>(after, parent, 3, p)
                == tree::reached::<M>(m, parent, 3, p),
    ensures
        is_told::<M>(start, after, parent),
{
    still_told::<M>(start, m, after, parent);
}

/// A frame taken that nobody held.
pub(crate) proof fn told_with_one_more<M: Machine>(
    start: MachineView,
    m: MachineView,
    parent: u64,
    fresh: u64,
)
    requires
        is_told::<M>(start, m, parent),
        tables::is_space::<M>(m, parent),
        m.count(fresh) == 0,
    ensures
        is_told::<M>(start, m.handed_over(fresh), parent),
{
    let after = m.handed_over(fresh);
    assert(after.journal.take(m.journal.len() as int) =~= m.journal);
    assert forall|p: Seq<int>| tree::is_path(p, 3) implies (#[trigger] tree::reached::<M>(
        m,
        parent,
        3,
        p,
    ) matches Some(t) ==> after.words[t] == m.words[t]) by {
    }
    sweep::out_of_sight::<M>(m, after, parent);
    told_all_along::<M>(start, m, after, parent);
}

/// A frame given back.
pub(crate) proof fn told_with_one_fewer<M: Machine>(
    start: MachineView,
    m: MachineView,
    parent: u64,
    gone: u64,
)
    requires
        is_told::<M>(start, m, parent),
    ensures
        is_told::<M>(start, m.released(gone), parent),
{
    let after = m.released(gone);
    assert(after.journal.take(m.journal.len() as int) =~= m.journal);
    sweep::same_words_same_ways::<M>(m, after, parent);
    told_all_along::<M>(start, m, after, parent);
}

/// A frame asked for that was not to be had.
pub(crate) proof fn told_of_no_frame<M: Machine>(start: MachineView, m: MachineView, parent: u64)
    requires
        is_told::<M>(start, m, parent),
    ensures
        is_told::<M>(start, m.noting(Event::NoFrame), parent),
        walk::ran_out(start, m.noting(Event::NoFrame)),
{
    let after = m.noting(Event::NoFrame);
    assert(after.journal.take(m.journal.len() as int) =~= m.journal);
    sweep::same_words_same_ways::<M>(m, after, parent);
    told_all_along::<M>(start, m, after, parent);
    assert(start.journal.len() <= m.journal.len()) by {
        reveal(is_told);
    }
    assert(after.journal[m.journal.len() as int] is NoFrame);
}

/// Where nothing has been done there is nothing to tell.
pub(crate) proof fn nothing_to_tell<M: Machine>(start: MachineView, parent: u64)
    ensures
        is_told::<M>(start, start, parent),
{
    reveal(is_told);
    assert(start.journal.take(start.journal.len() as int) =~= start.journal);
}

/// Taking over the kernel's half stores to the new top table alone.
proof fn adopting_stores<M: Machine>(m: MachineView, root: u64, src: u64, from: int, to: int)
    ensures
        ({
            let after = teardown::adopted(m, root, src, from, to);
            &&& teardown::goes_on_from(after.journal, m.journal)
            &&& forall|k: int|
                m.journal.len() <= k < after.journal.len() ==> (
                #[trigger] after.journal[k] matches Event::Store { table, .. } ==> table == root)
        }),
    decreases to - from,
{
    let after = teardown::adopted(m, root, src, from, to);
    if to <= from {
        assert(m.journal.take(m.journal.len() as int) =~= m.journal);
    } else {
        adopting_stores::<M>(m, root, src, from, to - 1);
        let before = teardown::adopted(m, root, src, from, to - 1);
        let bits = before.word(src, to - 1);
        if bits != 0 {
            let store = Event::Store { table: root, index: (to - 1) as usize, bits };
            teardown::one_event_on(m.journal, before.journal, Event::Barrier);
            teardown::one_event_on(m.journal, before.journal.push(Event::Barrier), store);
            assert(after.journal == before.journal.push(Event::Barrier).push(store));
        }
    }
}

/// A fork with nothing written yet.
pub(crate) proof fn told_from_the_start<M: Machine>(
    start: MachineView,
    m: MachineView,
    child: u64,
    parent: u64,
    kernel: u64,
)
    requires
        tables::is_space::<M>(start, parent),
        start.count(child) == 0,
        start.has(child),
        start.has(kernel),
        m == teardown::adopted(start.handed_over(child), child, kernel, 256, ENTRIES as int),
    ensures
        is_told::<M>(start, m, parent),
{
    let ready = start.handed_over(child);
    nothing_to_tell::<M>(start, parent);
    told_with_one_more::<M>(start, start, parent, child);
    adopting_stores::<M>(ready, child, kernel, 256, ENTRIES as int);
    teardown::adopting(ready, child, kernel, 256, ENTRIES as int);
    assert forall|p: Seq<int>| tree::is_path(p, 3) implies (#[trigger] tree::reached::<M>(
        ready,
        parent,
        3,
        p,
    ) matches Some(t) ==> m.words[t] == ready.words[t] && t != child) by {
        reveal(is_told);
        assert(tree::reached::<M>(ready, parent, 3, p) == tree::reached::<M>(start, parent, 3, p));
    }
    sweep::out_of_sight::<M>(ready, m, parent);
    assert(stores_elsewhere::<M>(m.journal, ready.journal.len() as int, start, parent)) by {
        assert forall|k: int|
            ready.journal.len() <= k < m.journal.len() implies (
        #[trigger] m.journal[k] matches Event::Store { table, .. } ==> forall|virt: u64|
            virt < USER_LIMIT ==> #[trigger] tree::leaf_table::<M>(start, parent, virt) != Some(
                table,
            )) by {
            if m.journal[k] is Store {
                assert forall|virt: u64|
                    virt < USER_LIMIT implies #[trigger] tree::leaf_table::<M>(
                    start,
                    parent,
                    virt,
                ) != Some(m.journal[k]->table) by {
                    tree::path_of_is_path(virt, 3);
                    assert(tree::reached::<M>(start, parent, 3, tree::path_of(virt)) != Some(child));
                }
            }
        }
    }
    still_told::<M>(start, ready, m, parent);
}

// ---- pages shared -------------------------------------------------------------------

proof fn noting_covers_more(tlb: Tlb, other: u64, virt: u64)
    ensures
        covers_page(tlb, virt) ==> covers_page(tlb.noted(other), virt),
        tree::page_of(other) == tree::page_of(virt) ==> covers_page(tlb.noted(other), virt),
{
}

/// More events, noted in a record that covers more.
proof fn still_noted<M: Machine>(
    start: MachineView,
    before: MachineView,
    m: MachineView,
    after: MachineView,
    parent: u64,
    tlb: Tlb,
    next: Tlb,
)
    requires
        is_noted::<M>(start, before, m, parent, tlb),
        teardown::goes_on_from(after.journal, m.journal),
        forall|virt: u64| #[trigger] covers_page(tlb, virt) ==> covers_page(next, virt),
        forall|p: Seq<int>|
            tree::is_path(p, 3) ==> #[trigger] tree::reached::<M>(after, parent, 3, p)
                == tree::reached::<M>(m, parent, 3, p),
        forall|i: int, virt: u64|
            #![trigger is_store_at::<M>(after.journal[i], start, parent, virt)]
            m.journal.len() <= i < after.journal.len() && virt < USER_LIMIT && is_store_at::<M>(
                after.journal[i],
                start,
                parent,
                virt,
            ) ==> covers_page(next, virt),
    ensures
        is_noted::<M>(start, before, after, parent, next),
{
    reveal(is_noted);
    teardown::goes_on_further(before.journal, m.journal, after.journal);
    assert forall|k: int| 0 <= k < m.journal.len() implies #[trigger] after.journal[k]
        == m.journal[k] by {
        assert(after.journal.take(m.journal.len() as int)[k] == after.journal[k]);
    }
    assert forall|i: int, virt: u64|
        #![trigger is_store_at::<M>(after.journal[i], start, parent, virt)]
        before.journal.len() <= i < after.journal.len() && virt < USER_LIMIT && is_store_at::<M>(
            after.journal[i],
            start,
            parent,
            virt,
        ) implies covers_page(next, virt) by {
        if i < m.journal.len() {
            assert(is_store_at::<M>(m.journal[i], start, parent, virt));
            assert(covers_page(tlb, virt));
        }
    }
}

/// Marking a page writes its own descriptor, and notes it.
proof fn marking_is_noted<M: Machine>(
    start: MachineView,
    before: MachineView,
    m: MachineView,
    child: u64,
    parent: u64,
    virt: u64,
    bits: u64,
    stock: Seq<u64>,
    tlb: Tlb,
)
    requires
        tree::is_tree::<M>(start, parent, 3),
        sweep::side_by_side::<M>(m, child, parent, stock),
        virt < USER_LIMIT,
        tree::leaf_at::<M>(m, parent, virt) == Some(bits),
        is_noted::<M>(start, before, m, parent, tlb),
    ensures
        is_noted::<M>(
            start,
            before,
            sweep::marked::<M>(m, parent, virt, bits),
            parent,
            if M::shared_flags(M::flags_in(bits)) is Some {
                tlb.noted(virt)
            } else {
                tlb
            },
        ),
{
    let phys = M::named(bits);
    let counted = m.shared(phys);
    let after = sweep::marked::<M>(m, parent, virt, bits);
    let table = tree::leaf_table::<M>(m, parent, virt)->0;
    sweep::counting_moves_nothing::<M>(m, counted, child, parent, stock);
    sweep::same_words_same_ways::<M>(m, counted, parent);
    tree::path_of_is_path(virt, 3);
    assert(counted.journal.take(m.journal.len() as int) =~= m.journal);
    assert(tree::leaf_table::<M>(counted, parent, virt) == Some(table));
    if M::shared_flags(M::flags_in(bits)) is Some {
        let new_bits = M::leaf_bits(phys, sweep::given_flags::<M>(bits));
        sweep::marking::<M>(counted, child, parent, virt, new_bits, stock);
        let next = tlb.noted(virt);
        assert forall|other: u64| #[trigger] covers_page(tlb, other) implies covers_page(
            next,
            other,
        ) by {
            noting_covers_more(tlb, virt, other);
        }
        assert(after.journal.take(m.journal.len() as int) =~= m.journal);
        assert forall|p: Seq<int>| tree::is_path(p, 3) implies #[trigger] tree::reached::<M>(
            after,
            parent,
            3,
            p,
        ) == tree::reached::<M>(m, parent, 3, p) by {
            assert(tree::reached::<M>(counted, parent, 3, p) == tree::reached::<M>(m, parent, 3, p));
        }
        assert forall|i: int, other: u64|
            #![trigger is_store_at::<M>(after.journal[i], start, parent, other)]
            m.journal.len() <= i < after.journal.len() && other < USER_LIMIT && is_store_at::<M>(
                after.journal[i],
                start,
                parent,
                other,
            ) implies covers_page(next, other) by {
            reveal(is_noted);
            tree::path_of_is_path(other, 3);
            assert(i == m.journal.len() + 1);
            assert(tree::reached::<M>(start, parent, 3, tree::path_of(virt)) == Some(table));
            assert(tree::reached::<M>(start, parent, 3, tree::path_of(other)) == Some(table));
            assert(tree::path_of(virt) == tree::path_of(other));
            tree::indices_make_the_page(virt, other);
            noting_covers_more(tlb, virt, other);
        }
        still_noted::<M>(start, before, m, after, parent, tlb, next);
    } else {
        still_noted::<M>(start, before, m, after, parent, tlb, tlb);
    }
}

/// Sharing a page notes what it writes of the parent's.
#[verifier::spinoff_prover]
proof fn one_page_is_noted<M: Machine>(
    start: MachineView,
    before: MachineView,
    m: MachineView,
    child: u64,
    parent: u64,
    virt: u64,
    stock: Seq<u64>,
    tlb: Tlb,
)
    requires
        tree::is_tree::<M>(start, parent, 3),
        sweep::side_by_side::<M>(m, child, parent, stock),
        virt < USER_LIMIT,
        is_noted::<M>(start, before, m, parent, tlb),
    ensures
        ({
            let s = sweep::page_shared::<M>(m, child, parent, virt, stock, tlb);
            is_noted::<M>(start, before, s.memory, parent, s.tlb)
        }),
{
    let s = sweep::page_shared::<M>(m, child, parent, virt, stock, tlb);
    let after = s.memory;
    let page = tree::leaf_at::<M>(m, parent, virt);
    if page is Some {
        let bits = page->0;
        let phys = M::named(bits);
        let flags = sweep::given_flags::<M>(bits);
        let ready = sweep::marked::<M>(m, parent, virt, bits);
        let noted = if M::shared_flags(M::flags_in(bits)) is Some {
            tlb.noted(virt)
        } else {
            tlb
        };
        marking_is_noted::<M>(start, before, m, child, parent, virt, bits, stock, tlb);
        fork_counts::ready_to_share::<M>(m, child, parent, virt, bits, stock);
        assert forall|other: u64| #[trigger] covers_page(noted, other) implies covers_page(
            s.tlb,
            other,
        ) by {
            noting_covers_more(noted, virt, other);
        }
        if change::refusal::<M>(ready, child, virt, 3, stock.len()) is Some {
            sweep::same_words_same_ways::<M>(ready, after, parent);
            assert(after.journal.take(ready.journal.len() as int) =~= ready.journal);
            still_noted::<M>(start, before, ready, after, parent, noted, s.tlb);
        } else {
            holding::a_page_put_in_stores_in_its_space::<M>(
                ready,
                child,
                virt,
                phys,
                flags,
                stock,
            );
            the_parent_stays_where_it_was::<M>(ready, child, parent, virt, phys, flags, stock);
            assert forall|i: int, other: u64|
                #![trigger is_store_at::<M>(after.journal[i], start, parent, other)]
                ready.journal.len() <= i < after.journal.len() && other < USER_LIMIT
                    && is_store_at::<M>(
                    after.journal[i],
                    start,
                    parent,
                    other,
                ) implies covers_page(s.tlb, other) by {
                reveal(is_noted);
                let table = after.journal[i]->table;
                tree::path_of_is_path(other, 3);
                sweep::own_addresses_take_own_ways(other, 3);
                assert(tree::reached::<M>(ready, parent, 3, tree::path_of(other)) == Some(table));
                not_the_childs::<M>(ready, child, parent, tree::path_of(other), table, stock);
            }
            still_noted::<M>(start, before, ready, after, parent, noted, s.tlb);
        }
    }
}

/// A table of the parent's own is none of the child's, and none of the frames
/// in hand.
proof fn not_the_childs<M: Machine>(
    m: MachineView,
    child: u64,
    parent: u64,
    p: Seq<int>,
    table: u64,
    stock: Seq<u64>,
)
    requires
        sweep::side_by_side::<M>(m, child, parent, stock),
        sweep::is_own(p),
        tree::reached::<M>(m, parent, 3, p) == Some(table),
    ensures
        teardown::is_outside::<M>(m, child, 3, table),
        !stock.contains(table),
{
    assert forall|q: Seq<int>| tree::is_path(q, 3) implies #[trigger] tree::reached::<M>(
        m,
        child,
        3,
        q,
    ) != Some(table) by {
        assert(tree::reached::<M>(m, parent, 3, p) != tree::reached::<M>(m, child, 3, q));
    }
    if stock.contains(table) {
        let i = choose|i: int| 0 <= i < stock.len() && stock[i] == table;
        assert(tree::is_spare::<M>(m, parent, stock[i]));
    }
}

/// Putting a page in for the child moves none of the parent's tables.
proof fn the_parent_stays_where_it_was<M: Machine>(
    m: MachineView,
    child: u64,
    parent: u64,
    virt: u64,
    phys: u64,
    flags: u64,
    stock: Seq<u64>,
)
    requires
        sweep::side_by_side::<M>(m, child, parent, stock),
        virt < USER_LIMIT,
        change::refusal::<M>(m, child, virt, 3, stock.len()) is None,
    ensures
        forall|p: Seq<int>|
            tree::is_path(p, 3) ==> #[trigger] tree::reached::<M>(
                change::published::<M>(m, child, virt, phys, flags, stock).0,
                parent,
                3,
                p,
            ) == tree::reached::<M>(m, parent, 3, p),
{
    change::the_way_is_made::<M>(m, child, virt, flags, stock);
    let (open, left, table) = change::way_made::<M>(m, child, virt, 3, flags, stock);
    sweep::taking::<M>(
        m,
        child,
        parent,
        virt,
        stock,
        open,
        left,
        table,
        M::leaf_bits(phys, flags),
    );
}

/// A run of pages, and then what was noted thrown away.
#[verifier::spinoff_prover]
proof fn some_pages_noted<M: Machine>(
    start: MachineView,
    before: MachineView,
    m: MachineView,
    child: u64,
    parent: u64,
    kernel: u64,
    at: u64,
    count: nat,
    stock: Seq<u64>,
    tlb: Tlb,
)
    requires
        tree::is_tree::<M>(start, parent, 3),
        fork::is_family::<M>(start, m, child, parent, kernel, stock),
        fork::is_forked_to::<M>(start, m, child, parent, at as int),
        is_noted::<M>(start, before, m, parent, tlb),
        at % 0x1000 == 0,
        at + count * 0x1000 <= USER_LIMIT,
    ensures
        ({
            let s = sweep::pages_shared::<M>(m, child, parent, at, count, stock, tlb);
            is_noted::<M>(start, before, s.memory, parent, s.tlb)
        }),
    decreases count,
{
    if count > 0 {
        let less = (count - 1) as nat;
        some_pages_noted::<M>(
            start,
            before,
            m,
            child,
            parent,
            kernel,
            at,
            less,
            stock,
            tlb,
        );
        let so_far = sweep::pages_shared::<M>(m, child, parent, at, less, stock, tlb);
        if so_far.result is Ok {
            let next = (at + less * 0x1000) as u64;
            assert(sweep::side_by_side::<M>(so_far.memory, child, parent, so_far.stock)) by {
                fork::some_pages_further::<M>(
                    start,
                    m,
                    child,
                    parent,
                    kernel,
                    at,
                    less,
                    stock,
                    tlb,
                );
            }
            one_page_is_noted::<M>(
                start,
                before,
                so_far.memory,
                child,
                parent,
                next,
                so_far.stock,
                so_far.tlb,
            );
        }
    }
}

/// A run of pages shared, and what that left behind thrown away: the parent's
/// translations are told.
pub(crate) proof fn told_of_some_pages<M: Machine>(
    start: MachineView,
    m: MachineView,
    child: u64,
    parent: u64,
    kernel: u64,
    at: u64,
    count: nat,
    stock: Seq<u64>,
)
    requires
        tree::is_tree::<M>(start, parent, 3),
        fork::is_family::<M>(start, m, child, parent, kernel, stock),
        fork::is_forked_to::<M>(start, m, child, parent, at as int),
        is_told::<M>(start, m, parent),
        at % 0x1000 == 0,
        at + count * 0x1000 <= USER_LIMIT,
    ensures
        ({
            let s = sweep::pages_shared::<M>(m, child, parent, at, count, stock, Tlb::Clean);
            is_told::<M>(start, s.tlb.flushed(s.memory), parent)
        }),
{
    assert(is_noted::<M>(start, m, m, parent, Tlb::Clean)) by {
        reveal(is_noted);
        reveal(is_told);
        assert(m.journal.take(m.journal.len() as int) =~= m.journal);
    }
    some_pages_noted::<M>(
        start,
        m,
        m,
        child,
        parent,
        kernel,
        at,
        count,
        stock,
        Tlb::Clean,
    );
    let s = sweep::pages_shared::<M>(m, child, parent, at, count, stock, Tlb::Clean);
    noted_is_told::<M>(start, m, s.memory, parent, s.tlb);
}

/// Throwing away what is noted tells everything that was written.
proof fn noted_is_told<M: Machine>(
    start: MachineView,
    before: MachineView,
    m: MachineView,
    parent: u64,
    tlb: Tlb,
)
    requires
        is_told::<M>(start, before, parent),
        is_noted::<M>(start, before, m, parent, tlb),
    ensures
        is_told::<M>(start, tlb.flushed(m), parent),
{
    reveal(is_told);
    reveal(is_noted);
    let after = tlb.flushed(m);
    assert(after.journal.take(m.journal.len() as int) =~= m.journal);
    teardown::goes_on_further(before.journal, m.journal, after.journal);
    teardown::goes_on_further(start.journal, before.journal, after.journal);
    sweep::same_words_same_ways::<M>(m, after, parent);
    assert forall|k: int| 0 <= k < before.journal.len() implies #[trigger] after.journal[k]
        == before.journal[k] by {
        assert(after.journal.take(before.journal.len() as int)[k] == after.journal[k]);
    }
    assert forall|i: int, virt: u64|
        #![trigger is_store_at::<M>(after.journal[i], start, parent, virt)]
        start.journal.len() <= i < after.journal.len() && virt < USER_LIMIT && is_store_at::<M>(
            after.journal[i],
            start,
            parent,
            virt,
        ) implies exists|j: int|
        i < j < after.journal.len() && #[trigger] throws_away(after.journal[j], virt) by {
        if i < before.journal.len() {
            assert(is_store_at::<M>(before.journal[i], start, parent, virt));
            let j = choose|j: int|
                i < j < before.journal.len() && #[trigger] throws_away(before.journal[j], virt);
            assert(throws_away(after.journal[j], virt));
        } else if i < m.journal.len() {
            assert(after.journal[i] == m.journal[i]);
            assert(is_store_at::<M>(m.journal[i], start, parent, virt));
            assert(covers_page(tlb, virt));
            assert(throws_away(after.journal[m.journal.len() as int], virt));
        }
    }
}

// ---- a fork torn down ------------------------------------------------------------------

/// Stores, if any, to nothing but the tables of a tree.
spec fn stores_in_tree<M: Machine>(
    journal: Seq<Event>,
    from: int,
    m: MachineView,
    table: u64,
    top: int,
) -> bool {
    forall|k: int|
        from <= k < journal.len() ==> (#[trigger] journal[k] matches Event::Store {
            table: written,
            ..
        } ==> !teardown::is_outside::<M>(m, table, top, written))
}

/// Freeing what a table leads to stores to nothing but the tables under it.
#[verifier::spinoff_prover]
proof fn freeing_stores<M: Machine>(m: MachineView, table: u64, height: nat, count: nat)
    requires
        1 <= height,
        count <= ENTRIES,
        tree::is_tree::<M>(m, table, height - 1),
    ensures
        ({
            let after = teardown::entries_freed::<M>(m, table, height, count);
            &&& teardown::goes_on_from(after.journal, m.journal)
            &&& stores_in_tree::<M>(
                after.journal,
                m.journal.len() as int,
                m,
                table,
                height - 1,
            )
        }),
    decreases height, count,
{
    let top = height - 1;
    let none = Seq::<int>::empty();
    assert(tree::is_path(none, top));
    assert(tree::reached::<M>(m, table, top, none) == Some(table));
    teardown::freeing_goes_on::<M>(m, table, height, count);
    if count > 0 {
        let less = (count - 1) as nat;
        let index = count - 1;
        freeing_stores::<M>(m, table, height, less);
        teardown::freeing_entries::<M>(m, table, height, less);
        teardown::freeing_goes_on::<M>(m, table, height, less);
        let now = teardown::entries_freed::<M>(m, table, height, less);
        let after = teardown::entries_freed::<M>(m, table, height, count);
        let bits = now.word(table, index);
        if M::is_present(bits) {
            if height == 1 || M::stops(bits, top) {
                assert(after.journal == now.journal.push(Event::Free(M::named(bits))).push(
                    Event::Barrier,
                ).push(Event::Store { table, index: index as usize, bits: 0 }));
            } else {
                let child = M::named(bits);
                assert(tree::step::<M>(now, table, index, top) == Some(child));
                teardown::subtree_is_tree::<M>(now, table, top, index, child);
                freeing_stores::<M>(now, child, (height - 1) as nat, ENTRIES as nat);
                teardown::freeing_goes_on::<M>(now, child, (height - 1) as nat, ENTRIES as nat);
                let inner = teardown::entries_freed::<M>(
                    now,
                    child,
                    (height - 1) as nat,
                    ENTRIES as nat,
                );
                assert(teardown::table_freed::<M>(now, child, (height - 1) as nat)
                    == inner.released(child));
                assert(after.journal == inner.journal.push(Event::Free(child)).push(
                    Event::Barrier,
                ).push(Event::Store { table, index: index as usize, bits: 0 }));
                assert forall|k: int| 0 <= k < now.journal.len() implies #[trigger] inner.journal[k]
                    == now.journal[k] by {
                    assert(inner.journal.take(now.journal.len() as int)[k] == inner.journal[k]);
                }
                assert forall|k: int|
                    m.journal.len() <= k < after.journal.len() implies (
                #[trigger] after.journal[k] matches Event::Store { table: written, .. }
                    ==> !teardown::is_outside::<M>(m, table, top, written)) by {
                    if now.journal.len() <= k < inner.journal.len() && after.journal[k] is Store {
                        let written = after.journal[k]->table;
                        assert(inner.journal[k] == after.journal[k]);
                        assert(!teardown::is_outside::<M>(now, child, top - 1, written));
                        let q = choose|q: Seq<int>|
                            tree::is_path(q, top - 1) && #[trigger] tree::reached::<M>(
                                now,
                                child,
                                top - 1,
                                q,
                            ) == Some(written);
                        teardown::longer_path(index, q, top);
                        teardown::subtree_reached::<M>(now, table, top, index, child, q);
                        assert(tree::reached::<M>(now, table, top, seq![index] + q) == Some(
                            written,
                        ));
                        assert(tree::reached::<M>(m, table, top, seq![index] + q) == Some(written));
                    } else if k < now.journal.len() {
                        assert(inner.journal[k] == now.journal[k]);
                        assert(after.journal[k] == now.journal[k]);
                    }
                }
            }
        }
    }
}

/// So does freeing every part of a space.
#[verifier::spinoff_prover]
proof fn freeing_parts_stores<M: Machine>(m: MachineView, cut: MachineView, root: u64, count: nat)
    requires
        tree::is_tree::<M>(m, root, 3),
        teardown::is_torn_down_to::<M>(m, cut, root, 0),
        cut.counts == m.counts,
        count <= ENTRIES,
    ensures
        stores_in_tree::<M>(
            teardown::all_freed::<M>(cut, m.words[root], count).journal,
            cut.journal.len() as int,
            m,
            root,
            3,
        ),
    decreases count,
{
    if count > 0 {
        let less = (count - 1) as nat;
        let index = count - 1;
        freeing_parts_stores::<M>(m, cut, root, less);
        teardown::freeing_parts::<M>(m, cut, root, less);
        teardown::freeing_all_goes_on::<M>(cut, m.words[root], less);
        let now = teardown::all_freed::<M>(cut, m.words[root], less);
        let after = teardown::all_freed::<M>(cut, m.words[root], count);
        let bits = m.words[root][index];
        if M::is_present(bits) && !M::stops(bits, 3) {
            let child = M::named(bits);
            assert(bits == m.word(root, index));
            assert(tree::step::<M>(m, root, index, 3) == Some(child));
            teardown::part_still_whole::<M>(m, now, root, index, index, child);
            freeing_stores::<M>(now, child, 3, ENTRIES as nat);
            let inner = teardown::entries_freed::<M>(now, child, 3, ENTRIES as nat);
            assert(teardown::table_freed::<M>(now, child, 3) == inner.released(child));
            assert(after.journal == inner.journal.push(Event::Free(child)));
            assert forall|k: int| 0 <= k < now.journal.len() implies #[trigger] inner.journal[k]
                == now.journal[k] by {
                assert(inner.journal.take(now.journal.len() as int)[k] == inner.journal[k]);
            }
            assert forall|k: int|
                cut.journal.len() <= k < after.journal.len() implies (
            #[trigger] after.journal[k] matches Event::Store { table: written, .. }
                ==> !teardown::is_outside::<M>(m, root, 3, written)) by {
                if now.journal.len() <= k < inner.journal.len() && after.journal[k] is Store {
                    let written = after.journal[k]->table;
                    assert(inner.journal[k] == after.journal[k]);
                    assert(!teardown::is_outside::<M>(now, child, 2, written));
                    let q = choose|q: Seq<int>|
                        tree::is_path(q, 2) && #[trigger] tree::reached::<M>(now, child, 2, q)
                            == Some(written);
                    teardown::longer_path(index, q, 3);
                    assert(tree::reached::<M>(m, root, 3, seq![index] + q) == Some(written));
                } else if k < now.journal.len() {
                    assert(inner.journal[k] == now.journal[k]);
                    assert(after.journal[k] == now.journal[k]);
                }
            }
        }
    }
}

proof fn detaching_stores<M: Machine>(m: MachineView, root: u64, count: nat)
    ensures
        ({
            let after = teardown::detached::<M>(m, root, count);
            &&& teardown::goes_on_from(after.journal, m.journal)
            &&& forall|k: int|
                m.journal.len() <= k < after.journal.len() ==> (
                #[trigger] after.journal[k] matches Event::Store { table, .. } ==> table == root)
        }),
    decreases count,
{
    teardown::detaching_frees_nothing::<M>(m, root, count);
    if count > 0 {
        detaching_stores::<M>(m, root, (count - 1) as nat);
        let before = teardown::detached::<M>(m, root, (count - 1) as nat);
        let after = teardown::detached::<M>(m, root, count);
        if M::is_present(before.word(root, count - 1)) {
            assert(after.journal == before.journal.push(Event::Barrier).push(
                Event::Store { table: root, index: (count - 1) as usize, bits: 0 },
            ));
        }
    }
}

/// Tearing the child down tells nothing less: it stores to the child's tables
/// alone.
pub(crate) proof fn told_after_a_teardown<M: Machine>(
    start: MachineView,
    m: MachineView,
    after: MachineView,
    child: u64,
    parent: u64,
)
    requires
        is_told::<M>(start, m, parent),
        sweep::side_by_side::<M>(m, child, parent, Seq::empty()),
        after == teardown::emptied_below::<M>(m, child, USER_LIMIT).released(child),
        forall|p: Seq<int>|
            tree::is_path(p, 3) ==> #[trigger] tree::reached::<M>(after, parent, 3, p)
                == tree::reached::<M>(m, parent, 3, p),
    ensures
        is_told::<M>(start, after, parent),
{
    let count = teardown::tops_below(USER_LIMIT);
    let det = teardown::detached::<M>(m, child, count);
    let cut = det.noting(Event::FlushAll);
    let emptied = teardown::emptied_below::<M>(m, child, USER_LIMIT);
    let none = Seq::<int>::empty();
    assert(tree::is_path(none, 3));
    assert(tree::reached::<M>(m, child, 3, none) == Some(child));
    detaching_stores::<M>(m, child, count);
    teardown::detached_is_whole::<M>(m, child, count);
    freeing_parts_stores::<M>(m, cut, child, count);
    teardown::freeing_all_goes_on::<M>(cut, m.words[child], count);
    teardown::one_event_on(m.journal, det.journal, Event::FlushAll);
    teardown::goes_on_further(m.journal, cut.journal, emptied.journal);
    teardown::one_event_on(m.journal, emptied.journal, Event::Free(child));
    assert forall|k: int| 0 <= k < cut.journal.len() implies #[trigger] emptied.journal[k]
        == cut.journal[k] by {
        assert(emptied.journal.take(cut.journal.len() as int)[k] == emptied.journal[k]);
    }
    assert(stores_elsewhere::<M>(after.journal, m.journal.len() as int, start, parent)) by {
        assert forall|k: int|
            m.journal.len() <= k < after.journal.len() implies (
        #[trigger] after.journal[k] matches Event::Store { table, .. } ==> forall|virt: u64|
            virt < USER_LIMIT ==> #[trigger] tree::leaf_table::<M>(start, parent, virt) != Some(
                table,
            )) by {
            if after.journal[k] is Store {
                let written = after.journal[k]->table;
                assert(!teardown::is_outside::<M>(m, child, 3, written)) by {
                    if k < det.journal.len() {
                        assert(emptied.journal[k] == cut.journal[k]);
                        assert(det.journal[k] == after.journal[k]);
                    } else if k < cut.journal.len() {
                        assert(emptied.journal[k] == cut.journal[k]);
                    } else {
                        assert(k < emptied.journal.len());
                        assert(emptied.journal[k] == after.journal[k]);
                    }
                }
                assert forall|virt: u64|
                    virt < USER_LIMIT implies #[trigger] tree::leaf_table::<M>(
                    start,
                    parent,
                    virt,
                ) != Some(written) by {
                    reveal(is_told);
                    tree::path_of_is_path(virt, 3);
                    sweep::own_addresses_take_own_ways(virt, 3);
                    if tree::leaf_table::<M>(start, parent, virt) == Some(written) {
                        assert(tree::reached::<M>(m, parent, 3, tree::path_of(virt)) == Some(
                            written,
                        ));
                        not_the_childs::<M>(
                            m,
                            child,
                            parent,
                            tree::path_of(virt),
                            written,
                            Seq::empty(),
                        );
                    }
                }
            }
        }
    }
    still_told::<M>(start, m, after, parent);
}

} // verus!
