//! Why a fork that gets the frames it asks for cannot fail: nothing stands in
//! the way of a page in the child.

use crate::mm::change;
use crate::mm::fork;
use crate::mm::fork_counts;
use crate::mm::holding;
use crate::mm::sweep;
use crate::mm::tables;
use crate::mm::teardown;
use crate::mm::tree;
use crate::mm::walk::{self, Machine, MachineView, Tlb, DEPTH, ENTRIES};
use crate::mm::USER_LIMIT;
use vstd::prelude::*;

verus! {

/// Nothing in the child's own half maps more than a page.
#[verifier::opaque]
pub open spec fn is_clear_ahead<M: Machine>(m: MachineView, child: u64) -> bool {
    holding::is_open::<M>(m, child)
}

/// There are frames enough for every table on the way to an address, or the
/// way is there.
pub open spec fn has_room<M: Machine>(
    m: MachineView,
    child: u64,
    virt: u64,
    stock: Seq<u64>,
) -> bool {
    stock.len() >= DEPTH || tree::leaf_table::<M>(m, child, virt) is Some
}

/// The child starts out with nothing in its own half.
pub(crate) proof fn clear_from_the_start<M: Machine>(
    start: MachineView,
    m: MachineView,
    child: u64,
    kernel: u64,
)
    requires
        start.has(child),
        start.has(kernel),
        m == teardown::adopted(start.handed_over(child), child, kernel, 256, ENTRIES as int),
    ensures
        is_clear_ahead::<M>(m, child),
{
    M::format_holds();
    reveal(is_clear_ahead);
    let ready = start.handed_over(child);
    teardown::adopting(ready, child, kernel, 256, ENTRIES as int);
    assert forall|i: int| 0 <= i < 256 implies !M::is_present(#[trigger] m.word(child, i)) by {
        assert(m.word(child, i) == ready.word(child, i));
    }
}

/// The same words are as clear.
pub(crate) proof fn still_clear<M: Machine>(m: MachineView, after: MachineView, child: u64)
    requires
        is_clear_ahead::<M>(m, child),
        after.words == m.words,
    ensures
        is_clear_ahead::<M>(after, child),
{
    reveal(is_clear_ahead);
    holding::openness_stays::<M>(m, after, child);
}

/// So is a child whose tables a frame taken from what nobody held is not.
pub(crate) proof fn clear_with_one_more<M: Machine>(m: MachineView, child: u64, fresh: u64)
    requires
        is_clear_ahead::<M>(m, child),
        tables::is_space::<M>(m, child),
        m.count(fresh) == 0,
    ensures
        is_clear_ahead::<M>(m.handed_over(fresh), child),
{
    reveal(is_clear_ahead);
    let after = m.handed_over(fresh);
    assert forall|p: Seq<int>| sweep::is_own(p) implies (#[trigger] tree::reached::<M>(
        m,
        child,
        3,
        p,
    ) matches Some(t) ==> after.words[t] == m.words[t]) by {
    }
    holding::openness_stays::<M>(m, after, child);
}

/// A page that can be shared is, and leaves the child as clear, with the way to
/// the page there.
#[verifier::spinoff_prover]
proof fn one_page_finds_room<M: Machine>(
    m: MachineView,
    child: u64,
    parent: u64,
    virt: u64,
    stock: Seq<u64>,
    tlb: Tlb,
)
    requires
        sweep::side_by_side::<M>(m, child, parent, stock),
        virt < USER_LIMIT,
        is_clear_ahead::<M>(m, child),
        has_room::<M>(m, child, virt, stock),
        tree::leaf_at::<M>(m, child, virt) is None,
    ensures
        ({
            let s = sweep::page_shared::<M>(m, child, parent, virt, stock, tlb);
            &&& s.result is Ok
            &&& is_clear_ahead::<M>(s.memory, child)
            &&& has_room::<M>(s.memory, child, virt, s.stock)
        }),
{
    M::format_holds();
    let s = sweep::page_shared::<M>(m, child, parent, virt, stock, tlb);
    let page = tree::leaf_at::<M>(m, parent, virt);
    if page is Some {
        let bits = page->0;
        let phys = M::named(bits);
        let flags = sweep::given_flags::<M>(bits);
        let ready = sweep::marked::<M>(m, parent, virt, bits);
        fork_counts::ready_to_share::<M>(m, child, parent, virt, bits, stock);
        the_child_is_not_marked::<M>(m, child, parent, virt, bits, stock);
        tree::path_of_is_path(virt, 0);
        tree::path_of_is_path(virt, 3);
        assert(tree::path_of(virt).take(0) =~= Seq::<int>::empty());
        assert(tree::reached::<M>(ready, child, 3, tree::path_of(virt).take(0)) == Some(child));
        assert(tree::leaf_table::<M>(ready, child, virt) == tree::leaf_table::<M>(m, child, virt));
        assert(tree::leaf_at::<M>(ready, child, virt) == tree::leaf_at::<M>(m, child, virt));
        assert(is_clear_ahead::<M>(ready, child));
        assert(change::refusal::<M>(ready, child, virt, 3, stock.len()) is None) by {
            reveal(is_clear_ahead);
            holding::nothing_stands_in_the_way::<M>(ready, child, virt, child, 0, stock.len());
        }
        assert(walk::index_at(virt, 3) < 256) by {
            assert(virt as int / 0x80_0000_0000 < 256);
        }
        assert(is_clear_ahead::<M>(s.memory, child)) by {
            reveal(is_clear_ahead);
            holding::a_page_put_in_leaves_it_open::<M>(ready, child, virt, phys, flags, stock);
        }
        sweep::sharing_a_page::<M>(m, child, parent, virt, stock, tlb);
        assert(tree::leaf_at::<M>(s.memory, child, virt) is Some);
    }
}

/// Marking a page of the parent's leaves the child where and as it was.
proof fn the_child_is_not_marked<M: Machine>(
    m: MachineView,
    child: u64,
    parent: u64,
    virt: u64,
    bits: u64,
    stock: Seq<u64>,
)
    requires
        sweep::side_by_side::<M>(m, child, parent, stock),
        virt < USER_LIMIT,
        tree::leaf_at::<M>(m, parent, virt) == Some(bits),
        is_clear_ahead::<M>(m, child),
    ensures
        ({
            let ready = sweep::marked::<M>(m, parent, virt, bits);
            &&& is_clear_ahead::<M>(ready, child)
            &&& forall|other: u64| #[trigger]
                tree::leaf_at::<M>(ready, child, other) == tree::leaf_at::<M>(m, child, other)
            &&& forall|p: Seq<int>|
                tree::is_path(p, 3) ==> #[trigger] tree::reached::<M>(ready, child, 3, p)
                    == tree::reached::<M>(m, child, 3, p)
        }),
{
    let ready = sweep::marked::<M>(m, parent, virt, bits);
    let counted = m.shared(M::named(bits));
    let table = tree::leaf_table::<M>(m, parent, virt)->0;
    tree::path_of_is_path(virt, 3);
    sweep::own_addresses_take_own_ways(virt, 3);
    sweep::same_words_same_ways::<M>(m, counted, parent);
    assert(tree::reached::<M>(counted, parent, 3, tree::path_of(virt)) == Some(table));
    assert forall|p: Seq<int>| tree::is_path(p, 3) implies (#[trigger] tree::reached::<M>(
        m,
        child,
        3,
        p,
    ) matches Some(t) ==> ready.words[t] == m.words[t]) by {
        assert(tree::reached::<M>(m, parent, 3, tree::path_of(virt)) == Some(table));
        assert(tree::reached::<M>(m, child, 3, p) != Some(table));
    }
    sweep::out_of_sight::<M>(m, ready, child);
    reveal(is_clear_ahead);
    holding::openness_stays::<M>(m, ready, child);
}

/// A run of pages in one block of two megabytes all go in.
#[verifier::spinoff_prover]
pub(crate) proof fn some_pages_find_room<M: Machine>(
    start: MachineView,
    m: MachineView,
    child: u64,
    parent: u64,
    kernel: u64,
    block: u64,
    at: u64,
    count: nat,
    stock: Seq<u64>,
    tlb: Tlb,
)
    requires
        fork::is_family::<M>(start, m, child, parent, kernel, stock),
        fork::is_forked_to::<M>(start, m, child, parent, at as int),
        is_clear_ahead::<M>(m, child),
        has_room::<M>(m, child, block, stock),
        at % 0x1000 == 0,
        block % 0x20_0000 == 0,
        block <= at,
        at + count * 0x1000 <= block + 0x20_0000,
        block + 0x20_0000 <= USER_LIMIT,
    ensures
        ({
            let s = sweep::pages_shared::<M>(m, child, parent, at, count, stock, tlb);
            &&& s.result is Ok
            &&& is_clear_ahead::<M>(s.memory, child)
            &&& has_room::<M>(s.memory, child, block, s.stock)
        }),
    decreases count,
{
    if count > 0 {
        let less = (count - 1) as nat;
        some_pages_find_room::<M>(
            start,
            m,
            child,
            parent,
            kernel,
            block,
            at,
            less,
            stock,
            tlb,
        );
        let before = sweep::pages_shared::<M>(m, child, parent, at, less, stock, tlb);
        let next = (at + less * 0x1000) as u64;
        assert(sweep::side_by_side::<M>(before.memory, child, parent, before.stock)
            && tree::leaf_at::<M>(before.memory, child, next) is None) by {
            fork::some_pages_further::<M>(
                start,
                m,
                child,
                parent,
                kernel,
                at,
                less,
                stock,
                tlb,
            );
        }
        one_block_one_table(block, next);
        one_page_finds_room::<M>(
            before.memory,
            child,
            parent,
            next,
            before.stock,
            before.tlb,
        );
    }
}

/// The pages of a block of two megabytes share their last-level table.
proof fn one_block_one_table(block: u64, virt: u64)
    requires
        block % 0x20_0000 == 0,
        block <= virt < block + 0x20_0000,
    ensures
        tree::path_of(block) == tree::path_of(virt),
{
    assert(block as int / 0x20_0000 == virt as int / 0x20_0000);
    sweep::same_block_same_way(block, virt, 1);
    tree::path_of_is_path(block, 3);
    tree::path_of_is_path(virt, 3);
}

} // verus!
