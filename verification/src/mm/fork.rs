//! The address space a forked child starts with.

use crate::mm::change::{self, Tables};
use crate::mm::fork_counts;
use crate::mm::fork_kept;
use crate::mm::fork_room;
use crate::mm::fork_told;
use crate::mm::holding;
use crate::mm::space::{Mm, UNMAP_CHUNK};
use crate::mm::sweep;
use crate::mm::tables::{self, KernelTables, PageTables};
use crate::mm::teardown;
use crate::mm::tree;
use crate::mm::walk::{
    self, level_size, Event, Machine, MachineView, TableStock, Tlb, DEPTH, ENTRIES,
};
use crate::mm::{PAGE_SIZE_U64, USER_LIMIT};
use vstd::prelude::*;

verus! {

// ---- spaces that are not being shared ---------------------------------------------

/// Two spaces that a change leaves as they were are still side by side.
proof fn still_side_by_side<M: Machine>(
    m: MachineView,
    after: MachineView,
    a: u64,
    b: u64,
    stock: Seq<u64>,
    left: Seq<u64>,
)
    requires
        sweep::side_by_side::<M>(m, a, b, stock),
        forall|p: Seq<int>|
            tree::is_path(p, 3) ==> #[trigger] tree::reached::<M>(after, a, 3, p)
                == tree::reached::<M>(m, a, 3, p),
        forall|p: Seq<int>|
            tree::is_path(p, 3) ==> #[trigger] tree::reached::<M>(after, b, 3, p)
                == tree::reached::<M>(m, b, 3, p),
        tree::is_tree::<M>(after, a, 3),
        tree::is_tree::<M>(after, b, 3),
        tree::are_spare::<M>(after, a, left),
        tree::are_spare::<M>(after, b, left),
    ensures
        sweep::side_by_side::<M>(after, a, b, left),
{
    assert forall|p: Seq<int>, q: Seq<int>|
        #![trigger tree::reached::<M>(after, a, 3, p), tree::reached::<M>(after, b, 3, q)]
        sweep::is_own(p) && tree::is_path(q, 3) && tree::reached::<M>(after, a, 3, p)
            is Some implies tree::reached::<M>(after, a, 3, p) != tree::reached::<M>(
        after,
        b,
        3,
        q,
    ) by {
        assert(tree::reached::<M>(m, a, 3, p) != tree::reached::<M>(m, b, 3, q));
    }
    assert forall|p: Seq<int>, q: Seq<int>|
        #![trigger tree::reached::<M>(after, b, 3, p), tree::reached::<M>(after, a, 3, q)]
        sweep::is_own(p) && tree::is_path(q, 3) && tree::reached::<M>(after, b, 3, p)
            is Some implies tree::reached::<M>(after, b, 3, p) != tree::reached::<M>(
        after,
        a,
        3,
        q,
    ) by {
        assert(tree::reached::<M>(m, b, 3, p) != tree::reached::<M>(m, a, 3, q));
    }
}

/// Sharing a page between two spaces leaves a third one, that stands apart
/// from both, where it was and as it was.
proof fn a_third_space_stays<M: Machine>(
    m: MachineView,
    child: u64,
    parent: u64,
    third: u64,
    virt: u64,
    stock: Seq<u64>,
    tlb: Tlb,
)
    requires
        sweep::side_by_side::<M>(m, child, parent, stock),
        sweep::side_by_side::<M>(m, child, third, stock),
        sweep::side_by_side::<M>(m, parent, third, stock),
        virt < USER_LIMIT,
    ensures
        ({
            let s = sweep::page_shared::<M>(m, child, parent, virt, stock, tlb);
            &&& sweep::side_by_side::<M>(s.memory, child, third, s.stock)
            &&& sweep::side_by_side::<M>(s.memory, parent, third, s.stock)
            &&& forall|p: Seq<int>|
                tree::is_path(p, 3) ==> #[trigger] tree::reached::<M>(s.memory, third, 3, p)
                    == tree::reached::<M>(m, third, 3, p)
            &&& forall|other: u64| #[trigger]
                tree::leaf_at::<M>(s.memory, third, other) == tree::leaf_at::<M>(m, third, other)
        }),
{
    let page = tree::leaf_at::<M>(m, parent, virt);
    if page is Some {
        let bits = page->0;
        let phys = M::named(bits);
        let flags = sweep::given_flags::<M>(bits);
        let counted = m.shared(phys);
        let ready = sweep::marked::<M>(m, parent, virt, bits);
        let s = sweep::page_shared::<M>(m, child, parent, virt, stock, tlb);
        sweep::counting_moves_nothing::<M>(m, counted, child, parent, stock);
        sweep::counting_moves_nothing::<M>(m, counted, child, third, stock);
        sweep::counting_moves_nothing::<M>(m, counted, third, parent, stock);
        sweep::same_words_same_ways::<M>(m, counted, third);
        sweep::same_words_same_ways::<M>(m, counted, parent);
        tree::path_of_is_path(virt, 3);
        if M::shared_flags(M::flags_in(bits)) is Some {
            let new_bits = M::leaf_bits(phys, flags);
            sweep::marking::<M>(counted, child, parent, virt, new_bits, stock);
            sweep::marking::<M>(counted, third, parent, virt, new_bits, stock);
            still_side_by_side::<M>(counted, ready, child, third, stock, stock);
        }
        assert(sweep::side_by_side::<M>(ready, child, parent, stock));
        assert(sweep::side_by_side::<M>(ready, child, third, stock));
        assert(sweep::side_by_side::<M>(ready, parent, third, stock));
        assert forall|p: Seq<int>| tree::is_path(p, 3) implies #[trigger] tree::reached::<M>(
            ready,
            third,
            3,
            p,
        ) == tree::reached::<M>(m, third, 3, p) by {
            assert(tree::reached::<M>(counted, third, 3, p) == tree::reached::<M>(m, third, 3, p));
        }
        assert forall|other: u64| #[trigger]
            tree::leaf_at::<M>(ready, third, other) == tree::leaf_at::<M>(m, third, other) by {
            assert(tree::leaf_at::<M>(counted, third, other) == tree::leaf_at::<M>(
                m,
                third,
                other,
            ));
        }
        match change::refusal::<M>(ready, child, virt, 3, stock.len()) {
            Some(_) => {
                let after = ready.released(phys);
                sweep::counting_moves_nothing::<M>(ready, after, child, third, stock);
                sweep::counting_moves_nothing::<M>(ready, after, parent, third, stock);
                sweep::same_words_same_ways::<M>(ready, after, third);
                assert forall|p: Seq<int>| tree::is_path(p, 3) implies #[trigger] tree::reached::<
                    M,
                >(after, third, 3, p) == tree::reached::<M>(m, third, 3, p) by {
                    assert(tree::reached::<M>(ready, third, 3, p) == tree::reached::<M>(
                        m,
                        third,
                        3,
                        p,
                    ));
                }
                assert forall|other: u64| #[trigger]
                    tree::leaf_at::<M>(after, third, other) == tree::leaf_at::<M>(
                        m,
                        third,
                        other,
                    ) by {
                    assert(tree::leaf_at::<M>(ready, third, other) == tree::leaf_at::<M>(
                        m,
                        third,
                        other,
                    ));
                }
            },
            None => {
                let new_bits = M::leaf_bits(phys, flags);
                change::the_way_is_made::<M>(ready, child, virt, flags, stock);
                let (open, left, table) = change::way_made::<M>(
                    ready,
                    child,
                    virt,
                    3,
                    flags,
                    stock,
                );
                let after = open.stored(table, walk::index_at(virt, 0), new_bits);
                sweep::taking::<M>(ready, child, parent, virt, stock, open, left, table, new_bits);
                sweep::taking::<M>(ready, child, third, virt, stock, open, left, table, new_bits);
                still_side_by_side::<M>(ready, after, parent, third, stock, left);
                assert forall|p: Seq<int>| tree::is_path(p, 3) implies #[trigger] tree::reached::<
                    M,
                >(after, third, 3, p) == tree::reached::<M>(m, third, 3, p) by {
                    assert(tree::reached::<M>(ready, third, 3, p) == tree::reached::<M>(
                        m,
                        third,
                        3,
                        p,
                    ));
                }
                assert forall|other: u64| #[trigger]
                    tree::leaf_at::<M>(after, third, other) == tree::leaf_at::<M>(
                        m,
                        third,
                        other,
                    ) by {
                    assert(tree::leaf_at::<M>(ready, third, other) == tree::leaf_at::<M>(
                        m,
                        third,
                        other,
                    ));
                }
            },
        }
    }
}

/// Sharing a page loses no frame anybody held, moves none of the parent's
/// tables, and puts none in the child but from the frames in hand.
pub(crate) proof fn where_sharing_leads<M: Machine>(
    m: MachineView,
    child: u64,
    parent: u64,
    virt: u64,
    stock: Seq<u64>,
    tlb: Tlb,
)
    requires
        sweep::side_by_side::<M>(m, child, parent, stock),
        virt < USER_LIMIT,
    ensures
        ({
            let s = sweep::page_shared::<M>(m, child, parent, virt, stock, tlb);
            &&& forall|frame: u64| m.count(frame) > 0 ==> #[trigger] s.memory.count(frame) > 0
            &&& forall|p: Seq<int>|
                tree::is_path(p, 3) ==> #[trigger] tree::reached::<M>(s.memory, parent, 3, p)
                    == tree::reached::<M>(m, parent, 3, p)
            &&& forall|p: Seq<int>|
                tree::is_path(p, 3) ==> (#[trigger] tree::reached::<M>(s.memory, child, 3, p)
                    matches Some(t) ==> tree::reached::<M>(m, child, 3, p) == Some(t)
                    || stock.contains(t))
            &&& s.stock.len() <= stock.len()
            &&& s.stock == stock.take(s.stock.len() as int)
        }),
{
    let page = tree::leaf_at::<M>(m, parent, virt);
    assert(stock.take(stock.len() as int) =~= stock);
    if page is Some {
        let bits = page->0;
        let phys = M::named(bits);
        let flags = sweep::given_flags::<M>(bits);
        let counted = m.shared(phys);
        let ready = sweep::marked::<M>(m, parent, virt, bits);
        let s = sweep::page_shared::<M>(m, child, parent, virt, stock, tlb);
        sweep::counting_moves_nothing::<M>(m, counted, child, parent, stock);
        sweep::same_words_same_ways::<M>(m, counted, child);
        sweep::same_words_same_ways::<M>(m, counted, parent);
        tree::path_of_is_path(virt, 3);
        if M::shared_flags(M::flags_in(bits)) is Some {
            sweep::marking::<M>(
                counted,
                child,
                parent,
                virt,
                M::leaf_bits(phys, flags),
                stock,
            );
        }
        assert(ready.counts == counted.counts);
        assert forall|p: Seq<int>| tree::is_path(p, 3) implies #[trigger] tree::reached::<M>(
            ready,
            parent,
            3,
            p,
        ) == tree::reached::<M>(m, parent, 3, p) by {
            assert(tree::reached::<M>(counted, parent, 3, p) == tree::reached::<M>(
                m,
                parent,
                3,
                p,
            ));
        }
        assert forall|p: Seq<int>| tree::is_path(p, 3) implies #[trigger] tree::reached::<M>(
            ready,
            child,
            3,
            p,
        ) == tree::reached::<M>(m, child, 3, p) by {
            assert(tree::reached::<M>(counted, child, 3, p) == tree::reached::<M>(m, child, 3, p));
        }
        match change::refusal::<M>(ready, child, virt, 3, stock.len()) {
            Some(_) => {
                let after = ready.released(phys);
                sweep::same_words_same_ways::<M>(ready, after, child);
                sweep::same_words_same_ways::<M>(ready, after, parent);
                assert forall|p: Seq<int>| tree::is_path(p, 3) implies #[trigger] tree::reached::<
                    M,
                >(after, parent, 3, p) == tree::reached::<M>(m, parent, 3, p) by {
                    assert(tree::reached::<M>(ready, parent, 3, p) == tree::reached::<M>(
                        m,
                        parent,
                        3,
                        p,
                    ));
                }
                assert forall|p: Seq<int>| tree::is_path(p, 3) implies #[trigger] tree::reached::<
                    M,
                >(after, child, 3, p) == tree::reached::<M>(m, child, 3, p) by {
                    assert(tree::reached::<M>(ready, child, 3, p) == tree::reached::<M>(
                        m,
                        child,
                        3,
                        p,
                    ));
                }
                assert forall|frame: u64| m.count(frame) > 0 implies #[trigger] after.count(frame)
                    > 0 by {
                }
            },
            None => {
                let new_bits = M::leaf_bits(phys, flags);
                change::the_way_is_made::<M>(ready, child, virt, flags, stock);
                let (open, left, table) = change::way_made::<M>(
                    ready,
                    child,
                    virt,
                    3,
                    flags,
                    stock,
                );
                let after = open.stored(table, walk::index_at(virt, 0), new_bits);
                sweep::taking::<M>(ready, child, parent, virt, stock, open, left, table, new_bits);
                assert forall|p: Seq<int>| tree::is_path(p, 3) implies #[trigger] tree::reached::<
                    M,
                >(after, parent, 3, p) == tree::reached::<M>(m, parent, 3, p) by {
                    assert(tree::reached::<M>(ready, parent, 3, p) == tree::reached::<M>(
                        m,
                        parent,
                        3,
                        p,
                    ));
                }
                assert forall|p: Seq<int>| tree::is_path(p, 3) implies (#[trigger] tree::reached::<
                    M,
                >(after, child, 3, p) matches Some(t) ==> tree::reached::<M>(m, child, 3, p)
                    == Some(t) || stock.contains(t)) by {
                    assert(tree::reached::<M>(ready, child, 3, p) == tree::reached::<M>(
                        m,
                        child,
                        3,
                        p,
                    ));
                }
                assert forall|frame: u64| m.count(frame) > 0 implies #[trigger] after.count(frame)
                    > 0 by {
                    assert(counted.count(frame) > 0);
                }
            },
        }
    }
}

// ---- how far a fork has come ------------------------------------------------------

/// A space whose own tables are none of those every space shares with the
/// kernel.
pub open spec fn is_clear_of<M: Machine>(m: MachineView, root: u64, kernel: u64) -> bool {
    forall|p: Seq<int>, q: Seq<int>|
        #![trigger tree::reached::<M>(m, root, 3, p), tree::reached::<M>(m, kernel, 3, q)]
        sweep::is_own(p) && tree::is_path(q, 3) && q.len() > 0 && q[0] >= 256 && tree::reached::<M>(
            m,
            root,
            3,
            p,
        ) is Some ==> tree::reached::<M>(m, root, 3, p) != tree::reached::<M>(m, kernel, 3, q)
}

/// A space that stands apart from the one being forked, and is clear of what
/// every space shares with the kernel. The kernel's own tables are one.
pub open spec fn is_neighbour<M: Machine>(m: MachineView, parent: u64, kernel: u64, third: u64) -> bool {
    &&& tables::is_space::<M>(m, third)
    &&& sweep::side_by_side::<M>(m, parent, third, Seq::empty())
    &&& is_clear_of::<M>(m, third, kernel)
}

/// Every mapping of a space as it was.
pub open spec fn same_pages<M: Machine>(m: MachineView, after: MachineView, root: u64) -> bool {
    forall|virt: u64| #[trigger]
        tree::leaf_at::<M>(after, root, virt) == tree::leaf_at::<M>(m, root, virt)
}

/// A space left where it was and as it was.
pub open spec fn is_left_alone<M: Machine>(m: MachineView, after: MachineView, root: u64) -> bool {
    &&& tables::is_space::<M>(after, root)
    &&& same_pages::<M>(m, after, root)
    &&& forall|p: Seq<int>|
        tree::is_path(p, 3) ==> #[trigger] tree::reached::<M>(after, root, 3, p)
            == tree::reached::<M>(m, root, 3, p)
}

/// Frames in hand that somebody holds.
pub open spec fn are_held(m: MachineView, stock: Seq<u64>) -> bool {
    forall|i: int| 0 <= i < stock.len() ==> m.count(#[trigger] stock[i]) > 0
}

/// The two spaces of a fork side by side, with the frames in hand for the
/// child's tables, and every neighbour of the parent left alone by both.
pub open spec fn is_family<M: Machine>(
    start: MachineView,
    m: MachineView,
    child: u64,
    parent: u64,
    kernel: u64,
    stock: Seq<u64>,
) -> bool {
    &&& tables::is_space::<M>(m, child)
    &&& tables::is_space::<M>(m, parent)
    &&& sweep::side_by_side::<M>(m, child, parent, stock)
    &&& are_held(m, stock)
    &&& forall|third: u64| #[trigger]
        is_neighbour::<M>(start, parent, kernel, third) ==> is_left_alone::<M>(start, m, third)
            && sweep::side_by_side::<M>(m, child, third, stock) && sweep::side_by_side::<M>(
            m,
            parent,
            third,
            stock,
        )
}

/// How a page of the parent's is mapped in both spaces once it is shared: both
/// name the same frame, and neither may write to it without a copy.
pub open spec fn is_shared<M: Machine>(
    before: Option<u64>,
    parent: Option<u64>,
    child: Option<u64>,
) -> bool {
    match before {
        None => parent is None && child is None,
        Some(bits) => {
            let both = change::shown::<M>(
                M::leaf_bits(M::named(bits), sweep::given_flags::<M>(bits)),
            );
            &&& child == both
            &&& parent == (if M::shared_flags(M::flags_in(bits)) is Some {
                both
            } else {
                before
            })
        },
    }
}

/// A page of the parent's as it was, or marked as shared.
pub open spec fn is_kept<M: Machine>(before: Option<u64>, now: Option<u64>) -> bool {
    ||| now == before
    ||| before matches Some(bits) && now == change::shown::<M>(
        M::leaf_bits(M::named(bits), sweep::given_flags::<M>(bits)),
    )
}

/// Every page of the parent's kept.
pub open spec fn keeps_pages<M: Machine>(start: MachineView, m: MachineView, parent: u64) -> bool {
    forall|virt: u64|
        virt < USER_LIMIT ==> is_kept::<M>(
            tree::leaf_at::<M>(start, parent, virt),
            #[trigger] tree::leaf_at::<M>(m, parent, virt),
        )
}

/// Every page below an address shared, and nothing done to the rest.
pub open spec fn is_forked_to<M: Machine>(
    start: MachineView,
    m: MachineView,
    child: u64,
    parent: u64,
    at: int,
) -> bool {
    &&& forall|virt: u64|
        virt < USER_LIMIT && virt < at ==> is_shared::<M>(
            tree::leaf_at::<M>(start, parent, virt),
            tree::leaf_at::<M>(m, parent, virt),
            #[trigger] tree::leaf_at::<M>(m, child, virt),
        )
    &&& forall|virt: u64|
        at <= virt < USER_LIMIT ==> #[trigger] tree::leaf_at::<M>(m, child, virt) is None
    &&& forall|virt: u64|
        at <= virt < USER_LIMIT ==> #[trigger] tree::leaf_at::<M>(m, parent, virt)
            == tree::leaf_at::<M>(start, parent, virt)
}

/// Changes that move no page leave a fork as far as it was.
proof fn as_far_as_it_was<M: Machine>(
    start: MachineView,
    m: MachineView,
    after: MachineView,
    child: u64,
    parent: u64,
    at: int,
)
    requires
        same_pages::<M>(m, after, child),
        same_pages::<M>(m, after, parent),
    ensures
        is_forked_to::<M>(start, m, child, parent, at) ==> is_forked_to::<M>(
            start,
            after,
            child,
            parent,
            at,
        ),
        keeps_pages::<M>(start, m, parent) ==> keeps_pages::<M>(start, after, parent),
{
    assert forall|virt: u64| #[trigger]
        tree::leaf_at::<M>(after, child, virt) == tree::leaf_at::<M>(m, child, virt) && true by {
        assert(tree::leaf_at::<M>(after, parent, virt) == tree::leaf_at::<M>(m, parent, virt));
    }
}

/// What has been forked has been kept.
proof fn forking_keeps_pages<M: Machine>(
    start: MachineView,
    m: MachineView,
    child: u64,
    parent: u64,
    at: int,
)
    requires
        is_forked_to::<M>(start, m, child, parent, at),
    ensures
        keeps_pages::<M>(start, m, parent),
{
    assert forall|virt: u64| virt < USER_LIMIT implies is_kept::<M>(
        tree::leaf_at::<M>(start, parent, virt),
        #[trigger] tree::leaf_at::<M>(m, parent, virt),
    ) by {
        if virt < at {
            let child_has = tree::leaf_at::<M>(m, child, virt);
            assert(is_shared::<M>(
                tree::leaf_at::<M>(start, parent, virt),
                tree::leaf_at::<M>(m, parent, virt),
                child_has,
            ));
        }
    }
}

/// An address below what a program may use is on the page its number says.
proof fn pages_below_the_limit(a: u64, b: u64)
    requires
        a < USER_LIMIT,
        b < USER_LIMIT,
    ensures
        tree::page_of(a) == tree::page_of(b) <==> a as int / 0x1000 == b as int / 0x1000,
{
}

/// One page more.
proof fn one_page_further<M: Machine>(
    start: MachineView,
    m: MachineView,
    child: u64,
    parent: u64,
    kernel: u64,
    at: u64,
    stock: Seq<u64>,
    tlb: Tlb,
)
    requires
        is_family::<M>(start, m, child, parent, kernel, stock),
        is_forked_to::<M>(start, m, child, parent, at as int),
        at % 0x1000 == 0,
        at < USER_LIMIT,
    ensures
        ({
            let s = sweep::page_shared::<M>(m, child, parent, at, stock, tlb);
            &&& is_family::<M>(start, s.memory, child, parent, kernel, s.stock)
            &&& keeps_pages::<M>(start, s.memory, parent)
            &&& s.result is Ok ==> is_forked_to::<M>(
                start,
                s.memory,
                child,
                parent,
                at + 0x1000,
            )
            &&& s.stock.len() <= stock.len()
        }),
{
    let s = sweep::page_shared::<M>(m, child, parent, at, stock, tlb);
    let after = s.memory;
    sweep::sharing_a_page::<M>(m, child, parent, at, stock, tlb);
    where_sharing_leads::<M>(m, child, parent, at, stock, tlb);
    forking_keeps_pages::<M>(start, m, child, parent, at as int);
    // The family.
    assert forall|p: Seq<int>| tree::is_path(p, 3) implies (#[trigger] tree::reached::<M>(
        after,
        parent,
        3,
        p,
    ) matches Some(t) ==> after.count(t) > 0) by {
        assert(tree::reached::<M>(after, parent, 3, p) == tree::reached::<M>(m, parent, 3, p));
    }
    assert forall|p: Seq<int>| tree::is_path(p, 3) implies (#[trigger] tree::reached::<M>(
        after,
        child,
        3,
        p,
    ) matches Some(t) ==> after.count(t) > 0) by {
        if tree::reached::<M>(after, child, 3, p) is Some {
            let t = tree::reached::<M>(after, child, 3, p)->0;
            if stock.contains(t) {
                let i = choose|i: int| 0 <= i < stock.len() && stock[i] == t;
                assert(m.count(stock[i]) > 0);
            } else {
                assert(tree::reached::<M>(m, child, 3, p) == Some(t));
            }
        }
    }
    assert forall|i: int| 0 <= i < s.stock.len() implies after.count(#[trigger] s.stock[i])
        > 0 by {
        assert(s.stock[i] == stock[i]);
        assert(m.count(stock[i]) > 0);
    }
    assert forall|third: u64| #[trigger]
        is_neighbour::<M>(start, parent, kernel, third) implies is_left_alone::<M>(
        start,
        after,
        third,
    ) && sweep::side_by_side::<M>(after, child, third, s.stock) && sweep::side_by_side::<M>(
        after,
        parent,
        third,
        s.stock,
    ) by {
        a_third_space_stays::<M>(m, child, parent, third, at, stock, tlb);
        assert forall|p: Seq<int>| tree::is_path(p, 3) implies (#[trigger] tree::reached::<M>(
            after,
            third,
            3,
            p,
        ) matches Some(t) ==> after.count(t) > 0) by {
            assert(tree::reached::<M>(after, third, 3, p) == tree::reached::<M>(m, third, 3, p));
        }
    }
    // How far it has come.
    let page = tree::leaf_at::<M>(m, parent, at);
    assert forall|virt: u64| virt < USER_LIMIT implies is_kept::<M>(
        tree::leaf_at::<M>(start, parent, virt),
        #[trigger] tree::leaf_at::<M>(after, parent, virt),
    ) by {
        pages_below_the_limit(virt, at);
        if tree::page_of(virt) != tree::page_of(at) {
            assert(tree::leaf_at::<M>(after, parent, virt) == tree::leaf_at::<M>(m, parent, virt));
        } else {
            tree::indices_make_the_page(virt, at);
            assert(tree::leaf_at::<M>(after, parent, virt) == tree::leaf_at::<M>(
                after,
                parent,
                at,
            ));
            assert(tree::leaf_at::<M>(m, parent, virt) == page);
        }
    }
    if s.result is Ok {
        assert forall|virt: u64| virt < USER_LIMIT && virt < at + 0x1000 implies is_shared::<M>(
            tree::leaf_at::<M>(start, parent, virt),
            tree::leaf_at::<M>(after, parent, virt),
            #[trigger] tree::leaf_at::<M>(after, child, virt),
        ) by {
            pages_below_the_limit(virt, at);
            if virt < at {
                assert(tree::leaf_at::<M>(after, child, virt) == tree::leaf_at::<M>(
                    m,
                    child,
                    virt,
                ));
                assert(tree::leaf_at::<M>(after, parent, virt) == tree::leaf_at::<M>(
                    m,
                    parent,
                    virt,
                ));
            } else {
                tree::indices_make_the_page(virt, at);
                assert(tree::leaf_at::<M>(m, parent, virt) == page);
                assert(tree::leaf_at::<M>(after, parent, virt) == tree::leaf_at::<M>(
                    after,
                    parent,
                    at,
                ));
                assert(tree::leaf_at::<M>(after, child, virt) == tree::leaf_at::<M>(
                    after,
                    child,
                    at,
                ));
                assert(tree::leaf_at::<M>(m, child, at) is None);
            }
        }
        assert forall|virt: u64|
            at + 0x1000 <= virt < USER_LIMIT implies #[trigger] tree::leaf_at::<M>(
            after,
            child,
            virt,
        ) is None by {
            pages_below_the_limit(virt, at);
            assert(tree::leaf_at::<M>(after, child, virt) == tree::leaf_at::<M>(m, child, virt));
        }
        assert forall|virt: u64|
            at + 0x1000 <= virt < USER_LIMIT implies #[trigger] tree::leaf_at::<M>(
            after,
            parent,
            virt,
        ) == tree::leaf_at::<M>(start, parent, virt) by {
            pages_below_the_limit(virt, at);
            assert(tree::leaf_at::<M>(after, parent, virt) == tree::leaf_at::<M>(m, parent, virt));
        }
    }
}

/// A run of pages more.
#[verifier::spinoff_prover]
#[verifier::rlimit(80)]
pub(crate) proof fn some_pages_further<M: Machine>(
    start: MachineView,
    m: MachineView,
    child: u64,
    parent: u64,
    kernel: u64,
    at: u64,
    count: nat,
    stock: Seq<u64>,
    tlb: Tlb,
)
    requires
        is_family::<M>(start, m, child, parent, kernel, stock),
        is_forked_to::<M>(start, m, child, parent, at as int),
        at % 0x1000 == 0,
        at + count * 0x1000 <= USER_LIMIT,
    ensures
        ({
            let s = sweep::pages_shared::<M>(m, child, parent, at, count, stock, tlb);
            &&& is_family::<M>(start, s.memory, child, parent, kernel, s.stock)
            &&& keeps_pages::<M>(start, s.memory, parent)
            &&& s.result is Ok ==> is_forked_to::<M>(
                start,
                s.memory,
                child,
                parent,
                at + count * 0x1000,
            )
            &&& s.stock.len() <= stock.len()
        }),
    decreases count,
{
    if count == 0 {
        forking_keeps_pages::<M>(start, m, child, parent, at as int);
    } else {
        let less = (count - 1) as nat;
        some_pages_further::<M>(start, m, child, parent, kernel, at, less, stock, tlb);
        let before = sweep::pages_shared::<M>(m, child, parent, at, less, stock, tlb);
        if before.result is Ok {
            let next = (at + less * 0x1000) as u64;
            assert((at + less * 0x1000) % 0x1000 == 0);
            assert(next + 0x1000 == at + count * 0x1000);
            one_page_further::<M>(
                start,
                before.memory,
                child,
                parent,
                kernel,
                next,
                before.stock,
                before.tlb,
            );
        }
    }
}

/// The same words and counts make the same family.
proof fn the_same_family<M: Machine>(
    start: MachineView,
    m: MachineView,
    after: MachineView,
    child: u64,
    parent: u64,
    kernel: u64,
    stock: Seq<u64>,
)
    requires
        is_family::<M>(start, m, child, parent, kernel, stock),
        after.words == m.words,
        after.counts == m.counts,
    ensures
        is_family::<M>(start, after, child, parent, kernel, stock),
        same_pages::<M>(m, after, child),
        same_pages::<M>(m, after, parent),
{
    tables::same_words_and_counts::<M>(m, after, child);
    tables::same_words_and_counts::<M>(m, after, parent);
    sweep::counting_moves_nothing::<M>(m, after, child, parent, stock);
    assert forall|i: int| 0 <= i < stock.len() implies after.count(#[trigger] stock[i]) > 0 by {
        assert(m.count(stock[i]) > 0);
    }
    assert forall|third: u64| #[trigger]
        is_neighbour::<M>(start, parent, kernel, third) implies is_left_alone::<M>(
        start,
        after,
        third,
    ) && sweep::side_by_side::<M>(after, child, third, stock) && sweep::side_by_side::<M>(
        after,
        parent,
        third,
        stock,
    ) by {
        tables::same_words_and_counts::<M>(m, after, third);
        sweep::counting_moves_nothing::<M>(m, after, child, third, stock);
        sweep::counting_moves_nothing::<M>(m, after, parent, third, stock);
    }
}

/// A frame taken, or given back, by nobody in the family: one of its spaces is
/// left alone by it.
proof fn a_frame_changes_hands<M: Machine>(
    m: MachineView,
    after: MachineView,
    root: u64,
    frame: u64,
)
    requires
        tables::is_space::<M>(m, root),
        forall|p: Seq<int>|
            tree::is_path(p, 3) ==> #[trigger] tree::reached::<M>(m, root, 3, p) != Some(frame),
        forall|other: u64|
            other != frame ==> #[trigger] after.words[other] == m.words[other],
        forall|other: u64| other != frame ==> #[trigger] after.count(other) == m.count(other),
        forall|other: u64| #[trigger] after.has(other) == m.has(other),
    ensures
        is_left_alone::<M>(m, after, root),
{
    assert forall|p: Seq<int>| tree::is_path(p, 3) implies (#[trigger] tree::reached::<M>(
        m,
        root,
        3,
        p,
    ) matches Some(t) ==> after.words[t] == m.words[t]) by {
        assert(tree::reached::<M>(m, root, 3, p) != Some(frame));
    }
    sweep::out_of_sight::<M>(m, after, root);
    assert forall|p: Seq<int>| tree::is_path(p, 3) implies (#[trigger] tree::reached::<M>(
        after,
        root,
        3,
        p,
    ) matches Some(t) ==> after.has(t) && after.count(t) > 0) by {
        if tree::reached::<M>(after, root, 3, p) is Some {
            let t = tree::reached::<M>(after, root, 3, p)->0;
            assert(tree::reached::<M>(m, root, 3, p) == Some(t));
            assert(t != frame);
            assert(after.has(t) == m.has(t));
            assert(after.count(t) == m.count(t));
        }
    }
}

/// A frame nobody held goes with the ones in hand.
proof fn one_more_frame<M: Machine>(
    start: MachineView,
    m: MachineView,
    child: u64,
    parent: u64,
    kernel: u64,
    stock: Seq<u64>,
    fresh: u64,
)
    requires
        is_family::<M>(start, m, child, parent, kernel, stock),
        m.count(fresh) == 0,
        m.has(fresh),
        M::nameable(fresh),
    ensures
        is_family::<M>(start, m.handed_over(fresh), child, parent, kernel, stock.push(fresh)),
        same_pages::<M>(m, m.handed_over(fresh), child),
        same_pages::<M>(m, m.handed_over(fresh), parent),
{
    let after = m.handed_over(fresh);
    let more = stock.push(fresh);
    assert forall|other: u64| #[trigger] after.has(other) == m.has(other) by {
    }
    assert forall|i: int| 0 <= i < stock.len() implies #[trigger] stock[i] != fresh by {
        assert(m.count(stock[i]) > 0);
    }
    assert forall|i: int| 0 <= i < more.len() implies after.count(#[trigger] more[i]) > 0 by {
        if i < stock.len() {
            assert(m.count(stock[i]) > 0);
        }
    }
    a_fresh_frame_is_spare::<M>(m, child, stock, fresh);
    a_fresh_frame_is_spare::<M>(m, parent, stock, fresh);
    still_side_by_side::<M>(m, after, child, parent, stock, more);
    assert forall|third: u64| #[trigger]
        is_neighbour::<M>(start, parent, kernel, third) implies is_left_alone::<M>(
        start,
        after,
        third,
    ) && sweep::side_by_side::<M>(after, child, third, more) && sweep::side_by_side::<M>(
        after,
        parent,
        third,
        more,
    ) by {
        a_fresh_frame_is_spare::<M>(m, third, stock, fresh);
        still_side_by_side::<M>(m, after, child, third, stock, more);
        still_side_by_side::<M>(m, after, parent, third, stock, more);
    }
}

proof fn a_fresh_frame_is_spare<M: Machine>(m: MachineView, root: u64, stock: Seq<u64>, fresh: u64)
    requires
        tables::is_space::<M>(m, root),
        tree::are_spare::<M>(m, root, stock),
        are_held(m, stock),
        m.count(fresh) == 0,
        m.has(fresh),
        M::nameable(fresh),
    ensures
        is_left_alone::<M>(m, m.handed_over(fresh), root),
        tree::are_spare::<M>(m.handed_over(fresh), root, stock.push(fresh)),
{
    let after = m.handed_over(fresh);
    let more = stock.push(fresh);
    assert forall|other: u64| #[trigger] after.has(other) == m.has(other) by {
    }
    a_frame_changes_hands::<M>(m, after, root, fresh);
    assert forall|i: int| 0 <= i < more.len() implies tree::is_spare::<M>(
        after,
        root,
        #[trigger] more[i],
    ) by {
        if i < stock.len() {
            assert(tree::is_spare::<M>(m, root, stock[i]));
            assert(m.count(stock[i]) > 0);
            assert(after.words[stock[i]] == m.words[stock[i]]);
            assert forall|p: Seq<int>| tree::is_path(p, 3) implies #[trigger] tree::reached::<M>(
                after,
                root,
                3,
                p,
            ) != Some(more[i]) by {
                assert(tree::reached::<M>(m, root, 3, p) != Some(stock[i]));
            }
        } else {
            assert forall|p: Seq<int>| tree::is_path(p, 3) implies #[trigger] tree::reached::<M>(
                after,
                root,
                3,
                p,
            ) != Some(more[i]) by {
                assert(tree::reached::<M>(m, root, 3, p) != Some(fresh));
            }
        }
    }
    assert forall|i: int, j: int| 0 <= i < j < more.len() implies #[trigger] more[i]
        != #[trigger] more[j] by {
        if j < stock.len() {
            assert(stock[i] != stock[j]);
        } else {
            assert(m.count(stock[i]) > 0);
        }
    }
}

/// The last of the frames in hand goes back.
proof fn one_frame_fewer<M: Machine>(
    start: MachineView,
    m: MachineView,
    child: u64,
    parent: u64,
    kernel: u64,
    stock: Seq<u64>,
)
    requires
        is_family::<M>(start, m, child, parent, kernel, stock),
        stock.len() > 0,
    ensures
        is_family::<M>(
            start,
            m.released(stock.last()),
            child,
            parent,
            kernel,
            stock.drop_last(),
        ),
        same_pages::<M>(m, m.released(stock.last()), child),
        same_pages::<M>(m, m.released(stock.last()), parent),
{
    let frame = stock.last();
    let less = stock.drop_last();
    let after = m.released(frame);
    assert(frame == stock[stock.len() - 1]);
    assert forall|other: u64| #[trigger] after.has(other) == m.has(other) by {
    }
    assert forall|i: int| 0 <= i < less.len() implies after.count(#[trigger] less[i]) > 0 by {
        assert(less[i] == stock[i]);
        assert(m.count(stock[i]) > 0);
        assert(stock[i] != stock[stock.len() - 1]);
    }
    a_frame_goes_back::<M>(m, child, stock);
    a_frame_goes_back::<M>(m, parent, stock);
    still_side_by_side::<M>(m, after, child, parent, stock, less);
    assert forall|third: u64| #[trigger]
        is_neighbour::<M>(start, parent, kernel, third) implies is_left_alone::<M>(
        start,
        after,
        third,
    ) && sweep::side_by_side::<M>(after, child, third, less) && sweep::side_by_side::<M>(
        after,
        parent,
        third,
        less,
    ) by {
        a_frame_goes_back::<M>(m, third, stock);
        still_side_by_side::<M>(m, after, child, third, stock, less);
        still_side_by_side::<M>(m, after, parent, third, stock, less);
    }
}

proof fn a_frame_goes_back<M: Machine>(m: MachineView, root: u64, stock: Seq<u64>)
    requires
        tables::is_space::<M>(m, root),
        tree::are_spare::<M>(m, root, stock),
        stock.len() > 0,
    ensures
        is_left_alone::<M>(m, m.released(stock.last()), root),
        tree::are_spare::<M>(m.released(stock.last()), root, stock.drop_last()),
{
    let frame = stock.last();
    let less = stock.drop_last();
    let after = m.released(frame);
    assert(frame == stock[stock.len() - 1]);
    assert(tree::is_spare::<M>(m, root, stock[stock.len() - 1]));
    assert forall|other: u64| #[trigger] after.has(other) == m.has(other) by {
    }
    a_frame_changes_hands::<M>(m, after, root, frame);
    assert forall|i: int| 0 <= i < less.len() implies tree::is_spare::<M>(
        after,
        root,
        #[trigger] less[i],
    ) by {
        assert(less[i] == stock[i]);
        assert(tree::is_spare::<M>(m, root, stock[i]));
        assert forall|p: Seq<int>| tree::is_path(p, 3) implies #[trigger] tree::reached::<M>(
            after,
            root,
            3,
            p,
        ) != Some(less[i]) by {
            assert(tree::reached::<M>(m, root, 3, p) != Some(stock[i]));
        }
    }
    assert forall|i: int, j: int| 0 <= i < j < less.len() implies #[trigger] less[i]
        != #[trigger] less[j] by {
        assert(stock[i] != stock[j]);
    }
}

/// A fresh child stands apart from a space that is clear of the kernel's.
proof fn a_fresh_child_stands_apart<M: Machine>(
    m: MachineView,
    after: MachineView,
    child: u64,
    other: u64,
    kernel: u64,
)
    requires
        tables::is_space::<M>(m, kernel),
        tables::is_space::<M>(m, other),
        is_clear_of::<M>(m, other, kernel),
        m.count(child) == 0,
        m.has(child),
        M::nameable(child),
        after == teardown::adopted(m.handed_over(child), child, kernel, 256, ENTRIES as int),
        tables::is_space::<M>(after, child),
    ensures
        is_left_alone::<M>(m, after, other),
        sweep::side_by_side::<M>(after, child, other, Seq::empty()),
{
    let ready = m.handed_over(child);
    let none = Seq::<u64>::empty();
    assert(tree::are_spare::<M>(m, kernel, none));
    a_fresh_frame_is_spare::<M>(m, kernel, none, child);
    assert(none.push(child)[0] == child);
    assert(tree::is_spare::<M>(ready, kernel, none.push(child)[0]));
    let root_path = Seq::<int>::empty();
    assert(tree::is_path(root_path, 3));
    assert(tree::reached::<M>(m, kernel, 3, root_path) == Some(kernel));
    assert(m.has(kernel));
    assert(ready.has(kernel) == m.has(kernel)) by {
    }
    teardown::a_fresh_space_shares_the_kernel_half::<M>(ready, child, kernel);
    teardown::adopting(ready, child, kernel, 256, ENTRIES as int);
    assert forall|frame: u64| frame != child implies #[trigger] after.words[frame]
        == m.words[frame] by {
        assert(ready.words[frame] == m.words[frame]);
    }
    assert forall|frame: u64| frame != child implies #[trigger] after.count(frame)
        == m.count(frame) by {
    }
    assert forall|frame: u64| #[trigger] after.has(frame) == m.has(frame) by {
        assert(ready.has(frame) == m.has(frame));
    }
    assert forall|p: Seq<int>| tree::is_path(p, 3) implies #[trigger] tree::reached::<M>(
        m,
        other,
        3,
        p,
    ) != Some(child) by {
    }
    a_frame_changes_hands::<M>(m, after, other, child);
    assert forall|p: Seq<int>, q: Seq<int>|
        #![trigger tree::reached::<M>(after, child, 3, p), tree::reached::<M>(after, other, 3, q)]
        sweep::is_own(p) && tree::is_path(q, 3) && tree::reached::<M>(after, child, 3, p)
            is Some implies tree::reached::<M>(after, child, 3, p) != tree::reached::<M>(
        after,
        other,
        3,
        q,
    ) by {
        assert(tree::reached::<M>(after, other, 3, q) == tree::reached::<M>(m, other, 3, q));
        if p.len() > 0 {
            assert(tree::reached::<M>(after, child, 3, p) is None);
        } else {
            assert(tree::reached::<M>(after, child, 3, p) == Some(child));
        }
    }
    assert forall|p: Seq<int>, q: Seq<int>|
        #![trigger tree::reached::<M>(after, other, 3, p), tree::reached::<M>(after, child, 3, q)]
        sweep::is_own(p) && tree::is_path(q, 3) && tree::reached::<M>(after, other, 3, p)
            is Some implies tree::reached::<M>(after, other, 3, p) != tree::reached::<M>(
        after,
        child,
        3,
        q,
    ) by {
        assert(tree::reached::<M>(after, other, 3, p) == tree::reached::<M>(m, other, 3, p));
        if q.len() == 0 {
            assert(tree::reached::<M>(after, child, 3, q) == Some(child));
        } else if q[0] >= 256 {
            assert(tree::reached::<M>(after, child, 3, q) == tree::reached::<M>(
                ready,
                kernel,
                3,
                q,
            ));
            assert(tree::reached::<M>(ready, kernel, 3, q) == tree::reached::<M>(m, kernel, 3, q));
        }
    }
}

/// A fresh space disturbs nobody, and is clear of what every space shares with
/// the kernel.
pub(crate) proof fn a_fresh_space_disturbs_nobody<M: Machine>(
    m: MachineView,
    after: MachineView,
    fresh: u64,
    kernel: u64,
)
    requires
        tables::is_space::<M>(m, kernel),
        m.count(fresh) == 0,
        m.has(fresh),
        M::nameable(fresh),
        after == teardown::adopted(m.handed_over(fresh), fresh, kernel, 256, ENTRIES as int),
        tables::is_space::<M>(after, fresh),
    ensures
        is_clear_of::<M>(after, fresh, kernel),
        forall|other: u64| #[trigger]
            tables::is_space::<M>(m, other) ==> is_left_alone::<M>(m, after, other),
        forall|other: u64| #[trigger]
            tables::is_space::<M>(m, other) && is_clear_of::<M>(m, other, kernel)
                ==> sweep::side_by_side::<M>(after, fresh, other, Seq::empty()),
{
    let ready = m.handed_over(fresh);
    let none = Seq::<int>::empty();
    assert(tree::is_path(none, 3));
    assert(tree::reached::<M>(m, kernel, 3, none) == Some(kernel));
    assert(m.has(kernel));
    assert(ready.has(kernel) == m.has(kernel));
    teardown::adopting(ready, fresh, kernel, 256, ENTRIES as int);
    assert forall|other: u64| #[trigger] tables::is_space::<M>(m, other) implies is_left_alone::<M>(
        m,
        after,
        other,
    ) by {
        assert forall|frame: u64| frame != fresh implies #[trigger] after.words[frame]
            == m.words[frame] by {
            assert(ready.words[frame] == m.words[frame]);
        }
        assert forall|frame: u64| frame != fresh implies #[trigger] after.count(frame) == m.count(
            frame,
        ) by {
        }
        assert forall|frame: u64| #[trigger] after.has(frame) == m.has(frame) by {
            assert(ready.has(frame) == m.has(frame));
        }
        assert forall|p: Seq<int>| tree::is_path(p, 3) implies #[trigger] tree::reached::<M>(
            m,
            other,
            3,
            p,
        ) != Some(fresh) by {
        }
        a_frame_changes_hands::<M>(m, after, other, fresh);
    }
    assert forall|other: u64| #[trigger]
        tables::is_space::<M>(m, other) && is_clear_of::<M>(
            m,
            other,
            kernel,
        ) implies sweep::side_by_side::<M>(after, fresh, other, Seq::empty()) by {
        a_fresh_child_stands_apart::<M>(m, after, fresh, other, kernel);
    }
    assert(is_clear_of::<M>(m, kernel, kernel)) by {
        assert forall|p: Seq<int>, q: Seq<int>|
            #![trigger tree::reached::<M>(m, kernel, 3, p), tree::reached::<M>(m, kernel, 3, q)]
            sweep::is_own(p) && tree::is_path(q, 3) && q.len() > 0 && q[0] >= 256
                && tree::reached::<M>(m, kernel, 3, p) is Some implies tree::reached::<M>(
            m,
            kernel,
            3,
            p,
        ) != tree::reached::<M>(m, kernel, 3, q) by {
            if tree::reached::<M>(m, kernel, 3, p) == tree::reached::<M>(m, kernel, 3, q) {
                assert(p == q);
            }
        }
    }
    assert(tables::is_space::<M>(m, kernel) && is_clear_of::<M>(m, kernel, kernel));
    assert(sweep::side_by_side::<M>(after, fresh, kernel, Seq::empty()));
}

/// A fork with nothing done yet.
proof fn a_family_begins<M: Machine>(
    m: MachineView,
    after: MachineView,
    child: u64,
    parent: u64,
    kernel: u64,
)
    requires
        tables::is_space::<M>(m, kernel),
        tables::is_space::<M>(m, parent),
        is_clear_of::<M>(m, parent, kernel),
        m.count(child) == 0,
        m.has(child),
        M::nameable(child),
        after == teardown::adopted(m.handed_over(child), child, kernel, 256, ENTRIES as int),
        tables::is_space::<M>(after, child),
        forall|virt: u64|
            walk::index_at(virt, 3) < 256 ==> #[trigger] tree::leaf_at::<M>(
                after,
                child,
                virt,
            ) is None,
    ensures
        is_family::<M>(m, after, child, parent, kernel, Seq::empty()),
        is_forked_to::<M>(m, after, child, parent, 0),
{
    a_fresh_child_stands_apart::<M>(m, after, child, parent, kernel);
    assert forall|third: u64| #[trigger]
        is_neighbour::<M>(m, parent, kernel, third) implies is_left_alone::<M>(m, after, third)
        && sweep::side_by_side::<M>(after, child, third, Seq::empty()) && sweep::side_by_side::<M>(
        after,
        parent,
        third,
        Seq::empty(),
    ) by {
        a_fresh_child_stands_apart::<M>(m, after, child, third, kernel);
        still_side_by_side::<M>(m, after, parent, third, Seq::empty(), Seq::empty());
    }
    assert forall|virt: u64| 0 <= virt < USER_LIMIT implies #[trigger] tree::leaf_at::<M>(
        after,
        child,
        virt,
    ) is None by {
        assert(walk::index_at(virt, 3) < 256);
    }
}

/// Where nothing is populated there is nothing to share.
proof fn nothing_to_share<M: Machine>(
    start: MachineView,
    m: MachineView,
    child: u64,
    parent: u64,
    at: int,
    next: int,
)
    requires
        is_forked_to::<M>(start, m, child, parent, at),
        at <= next <= USER_LIMIT,
        forall|w: u64|
            at <= w < next ==> #[trigger] tree::leaf_table::<M>(m, parent, w) is None,
        0 <= at,
        at % 0x1000 == 0,
        next % 0x1000 == 0,
        fork_counts::counted_to::<M>(start, m, parent, at),
    ensures
        is_forked_to::<M>(start, m, child, parent, next),
        fork_counts::counted_to::<M>(start, m, parent, next),
{
    assert forall|virt: u64| at <= virt < next implies #[trigger] tree::leaf_at::<M>(
        start,
        parent,
        virt,
    ) is None by {
        assert(tree::leaf_table::<M>(m, parent, virt) is None);
        assert(tree::leaf_at::<M>(m, parent, virt) == tree::leaf_at::<M>(start, parent, virt));
    }
    fork_counts::no_more_mapped::<M>(start, m, parent, at, next);
    assert forall|virt: u64| virt < USER_LIMIT && virt < next implies is_shared::<M>(
        tree::leaf_at::<M>(start, parent, virt),
        tree::leaf_at::<M>(m, parent, virt),
        #[trigger] tree::leaf_at::<M>(m, child, virt),
    ) by {
        if virt >= at {
            assert(tree::leaf_table::<M>(m, parent, virt) is None);
            assert(tree::leaf_at::<M>(m, parent, virt) == tree::leaf_at::<M>(start, parent, virt));
        }
    }
}

/// A space that stands apart from one torn down is as it was.
proof fn a_teardown_leaves_others_alone<M: Machine>(
    m: MachineView,
    after: MachineView,
    torn: u64,
    other: u64,
)
    requires
        sweep::side_by_side::<M>(m, torn, other, Seq::empty()),
        teardown::is_torn_down_to::<M>(m, after, torn, 256),
    ensures
        same_pages::<M>(m, after, other),
        tree::is_tree::<M>(after, other, 3),
        forall|p: Seq<int>|
            tree::is_path(p, 3) ==> #[trigger] tree::reached::<M>(after, other, 3, p)
                == tree::reached::<M>(m, other, 3, p),
        forall|frame: u64| #[trigger]
            holding::held::<M>(after, other, frame) == holding::held::<M>(m, other, frame),
{
    assert forall|p: Seq<int>| tree::is_path(p, 3) implies (#[trigger] tree::reached::<M>(
        m,
        other,
        3,
        p,
    ) matches Some(t) ==> after.words[t] == m.words[t]) by {
        if tree::reached::<M>(m, other, 3, p) is Some {
            let t = tree::reached::<M>(m, other, 3, p)->0;
            if !teardown::is_outside::<M>(m, torn, 3, t) {
                let q = choose|q: Seq<int>|
                    tree::is_path(q, 3) && #[trigger] tree::reached::<M>(m, torn, 3, q) == Some(t);
                if sweep::is_own(q) {
                    assert(tree::reached::<M>(m, torn, 3, q) != tree::reached::<M>(m, other, 3, p));
                }
                assert(q.len() > 0 && q[0] >= 256);
            }
        }
    }
    assert forall|frame: u64| #[trigger]
        holding::held::<M>(after, other, frame) == holding::held::<M>(m, other, frame) by {
        holding::holding_stays::<M>(m, after, other, frame);
    }
    sweep::out_of_sight::<M>(m, after, other);
    assert forall|p: Seq<int>| tree::is_path(p, 3) implies (#[trigger] tree::reached::<M>(
        after,
        other,
        3,
        p,
    ) matches Some(t) ==> after.has(t)) by {
        if tree::reached::<M>(after, other, 3, p) is Some {
            let t = tree::reached::<M>(after, other, 3, p)->0;
            assert(tree::reached::<M>(m, other, 3, p) == Some(t));
            assert(after.has(t) == m.has(t));
        }
    }
}

// ---- forking --------------------------------------------------------------------------

/// Take frames for the tables one block of the child may need. Whether there
/// were enough.
fn stock_up<M: Machine>(
    machine: &mut M,
    stock: &mut TableStock,
    Ghost(start): Ghost<MachineView>,
    Ghost(child): Ghost<u64>,
    Ghost(parent): Ghost<u64>,
    Ghost(kernel): Ghost<u64>,
) -> (enough: bool)
    requires
        is_family::<M>(start, old(machine).state(), child, parent, kernel, old(stock)@),
        fork_counts::none_lost::<M>(start, old(machine).state(), child, old(stock)@),
        fork_counts::all_counted::<M>(start, old(machine).state(), child),
        fork_counts::parent_holds_on::<M>(start, old(machine).state(), parent),
        fork_told::is_told::<M>(start, old(machine).state(), parent),
        fork_room::is_clear_ahead::<M>(old(machine).state(), child),
        fork_kept::rest_is_kept::<M>(start, old(machine).state(), parent),
        fork_kept::tables_are_new::<M>(start, old(machine).state(), child),
        old(stock)@.len() == 0,
    ensures
        fork_room::is_clear_ahead::<M>(final(machine).state(), child),
        fork_kept::rest_is_kept::<M>(start, final(machine).state(), parent),
        fork_kept::tables_are_new::<M>(start, final(machine).state(), child),
        !enough ==> walk::ran_out(start, final(machine).state()),
        fork_told::is_told::<M>(start, final(machine).state(), parent),
        fork_counts::parent_holds_on::<M>(start, final(machine).state(), parent),
        is_family::<M>(start, final(machine).state(), child, parent, kernel, final(stock)@),
        fork_counts::none_lost::<M>(start, final(machine).state(), child, final(stock)@),
        fork_counts::counts_kept::<M>(start, old(machine).state(), final(machine).state(), child),
        same_pages::<M>(old(machine).state(), final(machine).state(), child),
        same_pages::<M>(old(machine).state(), final(machine).state(), parent),
        final(stock)@.len() <= DEPTH,
        enough ==> final(stock)@.len() == DEPTH,
{
    let ghost m = machine.state();
    proof {
        reveal(fork_counts::counts_kept);
    }
    while stock.len() < DEPTH
        invariant
            m == old(machine).state(),
            is_family::<M>(start, machine.state(), child, parent, kernel, stock@),
            fork_counts::none_lost::<M>(start, machine.state(), child, stock@),
            fork_counts::all_counted::<M>(start, m, child),
            fork_counts::counts_kept::<M>(start, m, machine.state(), child),
            fork_counts::parent_holds_on::<M>(start, machine.state(), parent),
            fork_told::is_told::<M>(start, machine.state(), parent),
            fork_room::is_clear_ahead::<M>(machine.state(), child),
            fork_kept::rest_is_kept::<M>(start, machine.state(), parent),
            fork_kept::tables_are_new::<M>(start, machine.state(), child),
            same_pages::<M>(m, machine.state(), child),
            same_pages::<M>(m, machine.state(), parent),
            stock@.len() <= DEPTH,
        decreases DEPTH - stock@.len(),
    {
        let ghost now = machine.state();
        let ghost so_far = stock@;
        match machine.alloc_zeroed() {
            Some(frame) => {
                stock.push(frame);
                proof {
                    one_more_frame::<M>(start, now, child, parent, kernel, so_far, frame);
                    fork_counts::kept_counts::<M>(start, m, now, child, parent, 0);
                    fork_counts::one_more_in_hand::<M>(start, now, child, so_far, frame);
                    fork_counts::still_kept::<M>(start, m, now, machine.state(), child);
                    let after = machine.state();
                    assert forall|p: Seq<int>| tree::is_path(p, 3) implies #[trigger] tree::reached::<
                        M,
                    >(now, parent, 3, p) != Some(frame) by {
                    }
                    fork_counts::the_parent_does_not_see::<M>(start, now, after, parent, frame);
                    fork_told::told_with_one_more::<M>(start, now, parent, frame);
                    fork_room::clear_with_one_more::<M>(now, child, frame);
                    assert forall|p: Seq<int>| tree::is_path(p, 3) implies #[trigger] tree::reached::<
                        M,
                    >(now, child, 3, p) != Some(frame) by {
                    }
                    fork_kept::kept_with_one_more::<M>(start, now, child, parent, frame);
                    assert forall|virt: u64| #[trigger]
                        tree::leaf_at::<M>(after, child, virt) == tree::leaf_at::<M>(
                            m,
                            child,
                            virt,
                        ) by {
                        assert(tree::leaf_at::<M>(now, child, virt) == tree::leaf_at::<M>(
                            m,
                            child,
                            virt,
                        ));
                    }
                    assert forall|virt: u64| #[trigger]
                        tree::leaf_at::<M>(after, parent, virt) == tree::leaf_at::<M>(
                            m,
                            parent,
                            virt,
                        ) by {
                        assert(tree::leaf_at::<M>(now, parent, virt) == tree::leaf_at::<M>(
                            m,
                            parent,
                            virt,
                        ));
                    }
                }
            },
            None => {
                proof {
                    let asked = machine.state();
                    the_same_family::<M>(start, now, asked, child, parent, kernel, so_far);
                    fork_counts::the_same_reckoning::<M>(start, now, asked, child, so_far);
                    fork_counts::still_kept::<M>(start, m, now, asked, child);
                    fork_counts::the_parent_is_the_same::<M>(start, now, asked, parent);
                    fork_told::told_of_no_frame::<M>(start, now, parent);
                    fork_room::still_clear::<M>(now, asked, child);
                    fork_kept::kept_by_the_same::<M>(start, now, asked, child, parent);
                    assert forall|virt: u64| #[trigger]
                        tree::leaf_at::<M>(asked, child, virt) == tree::leaf_at::<M>(
                            m,
                            child,
                            virt,
                        ) by {
                        assert(tree::leaf_at::<M>(now, child, virt) == tree::leaf_at::<M>(
                            m,
                            child,
                            virt,
                        ));
                    }
                    assert forall|virt: u64| #[trigger]
                        tree::leaf_at::<M>(asked, parent, virt) == tree::leaf_at::<M>(
                            m,
                            parent,
                            virt,
                        ) by {
                        assert(tree::leaf_at::<M>(now, parent, virt) == tree::leaf_at::<M>(
                            m,
                            parent,
                            virt,
                        ));
                    }
                }
                return false;
            },
        }
    }
    true
}

/// Give back the frames a block did not use.
fn give_back<M: Machine>(
    machine: &mut M,
    stock: &mut TableStock,
    Ghost(start): Ghost<MachineView>,
    Ghost(child): Ghost<u64>,
    Ghost(parent): Ghost<u64>,
    Ghost(kernel): Ghost<u64>,
)
    requires
        is_family::<M>(start, old(machine).state(), child, parent, kernel, old(stock)@),
        fork_counts::none_lost::<M>(start, old(machine).state(), child, old(stock)@),
        fork_counts::parent_holds_on::<M>(start, old(machine).state(), parent),
        fork_told::is_told::<M>(start, old(machine).state(), parent),
        fork_room::is_clear_ahead::<M>(old(machine).state(), child),
        fork_kept::rest_is_kept::<M>(start, old(machine).state(), parent),
        fork_kept::tables_are_new::<M>(start, old(machine).state(), child),
    ensures
        fork_told::is_told::<M>(start, final(machine).state(), parent),
        fork_room::is_clear_ahead::<M>(final(machine).state(), child),
        fork_kept::rest_is_kept::<M>(start, final(machine).state(), parent),
        fork_kept::tables_are_new::<M>(start, final(machine).state(), child),
        teardown::goes_on_from(
            final(machine).state().journal,
            old(machine).state().journal,
        ),
        fork_counts::parent_holds_on::<M>(start, final(machine).state(), parent),
        is_family::<M>(start, final(machine).state(), child, parent, kernel, Seq::empty()),
        fork_counts::none_lost::<M>(start, final(machine).state(), child, Seq::empty()),
        fork_counts::counts_kept::<M>(start, old(machine).state(), final(machine).state(), child),
        same_pages::<M>(old(machine).state(), final(machine).state(), child),
        same_pages::<M>(old(machine).state(), final(machine).state(), parent),
        final(stock)@.len() == 0,
{
    let ghost m = machine.state();
    proof {
        reveal(fork_counts::counts_kept);
        assert(m.journal.take(m.journal.len() as int) =~= m.journal);
    }
    while stock.len() > 0
        invariant
            m == old(machine).state(),
            is_family::<M>(start, machine.state(), child, parent, kernel, stock@),
            fork_counts::none_lost::<M>(start, machine.state(), child, stock@),
            fork_counts::counts_kept::<M>(start, m, machine.state(), child),
            fork_counts::parent_holds_on::<M>(start, machine.state(), parent),
            fork_told::is_told::<M>(start, machine.state(), parent),
            fork_room::is_clear_ahead::<M>(machine.state(), child),
            fork_kept::rest_is_kept::<M>(start, machine.state(), parent),
            fork_kept::tables_are_new::<M>(start, machine.state(), child),
            teardown::goes_on_from(machine.state().journal, m.journal),
            same_pages::<M>(m, machine.state(), child),
            same_pages::<M>(m, machine.state(), parent),
        decreases stock@.len(),
    {
        let ghost now = machine.state();
        let ghost left = stock@;
        if let Some(unused) = stock.take() {
            machine.free(unused);
            proof {
                one_frame_fewer::<M>(start, now, child, parent, kernel, left);
                fork_counts::one_fewer_in_hand::<M>(start, now, child, left);
                fork_counts::the_parent_is_the_same::<M>(start, now, machine.state(), parent);
                fork_told::told_with_one_fewer::<M>(start, now, parent, unused);
                fork_room::still_clear::<M>(now, machine.state(), child);
                fork_kept::kept_by_the_same::<M>(start, now, machine.state(), child, parent);
                teardown::one_event_on(m.journal, now.journal, Event::Free(unused));
                fork_counts::still_kept::<M>(start, m, now, machine.state(), child);
                let after = machine.state();
                assert forall|virt: u64| #[trigger]
                    tree::leaf_at::<M>(after, child, virt) == tree::leaf_at::<M>(
                        m,
                        child,
                        virt,
                    ) by {
                    assert(tree::leaf_at::<M>(now, child, virt) == tree::leaf_at::<M>(
                        m,
                        child,
                        virt,
                    ));
                }
                assert forall|virt: u64| #[trigger]
                    tree::leaf_at::<M>(after, parent, virt) == tree::leaf_at::<M>(
                        m,
                        parent,
                        virt,
                    ) by {
                    assert(tree::leaf_at::<M>(now, parent, virt) == tree::leaf_at::<M>(
                        m,
                        parent,
                        virt,
                    ));
                }
            }
        }
    }
    assert(stock@ =~= Seq::empty());
}

/// Share one block of two megabytes, in pieces, with the translations each
/// piece left behind thrown away before the next. Whether all of it went in.
///
/// Only the first piece creates tables, so no piece allocates.
fn share_in_pieces<M: Machine>(
    machine: &mut M,
    to: &Tables,
    from: &Tables,
    block: u64,
    stock: &mut TableStock,
    Ghost(start): Ghost<MachineView>,
    Ghost(kernel): Ghost<u64>,
) -> (done: bool)
    requires
        is_family::<M>(start, old(machine).state(), to.top(), from.top(), kernel, old(stock)@),
        is_forked_to::<M>(start, old(machine).state(), to.top(), from.top(), block as int),
        fork_counts::none_lost::<M>(start, old(machine).state(), to.top(), old(stock)@),
        fork_counts::all_counted::<M>(start, old(machine).state(), to.top()),
        fork_counts::counted_to::<M>(start, old(machine).state(), from.top(), block as int),
        fork_counts::parent_holds_on::<M>(start, old(machine).state(), from.top()),
        fork_told::is_told::<M>(start, old(machine).state(), from.top()),
        tree::is_tree::<M>(start, from.top(), 3),
        fork_room::is_clear_ahead::<M>(old(machine).state(), to.top()),
        fork_kept::rest_is_kept::<M>(start, old(machine).state(), from.top()),
        fork_kept::tables_are_new::<M>(start, old(machine).state(), to.top()),
        block % 0x20_0000 == 0,
        block < USER_LIMIT,
        fork_room::has_room::<M>(old(machine).state(), to.top(), block, old(stock)@),
    ensures
        done,
        fork_counts::parent_holds_on::<M>(start, final(machine).state(), from.top()),
        fork_told::is_told::<M>(start, final(machine).state(), from.top()),
        fork_room::is_clear_ahead::<M>(final(machine).state(), to.top()),
        fork_kept::rest_is_kept::<M>(start, final(machine).state(), from.top()),
        fork_kept::tables_are_new::<M>(start, final(machine).state(), to.top()),
        is_family::<M>(start, final(machine).state(), to.top(), from.top(), kernel, final(stock)@),
        keeps_pages::<M>(start, final(machine).state(), from.top()),
        fork_counts::none_lost::<M>(start, final(machine).state(), to.top(), final(stock)@),
        fork_counts::is_level::<M>(start, final(machine).state(), to.top(), from.top()),
        done ==> is_forked_to::<M>(
            start,
            final(machine).state(),
            to.top(),
            from.top(),
            block + 0x20_0000,
        ),
        done ==> fork_counts::all_counted::<M>(start, final(machine).state(), to.top()),
        done ==> fork_counts::counted_to::<M>(
            start,
            final(machine).state(),
            from.top(),
            block + 0x20_0000,
        ),
{
    let ghost child = to.top();
    let ghost parent = from.top();
    let mut piece: u64 = block;
    let end: u64 = block + level_size(1);
    proof {
        forking_keeps_pages::<M>(start, machine.state(), child, parent, block as int);
        fork_counts::so_far_so_level::<M>(start, machine.state(), child, parent, block as int);
    }
    while piece < end
        invariant
            block % 0x20_0000 == 0,
            end == block + 0x20_0000,
            end <= USER_LIMIT,
            block <= piece <= end,
            (piece - block) % 0x8_0000 == 0,
            child == to.top(),
            parent == from.top(),
            is_family::<M>(start, machine.state(), child, parent, kernel, stock@),
            is_forked_to::<M>(start, machine.state(), child, parent, piece as int),
            keeps_pages::<M>(start, machine.state(), parent),
            fork_counts::none_lost::<M>(start, machine.state(), child, stock@),
            fork_counts::all_counted::<M>(start, machine.state(), child),
            fork_counts::counted_to::<M>(start, machine.state(), parent, piece as int),
            fork_counts::parent_holds_on::<M>(start, machine.state(), parent),
            fork_told::is_told::<M>(start, machine.state(), parent),
            tree::is_tree::<M>(start, parent, 3),
            fork_room::is_clear_ahead::<M>(machine.state(), child),
            fork_kept::rest_is_kept::<M>(start, machine.state(), parent),
            fork_kept::tables_are_new::<M>(start, machine.state(), child),
            fork_room::has_room::<M>(machine.state(), child, block, stock@),
            fork_counts::is_level::<M>(start, machine.state(), child, parent),
        decreases end - piece,
    {
        let ghost now = machine.state();
        let mut tlb = Tlb::new();
        proof {
            some_pages_further::<M>(
                start,
                now,
                child,
                parent,
                kernel,
                piece,
                UNMAP_CHUNK as nat,
                stock@,
                tlb,
            );
            fork_kept::some_pages_keep::<M>(
                start,
                now,
                child,
                parent,
                kernel,
                piece,
                UNMAP_CHUNK as nat,
                stock@,
                tlb,
            );
            fork_room::some_pages_find_room::<M>(
                start,
                now,
                child,
                parent,
                kernel,
                block,
                piece,
                UNMAP_CHUNK as nat,
                stock@,
                tlb,
            );
            fork_told::told_of_some_pages::<M>(
                start,
                now,
                child,
                parent,
                kernel,
                piece,
                UNMAP_CHUNK as nat,
                stock@,
            );
            fork_counts::the_parent_shares_on::<M>(
                start,
                now,
                child,
                parent,
                kernel,
                piece,
                UNMAP_CHUNK as nat,
                stock@,
                tlb,
            );
            fork_counts::some_pages_counted::<M>(
                start,
                now,
                child,
                parent,
                kernel,
                piece,
                UNMAP_CHUNK as nat,
                stock@,
                tlb,
            );
        }
        let shared = to.share_range(machine, from, piece, UNMAP_CHUNK as usize, stock, &mut tlb);
        let ghost put = machine.state();
        // One accounting of the translations for both sides: an invalidation
        // by address covers the parent's cached translation and the child's
        // alike, and the parent is the space the processor is on.
        tlb.flush(machine);
        proof {
            the_same_family::<M>(start, put, machine.state(), child, parent, kernel, stock@);
            fork_counts::the_same_reckoning::<M>(start, put, machine.state(), child, stock@);
            fork_counts::the_parent_is_the_same::<M>(start, put, machine.state(), parent);
            fork_room::still_clear::<M>(put, machine.state(), child);
            fork_kept::kept_by_the_same::<M>(start, put, machine.state(), child, parent);
            sweep::same_words_same_ways::<M>(put, machine.state(), child);
            tree::path_of_is_path(block, 3);
            fork_counts::kept_counts::<M>(
                start,
                put,
                machine.state(),
                child,
                parent,
                piece + UNMAP_CHUNK * 0x1000,
            );
            as_far_as_it_was::<M>(
                start,
                put,
                machine.state(),
                child,
                parent,
                piece + UNMAP_CHUNK * 0x1000,
            );
        }
        if shared.is_err() {
            return false;
        }
        piece = piece + UNMAP_CHUNK * PAGE_SIZE_U64;
    }
    true
}

/// Share one block: take the frames it may need, share it, and give back what
/// it did not use. Whether all of it went in.
fn copy_block<M: Machine>(
    machine: &mut M,
    to: &Tables,
    from: &Tables,
    block: u64,
    stock: &mut TableStock,
    Ghost(start): Ghost<MachineView>,
    Ghost(kernel): Ghost<u64>,
) -> (done: bool)
    requires
        is_family::<M>(start, old(machine).state(), to.top(), from.top(), kernel, Seq::empty()),
        is_forked_to::<M>(start, old(machine).state(), to.top(), from.top(), block as int),
        fork_counts::none_lost::<M>(start, old(machine).state(), to.top(), Seq::empty()),
        fork_counts::all_counted::<M>(start, old(machine).state(), to.top()),
        fork_counts::counted_to::<M>(start, old(machine).state(), from.top(), block as int),
        fork_counts::parent_holds_on::<M>(start, old(machine).state(), from.top()),
        fork_told::is_told::<M>(start, old(machine).state(), from.top()),
        tree::is_tree::<M>(start, from.top(), 3),
        fork_room::is_clear_ahead::<M>(old(machine).state(), to.top()),
        fork_kept::rest_is_kept::<M>(start, old(machine).state(), from.top()),
        fork_kept::tables_are_new::<M>(start, old(machine).state(), to.top()),
        old(stock)@ == Seq::<u64>::empty(),
        block % 0x20_0000 == 0,
        block < USER_LIMIT,
    ensures
        !done ==> walk::ran_out(start, final(machine).state()),
        fork_counts::parent_holds_on::<M>(start, final(machine).state(), from.top()),
        fork_told::is_told::<M>(start, final(machine).state(), from.top()),
        fork_room::is_clear_ahead::<M>(final(machine).state(), to.top()),
        fork_kept::rest_is_kept::<M>(start, final(machine).state(), from.top()),
        fork_kept::tables_are_new::<M>(start, final(machine).state(), to.top()),
        is_family::<M>(start, final(machine).state(), to.top(), from.top(), kernel, Seq::empty()),
        fork_counts::none_lost::<M>(start, final(machine).state(), to.top(), Seq::empty()),
        fork_counts::is_level::<M>(start, final(machine).state(), to.top(), from.top()),
        done ==> fork_counts::all_counted::<M>(start, final(machine).state(), to.top()),
        done ==> fork_counts::counted_to::<M>(
            start,
            final(machine).state(),
            from.top(),
            block + 0x20_0000,
        ),
        keeps_pages::<M>(start, final(machine).state(), from.top()),
        done ==> is_forked_to::<M>(
            start,
            final(machine).state(),
            to.top(),
            from.top(),
            block + 0x20_0000,
        ),
        final(stock)@ == Seq::<u64>::empty(),
{
    let ghost now = machine.state();
    let ghost child = to.top();
    let ghost parent = from.top();
    // The frames the child's tables for this block may need. One block is one
    // last-level table, so three levels at most, whatever the block holds.
    let enough = stock_up(
        machine,
        stock,
        Ghost(start),
        Ghost(child),
        Ghost(parent),
        Ghost(kernel),
    );
    proof {
        as_far_as_it_was::<M>(start, now, machine.state(), child, parent, block as int);
        fork_counts::kept_counts::<M>(start, now, machine.state(), child, parent, block as int);
        fork_counts::so_far_so_level::<M>(start, machine.state(), child, parent, block as int);
        forking_keeps_pages::<M>(start, machine.state(), child, parent, block as int);
    }
    let mut done = false;
    if enough {
        done = share_in_pieces(machine, to, from, block, stock, Ghost(start), Ghost(kernel));
    }
    let ghost shared = machine.state();
    // What the block did not use goes back.
    give_back(machine, stock, Ghost(start), Ghost(child), Ghost(parent), Ghost(kernel));
    proof {
        if !enough {
            teardown::still_ran_out(start, shared, machine.state());
        }
        assert(stock@ =~= Seq::empty());
        as_far_as_it_was::<M>(
            start,
            shared,
            machine.state(),
            child,
            parent,
            block + 0x20_0000,
        );
        fork_counts::kept_counts::<M>(
            start,
            shared,
            machine.state(),
            child,
            parent,
            block + 0x20_0000,
        );
    }
    done
}

/// Share the next block that has anything in it. Where to go on from, or
/// nothing when not all of the block went in.
#[verifier::spinoff_prover]
#[verifier::rlimit(80)]
fn copy_next<M: Machine>(
    machine: &mut M,
    to: &Tables,
    from: &Tables,
    at: u64,
    stock: &mut TableStock,
    Ghost(start): Ghost<MachineView>,
    Ghost(kernel): Ghost<u64>,
) -> (next: Option<u64>)
    requires
        is_family::<M>(start, old(machine).state(), to.top(), from.top(), kernel, Seq::empty()),
        is_forked_to::<M>(start, old(machine).state(), to.top(), from.top(), at as int),
        fork_counts::none_lost::<M>(start, old(machine).state(), to.top(), Seq::empty()),
        fork_counts::all_counted::<M>(start, old(machine).state(), to.top()),
        fork_counts::counted_to::<M>(start, old(machine).state(), from.top(), at as int),
        fork_counts::parent_holds_on::<M>(start, old(machine).state(), from.top()),
        fork_told::is_told::<M>(start, old(machine).state(), from.top()),
        tree::is_tree::<M>(start, from.top(), 3),
        fork_room::is_clear_ahead::<M>(old(machine).state(), to.top()),
        fork_kept::rest_is_kept::<M>(start, old(machine).state(), from.top()),
        fork_kept::tables_are_new::<M>(start, old(machine).state(), to.top()),
        old(stock)@ == Seq::<u64>::empty(),
        at % 0x20_0000 == 0,
        at < USER_LIMIT,
    ensures
        next is None ==> walk::ran_out(start, final(machine).state()),
        fork_counts::parent_holds_on::<M>(start, final(machine).state(), from.top()),
        fork_told::is_told::<M>(start, final(machine).state(), from.top()),
        fork_room::is_clear_ahead::<M>(final(machine).state(), to.top()),
        fork_kept::rest_is_kept::<M>(start, final(machine).state(), from.top()),
        fork_kept::tables_are_new::<M>(start, final(machine).state(), to.top()),
        is_family::<M>(start, final(machine).state(), to.top(), from.top(), kernel, Seq::empty()),
        keeps_pages::<M>(start, final(machine).state(), from.top()),
        fork_counts::none_lost::<M>(start, final(machine).state(), to.top(), Seq::empty()),
        fork_counts::is_level::<M>(start, final(machine).state(), to.top(), from.top()),
        final(stock)@ == Seq::<u64>::empty(),
        next matches Some(next) ==> {
            &&& at < next <= USER_LIMIT
            &&& next % 0x20_0000 == 0
            &&& is_forked_to::<M>(
                start,
                final(machine).state(),
                to.top(),
                from.top(),
                next as int,
            )
            &&& fork_counts::all_counted::<M>(start, final(machine).state(), to.top())
            &&& fork_counts::counted_to::<M>(
                start,
                final(machine).state(),
                from.top(),
                next as int,
            )
        },
{
    let ghost now = machine.state();
    let ghost child = to.top();
    let ghost parent = from.top();
    match from.next_populated(machine, at, USER_LIMIT) {
        None => {
            proof {
                nothing_to_share::<M>(start, now, child, parent, at as int, USER_LIMIT as int);
                forking_keeps_pages::<M>(start, now, child, parent, at as int);
                fork_counts::so_far_so_level::<M>(start, now, child, parent, at as int);
            }
            Some(USER_LIMIT)
        },
        Some(block) => {
            proof {
                nothing_to_share::<M>(start, now, child, parent, at as int, block as int);
            }
            if copy_block(machine, to, from, block, stock, Ghost(start), Ghost(kernel)) {
                Some(block + level_size(1))
            } else {
                None
            }
        },
    }
}

impl Mm {
    /// The address space a forked child starts with: tables that share every
    /// page of this one copy-on-write, and a copy of the record.
    ///
    /// The walk is driven by address rather than by a pointer into the
    /// parent's tables, and the next block is looked for from the top, so
    /// there is no pointer left to follow into a freed table.
    ///
    /// A copy that fails partway is destroyed here, which gives back what it
    /// had collected.
    pub fn fork<M: Machine>(&self, machine: &mut M, kernel: &KernelTables) -> (forked: Option<Mm>)
        requires
            tables::is_space::<M>(old(machine).state(), kernel.top()),
            tables::is_space::<M>(old(machine).state(), self.top()),
            is_clear_of::<M>(old(machine).state(), self.top(), kernel.top()),
        ensures
            fork_counts::parent_holds_on::<M>(
                old(machine).state(),
                final(machine).state(),
                self.top(),
            ),
            fork_told::is_told::<M>(old(machine).state(), final(machine).state(), self.top()),
            fork_kept::rest_is_kept::<M>(
                old(machine).state(),
                final(machine).state(),
                self.top(),
            ),
            ({
                let m = old(machine).state();
                let after = final(machine).state();
                let parent = self.top();
                match forked {
                    Some(child) => {
                        &&& child.record()@ == self.record()@
                        &&& m.count(child.top()) == 0
                        &&& is_family::<M>(
                            m,
                            after,
                            child.top(),
                            parent,
                            kernel.top(),
                            Seq::empty(),
                        )
                        &&& is_forked_to::<M>(m, after, child.top(), parent, USER_LIMIT as int)
                        &&& fork_counts::none_lost::<M>(m, after, child.top(), Seq::empty())
                        &&& fork_counts::all_counted::<M>(m, after, child.top())
                        &&& fork_counts::counted_to::<M>(m, after, parent, USER_LIMIT as int)
                    },
                    None => {
                        &&& walk::ran_out(m, after)
                        &&& forall|frame: u64|
                            m.count(frame) >= 0 ==> #[trigger] after.count(frame) <= m.count(frame)
                        &&& forall|frame: u64|
                            fork_counts::has_room::<M>(m, parent, frame)
                                ==> #[trigger] after.count(frame) == m.count(frame)
                        &&& keeps_pages::<M>(m, after, parent)
                        &&& tree::is_tree::<M>(after, parent, 3)
                        &&& forall|third: u64| #[trigger]
                            is_neighbour::<M>(m, parent, kernel.top(), third) ==> same_pages::<M>(
                                m,
                                after,
                                third,
                            )
                    },
                }
            }),
    {
        let ghost start = machine.state();
        let ghost parent = self.top();
        let ghost above = kernel.top();
        let tables = match PageTables::new_user(machine, kernel.walk()) {
            Some(tables) => tables,
            None => {
                proof {
                    let asked = machine.state();
                    tables::had_no_frame(start, start);
                    tables::same_words_and_counts::<M>(start, asked, parent);
                    fork_counts::nothing_changed_yet::<M>(start, parent);
                    fork_counts::the_parent_is_the_same::<M>(start, start, asked, parent);
                    fork_told::nothing_to_tell::<M>(start, parent);
                    fork_told::told_of_no_frame::<M>(start, start, parent);
                    fork_kept::nothing_written_yet::<M>(start, parent);
                    assert forall|third: u64| #[trigger]
                        is_neighbour::<M>(start, parent, above, third) implies same_pages::<M>(
                        start,
                        asked,
                        third,
                    ) by {
                        tables::same_words_and_counts::<M>(start, asked, third);
                    }
                }
                return None;
            },
        };
        let from = self.walk();
        let to = tables.walk();
        let ghost child = to.top();
        proof {
            a_family_begins::<M>(start, machine.state(), child, parent, above);
            let none = Seq::<int>::empty();
            assert(tree::is_path(none, 3));
            assert(tree::reached::<M>(start, above, 3, none) == Some(above));
            fork_counts::a_reckoning_begins::<M>(start, machine.state(), child, parent, above);
            fork_counts::so_far_so_level::<M>(start, machine.state(), child, parent, 0);
            fork_told::told_from_the_start::<M>(start, machine.state(), child, parent, above);
            fork_room::clear_from_the_start::<M>(start, machine.state(), child, above);
            fork_kept::kept_from_the_start::<M>(start, machine.state(), child, parent, above);
        }
        let mut at: u64 = 0;
        let mut stock = TableStock::new();
        let mut failed = false;
        assert(stock@ =~= Seq::empty());
        proof {
            forking_keeps_pages::<M>(start, machine.state(), child, parent, 0);
        }
        while at < USER_LIMIT && !failed
            invariant
                child == to.top(),
                parent == from.top(),
                at % 0x20_0000 == 0,
                at <= USER_LIMIT,
                stock@ == Seq::<u64>::empty(),
                is_family::<M>(start, machine.state(), child, parent, above, Seq::empty()),
                keeps_pages::<M>(start, machine.state(), parent),
                fork_counts::none_lost::<M>(start, machine.state(), child, Seq::empty()),
                start.count(child) == 0,
                fork_counts::is_level::<M>(start, machine.state(), child, parent),
                fork_counts::parent_holds_on::<M>(start, machine.state(), parent),
                fork_told::is_told::<M>(start, machine.state(), parent),
                tree::is_tree::<M>(start, parent, 3),
                fork_room::is_clear_ahead::<M>(machine.state(), child),
                fork_kept::rest_is_kept::<M>(start, machine.state(), parent),
                fork_kept::tables_are_new::<M>(start, machine.state(), child),
                failed ==> walk::ran_out(start, machine.state()),
                !failed ==> fork_counts::all_counted::<M>(start, machine.state(), child),
                !failed ==> fork_counts::counted_to::<M>(
                    start,
                    machine.state(),
                    parent,
                    at as int,
                ),
                !failed ==> is_forked_to::<M>(start, machine.state(), child, parent, at as int),
            decreases USER_LIMIT - at, (if failed { 0int } else { 1int }),
        {
            match copy_next(machine, &to, &from, at, &mut stock, Ghost(start), Ghost(above)) {
                Some(next) => {
                    at = next;
                },
                None => {
                    failed = true;
                },
            }
        }
        if failed {
            let ghost before = machine.state();
            proof {
                let none = Seq::<int>::empty();
                assert(tree::is_path(none, 3));
                assert(sweep::is_own(none));
                assert(tree::reached::<M>(before, child, 3, none) == Some(child));
                assert(tree::reached::<M>(before, parent, 3, none) == Some(parent));
            }
            tables.destroy(machine, self.id());
            proof {
                let after = machine.state();
                a_teardown_leaves_others_alone::<M>(before, after, child, parent);
                fork_counts::a_fork_given_up::<M>(start, before, after, child, parent);
                fork_told::told_after_a_teardown::<M>(start, before, after, child, parent);
                fork_kept::kept_after_a_teardown::<M>(start, before, after, child, parent);
                let emptied = teardown::emptied_below::<M>(before, child, USER_LIMIT);
                teardown::nothing_is_given_back_before_the_flush::<M>(before, child, USER_LIMIT);
                teardown::one_event_on(before.journal, emptied.journal, Event::Free(child));
                teardown::still_ran_out(start, before, after);
                assert(fork_counts::parent_holds_on::<M>(start, after, parent)) by {
                    reveal(fork_counts::parent_holds_on);
                    assert forall|frame: u64| #[trigger]
                        holding::held::<M>(after, parent, frame) == holding::held::<M>(
                            start,
                            parent,
                            frame,
                        ) by {
                        assert(holding::held::<M>(before, parent, frame) == holding::held::<M>(
                            start,
                            parent,
                            frame,
                        ));
                    }
                }
                assert forall|virt: u64| virt < USER_LIMIT implies is_kept::<M>(
                    tree::leaf_at::<M>(start, parent, virt),
                    #[trigger] tree::leaf_at::<M>(after, parent, virt),
                ) by {
                    assert(tree::leaf_at::<M>(after, parent, virt) == tree::leaf_at::<M>(
                        before,
                        parent,
                        virt,
                    ));
                }
                assert forall|third: u64| #[trigger]
                    is_neighbour::<M>(start, parent, above, third) implies same_pages::<M>(
                    start,
                    after,
                    third,
                ) by {
                    a_teardown_leaves_others_alone::<M>(before, after, child, third);
                    assert forall|virt: u64| #[trigger]
                        tree::leaf_at::<M>(after, third, virt) == tree::leaf_at::<M>(
                            start,
                            third,
                            virt,
                        ) by {
                        assert(tree::leaf_at::<M>(before, third, virt) == tree::leaf_at::<M>(
                            start,
                            third,
                            virt,
                        ));
                    }
                }
            }
            return None;
        }
        Some(Mm::assemble(tables, self.mem().copy()))
    }
}

/// A page that was shared is written to only through a copy: where it could be
/// written before, neither space's mapping of it is what it was, and both are
/// what the machine gives a page that two spaces share.
pub proof fn both_sides_are_marked<M: Machine>(
    m: MachineView,
    after: MachineView,
    child: u64,
    parent: u64,
    virt: u64,
)
    requires
        is_forked_to::<M>(m, after, child, parent, USER_LIMIT as int),
        virt < USER_LIMIT,
        tree::leaf_at::<M>(m, parent, virt) is Some,
        M::nameable(M::named(tree::leaf_at::<M>(m, parent, virt)->0)),
        M::shared_flags(M::flags_in(tree::leaf_at::<M>(m, parent, virt)->0)) is Some,
    ensures
        ({
            let bits = tree::leaf_at::<M>(m, parent, virt)->0;
            let marked = M::leaf_bits(
                M::named(bits),
                M::shared_flags(M::flags_in(bits))->0,
            );
            &&& tree::leaf_at::<M>(after, parent, virt) == Some(marked)
            &&& tree::leaf_at::<M>(after, child, virt) == Some(marked)
        }),
{
    M::format_holds();
    let child_has = tree::leaf_at::<M>(after, child, virt);
    assert(is_shared::<M>(
        tree::leaf_at::<M>(m, parent, virt),
        tree::leaf_at::<M>(after, parent, virt),
        child_has,
    ));
}

} // verus!
