//! The references a fork takes, and the ones it gives back.

use crate::mm::change;
use crate::mm::fork;
use crate::mm::holding;
use crate::mm::sweep;
use crate::mm::tables;
use crate::mm::teardown;
use crate::mm::tree;
use crate::mm::walk::{self, Machine, MachineView, Tlb, ENTRIES};
use crate::mm::USER_LIMIT;
use vstd::prelude::*;

verus! {

/// A count with some references more. It has sixteen bits, and stays at its
/// end.
pub open spec fn counted_up(count: int, more: nat) -> int {
    if count >= 0xFFFF {
        count
    } else if count + more <= 0xFFFF {
        count + more
    } else {
        0xFFFF
    }
}

/// Every frame somebody held has one reference more for each that the child
/// took.
#[verifier::opaque]
pub open spec fn all_counted<M: Machine>(start: MachineView, m: MachineView, child: u64) -> bool {
    forall|frame: u64|
        start.count(frame) > 0 ==> #[trigger] m.count(frame) == counted_up(
            start.count(frame),
            holding::held::<M>(m, child, frame),
        )
}

/// How many of a space's first pages are a frame.
pub open spec fn mapped_times<M: Machine>(m: MachineView, root: u64, frame: u64, pages: nat) -> nat
    decreases pages,
{
    if pages == 0 {
        0
    } else {
        let last = ((pages - 1) * 0x1000) as u64;
        mapped_times::<M>(m, root, frame, (pages - 1) as nat) + if is_mapped_at::<M>(
            m,
            root,
            frame,
            last,
        ) {
            1nat
        } else {
            0
        }
    }
}

/// A frame is what an address is mapped to.
pub open spec fn is_mapped_at<M: Machine>(m: MachineView, root: u64, frame: u64, virt: u64) -> bool {
    tree::leaf_at::<M>(m, root, virt) matches Some(bits) && M::named(bits) == frame
}

/// How many pages a program may have.
pub open spec fn all_pages() -> nat {
    (USER_LIMIT as int / 0x1000) as nat
}

/// Every frame somebody held has one reference more for each of the parent's
/// pages below an address that is the frame.
#[verifier::opaque]
pub open spec fn counted_to<M: Machine>(
    start: MachineView,
    m: MachineView,
    parent: u64,
    at: int,
) -> bool {
    forall|frame: u64|
        start.count(frame) > 0 ==> #[trigger] m.count(frame) == counted_up(
            start.count(frame),
            mapped_times::<M>(start, parent, frame, (at / 0x1000) as nat),
        )
}

/// A frame somebody held whose count has room for another reference for each
/// of the parent's pages that is the frame.
pub open spec fn has_room<M: Machine>(start: MachineView, parent: u64, frame: u64) -> bool {
    start.count(frame) > 0 && start.count(frame) + mapped_times::<M>(
        start,
        parent,
        frame,
        all_pages(),
    ) < 0xFFFF
}

/// Every frame whose count has room has the references it had and the child's.
#[verifier::opaque]
pub open spec fn is_level<M: Machine>(
    start: MachineView,
    m: MachineView,
    child: u64,
    parent: u64,
) -> bool {
    forall|frame: u64|
        has_room::<M>(start, parent, frame) ==> #[trigger] m.count(frame) == start.count(frame)
            + holding::held::<M>(m, child, frame)
}

/// The parent holds what it held.
#[verifier::opaque]
pub open spec fn parent_holds_on<M: Machine>(start: MachineView, m: MachineView, parent: u64) -> bool {
    forall|frame: u64| #[trigger]
        holding::held::<M>(m, parent, frame) == holding::held::<M>(start, parent, frame)
}

/// Nothing has changed in the references to a frame that somebody held.
#[verifier::opaque]
pub open spec fn counts_kept<M: Machine>(
    start: MachineView,
    m: MachineView,
    after: MachineView,
    child: u64,
) -> bool {
    &&& forall|frame: u64|
        start.count(frame) > 0 ==> #[trigger] after.count(frame) == m.count(frame)
    &&& forall|frame: u64|
        start.count(frame) > 0 ==> #[trigger] holding::held::<M>(after, child, frame)
            == holding::held::<M>(m, child, frame)
}

/// How many references to a frame a fork has: what the child's half holds, the
/// frames in hand, and the child's top table.
pub open spec fn taken<M: Machine>(m: MachineView, child: u64, stock: Seq<u64>, frame: u64) -> int {
    holding::held::<M>(m, child, frame) + holding::times(stock, frame) + (if frame == child {
        1int
    } else {
        0
    })
}

/// No frame has a reference that was not there and that the fork does not
/// have, and none of the frames in hand was anybody's.
#[verifier::opaque]
pub open spec fn none_lost<M: Machine>(
    start: MachineView,
    m: MachineView,
    child: u64,
    stock: Seq<u64>,
) -> bool {
    &&& forall|frame: u64|
        start.count(frame) >= 0 ==> #[trigger] m.count(frame) <= start.count(frame) + taken::<M>(
            m,
            child,
            stock,
            frame,
        )
    &&& forall|i: int| 0 <= i < stock.len() ==> start.count(#[trigger] stock[i]) <= 0
}

/// The same words and counts are the same reckoning.
pub(crate) proof fn the_same_reckoning<M: Machine>(
    start: MachineView,
    m: MachineView,
    after: MachineView,
    child: u64,
    stock: Seq<u64>,
)
    requires
        none_lost::<M>(start, m, child, stock),
        after.words == m.words,
        after.counts == m.counts,
    ensures
        none_lost::<M>(start, after, child, stock),
        counts_kept::<M>(start, m, after, child),
{
    reveal(none_lost);
    reveal(counts_kept);
    assert forall|frame: u64| #[trigger] holding::held::<M>(after, child, frame) == holding::held::<
        M,
    >(m, child, frame) by {
        holding::holding_stays::<M>(m, after, child, frame);
    }
    assert forall|frame: u64| start.count(frame) >= 0 implies #[trigger] after.count(frame)
        <= start.count(frame) + taken::<M>(after, child, stock, frame) by {
        assert(holding::held::<M>(after, child, frame) == holding::held::<M>(m, child, frame));
        assert(m.count(frame) <= start.count(frame) + taken::<M>(m, child, stock, frame));
    }
}

/// A space with nothing taken yet.
pub(crate) proof fn a_reckoning_begins<M: Machine>(
    start: MachineView,
    m: MachineView,
    child: u64,
    parent: u64,
    kernel: u64,
)
    requires
        start.count(child) == 0,
        start.has(child),
        start.has(kernel),
        child != kernel,
        m == teardown::adopted(start.handed_over(child), child, kernel, 256, ENTRIES as int),
        tables::is_space::<M>(start, parent),
    ensures
        parent_holds_on::<M>(start, m, parent),
        none_lost::<M>(start, m, child, Seq::empty()),
        all_counted::<M>(start, m, child),
        counted_to::<M>(start, m, parent, 0),
{
    reveal(none_lost);
    reveal(all_counted);
    reveal(counted_to);
    M::format_holds();
    let ready = start.handed_over(child);
    teardown::adopting(ready, child, kernel, 256, ENTRIES as int);
    assert forall|i: int| 0 <= i < 256 implies !M::is_present(#[trigger] m.word(child, i)) by {
        assert(m.word(child, i) == ready.word(child, i));
    }
    assert forall|frame: u64|
        start.count(frame) >= 0 implies #[trigger] m.count(frame) == start.count(frame) + taken::<
        M,
    >(m, child, Seq::empty(), frame) && holding::held::<M>(m, child, frame) == 0 by {
        holding::nothing_is_held::<M>(m, child, 256, frame);
    }
    nothing_changed_yet::<M>(start, parent);
    assert forall|p: Seq<int>| tree::is_path(p, 3) implies #[trigger] tree::reached::<M>(
        start,
        parent,
        3,
        p,
    ) != Some(child) by {
    }
    the_parent_does_not_see::<M>(start, start, m, parent, child);
}

/// A frame taken from what nobody held.
pub(crate) proof fn one_more_in_hand<M: Machine>(
    start: MachineView,
    m: MachineView,
    child: u64,
    stock: Seq<u64>,
    fresh: u64,
)
    requires
        none_lost::<M>(start, m, child, stock),
        all_counted::<M>(start, m, child),
        m.count(fresh) == 0,
        forall|p: Seq<int>|
            tree::is_path(p, 3) ==> #[trigger] tree::reached::<M>(m, child, 3, p) != Some(fresh),
    ensures
        none_lost::<M>(start, m.handed_over(fresh), child, stock.push(fresh)),
        counts_kept::<M>(start, m, m.handed_over(fresh), child),
{
    reveal(none_lost);
    reveal(all_counted);
    reveal(counts_kept);
    let after = m.handed_over(fresh);
    let more = stock.push(fresh);
    assert forall|frame: u64| #[trigger] holding::held::<M>(after, child, frame) == holding::held::<
        M,
    >(m, child, frame) by {
        holding::holding_stays::<M>(m, after, child, frame);
    }
    assert forall|frame: u64| #[trigger] after.count(frame) == (if frame == fresh {
        1
    } else {
        m.count(frame)
    }) && holding::held::<M>(after, child, frame) == holding::held::<M>(m, child, frame)
        && holding::times(more, frame) == holding::times(stock, frame) + (if frame == fresh {
        1int
    } else {
        0
    }) by {
        holding::holding_stays::<M>(m, after, child, frame);
        assert(more.drop_last() =~= stock);
    }
    assert(start.count(fresh) <= 0) by {
        if start.count(fresh) > 0 {
            assert(m.count(fresh) > 0);
        }
    }
    assert forall|i: int| 0 <= i < more.len() implies start.count(#[trigger] more[i]) <= 0 by {
        if i < stock.len() {
            assert(more[i] == stock[i]);
        }
    }
    assert forall|frame: u64| start.count(frame) >= 0 implies #[trigger] after.count(frame)
        <= start.count(frame) + taken::<M>(after, child, more, frame) by {
        assert(m.count(frame) <= start.count(frame) + taken::<M>(m, child, stock, frame));
    }
}

/// The last of the frames in hand given back.
pub(crate) proof fn one_fewer_in_hand<M: Machine>(
    start: MachineView,
    m: MachineView,
    child: u64,
    stock: Seq<u64>,
)
    requires
        none_lost::<M>(start, m, child, stock),
        stock.len() > 0,
    ensures
        none_lost::<M>(start, m.released(stock.last()), child, stock.drop_last()),
        counts_kept::<M>(start, m, m.released(stock.last()), child),
{
    reveal(none_lost);
    reveal(counts_kept);
    let gone = stock.last();
    let less = stock.drop_last();
    let after = m.released(gone);
    assert(stock[stock.len() - 1] == gone);
    assert forall|frame: u64| #[trigger] holding::held::<M>(after, child, frame) == holding::held::<
        M,
    >(m, child, frame) by {
        holding::holding_stays::<M>(m, after, child, frame);
    }
    assert forall|frame: u64| #[trigger] after.count(frame) == (if frame == gone && m.count(frame)
        > 0 {
        m.count(frame) - 1
    } else {
        m.count(frame)
    }) && holding::held::<M>(after, child, frame) == holding::held::<M>(m, child, frame) by {
        holding::holding_stays::<M>(m, after, child, frame);
    }
    assert forall|i: int| 0 <= i < less.len() implies start.count(#[trigger] less[i]) <= 0 by {
        assert(less[i] == stock[i]);
    }
    assert forall|frame: u64| start.count(frame) >= 0 implies #[trigger] after.count(frame)
        <= start.count(frame) + taken::<M>(after, child, less, frame) by {
        assert(m.count(frame) <= start.count(frame) + taken::<M>(m, child, stock, frame));
    }
}

/// Where nothing has been done the parent holds what it held.
pub(crate) proof fn nothing_changed_yet<M: Machine>(start: MachineView, parent: u64)
    ensures
        parent_holds_on::<M>(start, start, parent),
{
    reveal(parent_holds_on);
}

/// The same words hold the same.
pub(crate) proof fn the_parent_is_the_same<M: Machine>(
    start: MachineView,
    m: MachineView,
    after: MachineView,
    parent: u64,
)
    requires
        parent_holds_on::<M>(start, m, parent),
        after.words == m.words,
    ensures
        parent_holds_on::<M>(start, after, parent),
{
    reveal(parent_holds_on);
    assert forall|frame: u64| #[trigger]
        holding::held::<M>(after, parent, frame) == holding::held::<M>(start, parent, frame) by {
        holding::holding_stays::<M>(m, after, parent, frame);
        assert(holding::held::<M>(m, parent, frame) == holding::held::<M>(start, parent, frame));
    }
}

/// A frame written that is none of the parent's tables leaves it holding what
/// it held.
pub(crate) proof fn the_parent_does_not_see<M: Machine>(
    start: MachineView,
    m: MachineView,
    after: MachineView,
    parent: u64,
    written: u64,
)
    requires
        parent_holds_on::<M>(start, m, parent),
        forall|p: Seq<int>|
            tree::is_path(p, 3) ==> #[trigger] tree::reached::<M>(m, parent, 3, p) != Some(written),
        forall|other: u64| other != written ==> #[trigger] after.words[other] == m.words[other],
    ensures
        parent_holds_on::<M>(start, after, parent),
{
    reveal(parent_holds_on);
    assert forall|frame: u64| #[trigger]
        holding::held::<M>(after, parent, frame) == holding::held::<M>(start, parent, frame) by {
        holding::written_out_of_sight::<M>(m, after, parent, written, frame);
        assert(holding::held::<M>(m, parent, frame) == holding::held::<M>(start, parent, frame));
    }
}

/// Sharing a page leaves the parent holding what it held.
proof fn sharing_takes_nothing<M: Machine>(
    m: MachineView,
    child: u64,
    parent: u64,
    virt: u64,
    stock: Seq<u64>,
    tlb: Tlb,
    frame: u64,
)
    requires
        sweep::side_by_side::<M>(m, child, parent, stock),
        virt < USER_LIMIT,
    ensures
        holding::held::<M>(
            sweep::page_shared::<M>(m, child, parent, virt, stock, tlb).memory,
            parent,
            frame,
        ) == holding::held::<M>(m, parent, frame),
{
    M::format_holds();
    let after = sweep::page_shared::<M>(m, child, parent, virt, stock, tlb).memory;
    let page = tree::leaf_at::<M>(m, parent, virt);
    if page is Some {
        let bits = page->0;
        let phys = M::named(bits);
        let flags = sweep::given_flags::<M>(bits);
        let counted = m.shared(phys);
        let ready = sweep::marked::<M>(m, parent, virt, bits);
        holding::holding_stays::<M>(m, counted, parent, frame);
        sweep::counting_moves_nothing::<M>(m, counted, child, parent, stock);
        assert(tree::leaf_at::<M>(counted, parent, virt) == page);
        if M::shared_flags(M::flags_in(bits)) is Some {
            holding::a_page_written_over::<M>(
                counted,
                parent,
                virt,
                M::leaf_bits(phys, flags),
                frame,
            );
        }
        assert(holding::held::<M>(ready, parent, frame) == holding::held::<M>(m, parent, frame));
        ready_to_share::<M>(m, child, parent, virt, bits, stock);
        if change::refusal::<M>(ready, child, virt, 3, stock.len()) is None {
            assert forall|p: Seq<int>| sweep::is_own(p) implies (#[trigger] tree::reached::<M>(
                ready,
                parent,
                3,
                p,
            ) matches Some(t) ==> after.words[t] == ready.words[t]) by {
                if tree::reached::<M>(ready, parent, 3, p) is Some {
                    let t = tree::reached::<M>(ready, parent, 3, p)->0;
                    assert(teardown::is_outside::<M>(ready, child, 3, t)) by {
                        assert forall|q: Seq<int>|
                            tree::is_path(q, 3) implies #[trigger] tree::reached::<M>(
                            ready,
                            child,
                            3,
                            q,
                        ) != Some(t) by {
                            assert(tree::reached::<M>(ready, parent, 3, p) != tree::reached::<M>(
                                ready,
                                child,
                                3,
                                q,
                            ));
                        }
                    }
                    assert(!stock.contains(t)) by {
                        if stock.contains(t) {
                            let i = choose|i: int| 0 <= i < stock.len() && stock[i] == t;
                            assert(tree::is_spare::<M>(ready, parent, stock[i]));
                        }
                    }
                    holding::a_page_put_in_touches_only_its_space::<M>(
                        ready,
                        child,
                        virt,
                        phys,
                        flags,
                        stock,
                        t,
                    );
                }
            }
            holding::holding_stays::<M>(ready, after, parent, frame);
        } else {
            holding::holding_stays::<M>(ready, after, parent, frame);
        }
    }
}

/// Nor does sharing a run of pages.
#[verifier::spinoff_prover]
pub(crate) proof fn the_parent_shares_on<M: Machine>(
    start: MachineView,
    m: MachineView,
    child: u64,
    parent: u64,
    kernel: u64,
    at: u64,
    count: nat,
    stock: Seq<u64>,
    tlb: Tlb,
)
    requires
        fork::is_family::<M>(start, m, child, parent, kernel, stock),
        fork::is_forked_to::<M>(start, m, child, parent, at as int),
        parent_holds_on::<M>(start, m, parent),
        at % 0x1000 == 0,
        at + count * 0x1000 <= USER_LIMIT,
    ensures
        parent_holds_on::<M>(
            start,
            sweep::pages_shared::<M>(m, child, parent, at, count, stock, tlb).memory,
            parent,
        ),
    decreases count,
{
    if count > 0 {
        let less = (count - 1) as nat;
        the_parent_shares_on::<M>(start, m, child, parent, kernel, at, less, stock, tlb);
        let before = sweep::pages_shared::<M>(m, child, parent, at, less, stock, tlb);
        if before.result is Ok {
            let next = (at + less * 0x1000) as u64;
            let after = sweep::page_shared::<M>(
                before.memory,
                child,
                parent,
                next,
                before.stock,
                before.tlb,
            ).memory;
            assert(sweep::side_by_side::<M>(before.memory, child, parent, before.stock)) by {
                fork::some_pages_further::<M>(
                    start,
                    m,
                    child,
                    parent,
                    kernel,
                    at,
                    less,
                    stock,
                    tlb,
                );
            }
            assert(parent_holds_on::<M>(start, after, parent)) by {
                reveal(parent_holds_on);
                assert forall|frame: u64| #[trigger]
                    holding::held::<M>(after, parent, frame) == holding::held::<M>(
                        start,
                        parent,
                        frame,
                    ) by {
                    sharing_takes_nothing::<M>(
                        before.memory,
                        child,
                        parent,
                        next,
                        before.stock,
                        before.tlb,
                        frame,
                    );
                    assert(holding::held::<M>(before.memory, parent, frame) == holding::held::<M>(
                        start,
                        parent,
                        frame,
                    ));
                }
            }
        }
    }
}

/// Writing over one of the parent's own descriptors changes nothing that the
/// child holds.
proof fn marking_holds_nothing<M: Machine>(
    m: MachineView,
    child: u64,
    parent: u64,
    virt: u64,
    bits: u64,
    stock: Seq<u64>,
    frame: u64,
)
    requires
        sweep::side_by_side::<M>(m, child, parent, stock),
        virt < USER_LIMIT,
        tree::leaf_at::<M>(m, parent, virt) == Some(bits),
    ensures
        holding::held::<M>(sweep::marked::<M>(m, parent, virt, bits), child, frame)
            == holding::held::<M>(m, child, frame),
{
    let after = sweep::marked::<M>(m, parent, virt, bits);
    let counted = m.shared(M::named(bits));
    let table = tree::leaf_table::<M>(m, parent, virt)->0;
    tree::path_of_is_path(virt, 3);
    sweep::own_addresses_take_own_ways(virt, 3);
    sweep::same_words_same_ways::<M>(m, counted, parent);
    assert(tree::reached::<M>(counted, parent, 3, tree::path_of(virt)) == Some(table));
    assert forall|p: Seq<int>| sweep::is_own(p) implies (#[trigger] tree::reached::<M>(
        m,
        child,
        3,
        p,
    ) matches Some(t) ==> after.words[t] == m.words[t]) by {
        assert(tree::reached::<M>(m, parent, 3, tree::path_of(virt)) == Some(table));
        assert(tree::reached::<M>(m, child, 3, p) != Some(table));
    }
    holding::holding_stays::<M>(m, after, child, frame);
}

/// One page more shared.
#[verifier::spinoff_prover]
proof fn one_page_counted<M: Machine>(
    start: MachineView,
    m: MachineView,
    child: u64,
    parent: u64,
    virt: u64,
    stock: Seq<u64>,
    tlb: Tlb,
)
    requires
        sweep::side_by_side::<M>(m, child, parent, stock),
        virt < USER_LIMIT,
        none_lost::<M>(start, m, child, stock),
    ensures
        ({
            let s = sweep::page_shared::<M>(m, child, parent, virt, stock, tlb);
            &&& none_lost::<M>(start, s.memory, child, s.stock)
            &&& s.result is Ok && all_counted::<M>(start, m, child) ==> all_counted::<M>(
                start,
                s.memory,
                child,
            )
            &&& forall|frame: u64| #[trigger]
                s.memory.count(frame) == (if !is_mapped_at::<M>(m, parent, frame, virt) || m.count(
                    frame,
                ) <= 0 {
                    m.count(frame)
                } else if s.result is Err {
                    walk::one_more(m.count(frame)) - 1
                } else {
                    walk::one_more(m.count(frame))
                })
            &&& s.result is Err ==> forall|frame: u64| #[trigger]
                holding::held::<M>(s.memory, child, frame) == holding::held::<M>(m, child, frame)
        }),
{
    reveal(none_lost);
    reveal(all_counted);
    M::format_holds();
    let s = sweep::page_shared::<M>(m, child, parent, virt, stock, tlb);
    let after = s.memory;
    let left = s.stock;
    let page = tree::leaf_at::<M>(m, parent, virt);
    fork::where_sharing_leads::<M>(m, child, parent, virt, stock, tlb);
    assert forall|i: int| 0 <= i < left.len() implies start.count(#[trigger] left[i]) <= 0 by {
        assert(left[i] == stock[i]);
    }
    if page is Some {
        let bits = page->0;
        let phys = M::named(bits);
        let flags = sweep::given_flags::<M>(bits);
        let ready = sweep::marked::<M>(m, parent, virt, bits);
        let refused = change::refusal::<M>(ready, child, virt, 3, stock.len()) is Some;
        assert(ready.counts == m.shared(phys).counts);
        ready_to_share::<M>(m, child, parent, virt, bits, stock);
        sweep::own_addresses_take_own_ways(virt, 3);
        assert(walk::index_at(virt, 3) < 256) by {
            assert(virt as int / 0x80_0000_0000 < 256);
        }
        if !refused {
            change::the_way_is_made::<M>(ready, child, virt, flags, stock);
            assert(after.counts == ready.counts);
        }
        assert forall|frame: u64| #[trigger] after.count(frame) == (if frame != phys {
            m.count(frame)
        } else if m.count(frame) <= 0 {
            m.count(frame)
        } else if refused {
            walk::one_more(m.count(frame)) - 1
        } else {
            walk::one_more(m.count(frame))
        }) && holding::held::<M>(after, child, frame) + holding::times(left, frame)
            == holding::held::<M>(m, child, frame) + holding::times(stock, frame) + (if !refused
            && phys == frame {
            1int
        } else {
            0
        }) by {
            marking_holds_nothing::<M>(m, child, parent, virt, bits, stock, frame);
            if refused {
                holding::holding_stays::<M>(ready, after, child, frame);
            } else {
                holding::a_page_put_in_is_held::<M>(
                    ready,
                    child,
                    virt,
                    phys,
                    flags,
                    stock,
                    frame,
                );
            }
        }
        assert forall|frame: u64| refused implies #[trigger] holding::held::<M>(
            after,
            child,
            frame,
        ) == holding::held::<M>(m, child, frame) by {
            marking_holds_nothing::<M>(m, child, parent, virt, bits, stock, frame);
            holding::holding_stays::<M>(ready, after, child, frame);
        }
        assert forall|frame: u64| start.count(frame) >= 0 implies #[trigger] after.count(frame)
            <= start.count(frame) + taken::<M>(after, child, left, frame) by {
            assert(m.count(frame) <= start.count(frame) + taken::<M>(m, child, stock, frame));
        }
        if s.result is Ok && all_counted::<M>(start, m, child) {
            assert forall|frame: u64| start.count(frame) > 0 implies #[trigger] after.count(frame)
                == counted_up(start.count(frame), holding::held::<M>(after, child, frame)) by {
                assert(m.count(frame) == counted_up(
                    start.count(frame),
                    holding::held::<M>(m, child, frame),
                ));
                nobodys_frame::<M>(start, stock, frame);
                nobodys_frame::<M>(start, left, frame);
            }
        }
    }
}

proof fn nobodys_frame<M: Machine>(start: MachineView, stock: Seq<u64>, frame: u64)
    requires
        forall|i: int| 0 <= i < stock.len() ==> start.count(#[trigger] stock[i]) <= 0,
        start.count(frame) > 0,
    ensures
        holding::times(stock, frame) == 0,
{
    assert(!stock.contains(frame));
    holding::not_once(stock, frame);
}

/// With the parent's side of a page shared, the two spaces are side by side.
pub(crate) proof fn ready_to_share<M: Machine>(
    m: MachineView,
    child: u64,
    parent: u64,
    virt: u64,
    bits: u64,
    stock: Seq<u64>,
)
    requires
        sweep::side_by_side::<M>(m, child, parent, stock),
        virt < USER_LIMIT,
        tree::leaf_at::<M>(m, parent, virt) == Some(bits),
    ensures
        sweep::side_by_side::<M>(
            sweep::marked::<M>(m, parent, virt, bits),
            child,
            parent,
            stock,
        ),
{
    let phys = M::named(bits);
    let counted = m.shared(phys);
    sweep::counting_moves_nothing::<M>(m, counted, child, parent, stock);
    tree::path_of_is_path(virt, 3);
    if M::shared_flags(M::flags_in(bits)) is Some {
        assert(tree::leaf_at::<M>(counted, parent, virt) == Some(bits));
        sweep::marking::<M>(
            counted,
            child,
            parent,
            virt,
            M::leaf_bits(phys, sweep::given_flags::<M>(bits)),
            stock,
        );
    }
}

/// More pages have no fewer of them.
proof fn more_pages<M: Machine>(m: MachineView, root: u64, frame: u64, less: nat, more: nat)
    requires
        less <= more,
    ensures
        mapped_times::<M>(m, root, frame, less) <= mapped_times::<M>(m, root, frame, more),
    decreases more,
{
    if less < more {
        more_pages::<M>(m, root, frame, less, (more - 1) as nat);
    }
}

/// Pages that are not there are no frame.
pub(crate) proof fn no_more_mapped<M: Machine>(
    start: MachineView,
    m: MachineView,
    parent: u64,
    from: int,
    to: int,
)
    requires
        0 <= from <= to <= USER_LIMIT,
        from % 0x1000 == 0,
        to % 0x1000 == 0,
        counted_to::<M>(start, m, parent, from),
        forall|virt: u64|
            from <= virt < to ==> #[trigger] tree::leaf_at::<M>(start, parent, virt) is None,
    ensures
        counted_to::<M>(start, m, parent, to),
    decreases to - from,
{
    reveal(counted_to);
    if from < to {
        let before = to - 0x1000;
        no_more_mapped::<M>(start, m, parent, from, before);
        let pages = (to / 0x1000) as nat;
        assert((before / 0x1000) as nat == pages - 1);
        assert((pages - 1) * 0x1000 == before);
        assert(tree::leaf_at::<M>(start, parent, before as u64) is None);
        assert forall|frame: u64| start.count(frame) > 0 implies #[trigger] m.count(frame)
            == counted_up(
            start.count(frame),
            mapped_times::<M>(start, parent, frame, pages),
        ) by {
            assert(mapped_times::<M>(start, parent, frame, pages) == mapped_times::<M>(
                start,
                parent,
                frame,
                (pages - 1) as nat,
            ));
        }
    }
}

/// While every page has gone in, the counts that have room are level.
pub(crate) proof fn so_far_so_level<M: Machine>(
    start: MachineView,
    m: MachineView,
    child: u64,
    parent: u64,
    at: int,
)
    requires
        0 <= at <= USER_LIMIT,
        all_counted::<M>(start, m, child),
        counted_to::<M>(start, m, parent, at),
    ensures
        is_level::<M>(start, m, child, parent),
{
    reveal(all_counted);
    reveal(counted_to);
    reveal(is_level);
    assert forall|frame: u64| has_room::<M>(start, parent, frame) implies #[trigger] m.count(frame)
        == start.count(frame) + holding::held::<M>(m, child, frame) by {
        more_pages::<M>(start, parent, frame, (at / 0x1000) as nat, all_pages());
    }
}

/// Counts that are kept keep every reckoning.
pub(crate) proof fn kept_counts<M: Machine>(
    start: MachineView,
    m: MachineView,
    after: MachineView,
    child: u64,
    parent: u64,
    at: int,
)
    requires
        counts_kept::<M>(start, m, after, child),
    ensures
        all_counted::<M>(start, m, child) ==> all_counted::<M>(start, after, child),
        counted_to::<M>(start, m, parent, at) ==> counted_to::<M>(start, after, parent, at),
        is_level::<M>(start, m, child, parent) ==> is_level::<M>(start, after, child, parent),
{
    reveal(all_counted);
    reveal(counted_to);
    reveal(is_level);
    reveal(counts_kept);
    assert forall|frame: u64| start.count(frame) > 0 implies #[trigger] after.count(frame)
        == m.count(frame) by {
    }
}

/// What was kept and then kept again was kept.
pub(crate) proof fn still_kept<M: Machine>(
    start: MachineView,
    m: MachineView,
    now: MachineView,
    after: MachineView,
    child: u64,
)
    requires
        counts_kept::<M>(start, m, now, child),
        counts_kept::<M>(start, now, after, child),
    ensures
        counts_kept::<M>(start, m, after, child),
{
    reveal(counts_kept);
    assert forall|frame: u64| start.count(frame) > 0 implies #[trigger] after.count(frame)
        == m.count(frame) by {
        assert(after.count(frame) == now.count(frame));
        assert(now.count(frame) == m.count(frame));
    }
}

/// One page more, in every reckoning.
#[verifier::spinoff_prover]
proof fn one_page_reckoned<M: Machine>(
    start: MachineView,
    m: MachineView,
    child: u64,
    parent: u64,
    at: u64,
    stock: Seq<u64>,
    tlb: Tlb,
)
    requires
        sweep::side_by_side::<M>(m, child, parent, stock),
        none_lost::<M>(start, m, child, stock),
        all_counted::<M>(start, m, child),
        counted_to::<M>(start, m, parent, at as int),
        tree::leaf_at::<M>(m, parent, at) == tree::leaf_at::<M>(start, parent, at),
        at % 0x1000 == 0,
        at < USER_LIMIT,
    ensures
        ({
            let s = sweep::page_shared::<M>(m, child, parent, at, stock, tlb);
            &&& none_lost::<M>(start, s.memory, child, s.stock)
            &&& is_level::<M>(start, s.memory, child, parent)
            &&& s.result is Ok ==> all_counted::<M>(start, s.memory, child)
            &&& s.result is Ok ==> counted_to::<M>(start, s.memory, parent, at + 0x1000)
        }),
{
    let s = sweep::page_shared::<M>(m, child, parent, at, stock, tlb);
    let pages = (at as int / 0x1000) as nat;
    assert(pages * 0x1000 == at);
    assert(((at + 0x1000) / 0x1000) as nat == pages + 1);
    one_page_counted::<M>(start, m, child, parent, at, stock, tlb);
    if s.result is Ok {
        assert(counted_to::<M>(start, s.memory, parent, at + 0x1000)) by {
            reveal(counted_to);
            assert forall|frame: u64| start.count(frame) > 0 implies #[trigger] s.memory.count(
                frame,
            ) == counted_up(
                start.count(frame),
                mapped_times::<M>(start, parent, frame, pages + 1),
            ) by {
                assert(m.count(frame) == counted_up(
                    start.count(frame),
                    mapped_times::<M>(start, parent, frame, pages),
                ));
            }
        }
        so_far_so_level::<M>(start, s.memory, child, parent, at + 0x1000);
    } else {
        so_far_so_level::<M>(start, m, child, parent, at as int);
        assert(is_level::<M>(start, s.memory, child, parent)) by {
            reveal(counted_to);
            reveal(is_level);
            assert forall|frame: u64| has_room::<M>(
                start,
                parent,
                frame,
            ) implies #[trigger] s.memory.count(frame) == start.count(frame)
                + holding::held::<M>(s.memory, child, frame) by {
                more_pages::<M>(start, parent, frame, pages, all_pages());
                assert(m.count(frame) == counted_up(
                    start.count(frame),
                    mapped_times::<M>(start, parent, frame, pages),
                ));
                assert(m.count(frame) == start.count(frame) + holding::held::<M>(
                    m,
                    child,
                    frame,
                ));
            }
        }
    }
}

/// A run of pages more.
#[verifier::spinoff_prover]
pub(crate) proof fn some_pages_counted<M: Machine>(
    start: MachineView,
    m: MachineView,
    child: u64,
    parent: u64,
    kernel: u64,
    at: u64,
    count: nat,
    stock: Seq<u64>,
    tlb: Tlb,
)
    requires
        fork::is_family::<M>(start, m, child, parent, kernel, stock),
        fork::is_forked_to::<M>(start, m, child, parent, at as int),
        none_lost::<M>(start, m, child, stock),
        all_counted::<M>(start, m, child),
        counted_to::<M>(start, m, parent, at as int),
        at % 0x1000 == 0,
        at + count * 0x1000 <= USER_LIMIT,
    ensures
        ({
            let s = sweep::pages_shared::<M>(m, child, parent, at, count, stock, tlb);
            &&& none_lost::<M>(start, s.memory, child, s.stock)
            &&& is_level::<M>(start, s.memory, child, parent)
            &&& s.result is Ok ==> all_counted::<M>(start, s.memory, child)
            &&& s.result is Ok ==> counted_to::<M>(
                start,
                s.memory,
                parent,
                at + count * 0x1000,
            )
        }),
    decreases count,
{
    if count == 0 {
        so_far_so_level::<M>(start, m, child, parent, at as int);
    } else {
        let less = (count - 1) as nat;
        some_pages_counted::<M>(start, m, child, parent, kernel, at, less, stock, tlb);
        let before = sweep::pages_shared::<M>(m, child, parent, at, less, stock, tlb);
        if before.result is Ok {
            let next = (at + less * 0x1000) as u64;
            assert((at + less * 0x1000) % 0x1000 == 0);
            assert(sweep::side_by_side::<M>(before.memory, child, parent, before.stock)
                && tree::leaf_at::<M>(before.memory, parent, next) == tree::leaf_at::<M>(
                start,
                parent,
                next,
            )) by {
                fork::some_pages_further::<M>(
                    start,
                    m,
                    child,
                    parent,
                    kernel,
                    at,
                    less,
                    stock,
                    tlb,
                );
            }
            assert(next + 0x1000 == at + count * 0x1000);
            one_page_reckoned::<M>(
                start,
                before.memory,
                child,
                parent,
                next,
                before.stock,
                before.tlb,
            );
        }
    }
}

/// A fork torn down leaves no frame with more references than it had, and the
/// frames whose counts had room for the child's with exactly as many.
pub(crate) proof fn a_fork_given_up<M: Machine>(
    start: MachineView,
    m: MachineView,
    after: MachineView,
    child: u64,
    parent: u64,
)
    requires
        tree::is_tree::<M>(m, child, 3),
        none_lost::<M>(start, m, child, Seq::empty()),
        is_level::<M>(start, m, child, parent),
        start.count(child) == 0,
        after == teardown::emptied_below::<M>(m, child, USER_LIMIT).released(child),
    ensures
        forall|frame: u64|
            start.count(frame) >= 0 ==> #[trigger] after.count(frame) <= start.count(frame),
        forall|frame: u64|
            has_room::<M>(start, parent, frame) ==> #[trigger] after.count(frame) == start.count(
                frame,
            ),
{
    reveal(none_lost);
    reveal(is_level);
    let emptied = teardown::emptied_below::<M>(m, child, USER_LIMIT);
    let list = teardown::held_by_tops::<M>(m, m.words[child], 256);
    teardown::a_teardown_gives_back_what_was_held::<M>(m, child, USER_LIMIT);
    assert(teardown::tops_below(USER_LIMIT) == 256);
    assert forall|frame: u64| start.count(frame) >= 0 implies #[trigger] after.count(frame)
        <= start.count(frame) by {
        assert(m.count(frame) <= start.count(frame) + taken::<M>(m, child, Seq::empty(), frame));
        let top: int = if frame == child {
            1
        } else {
            0
        };
        holding::giving_back_all(m, list, frame, start.count(frame) + top);
        assert(emptied.count(frame) == teardown::all_released(m, list).count(frame));
    }
    assert forall|frame: u64| has_room::<M>(start, parent, frame) implies #[trigger] after.count(
        frame,
    ) == start.count(frame) by {
        assert(m.count(frame) == start.count(frame) + holding::held::<M>(m, child, frame));
        holding::giving_back_as_many(m, list, frame);
        assert(emptied.count(frame) == teardown::all_released(m, list).count(frame));
    }
}

/// After a fork a frame has a reference for every page of either side that is
/// the frame, where it had one for every page of the parent's and its count
/// has room: neither side can give a page up under the other.
pub proof fn both_sides_are_covered<M: Machine>(
    m: MachineView,
    after: MachineView,
    child: u64,
    parent: u64,
    frame: u64,
)
    requires
        all_counted::<M>(m, after, child),
        parent_holds_on::<M>(m, after, parent),
        0 < m.count(frame),
        holding::held::<M>(m, parent, frame) <= m.count(frame),
        m.count(frame) + holding::held::<M>(after, child, frame) <= 0xFFFF,
    ensures
        after.count(frame) >= holding::held::<M>(after, parent, frame) + holding::held::<M>(
            after,
            child,
            frame,
        ),
{
    reveal(all_counted);
    reveal(parent_holds_on);
    assert(after.count(frame) == counted_up(
        m.count(frame),
        holding::held::<M>(after, child, frame),
    ));
    assert(holding::held::<M>(after, parent, frame) == holding::held::<M>(m, parent, frame));
}

} // verus!
