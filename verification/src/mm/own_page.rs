//! What pages of their own take: which frames change hands when new pages are
//! put in, and what is left alone.

use crate::mm::change;
use crate::mm::holding;
use crate::mm::publish_laws;
use crate::mm::tables;
use crate::mm::teardown;
use crate::mm::tree;
use crate::mm::walk::{self, Event, Machine, MachineView, DEPTH};
use vstd::prelude::*;

verus! {

/// Frames that nobody held and that are now held once each, no two of them the
/// same, blank and no tables. Besides them only tables of the hierarchy were
/// taken, each once. Whoever held a frame holds it still, as often as before,
/// and what is in it is what was in it unless it is a table of the hierarchy.
pub open spec fn are_own<M: Machine>(
    m: MachineView,
    after: MachineView,
    root: u64,
    frames: Seq<u64>,
) -> bool {
    &&& frames.no_duplicates()
    &&& forall|i: int|
        0 <= i < frames.len() ==> M::nameable(#[trigger] frames[i]) && m.count(frames[i]) == 0
            && after.count(frames[i]) == 1 && after.words[frames[i]] == walk::blank()
            && teardown::is_outside::<M>(after, root, 3, frames[i])
    &&& forall|frame: u64| #[trigger] after.has(frame) == m.has(frame)
    &&& forall|frame: u64|
        m.count(frame) > 0 && teardown::is_outside::<M>(m, root, 3, frame)
            ==> #[trigger] after.words[frame] == m.words[frame] && teardown::is_outside::<M>(
            after,
            root,
            3,
            frame,
        )
    &&& forall|frame: u64| #[trigger]
        after.count(frame) != m.count(frame) ==> m.count(frame) == 0 && after.count(frame) == 1
            && (frames.contains(frame) || !teardown::is_outside::<M>(after, root, 3, frame))
}

/// Every table of a hierarchy is one of it still.
pub open spec fn tables_stay<M: Machine>(m: MachineView, after: MachineView, root: u64) -> bool {
    forall|p: Seq<int>|
        tree::is_path(p, 3) && tree::reached::<M>(m, root, 3, p) is Some
            ==> #[trigger] tree::reached::<M>(after, root, 3, p) == tree::reached::<M>(
            m,
            root,
            3,
            p,
        )
}

/// Making the way to an address moves no table, and every frame it takes out of
/// the stock becomes one.
proof fn making_moves_no_table<M: Machine>(
    m: MachineView,
    root: u64,
    virt: u64,
    stock: Seq<u64>,
    now: MachineView,
    left: Seq<u64>,
    table: u64,
    n: int,
    under: u64,
)
    requires
        change::is_part_way::<M>(m, root, virt, stock, now, left, table, n),
        0 <= n <= 3,
        change::refusal::<M>(now, table, virt, (3 - n) as nat, left.len()) is None,
    ensures
        ({
            let (open, rest, end) = change::way_made::<M>(
                now,
                table,
                virt,
                (3 - n) as nat,
                under,
                left,
            );
            &&& tables_stay::<M>(now, open, root)
            &&& forall|k: int|
                rest.len() <= k < left.len() ==> !teardown::is_outside::<M>(
                    open,
                    root,
                    3,
                    #[trigger] left[k],
                )
        }),
    decreases 3 - n,
{
    if n < 3 {
        let index = walk::index_at(virt, 3 - n);
        let at = tree::path_of(virt).take(n);
        let bits = now.word(table, index);
        M::format_holds();
        tree::path_of_is_path(virt, n);
        tree::path_of_is_path(virt, n + 1);
        assert(now.has(table));
        if !M::is_present(bits) {
            let fresh = left.last();
            let naming = M::table_bits(fresh, under);
            let after = now.stored(table, index, naming);
            let rest = left.drop_last();
            assert(tree::is_spare::<M>(now, root, left[left.len() - 1]));
            change::one_level_created::<M>(m, root, virt, stock, now, left, table, n, under);
            assert(after.words[fresh] == walk::blank());
            assert forall|p: Seq<int>|
                tree::is_path(p, 3) && tree::reached::<M>(
                    now,
                    root,
                    3,
                    p,
                ) is Some implies #[trigger] tree::reached::<M>(after, root, 3, p)
                == tree::reached::<M>(now, root, 3, p) by {
                if tree::goes_through(p, at, index) {
                    tree::absent_leads_nowhere::<M>(now, root, 3, at, index, p);
                } else {
                    tree::stored_elsewhere::<M>(now, root, 3, at, index, naming, p);
                }
            }
            making_moves_no_table::<M>(
                m,
                root,
                virt,
                stock,
                after,
                rest,
                fresh,
                n + 1,
                under,
            );
            let open = change::way_made::<M>(now, table, virt, (3 - n) as nat, under, left).0;
            let way = tree::path_of(virt).take(n + 1);
            assert(tree::reached::<M>(after, root, 3, way) == Some(fresh));
            assert(tree::reached::<M>(open, root, 3, way) == Some(fresh));
            assert forall|p: Seq<int>|
                tree::is_path(p, 3) && tree::reached::<M>(
                    now,
                    root,
                    3,
                    p,
                ) is Some implies #[trigger] tree::reached::<M>(open, root, 3, p)
                == tree::reached::<M>(now, root, 3, p) by {
                assert(tree::reached::<M>(after, root, 3, p) == tree::reached::<M>(
                    now,
                    root,
                    3,
                    p,
                ));
            }
            let left_over = change::way_made::<M>(now, table, virt, (3 - n) as nat, under, left).1;
            assert forall|k: int|
                left_over.len() <= k < left.len() implies !teardown::is_outside::<M>(
                open,
                root,
                3,
                #[trigger] left[k],
            ) by {
                if k < rest.len() {
                    assert(rest[k] == left[k]);
                }
            }
        } else {
            let after = change::opened_up::<M>(now, table, index, under);
            let naming = match M::widened(bits, under) {
                Some(wider) => wider,
                None => bits,
            };
            tree::one_level_down::<M>(now, root, virt, 3 - n);
            if M::widened(bits, under) is Some {
                let same = now.stored(table, index, naming);
                assert(same.word(table, index) == naming);
                assert forall|p: Seq<int>| tree::is_path(p, 3) implies #[trigger] tree::reached::<
                    M,
                >(after, root, 3, p) == tree::reached::<M>(now, root, 3, p) by {
                    tree::same_way_on::<M>(now, root, 3, at, index, naming, p);
                }
            }
            change::one_level_found::<M>(m, root, virt, stock, now, left, table, n, under);
            change::same_refusal::<M>(
                now,
                after,
                root,
                virt,
                M::named(bits),
                table,
                n,
                n + 1,
                left.len(),
            );
            making_moves_no_table::<M>(
                m,
                root,
                virt,
                stock,
                after,
                left,
                M::named(bits),
                n + 1,
                under,
            );
            let open = change::way_made::<M>(now, table, virt, (3 - n) as nat, under, left).0;
            assert forall|p: Seq<int>|
                tree::is_path(p, 3) && tree::reached::<M>(
                    now,
                    root,
                    3,
                    p,
                ) is Some implies #[trigger] tree::reached::<M>(open, root, 3, p)
                == tree::reached::<M>(now, root, 3, p) by {
                assert(tree::reached::<M>(after, root, 3, p) == tree::reached::<M>(
                    now,
                    root,
                    3,
                    p,
                ));
            }
        }
    }
}

/// A new page put in takes one frame of its own, and tables where they were
/// missing.
pub proof fn a_new_page_is_its_own<M: Machine>(
    m: MachineView,
    after: MachineView,
    root: u64,
    virt: u64,
    flags: u64,
    phys: u64,
)
    requires
        tables::is_space::<M>(m, root),
        tables::is_answered_new::<M>(m, after, root, virt, flags, Ok(phys)),
    ensures
        are_own::<M>(m, after, root, seq![phys]),
        tables_stay::<M>(m, after, root),
{
    M::format_holds();
    let (ready, stock) = choose|ready: MachineView, stock: Seq<u64>| #[trigger]
        tables::are_taken::<M>(m, ready, seq![phys] + stock) && stock.len() == change::missing::<M>(
            m,
            root,
            virt,
            3,
        ) && ready.journal == m.journal && after == tables::mapped::<M>(
            ready,
            root,
            virt,
            phys,
            flags,
            stock,
        );
    let frames = seq![phys] + stock;
    let own = seq![phys];
    assert(frames[0] == phys);
    assert forall|i: int| 0 <= i < stock.len() implies frames.contains(#[trigger] stock[i]) by {
        assert(frames[i + 1] == stock[i]);
    }
    assert forall|i: int, j: int| 0 <= i < j < stock.len() implies #[trigger] stock[i]
        != #[trigger] stock[j] by {
        assert(frames[i + 1] != frames[j + 1]);
    }
    assert(frames.contains(own[0]));
    tables::taken_frames_are_spare::<M>(m, ready, root, frames, stock);
    tables::taken_frames_are_spare::<M>(m, ready, root, frames, own);
    tables::a_space_is_not_disturbed::<M>(m, ready, root);
    tree::path_of_is_path(virt, 0);
    tables::missing_is_bounded::<M>(m, root, virt, 3);
    tables::enough_is_brought::<M>(m, root, virt, 3, stock.len());
    tables::more_is_no_different::<M>(m, root, virt, 3, stock.len(), DEPTH as nat);
    tables::the_same_stands_in_the_way::<M>(m, ready, root, virt, root, 0, stock.len());
    change::nothing_made::<M>(ready, root, virt, stock);
    change::the_way_is_made::<M>(ready, root, virt, flags, stock);
    publish_laws::making_leads_as_before::<M>(
        ready,
        root,
        virt,
        stock,
        ready,
        stock,
        root,
        0,
        flags,
        virt,
    );
    making_moves_no_table::<M>(ready, root, virt, stock, ready, stock, root, 0, flags);
    let (open, left, table) = change::way_made::<M>(ready, root, virt, 3, flags, stock);
    let bits = M::leaf_bits(phys, flags);
    change::written_at_the_end::<M>(ready, root, virt, stock, open, left, table, bits);
    let put = change::published::<M>(ready, root, virt, phys, flags, stock).0;
    assert(left.len() == 0);
    assert(after == put.noting(Event::FlushPage(virt))) by {
        assert(left.reverse().len() == 0);
    }
    assert(open.has(table)) by {
        tree::path_of_is_path(virt, 3);
    }
    assert forall|p: Seq<int>| tree::is_path(p, 3) implies #[trigger] tree::reached::<M>(
        after,
        root,
        3,
        p,
    ) == tree::reached::<M>(open, root, 3, p) by {
        tree::unchanged_where_looked::<M>(put, after, root, 3, p);
        assert(tree::reached::<M>(put, root, 3, p) == tree::reached::<M>(open, root, 3, p));
    }
    // No table is a frame that was neither one before nor in the stock.
    assert forall|frame: u64|
        teardown::is_outside::<M>(ready, root, 3, frame) && !stock.contains(
            frame,
        ) implies #[trigger] teardown::is_outside::<M>(after, root, 3, frame) by {
        assert forall|p: Seq<int>| tree::is_path(p, 3) implies #[trigger] tree::reached::<M>(
            after,
            root,
            3,
            p,
        ) != Some(frame) by {
            assert(tree::reached::<M>(open, root, 3, p) == Some(frame) ==> tree::reached::<M>(
                ready,
                root,
                3,
                p,
            ) == Some(frame) || stock.contains(frame));
        }
    }
    assert(tree::is_spare::<M>(ready, root, own[0]));
    assert(teardown::is_outside::<M>(ready, root, 3, phys));
    assert(!stock.contains(phys)) by {
        if stock.contains(phys) {
            let i = choose|i: int| 0 <= i < stock.len() && stock[i] == phys;
            assert(frames[0] != frames[i + 1]);
        }
    }
    assert(teardown::is_outside::<M>(after, root, 3, phys));
    assert forall|frame: u64| #[trigger] after.has(frame) == m.has(frame) by {
        assert(open.has(frame) == ready.has(frame));
        assert(ready.has(frame) == m.has(frame));
    }
    assert forall|frame: u64|
        m.count(frame) > 0 && teardown::is_outside::<M>(
            m,
            root,
            3,
            frame,
        ) implies #[trigger] after.words[frame] == m.words[frame] && teardown::is_outside::<M>(
        after,
        root,
        3,
        frame,
    ) by {
        if frames.contains(frame) {
            let i = choose|i: int| 0 <= i < frames.len() && frames[i] == frame;
            assert(m.count(frames[i]) == 0);
        }
        assert(!stock.contains(frame)) by {
            if stock.contains(frame) {
                let i = choose|i: int| 0 <= i < stock.len() && stock[i] == frame;
                assert(frames[i + 1] == frame);
            }
        }
        assert forall|p: Seq<int>| tree::is_path(p, 3) implies #[trigger] tree::reached::<M>(
            ready,
            root,
            3,
            p,
        ) != Some(frame) by {
            assert(tree::reached::<M>(m, root, 3, p) != Some(frame));
        }
        assert(teardown::is_outside::<M>(ready, root, 3, frame));
        holding::a_page_put_in_touches_only_its_space::<M>(
            ready,
            root,
            virt,
            phys,
            flags,
            stock,
            frame,
        );
        assert(ready.words[frame] == m.words[frame]);
    }
    assert forall|frame: u64| #[trigger] after.count(frame) != m.count(frame) implies m.count(
        frame,
    ) == 0 && after.count(frame) == 1 && (own.contains(frame) || !teardown::is_outside::<M>(
        after,
        root,
        3,
        frame,
    )) by {
        assert(after.count(frame) == ready.count(frame));
        assert(frames.contains(frame)) by {
            if !frames.contains(frame) {
                assert(ready.count(frame) == m.count(frame));
            }
        }
        let i = choose|i: int| 0 <= i < frames.len() && frames[i] == frame;
        assert(m.count(frames[i]) == 0);
        if i > 0 {
            assert(stock[i - 1] == frame);
            assert(!teardown::is_outside::<M>(open, root, 3, stock[i - 1]));
            let p = choose|p: Seq<int>|
                tree::is_path(p, 3) && #[trigger] tree::reached::<M>(open, root, 3, p) == Some(
                    frame,
                );
            assert(tree::reached::<M>(after, root, 3, p) == Some(frame));
        } else {
            assert(own[0] == frame);
        }
    }
    assert forall|p: Seq<int>|
        tree::is_path(p, 3) && tree::reached::<M>(
            m,
            root,
            3,
            p,
        ) is Some implies #[trigger] tree::reached::<M>(after, root, 3, p) == tree::reached::<M>(
        m,
        root,
        3,
        p,
    ) by {
        assert(tree::reached::<M>(ready, root, 3, p) == tree::reached::<M>(m, root, 3, p));
        assert(tree::reached::<M>(open, root, 3, p) == tree::reached::<M>(ready, root, 3, p));
    }
}

/// Nothing put in takes nothing.
pub proof fn none_are_own<M: Machine>(m: MachineView, root: u64)
    ensures
        are_own::<M>(m, m, root, Seq::empty()),
{
}

/// One more page of its own beside others.
pub proof fn one_more_is_own<M: Machine>(
    m: MachineView,
    now: MachineView,
    after: MachineView,
    root: u64,
    frames: Seq<u64>,
    phys: u64,
)
    requires
        are_own::<M>(m, now, root, frames),
        are_own::<M>(now, after, root, seq![phys]),
        tables_stay::<M>(now, after, root),
    ensures
        are_own::<M>(m, after, root, frames.push(phys)),
{
    let more = frames.push(phys);
    let own = seq![phys];
    assert(own[0] == phys);
    assert(now.count(own[0]) == 0);
    assert(m.count(phys) == 0) by {
        if m.count(phys) != now.count(phys) {
            assert(now.count(phys) == 1);
        }
    }
    assert forall|frame: u64|
        !teardown::is_outside::<M>(now, root, 3, frame) implies !(#[trigger] teardown::is_outside::<
        M,
    >(after, root, 3, frame)) by {
        let p = choose|p: Seq<int>|
            tree::is_path(p, 3) && #[trigger] tree::reached::<M>(now, root, 3, p) == Some(frame);
        assert(tree::reached::<M>(after, root, 3, p) == Some(frame));
    }
    assert forall|i: int| 0 <= i < more.len() implies M::nameable(#[trigger] more[i]) && m.count(
        more[i],
    ) == 0 && after.count(more[i]) == 1 && after.words[more[i]] == walk::blank()
        && teardown::is_outside::<M>(after, root, 3, more[i]) by {
        if i < frames.len() {
            assert(more[i] == frames[i]);
            assert(now.count(frames[i]) == 1);
            assert(after.words[frames[i]] == now.words[frames[i]]);
            if after.count(frames[i]) != now.count(frames[i]) {
                assert(now.count(frames[i]) == 0);
            }
        } else {
            assert(more[i] == own[0]);
        }
    }
    assert(more.no_duplicates()) by {
        assert forall|i: int, j: int|
            0 <= i < more.len() && 0 <= j < more.len() && i != j implies more[i] != more[j] by {
            if i < frames.len() && j < frames.len() {
                assert(frames[i] != frames[j]);
            } else if i < frames.len() {
                assert(now.count(frames[i]) == 1);
            } else {
                assert(now.count(frames[j]) == 1);
            }
        }
    }
    assert forall|frame: u64| #[trigger] after.has(frame) == m.has(frame) by {
        assert(now.has(frame) == m.has(frame));
    }
    assert forall|frame: u64|
        m.count(frame) > 0 && teardown::is_outside::<M>(
            m,
            root,
            3,
            frame,
        ) implies #[trigger] after.words[frame] == m.words[frame] && teardown::is_outside::<M>(
        after,
        root,
        3,
        frame,
    ) by {
        assert(now.words[frame] == m.words[frame]);
        if now.count(frame) != m.count(frame) {
            assert(m.count(frame) == 0);
        }
    }
    assert forall|frame: u64| #[trigger] after.count(frame) != m.count(frame) implies m.count(
        frame,
    ) == 0 && after.count(frame) == 1 && (more.contains(frame) || !teardown::is_outside::<M>(
        after,
        root,
        3,
        frame,
    )) by {
        if now.count(frame) != m.count(frame) {
            if after.count(frame) != now.count(frame) {
                assert(now.count(frame) == 0);
            }
            if frames.contains(frame) {
                let i = choose|i: int| 0 <= i < frames.len() && frames[i] == frame;
                assert(more[i] == frame);
            }
        } else {
            assert(after.count(frame) != now.count(frame));
            if own.contains(frame) {
                assert(more[frames.len() as int] == frame);
            }
        }
    }
}

/// Pages of their own stay so while nothing is taken.
pub proof fn own_stays<M: Machine>(
    m: MachineView,
    now: MachineView,
    after: MachineView,
    root: u64,
    frames: Seq<u64>,
)
    requires
        are_own::<M>(m, now, root, frames),
        tables::is_space::<M>(now, root),
        tables::none_taken(now, after),
    ensures
        are_own::<M>(m, after, root, frames),
{
    tables::a_space_is_not_disturbed::<M>(now, after, root);
    assert forall|frame: u64| #[trigger] teardown::is_outside::<M>(after, root, 3, frame)
        == teardown::is_outside::<M>(now, root, 3, frame) by {
        if !teardown::is_outside::<M>(after, root, 3, frame) {
            let p = choose|p: Seq<int>|
                tree::is_path(p, 3) && #[trigger] tree::reached::<M>(after, root, 3, p) == Some(
                    frame,
                );
            assert(tree::reached::<M>(now, root, 3, p) == Some(frame));
        }
        if !teardown::is_outside::<M>(now, root, 3, frame) {
            let p = choose|p: Seq<int>|
                tree::is_path(p, 3) && #[trigger] tree::reached::<M>(now, root, 3, p) == Some(
                    frame,
                );
            assert(tree::reached::<M>(after, root, 3, p) == Some(frame));
        }
    }
    assert forall|i: int| 0 <= i < frames.len() implies M::nameable(#[trigger] frames[i])
        && m.count(frames[i]) == 0 && after.count(frames[i]) == 1 && after.words[frames[i]]
        == walk::blank() && teardown::is_outside::<M>(after, root, 3, frames[i]) by {
        assert(now.count(frames[i]) == 1);
        assert(after.count(frames[i]) == now.count(frames[i]));
        assert(after.words[frames[i]] == now.words[frames[i]]);
    }
    assert forall|frame: u64| #[trigger] after.has(frame) == m.has(frame) by {
        assert(now.has(frame) == m.has(frame));
    }
    assert forall|frame: u64|
        m.count(frame) > 0 && teardown::is_outside::<M>(
            m,
            root,
            3,
            frame,
        ) implies #[trigger] after.words[frame] == m.words[frame] && teardown::is_outside::<M>(
        after,
        root,
        3,
        frame,
    ) by {
        assert(now.words[frame] == m.words[frame]);
        if now.count(frame) != m.count(frame) {
            assert(m.count(frame) == 0);
        }
    }
    assert forall|frame: u64| #[trigger] after.count(frame) != m.count(frame) implies m.count(
        frame,
    ) == 0 && after.count(frame) == 1 && (frames.contains(frame) || !teardown::is_outside::<M>(
        after,
        root,
        3,
        frame,
    )) by {
        assert(after.count(frame) == now.count(frame));
        assert(now.count(frame) != m.count(frame));
    }
}

} // verus!
