//! The kernel's translation tables: who owns a hierarchy, where its frames
//! come from, and the values that make the changes to one spell out what they
//! cost.
//!
//! - `PageTables` owns a hierarchy. The only way the tables go back is
//!   `destroy`, which consumes it.
//! - `Prepared` is a page and the frames for the tables a walk may have to
//!   create: everything a publish needs, taken before the address space is
//!   locked.
//! - `Stale` is frames a table no longer names. They cannot go back to the
//!   allocator until the guard that took them has thrown the translation away.

use crate::mm::change::{self, Tables};
use crate::mm::holding;
use crate::mm::teardown;
use crate::mm::tree;
use crate::mm::walk::{
    self, Event, Machine, MachineView, Refused, TableStock, Tlb, DEPTH, ENTRIES,
};
use crate::mm::USER_LIMIT;
use vstd::prelude::*;

verus! {

#[derive(Debug, Clone, Copy, PartialEq, Eq, Structural)]
pub enum MapError {
    OutOfMemory,
    AlreadyMapped,
}

// ---- frames taken and given back ------------------------------------------------

/// Nothing that was held has been touched.
pub open spec fn keeps_held(m: MachineView, after: MachineView) -> bool {
    &&& forall|frame: u64| #[trigger] after.has(frame) == m.has(frame)
    &&& forall|frame: u64|
        m.count(frame) > 0 ==> #[trigger] after.words[frame] == m.words[frame]
    &&& forall|frame: u64| m.count(frame) > 0 ==> #[trigger] after.count(frame) == m.count(frame)
}

/// Frames taken that nobody held: each of them blank, with one reference, and
/// nothing else touched.
pub open spec fn are_taken<M: Machine>(m: MachineView, after: MachineView, frames: Seq<u64>) -> bool {
    &&& forall|i: int|
        0 <= i < frames.len() ==> m.has(#[trigger] frames[i]) && m.count(frames[i]) == 0
            && M::nameable(frames[i]) && after.words[frames[i]] == walk::blank() && after.count(
            frames[i],
        ) == 1
    &&& forall|i: int, j: int|
        0 <= i < j < frames.len() ==> #[trigger] frames[i] != #[trigger] frames[j]
    &&& forall|frame: u64| #[trigger] after.has(frame) == m.has(frame)
    &&& forall|frame: u64|
        !frames.contains(frame) ==> #[trigger] after.words[frame] == m.words[frame]
    &&& forall|frame: u64|
        !frames.contains(frame) ==> #[trigger] after.count(frame) == m.count(frame)
}

/// Frames whose last references have gone back: nothing else has changed
/// hands.
pub open spec fn none_taken(m: MachineView, after: MachineView) -> bool {
    &&& keeps_held(m, after)
    &&& forall|frame: u64| #[trigger] after.count(frame) == m.count(frame)
}

/// A hierarchy whose tables somebody holds.
pub open spec fn is_space<M: Machine>(m: MachineView, root: u64) -> bool {
    &&& tree::is_tree::<M>(m, root, 3)
    &&& forall|p: Seq<int>|
        tree::is_path(p, 3) ==> (#[trigger] tree::reached::<M>(m, root, 3, p) matches Some(t) ==> m.count(t)
            > 0)
}

/// Taking frames nobody held leaves a hierarchy exactly as it was, and the
/// frames are no part of it.
pub proof fn a_space_is_not_disturbed<M: Machine>(m: MachineView, after: MachineView, root: u64)
    requires
        is_space::<M>(m, root),
        keeps_held(m, after),
    ensures
        is_space::<M>(after, root),
        forall|p: Seq<int>|
            tree::is_path(p, 3) ==> #[trigger] tree::reached::<M>(after, root, 3, p) == tree::reached::<M>(
                m,
                root,
                3,
                p,
            ),
        forall|virt: u64| #[trigger]
            tree::leaf_at::<M>(after, root, virt) == tree::leaf_at::<M>(m, root, virt),
{
    assert forall|p: Seq<int>| tree::is_path(p, 3) implies (#[trigger] tree::reached::<M>(m, root, 3, p)
        matches Some(t) ==> after.words[t] == m.words[t]) by {
        if tree::reached::<M>(m, root, 3, p) is Some {
            let t = tree::reached::<M>(m, root, 3, p)->0;
            assert(m.count(t) > 0);
        }
    }
    assert forall|p: Seq<int>| tree::is_path(p, 3) implies #[trigger] tree::reached::<M>(after, root, 3, p)
        == tree::reached::<M>(m, root, 3, p) by {
        tree::unchanged_where_looked::<M>(m, after, root, 3, p);
    }
    assert forall|p: Seq<int>| tree::is_path(p, 3) implies (#[trigger] tree::reached::<M>(after, root, 3, p)
        matches Some(t) ==> after.has(t) && after.count(t) > 0) by {
        if tree::reached::<M>(after, root, 3, p) is Some {
            let t = tree::reached::<M>(after, root, 3, p)->0;
            assert(tree::reached::<M>(m, root, 3, p) == Some(t));
            assert(after.has(t) == m.has(t));
            assert(after.count(t) == m.count(t));
        }
    }
    assert forall|virt: u64| #[trigger]
        tree::leaf_at::<M>(after, root, virt) == tree::leaf_at::<M>(m, root, virt) by {
        tree::path_of_is_path(virt, 3);
        assert(tree::reached::<M>(after, root, 3, tree::path_of(virt)) == tree::reached::<M>(
            m,
            root,
            3,
            tree::path_of(virt),
        ));
    }
}

/// What stands in the way of a mapping does not change either.
pub proof fn the_same_stands_in_the_way<M: Machine>(
    m: MachineView,
    after: MachineView,
    root: u64,
    virt: u64,
    table: u64,
    n: int,
    available: nat,
)
    requires
        is_space::<M>(m, root),
        keeps_held(m, after),
        0 <= n <= 3,
        tree::reached::<M>(m, root, 3, tree::path_of(virt).take(n)) == Some(table),
    ensures
        change::refusal::<M>(after, table, virt, (3 - n) as nat, available) == change::refusal::<M>(
            m,
            table,
            virt,
            (3 - n) as nat,
            available,
        ),
        change::missing::<M>(after, table, virt, (3 - n) as nat) == change::missing::<M>(
            m,
            table,
            virt,
            (3 - n) as nat,
        ),
    decreases 3 - n,
{
    tree::path_of_is_path(virt, n);
    assert(m.count(table) > 0);
    assert(after.words[table] == m.words[table]);
    if n < 3 {
        tree::one_level_down::<M>(m, root, virt, 3 - n);
        let next = tree::step::<M>(m, table, walk::index_at(virt, 3 - n), 3 - n);
        if next is Some {
            the_same_stands_in_the_way::<M>(m, after, root, virt, next->0, n + 1, available);
        }
    }
}

/// With a frame for every missing table, nothing is short.
pub proof fn enough_is_brought<M: Machine>(m: MachineView, table: u64, virt: u64, level: nat, available: nat)
    requires
        available >= change::missing::<M>(m, table, virt, level),
    ensures
        change::refusal::<M>(m, table, virt, level, available) != Some(Refused::ShortOfTables),
    decreases level,
{
    if level > 0 {
        let next = tree::step::<M>(m, table, walk::index_at(virt, level as int), level as int);
        if next is Some {
            enough_is_brought::<M>(m, next->0, virt, (level - 1) as nat, available);
        }
    }
}

/// Frames nobody held are spare for every hierarchy whose tables are held.
pub proof fn taken_frames_are_spare<M: Machine>(
    m: MachineView,
    after: MachineView,
    root: u64,
    frames: Seq<u64>,
    some: Seq<u64>,
)
    requires
        is_space::<M>(m, root),
        are_taken::<M>(m, after, frames),
        forall|i: int| 0 <= i < some.len() ==> frames.contains(#[trigger] some[i]),
        forall|i: int, j: int|
            0 <= i < j < some.len() ==> #[trigger] some[i] != #[trigger] some[j],
    ensures
        keeps_held(m, after),
        tree::are_spare::<M>(after, root, some),
{
    taking_keeps_held::<M>(m, after, frames);
    a_space_is_not_disturbed::<M>(m, after, root);
    assert forall|i: int| 0 <= i < some.len() implies tree::is_spare::<M>(
        after,
        root,
        #[trigger] some[i],
    ) by {
        assert(frames.contains(some[i]));
        let k = choose|k: int| 0 <= k < frames.len() && frames[k] == some[i];
        assert(m.count(frames[k]) == 0);
        assert(after.has(frames[k]) == m.has(frames[k]));
        assert forall|p: Seq<int>| tree::is_path(p, 3) implies #[trigger] tree::reached::<M>(after, root, 3, p)
            != Some(some[i]) by {
            assert(tree::reached::<M>(m, root, 3, p) != Some(some[i]));
        }
    }
}

pub proof fn taking_keeps_held<M: Machine>(m: MachineView, after: MachineView, frames: Seq<u64>)
    requires
        are_taken::<M>(m, after, frames),
    ensures
        keeps_held(m, after),
{
    assert forall|frame: u64| #[trigger] m.count(frame) > 0 implies !frames.contains(frame) by {
        if frames.contains(frame) {
            let k = choose|k: int| 0 <= k < frames.len() && frames[k] == frame;
            assert(m.count(frames[k]) == 0);
        }
    }
}

/// One more frame taken.
pub proof fn one_more_taken<M: Machine>(
    m: MachineView,
    now: MachineView,
    frames: Seq<u64>,
    fresh: u64,
)
    requires
        are_taken::<M>(m, now, frames),
        now.count(fresh) == 0,
        now.has(fresh),
        M::nameable(fresh),
    ensures
        are_taken::<M>(m, now.handed_over(fresh), frames.push(fresh)),
{
    let after = now.handed_over(fresh);
    let more = frames.push(fresh);
    assert(!frames.contains(fresh)) by {
        if frames.contains(fresh) {
            let k = choose|k: int| 0 <= k < frames.len() && frames[k] == fresh;
            assert(now.count(frames[k]) == 1);
        }
    }
    assert(now.count(fresh) == m.count(fresh));
    assert(now.has(fresh) == m.has(fresh));
    assert forall|i: int| 0 <= i < more.len() implies m.has(#[trigger] more[i]) && m.count(more[i])
        == 0 && M::nameable(more[i]) && after.words[more[i]] == walk::blank() && after.count(
        more[i],
    ) == 1 by {
        if i < frames.len() {
            assert(more[i] == frames[i]);
            assert(m.has(frames[i]));
            assert(frames[i] != fresh);
            assert(now.count(frames[i]) == 1);
        }
    }
    assert forall|i: int, j: int| 0 <= i < j < more.len() implies #[trigger] more[i]
        != #[trigger] more[j] by {
        if j < frames.len() {
            assert(frames[i] != frames[j]);
        } else {
            assert(frames[i] != fresh);
        }
    }
    assert forall|frame: u64| !more.contains(frame) implies !frames.contains(frame) && frame
        != fresh by {
        if frames.contains(frame) {
            let k = choose|k: int| 0 <= k < frames.len() && frames[k] == frame;
            assert(more[k] == frame);
        }
        if frame == fresh {
            assert(more[frames.len() as int] == fresh);
        }
    }
    assert forall|frame: u64| !more.contains(frame) implies #[trigger] after.words[frame]
        == m.words[frame] by {
        assert(now.words[frame] == m.words[frame]);
    }
    assert forall|frame: u64| !more.contains(frame) implies #[trigger] after.count(frame)
        == m.count(frame) by {
        assert(now.count(frame) == m.count(frame));
    }
    assert forall|frame: u64| #[trigger] after.has(frame) == m.has(frame) by {
        assert(now.has(frame) == m.has(frame));
    }
}

/// Asking for a frame that is not to be had takes nothing more.
pub proof fn nothing_more_is_taken<M: Machine>(m: MachineView, now: MachineView, frames: Seq<u64>)
    requires
        are_taken::<M>(m, now, frames),
    ensures
        are_taken::<M>(m, now.noting(Event::NoFrame), frames),
{
    let asked = now.noting(Event::NoFrame);
    assert forall|frame: u64| #[trigger] asked.has(frame) == m.has(frame) by {
        assert(now.has(frame) == m.has(frame));
    }
    assert forall|frame: u64|
        !frames.contains(frame) implies #[trigger] asked.count(frame) == m.count(frame) by {
        assert(now.count(frame) == m.count(frame));
    }
    assert forall|i: int| 0 <= i < frames.len() implies asked.count(#[trigger] frames[i]) == 1 by {
        assert(now.count(frames[i]) == 1);
    }
}

/// A frame asked for that was not to be had.
pub(crate) proof fn had_no_frame(before: MachineView, m: MachineView)
    requires
        before.journal.len() <= m.journal.len(),
    ensures
        walk::ran_out(before, m.noting(Event::NoFrame)),
        none_taken(m, m.noting(Event::NoFrame)),
{
    assert(m.noting(Event::NoFrame).journal[m.journal.len() as int] is NoFrame);
}

/// Nothing taken yet.
pub proof fn nothing_taken_yet<M: Machine>(m: MachineView)
    ensures
        are_taken::<M>(m, m, Seq::empty()),
{
}

/// These frames, nobody's at the start, are out: each has one reference, and
/// nothing else has changed hands.
pub open spec fn are_out(m: MachineView, now: MachineView, out: Set<u64>) -> bool {
    &&& forall|frame: u64| #[trigger] out.contains(frame) ==> m.count(frame) == 0 && now.count(
        frame,
    ) == 1
    &&& forall|frame: u64| #[trigger] now.has(frame) == m.has(frame)
    &&& forall|frame: u64|
        m.count(frame) > 0 ==> #[trigger] now.words[frame] == m.words[frame]
    &&& forall|frame: u64|
        !out.contains(frame) ==> #[trigger] now.count(frame) == m.count(frame)
}

/// The frames of a list, as a set.
pub open spec fn among(frames: Seq<u64>) -> Set<u64> {
    Set::new(|frame: u64| frames.contains(frame))
}

pub proof fn taken_frames_are_out<M: Machine>(m: MachineView, now: MachineView, frames: Seq<u64>)
    requires
        are_taken::<M>(m, now, frames),
    ensures
        are_out(m, now, among(frames)),
{
    taking_keeps_held::<M>(m, now, frames);
    assert forall|frame: u64| #[trigger] among(frames).contains(frame) implies m.count(frame) == 0
        && now.count(frame) == 1 by {
        let k = choose|k: int| 0 <= k < frames.len() && frames[k] == frame;
        assert(m.count(frames[k]) == 0);
    }
}

/// Frames that are out and given back, each once, are out no more.
pub proof fn giving_back(m: MachineView, now: MachineView, out: Set<u64>, list: Seq<u64>)
    requires
        are_out(m, now, out),
        forall|i: int| 0 <= i < list.len() ==> out.contains(#[trigger] list[i]),
        forall|i: int, j: int|
            0 <= i < j < list.len() ==> #[trigger] list[i] != #[trigger] list[j],
    ensures
        are_out(m, teardown::all_released(now, list), out.difference(among(list))),
        teardown::all_released(now, list).words == now.words,
    decreases list.len(),
{
    if list.len() == 0 {
        assert(out.difference(among(list)) =~= out);
    } else {
        let before = list.drop_last();
        let last = list.last();
        assert forall|i: int| 0 <= i < before.len() implies out.contains(#[trigger] before[i]) by {
            assert(out.contains(list[i]));
        }
        assert forall|i: int, j: int| 0 <= i < j < before.len() implies #[trigger] before[i]
            != #[trigger] before[j] by {
            assert(list[i] != list[j]);
        }
        giving_back(m, now, out, before);
        let mid = teardown::all_released(now, before);
        let rest = out.difference(among(before));
        let after = mid.released(last);
        assert(out.contains(list[list.len() - 1]));
        assert(!before.contains(last)) by {
            if before.contains(last) {
                let k = choose|k: int| 0 <= k < before.len() && before[k] == last;
                assert(list[k] != list[list.len() - 1]);
            }
        }
        assert(rest.contains(last));
        assert(mid.count(last) == 1);
        assert(out.difference(among(list)) =~= rest.remove(last)) by {
            assert forall|frame: u64| #[trigger] among(list).contains(frame) <==> among(
                before,
            ).contains(frame) || frame == last by {
                if list.contains(frame) {
                    let k = choose|k: int| 0 <= k < list.len() && list[k] == frame;
                    if k < before.len() {
                        assert(before[k] == frame);
                    }
                }
                if before.contains(frame) {
                    let k = choose|k: int| 0 <= k < before.len() && before[k] == frame;
                    assert(list[k] == frame);
                }
                if frame == last {
                    assert(list[list.len() - 1] == frame);
                }
            }
        }
        assert forall|frame: u64| #[trigger] rest.remove(last).contains(frame) implies m.count(
            frame,
        ) == 0 && after.count(frame) == 1 by {
            assert(rest.contains(frame));
        }
        assert forall|frame: u64| #[trigger] after.has(frame) == m.has(frame) by {
            assert(mid.has(frame) == m.has(frame));
        }
        assert forall|frame: u64| !rest.remove(last).contains(frame) implies #[trigger] after.count(
            frame,
        ) == m.count(frame) by {
            if frame != last {
                assert(mid.count(frame) == m.count(frame));
            }
        }
        assert forall|frame: u64| m.count(frame) > 0 implies #[trigger] after.words[frame]
            == m.words[frame] by {
            assert(mid.words[frame] == m.words[frame]);
        }
    }
}

// ---- a page on its way in -----------------------------------------------------------

/// A page on its way in: a frame the allocator has just handed over, zeroed,
/// and the frames for the tables the walk to it may have to create.
///
/// This is the only thing a publish takes. Everything that allocates, zeroes
/// or reads from a file happens in making one, which is before the address
/// space is locked; what happens under the lock is a walk and a store. The
/// other order -- map the page wide enough to write through, write, then
/// narrow it to what it should have been -- has no spelling, and it is the
/// order that leaves a page a sibling thread can read blank, or run, before it
/// holds anything.
///
/// Only the allocator makes one, so this is not a way to move a frame another
/// mapping is holding.
pub struct Prepared {
    /// Taken by the publish that succeeds.
    page: Option<u64>,
    tables: TableStock,
}

impl Prepared {
    pub closed spec fn page(&self) -> Option<u64> {
        self.page
    }

    pub closed spec fn stock(&self) -> Seq<u64> {
        self.tables@
    }

    /// Every frame in hand.
    pub open spec fn frames(&self) -> Seq<u64> {
        match self.page() {
            Some(page) => seq![page] + self.stock(),
            None => self.stock(),
        }
    }

    /// The order the frames go back in: the page, and then the tables from the
    /// last taken.
    pub open spec fn way_back(&self) -> Seq<u64> {
        match self.page() {
            Some(page) => seq![page] + self.stock().reverse(),
            None => self.stock().reverse(),
        }
    }

    /// A zeroed page, and `tables` zeroed frames for the levels a walk to it
    /// would have to create. `None` when there are not enough frames.
    pub fn new<M: Machine>(machine: &mut M, tables: usize) -> (prepared: Option<Prepared>)
        ensures
            match prepared {
                None => {
                    &&& none_taken(old(machine).state(), final(machine).state())
                    &&& walk::ran_out(old(machine).state(), final(machine).state())
                    &&& teardown::goes_on_from(
                        final(machine).state().journal,
                        old(machine).state().journal,
                    )
                },
                Some(p) => {
                    &&& final(machine).state().journal == old(machine).state().journal
                    &&& p.page() is Some
                    &&& p.stock().len() == (if tables < DEPTH {
                        tables
                    } else {
                        DEPTH
                    })
                    &&& are_taken::<M>(old(machine).state(), final(machine).state(), p.frames())
                },
            },
    {
        let ghost m = machine.state();
        proof {
            nothing_taken_yet::<M>(m);
        }
        let page = match machine.alloc_zeroed() {
            Some(page) => page,
            None => {
                proof {
                    had_no_frame(m, m);
                    assert(m.journal.take(m.journal.len() as int) =~= m.journal);
                    teardown::one_event_on(m.journal, m.journal, Event::NoFrame);
                }
                return None;
            },
        };
        proof {
            one_more_taken::<M>(m, m, Seq::empty(), page);
            assert(Seq::<u64>::empty().push(page) =~= seq![page]);
        }
        let mut prepared = Prepared { page: Some(page), tables: TableStock::new() };
        assert(prepared.frames() =~= seq![page]);
        let want: usize = if tables < DEPTH {
            tables
        } else {
            DEPTH
        };
        while prepared.tables.len() < want
            invariant
                want <= DEPTH,
                want == (if tables < DEPTH {
                    tables
                } else {
                    DEPTH
                }),
                prepared.stock().len() <= want,
                prepared.page() == Some(page),
                m == old(machine).state(),
                machine.state().journal == m.journal,
                are_taken::<M>(m, machine.state(), prepared.frames()),
            decreases want - prepared.stock().len(),
        {
            let ghost now = machine.state();
            let ghost before = prepared.frames();
            match machine.alloc_zeroed() {
                Some(frame) => {
                    prepared.tables.push(frame);
                    proof {
                        one_more_taken::<M>(m, now, before, frame);
                        assert(prepared.frames() =~= before.push(frame));
                    }
                },
                // What was taken goes back with the value.
                None => {
                    proof {
                        let asked = machine.state();
                        nothing_more_is_taken::<M>(m, now, prepared.frames());
                        taken_frames_are_out::<M>(m, asked, prepared.frames());
                        everything_goes_back::<M>(m, asked, &prepared);
                        had_no_frame(m, now);
                        teardown::releasing_goes_on(asked, prepared.way_back());
                        teardown::still_ran_out(
                            m,
                            asked,
                            teardown::all_released(asked, prepared.way_back()),
                        );
                        assert(m.journal.take(m.journal.len() as int) =~= m.journal);
                        teardown::one_event_on(m.journal, m.journal, Event::NoFrame);
                        teardown::goes_on_further(
                            m.journal,
                            asked.journal,
                            teardown::all_released(asked, prepared.way_back()).journal,
                        );
                    }
                    prepared.give_back(machine);
                    return None;
                },
            }
        }
        Some(prepared)
    }

    /// Where the page is.
    pub fn addr(&self) -> (phys: u64)
        requires
            self.page() is Some,
        ensures
            phys == self.page()->0,
    {
        match self.page {
            Some(page) => page,
            None => 0,
        }
    }

    /// Frames for how many more levels this brought than the walk used.
    pub fn tables_left(&self) -> (count: usize)
        ensures
            count == self.stock().len(),
    {
        self.tables.len()
    }

    /// Take enough more zeroed frames that the walk can create `want` levels.
    /// False when there are not enough to be had.
    ///
    /// A publish asks how many levels are missing before it takes the lock,
    /// and that answer can be short by the time the lock is held: another task
    /// took a level away in between. This is how the caller goes back for the
    /// rest, outside the lock, and tries again.
    pub fn top_up<M: Machine>(&mut self, machine: &mut M, want: usize) -> (enough: bool)
        requires
            old(self).stock().len() <= DEPTH,
        ensures
            final(self).page() == old(self).page(),
            final(self).stock().len() >= old(self).stock().len(),
            final(self).stock().len() <= DEPTH,
            final(self).stock().take(old(self).stock().len() as int) == old(self).stock(),
            are_taken::<M>(
                old(machine).state(),
                final(machine).state(),
                final(self).stock().skip(old(self).stock().len() as int),
            ),
            final(machine).state().journal == (if enough {
                old(machine).state().journal
            } else {
                old(machine).state().journal.push(Event::NoFrame)
            }),
            enough == (final(self).stock().len() >= want || final(self).stock().len() == DEPTH),
            !enough ==> final(self).stock().len() < want,
            final(self).stock().len() > old(self).stock().len() && enough ==> (if want < DEPTH {
                want
            } else {
                DEPTH
            }) == final(self).stock().len(),
    {
        let ghost m = machine.state();
        let ghost first = self.stock();
        let ghost n = first.len() as int;
        let most: usize = if want < DEPTH {
            want
        } else {
            DEPTH
        };
        proof {
            nothing_taken_yet::<M>(m);
            assert(first.skip(n) =~= Seq::<u64>::empty());
            assert(first.take(n) =~= first);
        }
        while self.tables.len() < most
            invariant
                most <= DEPTH,
                most == (if want < DEPTH {
                    want
                } else {
                    DEPTH
                }),
                n == first.len(),
                first == old(self).stock(),
                m == old(machine).state(),
                self.page() == old(self).page(),
                n <= self.stock().len() <= DEPTH,
                self.stock().len() > n ==> self.stock().len() <= most,
                self.stock().take(n) == first,
                machine.state().journal == m.journal,
                are_taken::<M>(m, machine.state(), self.stock().skip(n)),
            decreases DEPTH - self.stock().len(),
        {
            let ghost now = machine.state();
            let ghost before = self.stock();
            match machine.alloc_zeroed() {
                Some(frame) => {
                    self.tables.push(frame);
                    proof {
                        one_more_taken::<M>(m, now, before.skip(n), frame);
                        assert(self.stock().skip(n) =~= before.skip(n).push(frame));
                        assert(self.stock().take(n) =~= before.take(n));
                    }
                },
                None => {
                    proof {
                        nothing_more_is_taken::<M>(m, now, before.skip(n));
                    }
                    return false;
                },
            }
        }
        true
    }

    /// Hand the page to the walk at `virt`, with the table frames it may need.
    /// A refusal leaves everything in hand.
    pub fn publish_in<M: Machine>(
        &mut self,
        machine: &mut M,
        tables: &Tables,
        virt: u64,
        flags: u64,
        tlb: &mut Tlb,
    ) -> (result: Result<u64, Refused>)
        requires
            old(self).page() is Some,
            tree::is_tree::<M>(old(machine).state(), tables.top(), 3),
            tree::are_spare::<M>(old(machine).state(), tables.top(), old(self).stock()),
        ensures
            match change::refusal::<M>(
                old(machine).state(),
                tables.top(),
                virt,
                3,
                old(self).stock().len(),
            ) {
                Some(refused) => {
                    &&& result == Err::<u64, Refused>(refused)
                    &&& final(machine).state() == old(machine).state()
                    &&& final(self).page() == old(self).page()
                    &&& final(self).stock() == old(self).stock()
                    &&& *final(tlb) == *old(tlb)
                },
                None => {
                    &&& result == Ok::<u64, Refused>(old(self).page()->0)
                    &&& (final(machine).state(), final(self).stock()) == change::published::<M>(
                        old(machine).state(),
                        tables.top(),
                        virt,
                        old(self).page()->0,
                        flags,
                        old(self).stock(),
                    )
                    &&& final(self).page() is None
                    &&& *final(tlb) == old(tlb).noted(virt)
                    &&& tree::leaf_at::<M>(final(machine).state(), tables.top(), virt)
                        == change::shown::<M>(M::leaf_bits(old(self).page()->0, flags))
                    &&& change::others_unchanged::<M>(
                        old(machine).state(),
                        final(machine).state(),
                        tables.top(),
                        virt,
                    )
                },
            },
            tree::is_tree::<M>(final(machine).state(), tables.top(), 3),
            tree::are_spare::<M>(final(machine).state(), tables.top(), final(self).stock()),
    {
        let page = self.addr();
        match tables.publish(machine, virt, page, flags, &mut self.tables, tlb) {
            Ok(_) => {
                self.page = None;
                Ok(page)
            },
            Err(refused) => Err(refused),
        }
    }

    /// Whatever the walk did not use goes back.
    pub fn give_back<M: Machine>(self, machine: &mut M)
        ensures
            final(machine).state() == teardown::all_released(
                old(machine).state(),
                self.way_back(),
            ),
    {
        let mut tables = self.tables;
        let ghost mut done: Seq<u64> = Seq::empty();
        let ghost stock = tables@;
        match self.page {
            Some(page) => {
                machine.free(page);
                proof {
                    done = seq![page];
                    assert(done.drop_last() =~= Seq::<u64>::empty());
                    assert(teardown::all_released(old(machine).state(), done.drop_last())
                        == old(machine).state());
                    assert(done.last() == page);
                }
            },
            None => {},
        }
        proof {
            assert(done + tables@.reverse() =~= self.way_back());
        }
        while tables.len() > 0
            invariant
                done + tables@.reverse() == self.way_back(),
                machine.state() == teardown::all_released(old(machine).state(), done),
            decreases tables@.len(),
        {
            let ghost left = tables@;
            if let Some(frame) = tables.take() {
                machine.free(frame);
                proof {
                    let more = done.push(frame);
                    assert(more.drop_last() =~= done);
                    assert(more + tables@.reverse() =~= done + left.reverse());
                    done = more;
                }
            }
        }
        assert(done =~= self.way_back());
    }
}

/// Giving back everything in hand leaves nothing taken.
pub proof fn everything_goes_back<M: Machine>(m: MachineView, now: MachineView, prepared: &Prepared)
    requires
        are_taken::<M>(m, now, prepared.frames()),
    ensures
        none_taken(m, teardown::all_released(now, prepared.way_back())),
{
    let frames = prepared.frames();
    let list = prepared.way_back();
    let stock = prepared.stock();
    taken_frames_are_out::<M>(m, now, frames);
    let shift: int = if prepared.page() is Some {
        1
    } else {
        0
    };
    assert(list.len() == frames.len());
    assert forall|i: int| 0 <= i < list.len() implies #[trigger] list[i] == frames[if i < shift {
        i
    } else {
        list.len() - 1 - i + shift
    }] by {
    }
    assert forall|i: int| 0 <= i < list.len() implies among(frames).contains(
        #[trigger] list[i],
    ) by {
        let k = if i < shift {
            i
        } else {
            list.len() - 1 - i + shift
        };
        assert(frames[k] == list[i]);
    }
    assert forall|i: int, j: int| 0 <= i < j < list.len() implies #[trigger] list[i]
        != #[trigger] list[j] by {
        let a = if i < shift {
            i
        } else {
            list.len() - 1 - i + shift
        };
        let b = if j < shift {
            j
        } else {
            list.len() - 1 - j + shift
        };
        if a < b {
            assert(frames[a] != frames[b]);
        } else {
            assert(frames[b] != frames[a]);
        }
    }
    giving_back(m, now, among(frames), list);
    let after = teardown::all_released(now, list);
    assert(among(frames).difference(among(list)) =~= Set::<u64>::empty()) by {
        assert forall|frame: u64| #[trigger] among(frames).contains(frame) implies among(
            list,
        ).contains(frame) by {
            let k = choose|k: int| 0 <= k < frames.len() && frames[k] == frame;
            let i = if k < shift {
                k
            } else {
                list.len() - 1 - k + shift
            };
            assert(list[i] == frame);
        }
    }
    assert forall|frame: u64| #[trigger] after.count(frame) == m.count(frame) by {
        assert(!Set::<u64>::empty().contains(frame));
    }
}

/// Putting a page in keeps a hierarchy whose tables are held, where the frames
/// for the tables it needs are.
pub proof fn publishing_keeps_a_space<M: Machine>(
    m: MachineView,
    root: u64,
    virt: u64,
    phys: u64,
    flags: u64,
    stock: Seq<u64>,
)
    requires
        is_space::<M>(m, root),
        tree::are_spare::<M>(m, root, stock),
        forall|i: int| 0 <= i < stock.len() ==> m.count(#[trigger] stock[i]) > 0,
        change::refusal::<M>(m, root, virt, 3, stock.len()) is None,
    ensures
        ({
            let (after, left) = change::published::<M>(m, root, virt, phys, flags, stock);
            &&& is_space::<M>(after, root)
            &&& after.counts == m.counts
            &&& tree::are_spare::<M>(after, root, left)
            &&& left.len() <= stock.len()
            &&& left == stock.take(left.len() as int)
            &&& tree::leaf_at::<M>(after, root, virt) == change::shown::<M>(
                M::leaf_bits(phys, flags),
            )
            &&& change::others_unchanged::<M>(m, after, root, virt)
        }),
{
    let (open, left, table) = change::way_made::<M>(m, root, virt, 3, flags, stock);
    let bits = M::leaf_bits(phys, flags);
    change::the_way_is_made::<M>(m, root, virt, flags, stock);
    change::written_at_the_end::<M>(m, root, virt, stock, open, left, table, bits);
    let after = open.stored(table, walk::index_at(virt, 0), bits);
    assert forall|p: Seq<int>| tree::is_path(p, 3) implies (#[trigger] tree::reached::<M>(after, root, 3, p)
        matches Some(t) ==> after.count(t) > 0) by {
        if tree::reached::<M>(after, root, 3, p) is Some {
            let t = tree::reached::<M>(after, root, 3, p)->0;
            assert(tree::reached::<M>(open, root, 3, p) == Some(t));
            if stock.contains(t) {
                let k = choose|k: int| 0 <= k < stock.len() && stock[k] == t;
                assert(m.count(stock[k]) > 0);
            } else {
                assert(tree::reached::<M>(m, root, 3, p) == Some(t));
            }
        }
    }
}

/// Giving references back changes no word.
pub proof fn releasing_changes_no_word(m: MachineView, list: Seq<u64>)
    ensures
        teardown::all_released(m, list).words == m.words,
    decreases list.len(),
{
    if list.len() > 0 {
        releasing_changes_no_word(m, list.drop_last());
    }
}

/// Giving references back moves no table, and maps nothing anywhere else.
pub proof fn releasing_moves_nothing<M: Machine>(m: MachineView, list: Seq<u64>, root: u64)
    ensures
        forall|p: Seq<int>|
            tree::is_path(p, 3) ==> #[trigger] tree::reached::<M>(
                teardown::all_released(m, list),
                root,
                3,
                p,
            ) == tree::reached::<M>(m, root, 3, p),
        forall|virt: u64| #[trigger]
            tree::leaf_at::<M>(teardown::all_released(m, list), root, virt) == tree::leaf_at::<M>(
                m,
                root,
                virt,
            ),
        tree::is_tree::<M>(m, root, 3) ==> tree::is_tree::<M>(
            teardown::all_released(m, list),
            root,
            3,
        ),
{
    let after = teardown::all_released(m, list);
    releasing_changes_no_word(m, list);
    assert forall|p: Seq<int>| tree::is_path(p, 3) implies #[trigger] tree::reached::<M>(after, root, 3, p)
        == tree::reached::<M>(m, root, 3, p) by {
        tree::unchanged_where_looked::<M>(m, after, root, 3, p);
    }
    assert forall|virt: u64| #[trigger]
        tree::leaf_at::<M>(after, root, virt) == tree::leaf_at::<M>(m, root, virt) by {
        tree::path_of_is_path(virt, 3);
        assert(tree::reached::<M>(after, root, 3, tree::path_of(virt)) == tree::reached::<M>(
            m,
            root,
            3,
            tree::path_of(virt),
        ));
    }
    assert forall|frame: u64| #[trigger] after.has(frame) == m.has(frame) by {
    }
}

/// Giving back references to frames a hierarchy does not reach leaves its
/// tables held.
pub proof fn releasing_keeps_a_space<M: Machine>(m: MachineView, list: Seq<u64>, root: u64)
    requires
        is_space::<M>(m, root),
        forall|i: int|
            #![trigger list[i]]
            0 <= i < list.len() ==> forall|p: Seq<int>|
                tree::is_path(p, 3) ==> #[trigger] tree::reached::<M>(m, root, 3, p) != Some(list[i]),
    ensures
        is_space::<M>(teardown::all_released(m, list), root),
    decreases list.len(),
{
    releasing_moves_nothing::<M>(m, list, root);
    if list.len() > 0 {
        let before = list.drop_last();
        assert forall|i: int|
            #![trigger before[i]]
            0 <= i < before.len() implies forall|p: Seq<int>|
            tree::is_path(p, 3) ==> #[trigger] tree::reached::<M>(m, root, 3, p) != Some(before[i]) by {
            assert(before[i] == list[i]);
        }
        releasing_keeps_a_space::<M>(m, before, root);
        releasing_moves_nothing::<M>(m, before, root);
        let mid = teardown::all_released(m, before);
        let after = teardown::all_released(m, list);
        assert forall|p: Seq<int>| tree::is_path(p, 3) implies (#[trigger] tree::reached::<M>(
            after,
            root,
            3,
            p,
        ) matches Some(t) ==> after.count(t) > 0) by {
            if tree::reached::<M>(after, root, 3, p) is Some {
                let t = tree::reached::<M>(after, root, 3, p)->0;
                assert(tree::reached::<M>(m, root, 3, p) == Some(t));
                assert(tree::reached::<M>(mid, root, 3, p) == Some(t));
                assert(t != list[list.len() - 1]);
            }
        }
    }
}

// ---- frames on their way out ----------------------------------------------------------

/// The most frames one change can take out of the tables: the page, and the
/// three tables emptying it can leave behind.
pub const STALE_MAX: usize = 4;

/// Frames a table no longer names.
///
/// A translation the hardware has cached outlives the descriptor it was read
/// from, so these are still reachable. There is no way to release one from
/// here: the guard takes them, and that is what orders the invalidation before
/// the release.
#[must_use]
pub struct Stale {
    frames: Vec<u64>,
}

impl View for Stale {
    type V = Seq<u64>;

    closed spec fn view(&self) -> Seq<u64> {
        self.frames@
    }
}

impl Stale {
    pub fn new() -> (stale: Stale)
        ensures
            stale@ == Seq::<u64>::empty(),
    {
        Stale { frames: Vec::new() }
    }

    pub fn push(&mut self, phys: u64)
        requires
            old(self)@.len() < STALE_MAX,
        ensures
            final(self)@ == old(self)@.push(phys),
    {
        self.frames.push(phys);
    }

    pub fn is_empty(&self) -> (r: bool)
        ensures
            r == (self@.len() == 0),
    {
        self.frames.len() == 0
    }

    /// What is waiting, for a check that wants to see it. Reading is all this
    /// allows: releasing one still goes through the guard.
    pub fn frames(&self) -> (frames: &[u64])
        ensures
            frames@ == self@,
    {
        self.frames.as_slice()
    }
}

// ---- whole hierarchies --------------------------------------------------------------------

/// A hierarchy of translation tables for one address space: its top table, and
/// every table and frame the user half of it reaches.
///
/// It has one owner. It is not `Copy` or `Clone`, the root is private, and the
/// only way the tables go back is `destroy`, which takes the owner, so a
/// second value naming the same tables cannot free them twice.
pub struct PageTables {
    root: u64,
}

impl PageTables {
    pub closed spec fn top(&self) -> u64 {
        self.root
    }

    /// A fresh address space that shares the kernel half.
    pub fn new_user<M: Machine>(machine: &mut M, kernel: &Tables) -> (fresh: Option<PageTables>)
        requires
            is_space::<M>(old(machine).state(), kernel.top()),
        ensures
            match fresh {
                None => final(machine).state() == old(machine).state().noting(Event::NoFrame),
                Some(tables) => {
                    let m = old(machine).state();
                    let root = tables.top();
                    &&& m.count(root) == 0
                    &&& m.has(root)
                    &&& M::nameable(root)
                    &&& final(machine).state() == teardown::adopted(
                        m.handed_over(root),
                        root,
                        kernel.top(),
                        256,
                        ENTRIES as int,
                    )
                    &&& is_space::<M>(final(machine).state(), root)
                    &&& forall|virt: u64|
                        walk::index_at(virt, 3) < 256 ==> #[trigger] tree::leaf_at::<M>(
                            final(machine).state(),
                            root,
                            virt,
                        ) is None
                    &&& forall|virt: u64|
                        walk::index_at(virt, 3) >= 256 ==> #[trigger] tree::leaf_at::<M>(
                            final(machine).state(),
                            root,
                            virt,
                        ) == tree::leaf_at::<M>(m, kernel.top(), virt)
                },
            },
    {
        let ghost m = machine.state();
        // The owner holds the top table's reference; `destroy` gives it back.
        let root = match machine.alloc_zeroed() {
            Some(root) => root,
            None => {
                return None;
            },
        };
        let fresh = Tables::new(root);
        let ghost ready = machine.state();
        proof {
            nothing_taken_yet::<M>(m);
            one_more_taken::<M>(m, m, Seq::empty(), root);
            let list = Seq::<u64>::empty().push(root);
            assert(list[0] == root);
            assert(list.contains(root));
            assert(seq![root][0] == root);
            taken_frames_are_spare::<M>(m, ready, kernel.top(), list, seq![root]);
            a_space_is_not_disturbed::<M>(m, ready, kernel.top());
            assert(tree::is_spare::<M>(ready, kernel.top(), seq![root][0]));
            let none = Seq::<int>::empty();
            assert(tree::is_path(none, 3));
            assert(tree::reached::<M>(ready, kernel.top(), 3, none) == Some(kernel.top()));
            teardown::a_fresh_space_shares_the_kernel_half::<M>(ready, root, kernel.top());
            teardown::adopting(ready, root, kernel.top(), 256, ENTRIES as int);
        }
        // Entries 256..512 cover the kernel: direct map, heap, image. They are
        // copied rather than referenced, so nothing below the top level is
        // owned here and a teardown frees none of it.
        fresh.adopt_top(machine, kernel, 256, ENTRIES);
        proof {
            let after = machine.state();
            assert forall|p: Seq<int>| tree::is_path(p, 3) implies (#[trigger] tree::reached::<M>(
                after,
                root,
                3,
                p,
            ) matches Some(t) ==> after.count(t) > 0) by {
                if p.len() > 0 {
                    if tree::reached::<M>(after, root, 3, p) is Some {
                        let t = tree::reached::<M>(after, root, 3, p)->0;
                        assert(tree::reached::<M>(ready, kernel.top(), 3, p) == Some(t));
                        assert(ready.count(t) > 0);
                    }
                } else {
                    assert(ready.count(root) == 1);
                }
            }
            assert forall|virt: u64|
                walk::index_at(virt, 3) >= 256 implies #[trigger] tree::leaf_at::<M>(
                after,
                root,
                virt,
            ) == tree::leaf_at::<M>(m, kernel.top(), virt) by {
                assert(tree::leaf_at::<M>(ready, kernel.top(), virt) == tree::leaf_at::<M>(
                    m,
                    kernel.top(),
                    virt,
                ));
            }
        }
        Some(PageTables { root })
    }

    /// A number that tells these tables apart from every other set alive at the
    /// same moment, for anything that has to key on which one it is.
    pub fn id(&self) -> (id: u64)
        ensures
            id == self.top(),
    {
        self.root
    }

    /// The walk of these tables.
    pub fn walk(&self) -> (tables: Tables)
        ensures
            tables.top() == self.top(),
    {
        Tables::new(self.root)
    }

    /// Release every user mapping, every table that held one, and the top
    /// table. The kernel half is shared, so it is not freed.
    ///
    /// The processor must not be on these tables, since it walks them for the
    /// kernel's own addresses as well.
    pub fn destroy<M: Machine>(self, machine: &mut M, live_root: u64)
        requires
            tree::is_tree::<M>(old(machine).state(), self.top(), 3),
            live_root != self.top(),
        ensures
            final(machine).state() == teardown::emptied_below::<M>(
                old(machine).state(),
                self.top(),
                USER_LIMIT,
            ).released(self.top()),
            teardown::is_torn_down_to::<M>(
                old(machine).state(),
                final(machine).state(),
                self.top(),
                256,
            ),
    {
        let tables = self.walk();
        tables.free_below(machine, USER_LIMIT);
        let ghost emptied = machine.state();
        assert forall|frame: u64| #[trigger] emptied.released(self.root).has(frame)
            == emptied.has(frame) by {
        }
        machine.free(self.root);
    }
}

/// A frame put in at an address, what is cached for the address thrown away,
/// and the frames the walk did not use given back.
pub open spec fn mapped<M: Machine>(
    m: MachineView,
    root: u64,
    virt: u64,
    phys: u64,
    flags: u64,
    stock: Seq<u64>,
) -> MachineView {
    let (put, left) = change::published::<M>(m, root, virt, phys, flags, stock);
    teardown::all_released(put.noting(Event::FlushPage(virt)), left.reverse())
}

/// A page taken from what nobody held and put in, with as many frames taken for
/// tables as the walk is missing.
pub open spec fn is_mapped_new<M: Machine>(
    m: MachineView,
    after: MachineView,
    root: u64,
    virt: u64,
    phys: u64,
    flags: u64,
) -> bool {
    exists|ready: MachineView, stock: Seq<u64>| #[trigger]
        are_taken::<M>(m, ready, seq![phys] + stock) && stock.len() == change::missing::<M>(
            m,
            root,
            virt,
            3,
        ) && ready.journal == m.journal && after == mapped::<M>(
            ready,
            root,
            virt,
            phys,
            flags,
            stock,
        )
}

/// What comes of asking for a zeroed page at an address: the page, an address
/// that is taken, or a lack of frames, with nothing else touched either time.
pub open spec fn is_answered_new<M: Machine>(
    m: MachineView,
    after: MachineView,
    root: u64,
    virt: u64,
    flags: u64,
    result: Result<u64, MapError>,
) -> bool {
    let standing = change::refusal::<M>(m, root, virt, 3, DEPTH as nat);
    match result {
        Ok(phys) => {
            &&& standing is None
            &&& M::nameable(phys)
            &&& m.count(phys) == 0
            &&& after.count(phys) == 1
            &&& after.words[phys] == walk::blank()
            &&& is_mapped_new::<M>(m, after, root, virt, phys, flags)
            &&& tree::leaf_at::<M>(after, root, virt) == change::shown::<M>(
                M::leaf_bits(phys, flags),
            )
            &&& change::others_unchanged::<M>(m, after, root, virt)
        },
        Err(MapError::AlreadyMapped) => {
            &&& standing is Some
            &&& none_taken(m, after)
        },
        Err(MapError::OutOfMemory) => none_taken(m, after) && walk::ran_out(m, after),
    }
}

/// A given frame put in, with frames taken for tables from what nobody held.
pub open spec fn is_mapped_fixed<M: Machine>(
    m: MachineView,
    after: MachineView,
    root: u64,
    virt: u64,
    phys: u64,
    flags: u64,
) -> bool {
    exists|ready: MachineView, stock: Seq<u64>| #[trigger]
        are_taken::<M>(m, ready, stock) && stock.len() == DEPTH && ready.journal == m.journal
            && after == mapped::<M>(
            ready,
            root,
            virt,
            phys,
            flags,
            stock,
        )
}

/// The kernel half of every address space, through the kernel's own top table.
///
/// Below the top level the kernel half is one set of tables that every address
/// space names, because `new_user` copies the top table's upper half, so a page
/// mapped there through one top table is reached through all of them. The
/// kernel's own is the one this walks.
pub struct KernelTables {
    tables: Tables,
}

impl KernelTables {
    pub closed spec fn top(&self) -> u64 {
        self.tables.top()
    }

    pub fn new(root: u64) -> (kernel: KernelTables)
        ensures
            kernel.top() == root,
    {
        KernelTables { tables: Tables::new(root) }
    }

    /// The walk of these tables.
    pub fn walk(&self) -> (tables: &Tables)
        ensures
            tables.top() == self.top(),
    {
        &self.tables
    }

    /// Map a zeroed page at `virt`, an address in the kernel half: the heap.
    ///
    /// The frames are taken before the lock, so what happens under it is a
    /// walk and a store. An address another grower reached first is an error
    /// rather than a second page over the top of the first.
    pub fn map_new<M: Machine>(&self, machine: &mut M, virt: u64, flags: u64) -> (result: Result<
        u64,
        MapError,
    >)
        requires
            is_space::<M>(old(machine).state(), self.top()),
            virt >= USER_LIMIT,
        ensures
            is_answered_new::<M>(
                old(machine).state(),
                final(machine).state(),
                self.top(),
                virt,
                flags,
                result,
            ),
            is_space::<M>(final(machine).state(), self.top()),
            teardown::goes_on_from(
                final(machine).state().journal,
                old(machine).state().journal,
            ),
    {
        let ghost m = machine.state();
        let ghost root = self.top();
        // How many levels are missing, asked before anything is taken:
        // bringing three frames every time would zero twelve kilobytes for
        // each page of a heap that grows in thousands.
        let missing = self.tables.missing_tables(machine, virt);
        let mut prepared = match Prepared::new(machine, missing) {
            Some(prepared) => prepared,
            None => {
                proof {
                    a_space_is_not_disturbed::<M>(m, machine.state(), root);
                }
                return Err(MapError::OutOfMemory);
            },
        };
        let ghost ready = machine.state();
        let ghost frames = prepared.frames();
        let ghost stock = prepared.stock();
        let ghost page = prepared.page()->0;
        proof {
            assert(frames =~= seq![page] + stock);
            assert forall|i: int| 0 <= i < stock.len() implies frames.contains(
                #[trigger] stock[i],
            ) by {
                assert(frames[i + 1] == stock[i]);
            }
            assert forall|i: int, j: int| 0 <= i < j < stock.len() implies #[trigger] stock[i]
                != #[trigger] stock[j] by {
                assert(frames[i + 1] != frames[j + 1]);
            }
            taken_frames_are_spare::<M>(m, ready, root, frames, stock);
            a_space_is_not_disturbed::<M>(m, ready, root);
            tree::path_of_is_path(virt, 0);
            the_same_stands_in_the_way::<M>(m, ready, root, virt, root, 0, stock.len());
            the_same_stands_in_the_way::<M>(m, ready, root, virt, root, 0, DEPTH as nat);
            enough_is_brought::<M>(ready, root, virt, 3, stock.len());
            enough_is_brought::<M>(m, root, virt, 3, stock.len());
            more_is_no_different::<M>(m, root, virt, 3, stock.len(), DEPTH as nat);
            assert(frames[0] == page);
        }
        let mut tlb = Tlb::new();
        let outcome = prepared.publish_in(machine, &self.tables, virt, flags, &mut tlb);
        let ghost put = machine.state();
        tlb.flush(machine);
        let ghost told = machine.state();
        proof {
            if outcome is Ok {
                assert forall|i: int| 0 <= i < stock.len() implies ready.count(
                    #[trigger] stock[i],
                ) > 0 by {
                    assert(frames[i + 1] == stock[i]);
                }
                publishing_keeps_a_space::<M>(ready, root, virt, page, flags, stock);
            }
            assert(told.words == put.words);
            assert(told.counts == put.counts);
            same_words_and_counts::<M>(put, told, root);
        }
        proof {
            assert(m.journal.take(m.journal.len() as int) =~= m.journal);
            if outcome is Ok {
                holding::a_page_put_in_stores_in_its_space::<M>(
                    ready,
                    root,
                    virt,
                    page,
                    flags,
                    stock,
                );
                teardown::one_event_on(m.journal, put.journal, Event::FlushPage(virt));
            }
            teardown::releasing_goes_on(told, prepared.way_back());
            teardown::goes_on_further(
                m.journal,
                told.journal,
                teardown::all_released(told, prepared.way_back()).journal,
            );
        }
        // What the walk did not use goes back here.
        let ghost back = prepared.way_back();
        proof {
            let left = prepared.stock();
            if outcome is Ok {
                assert(back =~= left.reverse());
                assert(left == stock.take(left.len() as int));
                taken_frames_are_out::<M>(m, ready, frames);
                assert forall|i: int| 0 <= i < back.len() implies among(frames).contains(
                    #[trigger] back[i],
                ) && back[i] != page by {
                    let k = left.len() - 1 - i;
                    assert(back[i] == left[k]);
                    assert(left[k] == stock[k]);
                    assert(frames[k + 1] == stock[k]);
                    assert(frames[0] != frames[k + 1]);
                }
                assert forall|i: int, j: int| 0 <= i < j < back.len() implies #[trigger] back[i]
                    != #[trigger] back[j] by {
                    let a = left.len() - 1 - i;
                    let b = left.len() - 1 - j;
                    assert(back[i] == left[a] && left[a] == stock[a]);
                    assert(back[j] == left[b] && left[b] == stock[b]);
                    assert(stock[b] != stock[a]);
                }
                leftovers_go_back(told, page, back);
                assert forall|i: int|
                    #![trigger back[i]]
                    0 <= i < back.len() implies forall|p: Seq<int>|
                    tree::is_path(p, 3) ==> #[trigger] tree::reached::<M>(told, root, 3, p) != Some(
                        back[i],
                    ) by {
                    let k = left.len() - 1 - i;
                    assert(tree::is_spare::<M>(put, root, left[k]));
                    assert(back[i] == left[k]);
                    assert forall|p: Seq<int>| tree::is_path(p, 3) implies #[trigger] tree::reached::<M>(
                        told,
                        root,
                        3,
                        p,
                    ) != Some(back[i]) by {
                        assert(tree::reached::<M>(told, root, 3, p) == tree::reached::<M>(put, root, 3, p));
                    }
                }
                releasing_keeps_a_space::<M>(told, back, root);
                releasing_moves_nothing::<M>(told, back, root);
            } else {
                assert(prepared.frames() == frames);
                assert(are_taken::<M>(m, told, frames));
                everything_goes_back::<M>(m, told, &prepared);
                a_space_is_not_disturbed::<M>(
                    m,
                    teardown::all_released(told, back),
                    root,
                );
            }
        }
        prepared.give_back(machine);
        match outcome {
            Ok(phys) => {
                proof {
                    let after = machine.state();
                    assert(after == mapped::<M>(ready, root, virt, page, flags, stock));
                    missing_is_bounded::<M>(m, root, virt, 3);
                    assert(are_taken::<M>(m, ready, seq![page] + stock));
                    let apart = seq![page];
                    assert(apart[0] == page);
                    assert(frames.contains(apart[0]));
                    taken_frames_are_spare::<M>(m, ready, root, frames, apart);
                    assert(tree::is_spare::<M>(ready, root, apart[0]));
                    assert(teardown::is_outside::<M>(ready, root, 3, page));
                    assert(!stock.contains(page)) by {
                        if stock.contains(page) {
                            let i = choose|i: int| 0 <= i < stock.len() && stock[i] == page;
                            assert(frames[i + 1] == stock[i]);
                            assert(frames[0] != frames[i + 1]);
                        }
                    }
                    holding::a_page_put_in_touches_only_its_space::<M>(
                        ready,
                        root,
                        virt,
                        page,
                        flags,
                        stock,
                        page,
                    );
                    releasing_changes_no_word(told, back);
                    assert forall|other: u64|
                        tree::page_of(other) != tree::page_of(
                            virt,
                        ) implies #[trigger] tree::leaf_at::<M>(after, root, other)
                        == tree::leaf_at::<M>(m, root, other) by {
                        assert(tree::leaf_at::<M>(told, root, other) == tree::leaf_at::<M>(
                            put,
                            root,
                            other,
                        ));
                        assert(tree::leaf_at::<M>(put, root, other) == tree::leaf_at::<M>(
                            ready,
                            root,
                            other,
                        ));
                    }
                    assert(tree::leaf_at::<M>(told, root, virt) == tree::leaf_at::<M>(
                        put,
                        root,
                        virt,
                    ));
                }
                Ok(phys)
            },
            Err(Refused::ShortOfTables) => Err(MapError::OutOfMemory),
            Err(_) => Err(MapError::AlreadyMapped),
        }
    }
}

impl KernelTables {
    /// Map `phys` at `virt`, an address in the kernel half, without taking a
    /// reference on it: in practice a device's registers.
    ///
    /// `phys` must not be memory the frame allocator can hand out for as long
    /// as the mapping stays. Nothing takes this mapping away when a frame is
    /// released, so a frame given to a program afterwards would be reachable
    /// through it.
    pub fn map_fixed<M: Machine>(&self, machine: &mut M, virt: u64, phys: u64, flags: u64) -> (result:
        Result<(), MapError>)
        requires
            is_space::<M>(old(machine).state(), self.top()),
            virt >= USER_LIMIT,
        ensures
            ({
                let m = old(machine).state();
                let after = final(machine).state();
                let bits = M::leaf_bits(phys, flags);
                let standing = change::refusal::<M>(m, self.top(), virt, 3, DEPTH as nat);
                match result {
                    Ok(_) => {
                        ||| {
                            &&& standing is None
                            &&& is_mapped_fixed::<M>(m, after, self.top(), virt, phys, flags)
                            &&& tree::leaf_at::<M>(after, self.top(), virt) == change::shown::<M>(
                                bits,
                            )
                            &&& change::others_unchanged::<M>(m, after, self.top(), virt)
                        }
                        ||| {
                            &&& standing == Some(Refused::Occupied)
                            &&& tree::leaf_at::<M>(m, self.top(), virt) == Some(bits)
                            &&& none_taken(m, after)
                        }
                    },
                    Err(MapError::AlreadyMapped) => {
                        &&& standing is Some
                        &&& tree::leaf_at::<M>(m, self.top(), virt) != Some(bits)
                        &&& none_taken(m, after)
                    },
                    Err(MapError::OutOfMemory) => none_taken(m, after) && walk::ran_out(m, after),
                }
            }),
            is_space::<M>(final(machine).state(), self.top()),
    {
        let ghost m = machine.state();
        let ghost root = self.top();
        let mut prepared = Prepared { page: None, tables: TableStock::new() };
        let enough = prepared.top_up(machine, DEPTH);
        let ghost ready = machine.state();
        let ghost stock = prepared.stock();
        proof {
            assert(stock.skip(0) =~= stock);
            assert(prepared.frames() =~= stock);
            everything_goes_back::<M>(m, ready, &prepared);
        }
        if !enough {
            proof {
                a_space_is_not_disturbed::<M>(
                    m,
                    teardown::all_released(ready, prepared.way_back()),
                    root,
                );
            }
            proof {
                had_no_frame(m, MachineView { journal: m.journal, ..ready });
                teardown::releasing_goes_on(ready, prepared.way_back());
                teardown::still_ran_out(
                    m,
                    ready,
                    teardown::all_released(ready, prepared.way_back()),
                );
            }
            prepared.give_back(machine);
            return Err(MapError::OutOfMemory);
        }
        proof {
            assert forall|i: int| 0 <= i < stock.len() implies stock.contains(
                #[trigger] stock[i],
            ) by {
            }
            taken_frames_are_spare::<M>(m, ready, root, stock, stock);
            a_space_is_not_disturbed::<M>(m, ready, root);
            tree::path_of_is_path(virt, 0);
            the_same_stands_in_the_way::<M>(m, ready, root, virt, root, 0, DEPTH as nat);
            missing_is_bounded::<M>(m, root, virt, 3);
            enough_is_brought::<M>(m, root, virt, 3, DEPTH as nat);
        }
        let mut tlb = Tlb::new();
        let outcome = self.tables.publish(
            machine,
            virt,
            phys,
            flags,
            &mut prepared.tables,
            &mut tlb,
        );
        let ghost put = machine.state();
        tlb.flush(machine);
        let ghost told = machine.state();
        let ghost back = prepared.way_back();
        proof {
            let left = prepared.stock();
            assert(back =~= left.reverse());
            assert(told.words == put.words);
            assert(told.counts == put.counts);
            same_words_and_counts::<M>(put, told, root);
            if outcome is Ok {
                publishing_keeps_a_space::<M>(ready, root, virt, phys, flags, stock);
                assert forall|i: int|
                    #![trigger back[i]]
                    0 <= i < back.len() implies forall|p: Seq<int>|
                    tree::is_path(p, 3) ==> #[trigger] tree::reached::<M>(told, root, 3, p) != Some(
                        back[i],
                    ) by {
                    let k = left.len() - 1 - i;
                    assert(tree::is_spare::<M>(put, root, left[k]));
                    assert(back[i] == left[k]);
                    assert forall|p: Seq<int>| tree::is_path(p, 3) implies #[trigger] tree::reached::<M>(
                        told,
                        root,
                        3,
                        p,
                    ) != Some(back[i]) by {
                        assert(tree::reached::<M>(told, root, 3, p) == tree::reached::<M>(put, root, 3, p));
                    }
                }
                releasing_keeps_a_space::<M>(told, back, root);
                releasing_moves_nothing::<M>(told, back, root);
            } else {
                assert(prepared.frames() =~= stock);
                assert(are_taken::<M>(m, told, stock));
                everything_goes_back::<M>(m, told, &prepared);
                a_space_is_not_disturbed::<M>(
                    m,
                    teardown::all_released(told, back),
                    root,
                );
            }
        }
        // Two devices whose registers share a page ask for the same mapping
        // twice, and the second is not a clash. Anything else at the address
        // is, and is refused rather than written over.
        let bits = machine.leaf(phys, flags);
        let there = match self.tables.leaf(machine, virt) {
            Some(held) => held == bits,
            None => false,
        };
        prepared.give_back(machine);
        match outcome {
            Ok(_) => {
                proof {
                    let after = machine.state();
                    assert(after == mapped::<M>(ready, root, virt, phys, flags, stock));
                    assert(are_taken::<M>(m, ready, stock));
                    assert forall|other: u64|
                        tree::page_of(other) != tree::page_of(
                            virt,
                        ) implies #[trigger] tree::leaf_at::<M>(after, root, other)
                        == tree::leaf_at::<M>(m, root, other) by {
                        assert(tree::leaf_at::<M>(told, root, other) == tree::leaf_at::<M>(
                            put,
                            root,
                            other,
                        ));
                        assert(tree::leaf_at::<M>(put, root, other) == tree::leaf_at::<M>(
                            ready,
                            root,
                            other,
                        ));
                    }
                    assert(tree::leaf_at::<M>(told, root, virt) == tree::leaf_at::<M>(
                        put,
                        root,
                        virt,
                    ));
                }
                Ok(())
            },
            Err(Refused::ShortOfTables) => Err(MapError::OutOfMemory),
            Err(refused) => {
                proof {
                    assert(tree::leaf_at::<M>(told, root, virt) == tree::leaf_at::<M>(
                        m,
                        root,
                        virt,
                    ));
                    leaf_means_occupied::<M>(m, root, virt, root, 0, DEPTH as nat);
                }
                if there {
                    Ok(())
                } else {
                    Err(MapError::AlreadyMapped)
                }
            },
        }
    }
}

/// No walk is short of more tables than it has levels below the top.
pub proof fn missing_is_bounded<M: Machine>(m: MachineView, table: u64, virt: u64, level: nat)
    ensures
        change::missing::<M>(m, table, virt, level) <= level,
    decreases level,
{
    if level > 0 {
        let next = tree::step::<M>(m, table, walk::index_at(virt, level as int), level as int);
        if next is Some {
            missing_is_bounded::<M>(m, next->0, virt, (level - 1) as nat);
        }
    }
}

/// Where something is mapped at the last level, that is what stands in the
/// way.
pub proof fn leaf_means_occupied<M: Machine>(
    m: MachineView,
    root: u64,
    virt: u64,
    table: u64,
    n: int,
    available: nat,
)
    requires
        0 <= n <= 3,
        tree::reached::<M>(m, root, 3, tree::path_of(virt).take(n)) == Some(table),
    ensures
        tree::leaf_at::<M>(m, root, virt) is Some ==> change::refusal::<M>(
            m,
            table,
            virt,
            (3 - n) as nat,
            available,
        ) == Some(Refused::Occupied),
    decreases 3 - n,
{
    tree::path_of_is_path(virt, 3);
    if n < 3 {
        tree::one_level_down::<M>(m, root, virt, 3 - n);
        let next = tree::step::<M>(m, table, walk::index_at(virt, 3 - n), 3 - n);
        if next is Some {
            leaf_means_occupied::<M>(m, root, virt, next->0, n + 1, available);
        } else {
            change::stops_for_good::<M>(m, root, virt, n + 1);
        }
    }
}

/// Where something stands in the way other than a lack of frames, more frames
/// do not help; and where enough were brought, more change nothing.
pub proof fn more_is_no_different<M: Machine>(
    m: MachineView,
    table: u64,
    virt: u64,
    level: nat,
    some: nat,
    more: nat,
)
    requires
        some <= more,
        change::refusal::<M>(m, table, virt, level, some) != Some(Refused::ShortOfTables),
    ensures
        change::refusal::<M>(m, table, virt, level, more) == change::refusal::<M>(
            m,
            table,
            virt,
            level,
            some,
        ),
    decreases level,
{
    if level > 0 {
        let bits = m.word(table, walk::index_at(virt, level as int));
        if M::is_present(bits) && !M::stops(bits, level as int) {
            more_is_no_different::<M>(m, M::named(bits), virt, (level - 1) as nat, some, more);
        }
    }
}

/// The same words and counts make the same hierarchy.
pub proof fn same_words_and_counts<M: Machine>(m: MachineView, after: MachineView, root: u64)
    requires
        after.words == m.words,
        after.counts == m.counts,
    ensures
        is_space::<M>(m, root) ==> is_space::<M>(after, root),
        forall|p: Seq<int>|
            tree::is_path(p, 3) ==> #[trigger] tree::reached::<M>(after, root, 3, p) == tree::reached::<M>(
                m,
                root,
                3,
                p,
            ),
        forall|virt: u64| #[trigger]
            tree::leaf_at::<M>(after, root, virt) == tree::leaf_at::<M>(m, root, virt),
{
    assert forall|p: Seq<int>| tree::is_path(p, 3) implies #[trigger] tree::reached::<M>(after, root, 3, p)
        == tree::reached::<M>(m, root, 3, p) by {
        tree::unchanged_where_looked::<M>(m, after, root, 3, p);
    }
    assert forall|frame: u64| #[trigger] after.has(frame) == m.has(frame) by {
    }
    assert forall|frame: u64| #[trigger] after.count(frame) == m.count(frame) by {
    }
    assert forall|virt: u64| #[trigger]
        tree::leaf_at::<M>(after, root, virt) == tree::leaf_at::<M>(m, root, virt) by {
        tree::path_of_is_path(virt, 3);
        assert(tree::reached::<M>(after, root, 3, tree::path_of(virt)) == tree::reached::<M>(
            m,
            root,
            3,
            tree::path_of(virt),
        ));
    }
}

/// Giving back frames that were not used keeps the reference on the one that
/// was.
proof fn leftovers_go_back(now: MachineView, page: u64, back: Seq<u64>)
    requires
        now.count(page) == 1,
        forall|i: int| 0 <= i < back.len() ==> #[trigger] back[i] != page,
    ensures
        teardown::all_released(now, back).count(page) == 1,
    decreases back.len(),
{
    if back.len() > 0 {
        let before = back.drop_last();
        assert forall|i: int| 0 <= i < before.len() implies #[trigger] before[i] != page by {
            assert(back[i] != page);
        }
        leftovers_go_back(now, page, before);
        assert(back[back.len() - 1] != page);
    }
}

} // verus!
