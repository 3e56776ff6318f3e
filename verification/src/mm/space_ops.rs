//! What is done to an address space as a whole: making one, taking ranges of
//! it away, putting pages in, and giving it a private copy of a shared page.

use crate::mm::change;
use crate::mm::fork;
use crate::mm::record::{self, MemState, MemView, COW, NO_EXECUTE, USER, WRITABLE};
use crate::mm::space::{self, Mm, Pending, Refused, Turn, UNMAP_CHUNK};
use crate::mm::sweep;
use crate::mm::tables::{self, KernelTables, PageTables, Prepared};
use crate::mm::teardown;
use crate::mm::tree;
use crate::mm::walk::{self, Event, Machine, MachineView, Tlb, DEPTH, ENTRIES};
use crate::mm::{self, page_align_down, PAGE_SIZE_U64, USER_LIMIT};
use vstd::prelude::*;

verus! {

// ---- ranges taken away ------------------------------------------------------------

/// A range of pages taken away, some of them per turn of the lock.
pub open spec fn range_taken_away<M: Machine>(m: MachineView, root: u64, start: u64, end: u64) -> MachineView
    decreases end - start,
{
    if end <= start {
        m
    } else {
        let stop = if end - start < UNMAP_CHUNK * PAGE_SIZE_U64 {
            end
        } else {
            (start + UNMAP_CHUNK * PAGE_SIZE_U64) as u64
        };
        range_taken_away::<M>(one_turn::<M>(m, root, start, stop), root, stop, end)
    }
}

/// One turn of the lock that takes a range away.
pub open spec fn one_turn<M: Machine>(m: MachineView, root: u64, start: u64, end: u64) -> MachineView {
    Turn { memory: m, tlb: Tlb::Clean, retired: Seq::empty() }.pages_unmapped::<M>(
        root,
        start,
        space::pages_in(start as int, end as int),
    ).flushed().memory
}

/// Taking a range away leaves nothing mapped on any page it covers, and what
/// is mapped anywhere else as it was, however many turns it took.
pub proof fn taking_a_range_away<M: Machine>(m: MachineView, root: u64, start: u64, end: u64)
    requires
        tree::is_tree::<M>(m, root, 3),
        end <= USER_LIMIT,
    ensures
        ({
            let after = range_taken_away::<M>(m, root, start, end);
            let count = space::pages_in(start as int, end as int);
            &&& tree::is_tree::<M>(after, root, 3)
            &&& forall|other: u64|
                space::is_on(other, start, count) ==> #[trigger] tree::leaf_at::<M>(
                    after,
                    root,
                    other,
                ) is None
            &&& forall|other: u64|
                !space::is_on(other, start, count) ==> #[trigger] tree::leaf_at::<M>(
                    after,
                    root,
                    other,
                ) == tree::leaf_at::<M>(m, root, other)
        }),
    decreases end - start,
{
    if end > start {
        let span = UNMAP_CHUNK * PAGE_SIZE_U64;
        let stop = if end - start < span {
            end
        } else {
            (start + span) as u64
        };
        let first = space::pages_in(start as int, stop as int);
        let rest = space::pages_in(stop as int, end as int);
        let count = space::pages_in(start as int, end as int);
        let turn = Turn { memory: m, tlb: Tlb::Clean, retired: Seq::empty() };
        let mid = one_turn::<M>(m, root, start, stop);
        let after = range_taken_away::<M>(m, root, start, end);
        space::taking_pages_away::<M>(turn, root, start, first);
        space::flushing_moves_nothing::<M>(turn.pages_unmapped::<M>(root, start, first), root);
        taking_a_range_away::<M>(mid, root, stop, end);
        if stop < end {
            assert(first == UNMAP_CHUNK);
            assert(count == first + rest);
        } else {
            assert(rest == 0);
        }
        assert forall|other: u64| #[trigger] space::is_on(other, start, count) <==> space::is_on(
            other,
            start,
            first,
        ) || space::is_on(other, stop, rest) by {
            if space::is_on(other, start, count) {
                let k = choose|k: int|
                    0 <= k < count && #[trigger] tree::page_of((start + k * 0x1000) as u64)
                        == tree::page_of(other);
                if k >= first {
                    assert(start + k * 0x1000 == stop + (k - first) * 0x1000);
                    assert(tree::page_of((stop + (k - first) * 0x1000) as u64) == tree::page_of(
                        other,
                    ));
                }
            }
            if space::is_on(other, start, first) {
                let k = choose|k: int|
                    0 <= k < first && #[trigger] tree::page_of((start + k * 0x1000) as u64)
                        == tree::page_of(other);
                assert(k < count);
            }
            if space::is_on(other, stop, rest) {
                let k = choose|k: int|
                    0 <= k < rest && #[trigger] tree::page_of((stop + k * 0x1000) as u64)
                        == tree::page_of(other);
                assert(stop + k * 0x1000 == start + (k + first) * 0x1000);
                assert(tree::page_of((start + (k + first) * 0x1000) as u64) == tree::page_of(other));
            }
        }
        assert forall|other: u64|
            space::is_on(other, start, count) implies #[trigger] tree::leaf_at::<M>(
            after,
            root,
            other,
        ) is None by {
            if !space::is_on(other, stop, rest) {
                assert(tree::leaf_at::<M>(after, root, other) == tree::leaf_at::<M>(
                    mid,
                    root,
                    other,
                ));
            }
        }
        assert forall|other: u64|
            !space::is_on(other, start, count) implies #[trigger] tree::leaf_at::<M>(
            after,
            root,
            other,
        ) == tree::leaf_at::<M>(m, root, other) by {
            assert(tree::leaf_at::<M>(mid, root, other) == tree::leaf_at::<M>(m, root, other));
        }
    }
}

impl Mm {
    /// A fresh address space with nothing in its user half.
    pub fn new_user<M: Machine>(machine: &mut M, kernel: &KernelTables) -> (fresh: Option<Mm>)
        requires
            tables::is_space::<M>(old(machine).state(), kernel.top()),
        ensures
            match fresh {
                None => final(machine).state() == old(machine).state().noting(Event::NoFrame),
                Some(mm) => {
                    let m = old(machine).state();
                    let root = mm.top();
                    &&& m.count(root) == 0
                    &&& m.has(root)
                    &&& M::nameable(root)
                    &&& mm.valid()
                    &&& mm.record()@ == (MemView {
                        vmas: Seq::empty(),
                        brk_start: 0,
                        brk: 0,
                        mmap_top: mm::USER_MMAP_BASE,
                        saved_auxv: Seq::empty(),
                    })
                    &&& final(machine).state() == teardown::adopted(
                        m.handed_over(root),
                        root,
                        kernel.top(),
                        256,
                        ENTRIES as int,
                    )
                    &&& tables::is_space::<M>(final(machine).state(), root)
                    &&& fork::is_clear_of::<M>(final(machine).state(), root, kernel.top())
                    &&& forall|other: u64| #[trigger]
                        tables::is_space::<M>(m, other) ==> fork::is_left_alone::<M>(
                            m,
                            final(machine).state(),
                            other,
                        )
                    &&& forall|other: u64| #[trigger]
                        tables::is_space::<M>(m, other) && fork::is_clear_of::<M>(
                            m,
                            other,
                            kernel.top(),
                        ) ==> sweep::side_by_side::<M>(
                            final(machine).state(),
                            root,
                            other,
                            Seq::empty(),
                        )
                    &&& forall|virt: u64|
                        walk::index_at(virt, 3) < 256 ==> #[trigger] tree::leaf_at::<M>(
                            final(machine).state(),
                            root,
                            virt,
                        ) is None
                    &&& forall|virt: u64|
                        walk::index_at(virt, 3) >= 256 ==> #[trigger] tree::leaf_at::<M>(
                            final(machine).state(),
                            root,
                            virt,
                        ) == tree::leaf_at::<M>(m, kernel.top(), virt)
                },
            },
    {
        match PageTables::new_user(machine, kernel.walk()) {
            Some(tables) => {
                proof {
                    fork::a_fresh_space_disturbs_nobody::<M>(
                        old(machine).state(),
                        machine.state(),
                        tables.top(),
                        kernel.top(),
                    );
                }
                Some(Mm::assemble(tables, MemState::new()))
            },
            None => None,
        }
    }

    /// Take the recorded regions covering `[start, end)` away, and then every
    /// page in it.
    ///
    /// The regions go first. A thread sharing the address space that touches
    /// this range while the pages are being taken away faults, and a fault
    /// inside a region that is still recorded is served a fresh page of
    /// zeroes: one this call has already walked past and so leaves behind, at
    /// an address the program was told nothing is at. With the regions gone
    /// first there is nothing here to fault into, which is what an unmapped
    /// range is, and nothing can publish into the range behind the sweep
    /// however long the sweep takes.
    pub fn unmap_recorded<M: Machine>(&mut self, machine: &mut M, start: u64, end: u64)
        requires
            old(self).valid(),
            tree::is_tree::<M>(old(machine).state(), old(self).top(), 3),
            end <= USER_LIMIT,
        ensures
            final(self).top() == old(self).top(),
            final(self).record()@ == (MemView {
                vmas: record::all_without(old(self).record()@.vmas, start, end),
                ..old(self).record()@
            }),
            final(machine).state() == range_taken_away::<M>(
                old(machine).state(),
                old(self).top(),
                start,
                end,
            ),
            tree::is_tree::<M>(final(machine).state(), old(self).top(), 3),
    {
        self.mem_mut().remove_vma_range(start, end);
        self.unmap_pages(machine, start, end);
    }

    /// Take every page in `[start, end)` away, a table's worth per turn of the
    /// lock.
    ///
    /// The caller has already made the range one nothing can fault into: the
    /// regions are gone, or the break is below it. That is what lets the lock
    /// be let go between chunks.
    pub fn unmap_pages<M: Machine>(&self, machine: &mut M, start: u64, end: u64)
        requires
            tree::is_tree::<M>(old(machine).state(), self.top(), 3),
            end <= USER_LIMIT,
        ensures
            final(machine).state() == range_taken_away::<M>(
                old(machine).state(),
                self.top(),
                start,
                end,
            ),
            tree::is_tree::<M>(final(machine).state(), self.top(), 3),
    {
        let space = self.walk();
        let mut page: u64 = start;
        let ghost root = self.top();
        while page < end
            invariant
                end <= USER_LIMIT,
                root == self.top(),
                space.top() == root,
                tree::is_tree::<M>(machine.state(), root, 3),
                range_taken_away::<M>(machine.state(), root, page, end) == range_taken_away::<M>(
                    old(machine).state(),
                    root,
                    start,
                    end,
                ),
            decreases end - page,
        {
            let ghost now = machine.state();
            let stop: u64 = if end - page < UNMAP_CHUNK * PAGE_SIZE_U64 {
                end
            } else {
                page + UNMAP_CHUNK * PAGE_SIZE_U64
            };
            let mut pending = Pending::new();
            let ghost turn = pending.turn(now);
            pending.unmap_range(machine, &space, page, stop);
            proof {
                space::flushing_moves_nothing::<M>(pending.turn(machine.state()), root);
            }
            pending.flush(machine);
            assert(turn == (Turn { memory: now, tlb: Tlb::Clean, retired: Seq::empty() }));
            assert(machine.state() == one_turn::<M>(now, root, page, stop));
            page = stop;
        }
    }
}

// ---- pages put in ------------------------------------------------------------

/// Frames in hand, each with a reference of its own, that a hierarchy has no
/// use of yet.
pub open spec fn are_in_hand<M: Machine>(m: MachineView, root: u64, stock: Seq<u64>) -> bool {
    &&& stock.len() <= DEPTH
    &&& tree::are_spare::<M>(m, root, stock)
    &&& forall|i: int| 0 <= i < stock.len() ==> m.count(#[trigger] stock[i]) > 0
}

/// Frames taken go with the ones in hand.
proof fn more_in_hand<M: Machine>(
    m: MachineView,
    after: MachineView,
    root: u64,
    first: Seq<u64>,
    stock: Seq<u64>,
)
    requires
        tables::is_space::<M>(m, root),
        are_in_hand::<M>(m, root, first),
        first.len() <= stock.len() <= DEPTH,
        stock.take(first.len() as int) == first,
        tables::are_taken::<M>(m, after, stock.skip(first.len() as int)),
    ensures
        are_in_hand::<M>(after, root, stock),
{
    let n = first.len() as int;
    let fresh = stock.skip(n);
    assert forall|i: int| 0 <= i < fresh.len() implies fresh.contains(#[trigger] fresh[i]) by {
    }
    tables::taken_frames_are_spare::<M>(m, after, root, fresh, fresh);
    tables::a_space_is_not_disturbed::<M>(m, after, root);
    assert forall|i: int| 0 <= i < stock.len() implies tree::is_spare::<M>(
        after,
        root,
        #[trigger] stock[i],
    ) && after.count(stock[i]) > 0 by {
        if i < n {
            assert(stock[i] == first[i]);
            assert(m.count(first[i]) > 0);
            assert(tree::is_spare::<M>(m, root, first[i]));
            assert(after.has(first[i]) == m.has(first[i]));
            assert(after.words[first[i]] == m.words[first[i]]);
            assert(after.count(first[i]) == m.count(first[i]));
            assert forall|p: Seq<int>| tree::is_path(p, 3) implies #[trigger] tree::reached::<M>(
                after,
                root,
                3,
                p,
            ) != Some(stock[i]) by {
                assert(tree::reached::<M>(m, root, 3, p) != Some(first[i]));
            }
        } else {
            assert(stock[i] == fresh[i - n]);
            assert(tree::is_spare::<M>(after, root, fresh[i - n]));
            assert(m.count(fresh[i - n]) == 0);
        }
    }
    assert forall|i: int, j: int| 0 <= i < j < stock.len() implies #[trigger] stock[i]
        != #[trigger] stock[j] by {
        if j < n {
            assert(first[i] != first[j]);
        } else if i >= n {
            assert(fresh[i - n] != fresh[j - n]);
        } else {
            assert(stock[i] == first[i] && m.count(first[i]) > 0);
            assert(stock[j] == fresh[j - n] && m.count(fresh[j - n]) == 0);
        }
    }
}

/// How many more frames a walk needs than there are in hand.
pub open spec fn short_by<M: Machine>(m: MachineView, root: u64, virt: u64, stock: Seq<u64>) -> nat {
    let missing = change::missing::<M>(m, root, virt, 3);
    if missing > stock.len() {
        (missing - stock.len()) as nat
    } else {
        0
    }
}

/// A page put in at an address, with the frames in hand and with as many more,
/// taken from what nobody held, as the walk is short by, and what is cached
/// for the address thrown away.
pub open spec fn is_put_in<M: Machine>(
    m: MachineView,
    after: MachineView,
    root: u64,
    virt: u64,
    page: u64,
    flags: u64,
    stock: Seq<u64>,
    left: Seq<u64>,
) -> bool {
    exists|ready: MachineView, taken: Seq<u64>|
        {
            let (put, rest) = change::published::<M>(
                ready,
                root,
                virt,
                page,
                flags,
                stock + taken,
            );
            &&& #[trigger] tables::are_taken::<M>(m, ready, taken)
            &&& ready.journal == m.journal
            &&& taken.len() == short_by::<M>(m, root, virt, stock)
            &&& after == put.noting(Event::FlushPage(virt))
            &&& left == rest
        }
}

/// Frames in hand, and some more of them taken from what nobody held.
pub open spec fn are_topped_up<M: Machine>(
    m: MachineView,
    after: MachineView,
    stock: Seq<u64>,
    more: Seq<u64>,
) -> bool {
    &&& stock.is_prefix_of(more)
    &&& tables::are_taken::<M>(m, after, more.skip(stock.len() as int))
}

impl Mm {
    /// Put a prepared page in at `virt`, going back outside the lock for the
    /// table frames the walk turns out to need.
    ///
    /// A caller that has filled a page does not know how many levels are
    /// missing until it looks, and it may not look and then allocate under the
    /// lock. So it asks, brings that many, and asks again. This is what
    /// everything that builds an image -- the loader, the signal trampoline, a
    /// file-backed mapping, the first pages of a stack -- publishes through.
    pub fn publish_page<M: Machine>(
        &self,
        machine: &mut M,
        virt: u64,
        prepared: &mut Prepared,
        flags: u64,
    ) -> (result: Result<u64, Refused>)
        requires
            old(prepared).page() is Some,
            tables::is_space::<M>(old(machine).state(), self.top()),
            are_in_hand::<M>(old(machine).state(), self.top(), old(prepared).stock()),
        ensures
            ({
                let m = old(machine).state();
                let after = final(machine).state();
                let standing = change::refusal::<M>(m, self.top(), virt, 3, DEPTH as nat);
                match result {
                    Ok(page) => {
                        &&& standing is None
                        &&& old(prepared).page() == Some(page)
                        &&& final(prepared).page() is None
                        &&& tree::leaf_at::<M>(after, self.top(), virt) == change::shown::<M>(
                            M::leaf_bits(page, flags),
                        )
                        &&& change::others_unchanged::<M>(m, after, self.top(), virt)
                        &&& is_put_in::<M>(
                            m,
                            after,
                            self.top(),
                            virt,
                            page,
                            flags,
                            old(prepared).stock(),
                            final(prepared).stock(),
                        )
                    },
                    Err(Refused::Occupied) => {
                        &&& standing is Some
                        &&& final(prepared).page() == old(prepared).page()
                        &&& tables::keeps_held(m, after)
                        &&& are_topped_up::<M>(
                            m,
                            after,
                            old(prepared).stock(),
                            final(prepared).stock(),
                        )
                        &&& after.journal == m.journal
                        &&& final(prepared).stock().len() == old(prepared).stock().len()
                            + short_by::<M>(m, self.top(), virt, old(prepared).stock())
                    },
                    Err(Refused::ShortOfTables) => {
                        &&& after.journal == m.journal.push(Event::NoFrame)
                        &&& final(prepared).stock().len() < change::missing::<M>(
                            m,
                            self.top(),
                            virt,
                            3,
                        )
                        &&& final(prepared).page() == old(prepared).page()
                        &&& tables::keeps_held(m, after)
                        &&& are_topped_up::<M>(
                            m,
                            after,
                            old(prepared).stock(),
                            final(prepared).stock(),
                        )
                    },
                }
            }),
            tables::is_space::<M>(final(machine).state(), self.top()),
            are_in_hand::<M>(final(machine).state(), self.top(), final(prepared).stock()),
    {
        let ghost m = machine.state();
        let ghost root = self.top();
        let ghost first = prepared.stock();
        let space = self.walk();
        let missing = space.missing_tables(machine, virt);
        if missing > prepared.tables_left() {
            let enough = prepared.top_up(machine, missing);
            proof {
                more_in_hand::<M>(m, machine.state(), root, first, prepared.stock());
                tables::taking_keeps_held::<M>(
                    m,
                    machine.state(),
                    prepared.stock().skip(first.len() as int),
                );
                tables::a_space_is_not_disturbed::<M>(m, machine.state(), root);
            }
            assert(first.is_prefix_of(prepared.stock())) by {
                assert(prepared.stock().subrange(0, first.len() as int) =~= first);
            }
            if !enough {
                return Err(Refused::ShortOfTables);
            }
        }
        let ghost ready = machine.state();
        let ghost stock = prepared.stock();
        let ghost taken = stock.skip(first.len() as int);
        proof {
            if missing <= first.len() {
                assert(taken =~= Seq::<u64>::empty());
                tables::nothing_taken_yet::<M>(m);
            }
            assert(tables::are_taken::<M>(m, ready, taken));
            assert(taken.len() == short_by::<M>(m, root, virt, first));
            assert(first + taken =~= stock);
        }
        let ghost page = prepared.page()->0;
        proof {
            assert(tables::keeps_held(m, ready));
            tables::a_space_is_not_disturbed::<M>(m, ready, root);
            tree::path_of_is_path(virt, 0);
            tables::the_same_stands_in_the_way::<M>(m, ready, root, virt, root, 0, stock.len());
            tables::enough_is_brought::<M>(m, root, virt, 3, stock.len());
            tables::more_is_no_different::<M>(m, root, virt, 3, stock.len(), DEPTH as nat);
        }
        let mut tlb = Tlb::new();
        let outcome = prepared.publish_in(machine, &space, virt, flags, &mut tlb);
        let ghost put = machine.state();
        tlb.flush(machine);
        proof {
            let told = machine.state();
            assert(told.words == put.words);
            assert(told.counts == put.counts);
            tables::same_words_and_counts::<M>(put, told, root);
            if outcome is Ok {
                tables::publishing_keeps_a_space::<M>(ready, root, virt, page, flags, stock);
                assert forall|other: u64|
                    tree::page_of(other) != tree::page_of(
                        virt,
                    ) implies #[trigger] tree::leaf_at::<M>(told, root, other)
                    == tree::leaf_at::<M>(m, root, other) by {
                    assert(tree::leaf_at::<M>(put, root, other) == tree::leaf_at::<M>(
                        ready,
                        root,
                        other,
                    ));
                }
            }
            assert(stock.take(stock.len() as int) =~= stock);
            still_in_hand::<M>(ready, put, told, root, stock, prepared.stock());
        }
        match outcome {
            Ok(page) => Ok(page),
            Err(_) => Err(Refused::Occupied),
        }
    }
}

/// What a walk did not use of the frames in hand is still in hand.
proof fn still_in_hand<M: Machine>(
    m: MachineView,
    put: MachineView,
    told: MachineView,
    root: u64,
    stock: Seq<u64>,
    left: Seq<u64>,
)
    requires
        are_in_hand::<M>(m, root, stock),
        left.len() <= stock.len(),
        left == stock.take(left.len() as int),
        put.counts == m.counts,
        tree::are_spare::<M>(put, root, left),
        told.words == put.words,
        told.counts == put.counts,
        forall|p: Seq<int>|
            tree::is_path(p, 3) ==> #[trigger] tree::reached::<M>(told, root, 3, p)
                == tree::reached::<M>(put, root, 3, p),
    ensures
        are_in_hand::<M>(told, root, left),
{
    assert forall|i: int| 0 <= i < left.len() implies tree::is_spare::<M>(
        told,
        root,
        #[trigger] left[i],
    ) && told.count(left[i]) > 0 by {
        assert(left[i] == stock[i]);
        assert(m.count(stock[i]) > 0);
        assert(tree::is_spare::<M>(put, root, left[i]));
        assert forall|p: Seq<int>| tree::is_path(p, 3) implies #[trigger] tree::reached::<M>(
            told,
            root,
            3,
            p,
        ) != Some(left[i]) by {
            assert(tree::reached::<M>(put, root, 3, p) != Some(left[i]));
        }
    }
}

// ---- shared pages copied ------------------------------------------------------------

/// Where a page is mapped, its translation is the frame it names.
pub proof fn translation_of_a_page<M: Machine>(
    m: MachineView,
    root: u64,
    virt: u64,
    table: u64,
    n: int,
)
    requires
        0 <= n <= 3,
        virt % 0x1000 == 0,
        tree::reached::<M>(m, root, 3, tree::path_of(virt).take(n)) == Some(table),
        tree::leaf_at::<M>(m, root, virt) is Some,
    ensures
        change::translation::<M>(m, table, virt, (3 - n) as nat) == Some(
            M::named(tree::leaf_at::<M>(m, root, virt)->0),
        ),
    decreases 3 - n,
{
    tree::path_of_is_path(virt, 3);
    if n < 3 {
        tree::one_level_down::<M>(m, root, virt, 3 - n);
        let next = tree::step::<M>(m, table, walk::index_at(virt, 3 - n), 3 - n);
        if next is Some {
            translation_of_a_page::<M>(m, root, virt, next->0, n + 1);
        } else {
            change::stops_for_good::<M>(m, root, virt, n + 1);
        }
    } else {
        let named = M::named(tree::leaf_at::<M>(m, root, virt)->0);
        assert(named | 0 == named) by (bit_vector);
    }
}

/// A frame nobody held that now has what another frame held, and one
/// reference.
pub open spec fn is_copy_of(m: MachineView, after: MachineView, copy: u64, of: u64) -> bool {
    &&& m.count(copy) == 0
    &&& after.count(copy) == 1
    &&& after.words[copy] == m.words[of]
}

/// The flags a shared page gets once it is private.
pub open spec fn private_flags(flags: u64) -> u64 {
    (flags & !COW) | WRITABLE
}

/// What giving a space a private copy of a shared page comes to, with the
/// frame in hand for the copy: what is left in memory, whether a write may be
/// made, and whether the frame was used.
pub open spec fn made_private<M: Machine>(
    m: MachineView,
    root: u64,
    page: u64,
    spare: Option<u64>,
) -> (MachineView, bool, bool) {
    match tree::leaf_at::<M>(m, root, page) {
        None => (m, false, false),
        Some(bits) => {
            let flags = M::flags_in(bits);
            let phys = M::named(bits);
            if flags & COW == 0 {
                // One that user code may write is repaired, whoever repaired
                // it.
                (m, flags & WRITABLE != 0 && flags & USER != 0, false)
            } else if m.count(phys) <= 1 {
                // The last owner takes the page back.
                (retaken::<M>(m, root, page, phys, flags), true, false)
            } else {
                match spare {
                    None => (m, false, false),
                    Some(copy) => (
                        replaced_by_copy::<M>(m, root, page, phys, copy, flags),
                        true,
                        true,
                    ),
                }
            }
        },
    }
}

/// A page's last owner taking it back.
pub open spec fn retaken<M: Machine>(
    m: MachineView,
    root: u64,
    page: u64,
    phys: u64,
    flags: u64,
) -> MachineView {
    change::rewritten::<M>(m, root, page, M::leaf_bits(phys, private_flags(flags))).noting(
        Event::FlushPage(page),
    )
}

/// A page's contents copied to a frame, with the instruction caches told where
/// the program may execute them.
pub open spec fn filled_copy(m: MachineView, phys: u64, copy: u64, flags: u64) -> MachineView {
    let copied = m.copied(phys, copy);
    if flags & NO_EXECUTE == 0 {
        copied.noting(Event::Sync(copy))
    } else {
        copied
    }
}

/// A copy put in place of a shared page, the translation thrown away, and then
/// the reference to the shared page given back.
pub open spec fn replaced_by_copy<M: Machine>(
    m: MachineView,
    root: u64,
    page: u64,
    phys: u64,
    copy: u64,
    flags: u64,
) -> MachineView {
    change::rewritten::<M>(
        filled_copy(m, phys, copy, flags),
        root,
        page,
        M::leaf_bits(copy, private_flags(flags)),
    ).noting(Event::FlushPage(page)).released(phys)
}

/// Filling a copy in a frame a hierarchy does not reach moves nothing in it.
proof fn filling_moves_nothing<M: Machine>(
    m: MachineView,
    root: u64,
    phys: u64,
    copy: u64,
    flags: u64,
)
    requires
        tables::is_space::<M>(m, root),
        m.has(phys),
        m.has(copy),
        forall|p: Seq<int>|
            tree::is_path(p, 3) ==> #[trigger] tree::reached::<M>(m, root, 3, p) != Some(copy),
    ensures
        ({
            let after = filled_copy(m, phys, copy, flags);
            &&& tables::is_space::<M>(after, root)
            &&& after.counts == m.counts
            &&& after.words == m.words.insert(copy, m.words[phys])
            &&& forall|p: Seq<int>|
                tree::is_path(p, 3) ==> #[trigger] tree::reached::<M>(after, root, 3, p)
                    == tree::reached::<M>(m, root, 3, p)
            &&& forall|virt: u64| #[trigger]
                tree::leaf_at::<M>(after, root, virt) == tree::leaf_at::<M>(m, root, virt)
        }),
{
    let after = filled_copy(m, phys, copy, flags);
    assert forall|p: Seq<int>| tree::is_path(p, 3) implies #[trigger] tree::reached::<M>(
        after,
        root,
        3,
        p,
    ) == tree::reached::<M>(m, root, 3, p) by {
        tree::unchanged_where_looked::<M>(m, after, root, 3, p);
    }
    assert forall|frame: u64| #[trigger] after.has(frame) == m.has(frame) by {
    }
    assert forall|frame: u64| #[trigger] after.count(frame) == m.count(frame) by {
    }
    assert forall|virt: u64| #[trigger]
        tree::leaf_at::<M>(after, root, virt) == tree::leaf_at::<M>(m, root, virt) by {
        tree::path_of_is_path(virt, 3);
        assert(tree::reached::<M>(after, root, 3, tree::path_of(virt)) == tree::reached::<M>(
            m,
            root,
            3,
            tree::path_of(virt),
        ));
    }
}

/// A leaf rewritten keeps the tables held.
proof fn rewriting_keeps_a_space<M: Machine>(m: MachineView, root: u64, virt: u64, bits: u64)
    requires
        tables::is_space::<M>(m, root),
        tree::leaf_table::<M>(m, root, virt) is Some,
    ensures
        tables::is_space::<M>(change::rewritten::<M>(m, root, virt, bits), root),
{
    change::rewriting::<M>(m, root, virt, bits);
    let after = change::rewritten::<M>(m, root, virt, bits);
    assert forall|p: Seq<int>| tree::is_path(p, 3) implies (#[trigger] tree::reached::<M>(
        after,
        root,
        3,
        p,
    ) matches Some(t) ==> after.count(t) > 0) by {
        assert(tree::reached::<M>(after, root, 3, p) == tree::reached::<M>(m, root, 3, p));
    }
}

/// What a space looks like once a shared page in it is private: the page shows
/// what the copy holds, nothing else has moved, and every table is held.
proof fn what_a_private_page_leaves<M: Machine>(
    m: MachineView,
    root: u64,
    page: u64,
    spare: Option<u64>,
)
    requires
        tables::is_space::<M>(m, root),
        may_be_made_private::<M>(m, root, page, spare),
    ensures
        ({
            let (after, writable, used) = made_private::<M>(m, root, page, spare);
            let bits = tree::leaf_at::<M>(m, root, page)->0;
            &&& tables::is_space::<M>(after, root)
            &&& after != m ==> change::others_unchanged::<M>(m, after, root, page)
            &&& used ==> {
                &&& tree::leaf_at::<M>(after, root, page) == change::shown::<M>(
                    M::leaf_bits(spare->0, private_flags(M::flags_in(bits))),
                )
                &&& after.words[spare->0] == m.words[M::named(bits)]
                &&& after.count(spare->0) == 1
                &&& after.count(M::named(bits)) == m.count(M::named(bits)) - 1
                &&& forall|p: Seq<int>|
                    tree::is_path(p, 3) ==> #[trigger] tree::reached::<M>(after, root, 3, p)
                        == tree::reached::<M>(m, root, 3, p)
            }
            &&& !used && after != m ==> {
                &&& tree::leaf_at::<M>(after, root, page) == change::shown::<M>(
                    M::leaf_bits(M::named(bits), private_flags(M::flags_in(bits))),
                )
                &&& after.counts == m.counts
                &&& forall|p: Seq<int>|
                    tree::is_path(p, 3) ==> #[trigger] tree::reached::<M>(after, root, 3, p)
                        == tree::reached::<M>(m, root, 3, p)
            }
        }),
{
    let leaf = tree::leaf_at::<M>(m, root, page);
    let (after, writable, used) = made_private::<M>(m, root, page, spare);
    if leaf is Some && after != m {
        let flags = M::flags_in(leaf->0);
        let phys = M::named(leaf->0);
        if used {
            let copy = spare->0;
            let new_bits = M::leaf_bits(copy, private_flags(flags));
            let filled = filled_copy(m, phys, copy, flags);
            filling_moves_nothing::<M>(m, root, phys, copy, flags);
            assert(tree::leaf_at::<M>(filled, root, page) == leaf);
            change::rewriting::<M>(filled, root, page, new_bits);
            rewriting_keeps_a_space::<M>(filled, root, page, new_bits);
            let put = change::rewritten::<M>(filled, root, page, new_bits);
            let told = put.noting(Event::FlushPage(page));
            tables::same_words_and_counts::<M>(put, told, root);
            let list = seq![phys];
            assert(list.drop_last() =~= Seq::<u64>::empty());
            assert(teardown::all_released(told, list.drop_last()) == told);
            assert(after == teardown::all_released(told, list));
            tables::releasing_moves_nothing::<M>(told, list, root);
            tables::releasing_changes_no_word(told, list);
            let table = tree::leaf_table::<M>(filled, root, page)->0;
            tree::path_of_is_path(page, 3);
            assert(tree::reached::<M>(m, root, 3, tree::path_of(page)) == Some(table));
            assert(table != copy);
            assert forall|p: Seq<int>| tree::is_path(p, 3) implies #[trigger] tree::reached::<M>(
                after,
                root,
                3,
                p,
            ) == tree::reached::<M>(m, root, 3, p) by {
                assert(tree::reached::<M>(told, root, 3, p) == tree::reached::<M>(put, root, 3, p));
                assert(tree::reached::<M>(put, root, 3, p) == tree::reached::<M>(
                    filled,
                    root,
                    3,
                    p,
                ));
            }
            assert forall|p: Seq<int>| tree::is_path(p, 3) implies (#[trigger] tree::reached::<M>(
                after,
                root,
                3,
                p,
            ) matches Some(t) ==> after.count(t) > 0) by {
                if tree::reached::<M>(after, root, 3, p) is Some {
                    let t = tree::reached::<M>(after, root, 3, p)->0;
                    assert(m.count(t) > 0);
                    assert(after.count(t) == (if t == phys {
                        m.count(t) - 1
                    } else {
                        m.count(t)
                    }));
                }
            }
            assert forall|other: u64|
                tree::page_of(other) != tree::page_of(page) implies #[trigger] tree::leaf_at::<M>(
                after,
                root,
                other,
            ) == tree::leaf_at::<M>(m, root, other) by {
                assert(tree::leaf_at::<M>(told, root, other) == tree::leaf_at::<M>(
                    put,
                    root,
                    other,
                ));
                assert(tree::leaf_at::<M>(put, root, other) == tree::leaf_at::<M>(
                    filled,
                    root,
                    other,
                ));
            }
        } else {
            let new_bits = M::leaf_bits(phys, private_flags(flags));
            change::rewriting::<M>(m, root, page, new_bits);
            rewriting_keeps_a_space::<M>(m, root, page, new_bits);
            let put = change::rewritten::<M>(m, root, page, new_bits);
            tables::same_words_and_counts::<M>(put, after, root);
            assert forall|other: u64|
                tree::page_of(other) != tree::page_of(page) implies #[trigger] tree::leaf_at::<M>(
                after,
                root,
                other,
            ) == tree::leaf_at::<M>(m, root, other) by {
                assert(tree::leaf_at::<M>(put, root, other) == tree::leaf_at::<M>(m, root, other));
            }
        }
    }
}

/// What a page and the frame in hand for its copy have to be: the page one a
/// page can be, in memory where it is shared, and the frame nobody else's.
pub open spec fn may_be_made_private<M: Machine>(
    m: MachineView,
    root: u64,
    page: u64,
    spare: Option<u64>,
) -> bool {
    &&& page % 4096 == 0
    &&& tree::leaf_at::<M>(m, root, page) matches Some(bits) ==> (m.count(M::named(bits)) > 1
        ==> m.has(M::named(bits)))
    &&& spare matches Some(copy) ==> {
        &&& m.has(copy)
        &&& m.count(copy) == 1
        &&& forall|p: Seq<int>|
            tree::is_path(p, 3) ==> #[trigger] tree::reached::<M>(m, root, 3, p) != Some(copy)
    }
}

/// What comes of giving a space a private copy of the shared page at an
/// address, whatever frame there was for it.
pub open spec fn is_made_private<M: Machine>(
    m: MachineView,
    after: MachineView,
    root: u64,
    page: u64,
    writable: bool,
) -> bool {
    match tree::leaf_at::<M>(m, root, page) {
        None => !writable && tables::none_taken(m, after),
        Some(bits) => {
            let flags = M::flags_in(bits);
            let phys = M::named(bits);
            if flags & COW == 0 {
                &&& writable == (flags & WRITABLE != 0 && flags & USER != 0)
                &&& tables::none_taken(m, after)
            } else if m.count(phys) <= 1 {
                &&& writable
                &&& tree::leaf_at::<M>(after, root, page) == change::shown::<M>(
                    M::leaf_bits(phys, private_flags(flags)),
                )
                &&& change::others_unchanged::<M>(m, after, root, page)
                &&& forall|frame: u64| #[trigger] after.count(frame) == m.count(frame)
            } else if writable {
                &&& exists|copy: u64| #[trigger]
                    is_copy_of(m, after, copy, phys) && tree::leaf_at::<M>(after, root, page)
                        == change::shown::<M>(M::leaf_bits(copy, private_flags(flags)))
                &&& change::others_unchanged::<M>(m, after, root, page)
                &&& after.count(phys) == m.count(phys) - 1
            } else {
                // There was no frame to be had.
                tables::none_taken(m, after) && walk::ran_out(m, after)
            }
        },
    }
}

/// What there is for a copy: a frame nobody held, or nothing.
pub open spec fn may_be_had<M: Machine>(m: MachineView, spare: Option<u64>) -> bool {
    spare matches Some(copy) ==> m.has(copy) && m.count(copy) == 0 && M::nameable(copy)
}

/// Giving a space a private copy of a shared page, from the frame taken for it
/// to the frame given back where it was not used: what is left in memory, and
/// whether a write may be made.
pub open spec fn broken<M: Machine>(m: MachineView, root: u64, page: u64, spare: Option<u64>) -> (
    MachineView,
    bool,
) {
    match spare {
        None => {
            let (done, writable, _) = made_private::<M>(
                m.noting(Event::NoFrame),
                root,
                page,
                None,
            );
            (done, writable)
        },
        Some(copy) => {
            let (done, writable, used) = made_private::<M>(m.handed_over(copy), root, page, spare);
            (if used {
                done
            } else {
                done.released(copy)
            }, writable)
        },
    }
}

impl Mm {
    /// What `break_cow` decides and does, with the frame in hand that the copy
    /// may need. Whether a write may be made, and whether the frame was used.
    pub fn make_private<M: Machine>(&self, machine: &mut M, page: u64, spare: Option<u64>) -> (r: (
        bool,
        bool,
    ))
        requires
            tables::is_space::<M>(old(machine).state(), self.top()),
            may_be_made_private::<M>(old(machine).state(), self.top(), page, spare),
        ensures
            (final(machine).state(), r.0, r.1) == made_private::<M>(
                old(machine).state(),
                self.top(),
                page,
                spare,
            ),
    {
        let ghost m = machine.state();
        let ghost root = self.top();
        let space = self.walk();
        let flags: u64 = match space.flags_of(machine, page) {
            Some(flags) => flags,
            None => {
                return (false, false);
            },
        };
        let ghost bits = tree::leaf_at::<M>(m, root, page)->0;
        if flags & COW == 0 {
            // Not shared. A page that was never shared and a page a sibling
            // has already taken the copy of look exactly alike from here, and
            // the permissions are what tell them apart: one that user code may
            // write is repaired, whoever repaired it, and the store can be
            // made again.
            return (flags & WRITABLE != 0 && flags & USER != 0, false);
        }
        proof {
            M::format_holds();
            tree::path_of_is_path(page, 0);
            translation_of_a_page::<M>(m, root, page, root, 0);
        }
        let phys: u64 = match space.translate(machine, page) {
            Some(phys) => page_align_down(phys),
            None => {
                return (false, false);
            },
        };
        // The last owner can simply take the page back.
        if machine.references(phys) <= 1 {
            let mut tlb = Tlb::new();
            let done = space.protect(machine, page, (flags & !COW) | WRITABLE, &mut tlb).is_some();
            tlb.flush(machine);
            return (done, false);
        }
        let copy: u64 = match spare {
            Some(copy) => copy,
            None => {
                return (false, false);
            },
        };
        machine.copy_frame(phys, copy);
        // A page the program may execute has just been written through a
        // different address than the one it will be fetched from.
        if flags & NO_EXECUTE == 0 {
            machine.sync_instructions(copy);
        }
        proof {
            filling_moves_nothing::<M>(m, root, phys, copy, flags);
            assert(tree::leaf_at::<M>(machine.state(), root, page) == Some(bits));
        }
        let mut tlb = Tlb::new();
        match space.replace(machine, page, copy, (flags & !COW) | WRITABLE, &mut tlb) {
            Some(was) => {
                tlb.flush(machine);
                machine.free(was);
                (true, true)
            },
            None => (false, false),
        }
    }

    /// Give the address space a private copy of the shared page at `addr`,
    /// which a write to it needs. Whether a write may be made now, which is
    /// false for a page no write can complete on.
    ///
    /// The whole of it is one step under the guard: what the descriptor says,
    /// what it points at, how many address spaces that frame is in and what
    /// finally goes in the descriptor have to be one account of the page, and
    /// a sibling that ran in the middle would be deciding from a state that
    /// only exists halfway through.
    pub fn break_cow<M: Machine>(&self, machine: &mut M, addr: u64) -> (writable: bool)
        requires
            tables::is_space::<M>(old(machine).state(), self.top()),
            may_be_made_private::<M>(
                old(machine).state(),
                self.top(),
                mm::down_to(addr as int, 4096) as u64,
                None,
            ),
        ensures
            exists|spare: Option<u64>|
                may_be_had::<M>(old(machine).state(), spare) && (final(machine).state(), writable)
                    == #[trigger] broken::<M>(
                    old(machine).state(),
                    self.top(),
                    mm::down_to(addr as int, 4096) as u64,
                    spare,
                ),
            is_made_private::<M>(
                old(machine).state(),
                final(machine).state(),
                self.top(),
                mm::down_to(addr as int, 4096) as u64,
                writable,
            ),
            tables::is_space::<M>(final(machine).state(), self.top()),
    {
        let ghost m = machine.state();
        let ghost root = self.top();
        let page = page_align_down(addr);
        // Outside: the frame the copy may need. A page that turns out not to
        // need one gives it straight back.
        let spare = machine.alloc_zeroed();
        let ghost ready = machine.state();
        proof {
            tables::nothing_taken_yet::<M>(m);
            if spare is Some {
                let copy = spare->0;
                let list = Seq::<u64>::empty().push(copy);
                tables::one_more_taken::<M>(m, m, Seq::empty(), copy);
                tables::taking_keeps_held::<M>(m, ready, list);
                assert(list[0] == copy);
                assert(list.contains(copy));
                tables::taken_frames_are_spare::<M>(m, ready, root, list, list);
                assert(tree::is_spare::<M>(ready, root, list[0]));
            }
            tables::a_space_is_not_disturbed::<M>(m, ready, root);
            if tree::leaf_at::<M>(m, root, page) is Some {
                let phys = M::named(tree::leaf_at::<M>(m, root, page)->0);
                assert(m.count(phys) > 0 ==> ready.count(phys) == m.count(phys));
                assert(ready.has(phys) == m.has(phys));
            }
            what_a_private_page_leaves::<M>(ready, root, page, spare);
        }
        let (writable, used) = self.make_private(machine, page, spare);
        let ghost done = machine.state();
        if let Some(copy) = spare {
            if !used {
                machine.free(copy);
            }
        }
        proof {
            a_spare_frame_goes_back::<M>(m, ready, done, machine.state(), root, page, spare);
            assert((machine.state(), writable) == broken::<M>(m, root, page, spare));
        }
        writable
    }
}

/// Giving back a frame that was not used leaves what the rest of it left.
#[verifier::spinoff_prover]
#[verifier::rlimit(60)]
proof fn a_spare_frame_goes_back<M: Machine>(
    m: MachineView,
    ready: MachineView,
    done: MachineView,
    after: MachineView,
    root: u64,
    page: u64,
    spare: Option<u64>,
)
    requires
        tables::is_space::<M>(m, root),
        tables::is_space::<M>(ready, root),
        tables::keeps_held(m, ready),
        may_be_made_private::<M>(m, root, page, None),
        may_be_made_private::<M>(ready, root, page, spare),
        spare is None ==> ready == m.noting(Event::NoFrame),
        spare matches Some(copy) ==> m.count(copy) == 0 && ready == m.handed_over(copy),
        done == made_private::<M>(ready, root, page, spare).0,
        after == (if spare is Some && !made_private::<M>(ready, root, page, spare).2 {
            done.released(spare->0)
        } else {
            done
        }),
    ensures
        is_made_private::<M>(m, after, root, page, made_private::<M>(ready, root, page, spare).1),
        tables::is_space::<M>(after, root),
{
    let (_, writable, used) = made_private::<M>(ready, root, page, spare);
    tables::a_space_is_not_disturbed::<M>(m, ready, root);
    what_a_private_page_leaves::<M>(ready, root, page, spare);
    let leaf = tree::leaf_at::<M>(m, root, page);
    if spare is None {
        tables::had_no_frame(m, m);
    }
    if done == ready {
        assert forall|frame: u64| #[trigger] after.count(frame) == m.count(frame) by {
        }
        assert forall|frame: u64| #[trigger] after.has(frame) == m.has(frame) by {
            assert(ready.has(frame) == m.has(frame));
        }
        assert(tables::none_taken(m, after));
        tables::a_space_is_not_disturbed::<M>(m, after, root);
    } else {
        let phys = M::named(leaf->0);
        let flags = M::flags_in(leaf->0);
        assert forall|other: u64|
            tree::page_of(other) != tree::page_of(page) implies #[trigger] tree::leaf_at::<M>(
            done,
            root,
            other,
        ) == tree::leaf_at::<M>(m, root, other) by {
            assert(tree::leaf_at::<M>(ready, root, other) == tree::leaf_at::<M>(m, root, other));
        }
        if used {
            assert(is_copy_of(m, after, spare->0, phys));
        } else if spare is Some {
            let list = seq![spare->0];
            assert(list.drop_last() =~= Seq::<u64>::empty());
            assert(teardown::all_released(done, list.drop_last()) == done);
            assert(after == teardown::all_released(done, list));
            tables::releasing_moves_nothing::<M>(done, list, root);
            assert forall|i: int|
                #![trigger list[i]]
                0 <= i < list.len() implies forall|p: Seq<int>|
                tree::is_path(p, 3) ==> #[trigger] tree::reached::<M>(done, root, 3, p) != Some(
                    list[i],
                ) by {
                assert(list[i] == spare->0);
            }
            tables::releasing_keeps_a_space::<M>(done, list, root);
        }
        if !used {
            assert(ready.count(phys) <= 1);
            assert(m.count(phys) <= 1);
            assert forall|frame: u64| #[trigger] after.count(frame) == m.count(frame) by {
                assert(done.count(frame) == ready.count(frame));
            }
        } else {
            assert(ready.count(phys) > 1);
            assert(m.count(phys) == ready.count(phys));
        }
    }
    if leaf is Some {
        let bits = leaf->0;
        let phys = M::named(bits);
        let flags = M::flags_in(bits);
        if flags & COW != 0 && m.count(phys) <= 1 {
            assert(ready.count(phys) <= 1);
            let put = retaken::<M>(ready, root, page, phys, flags);
            assert(done == put);
            assert(put.journal.len() > ready.journal.len());
        } else if flags & COW != 0 {
            assert(ready.count(phys) == m.count(phys));
            if spare is Some {
                let put = replaced_by_copy::<M>(ready, root, page, phys, spare->0, flags);
                assert(done == put);
                let filled = filled_copy(ready, phys, spare->0, flags);
                assert(filled.journal.len() > ready.journal.len());
                assert(put.journal.len() > filled.journal.len());
            }
        }
    }
}

} // verus!
