//! Address spaces: one owner for each, and one lock over everything in one.
//!
//! - `Mm` owns a program's page tables and the record of what is in them, the
//!   regions and the program break. A fork makes a new `Mm` from a copy of the
//!   tables.
//! - Every change to the tables is made through `MmGuard`, the space locked,
//!   and there is no other way to reach them. A change to the tables and the
//!   change to the record that goes with it are therefore one operation as far
//!   as anything else is concerned.
//!
//! **Prepare outside, commit inside.** The lock masks interrupts, so nothing
//! that allocates a page, zeroes one, reads a file or waits on the card may
//! happen while it is held. Each of those produces a `Prepared` first, and the
//! guard then reads the record and the descriptor again and either publishes
//! it or hands it back to be released outside.

use crate::mm::change::{self, Tables};
use crate::mm::frame::Frame;
use crate::mm::record::{self, MemState, MemView, Vma, NO_EXECUTE, PRESENT, USER, WRITABLE};
use crate::mm::tables::{self, PageTables, Prepared, Stale, STALE_MAX};
use crate::mm::teardown;
use crate::mm::tree;
use crate::mm::walk::{self, Machine, MachineView, TableStock, Tlb, DEPTH};
use crate::mm::{PAGE_SIZE_U64, USER_LIMIT};
use vstd::prelude::*;

verus! {

/// How many pages one turn of the lock takes away, and how many a fork shares
/// in one.
///
/// A range a program asks to be rid of is as long as the program says, and a
/// fork copies as much as the program has; the lock masks interrupts, so one
/// guard for the whole of either holds the timer off for that long.
pub const UNMAP_CHUNK: u64 = 128;

/// The most frames one guard holds back before it invalidates and releases
/// them. A range taken away is as long as a program asks for, so it cannot be
/// all of them; past the first address the invalidation is of the whole space
/// whatever the count, so there is nothing to gain from a larger one.
pub const RETIRED_MAX: usize = 32;

// ---- one turn of the lock ------------------------------------------------------------

/// What one turn of the lock has made of memory, and what it has left for
/// later: the translations to throw away, and the frames that go back once
/// they have been.
#[verifier::ext_equal]
pub struct Turn {
    pub memory: MachineView,
    pub tlb: Tlb,
    pub retired: Seq<u64>,
}

impl Turn {
    /// The translations thrown away, and then the frames given back.
    pub open spec fn flushed(self) -> Turn {
        Turn {
            memory: teardown::all_released(self.tlb.flushed(self.memory), self.retired),
            tlb: Tlb::Clean,
            retired: Seq::empty(),
        }
    }

    /// Frames held back, with a flush first where there is no room for them.
    pub open spec fn retiring(self, frames: Seq<u64>) -> Turn {
        let ready = if self.retired.len() + frames.len() > RETIRED_MAX {
            self.flushed()
        } else {
            self
        };
        Turn { retired: ready.retired + frames, ..ready }
    }

    /// The frames taking a mapping away frees: the page, and the tables it
    /// left empty from the highest down.
    pub open spec fn freed<M: Machine>(self, root: u64, virt: u64, bits: u64) -> Seq<u64> {
        seq![M::named(bits)] + change::unmapped::<M>(self.memory, root, virt).1.reverse()
    }

    /// One mapping taken away, and what it held retired.
    pub open spec fn page_unmapped<M: Machine>(self, root: u64, virt: u64) -> Turn {
        match tree::leaf_at::<M>(self.memory, root, virt) {
            None => self,
            Some(bits) => {
                let (after, gone) = change::unmapped::<M>(self.memory, root, virt);
                Turn {
                    memory: after,
                    tlb: change::left_behind(self.tlb, virt, gone),
                    ..self
                }.retiring(self.freed::<M>(root, virt, bits))
            },
        }
    }

    /// Every mapping of a run of pages taken away.
    pub open spec fn pages_unmapped<M: Machine>(self, root: u64, start: u64, count: nat) -> Turn
        decreases count,
    {
        if count == 0 {
            self
        } else {
            self.pages_unmapped::<M>(root, start, (count - 1) as nat).page_unmapped::<M>(
                root,
                (start + (count - 1) * 0x1000) as u64,
            )
        }
    }
}

/// How many pages a range reaches into, from its start.
pub open spec fn pages_in(start: int, end: int) -> nat {
    if end <= start {
        0
    } else {
        ((end - start + 0xFFF) / 0x1000) as nat
    }
}

/// What the changes made under a lock have left behind and not dealt with yet.
pub struct Pending {
    tlb: Tlb,
    retired: Vec<u64>,
}

impl Pending {
    pub closed spec fn tlb(&self) -> Tlb {
        self.tlb
    }

    pub closed spec fn retired(&self) -> Seq<u64> {
        self.retired@
    }

    pub open spec fn valid(&self) -> bool {
        self.retired().len() <= RETIRED_MAX
    }

    /// The turn this is part of.
    pub open spec fn turn(&self, memory: MachineView) -> Turn {
        Turn { memory, tlb: self.tlb(), retired: self.retired() }
    }

    pub fn new() -> (pending: Pending)
        ensures
            pending.valid(),
            pending.tlb() == Tlb::Clean,
            pending.retired() == Seq::<u64>::empty(),
    {
        Pending { tlb: Tlb::new(), retired: Vec::new() }
    }

    /// Throw away the translations the changes have left behind, and give back
    /// the frames that were waiting on that.
    ///
    /// The order is the whole point: a frame released before the invalidation
    /// is one the allocator can give to another address space while the old
    /// one still reaches it.
    pub fn flush<M: Machine>(&mut self, machine: &mut M)
        requires
            old(self).valid(),
        ensures
            final(self).valid(),
            final(self).turn(final(machine).state()) == old(self).turn(
                old(machine).state(),
            ).flushed(),
    {
        self.tlb.flush(machine);
        let ghost told = machine.state();
        let mut i: usize = 0;
        assert(self.retired@.take(0) =~= Seq::empty());
        while i < self.retired.len()
            invariant
                i <= self.retired@.len(),
                self.retired@ == old(self).retired@,
                self.tlb == Tlb::Clean,
                machine.state() == teardown::all_released(told, self.retired@.take(i as int)),
            decreases self.retired@.len() - i,
        {
            machine.free(self.retired[i]);
            assert(self.retired@.take(i + 1).drop_last() =~= self.retired@.take(i as int));
            i += 1;
        }
        assert(self.retired@.take(i as int) =~= self.retired@);
        self.retired = Vec::new();
    }

    /// Hold `stale`'s frames until the invalidation, and give them back then.
    pub fn retire<M: Machine>(&mut self, machine: &mut M, stale: Stale)
        requires
            old(self).valid(),
            stale@.len() <= STALE_MAX,
        ensures
            final(self).valid(),
            final(self).turn(final(machine).state()) == old(self).turn(
                old(machine).state(),
            ).retiring(stale@),
    {
        let frames = stale.frames();
        if frames.len() > RETIRED_MAX - self.retired.len() {
            self.flush(machine);
        }
        let ghost before = self.retired@;
        let mut i: usize = 0;
        assert(before + stale@.take(0) =~= before);
        while i < frames.len()
            invariant
                i <= frames@.len(),
                frames@ == stale@,
                self.tlb == self.tlb(),
                self.retired@ == before + stale@.take(i as int),
                self.tlb() == (if old(self).retired@.len() + stale@.len() > RETIRED_MAX {
                    Tlb::Clean
                } else {
                    old(self).tlb
                }),
            decreases frames@.len() - i,
        {
            self.retired.push(frames[i]);
            i += 1;
            assert(self.retired@ =~= before + stale@.take(i as int));
        }
        assert(stale@.take(i as int) =~= stale@);
    }

    /// Take the mapping at `virt` away, with the tables it emptied.
    #[must_use]
    pub fn unmap<M: Machine>(&mut self, machine: &mut M, space: &Tables, virt: u64) -> (taken:
        Option<Stale>)
        requires
            tree::is_tree::<M>(old(machine).state(), space.top(), 3),
        ensures
            final(self).retired() == old(self).retired(),
            match tree::leaf_at::<M>(old(machine).state(), space.top(), virt) {
                None => {
                    &&& taken is None
                    &&& final(machine).state() == old(machine).state()
                    &&& final(self).tlb() == old(self).tlb()
                },
                Some(bits) => {
                    let (after, gone) = change::unmapped::<M>(
                        old(machine).state(),
                        space.top(),
                        virt,
                    );
                    &&& taken matches Some(stale) && stale@ == old(self).turn(
                        old(machine).state(),
                    ).freed::<M>(space.top(), virt, bits) && stale@.len() <= STALE_MAX
                    &&& final(machine).state() == after
                    &&& final(self).tlb() == change::left_behind(old(self).tlb(), virt, gone)
                    &&& tree::leaf_at::<M>(final(machine).state(), space.top(), virt) is None
                },
            },
            change::others_unchanged::<M>(
                old(machine).state(),
                final(machine).state(),
                space.top(),
                virt,
            ),
            tree::is_tree::<M>(final(machine).state(), space.top(), 3),
    {
        let ghost m = machine.state();
        let ghost root = space.top();
        let ghost gone = change::unmapped::<M>(m, root, virt).1;
        let mut reclaimed = TableStock::new();
        proof {
            change::reclaiming_is_bounded::<M>(
                change::rewritten::<M>(m, root, virt, 0),
                root,
                virt,
                1,
                Seq::empty(),
            );
        }
        let page = match space.unmap(machine, virt, &mut self.tlb, &mut reclaimed) {
            Some(page) => page,
            None => {
                return None;
            },
        };
        let mut stale = Stale::new();
        stale.push(page);
        assert(Seq::<u64>::empty() + gone =~= gone);
        assert(stale@ + gone.reverse() =~= seq![page] + gone.reverse());
        while reclaimed.len() > 0
            invariant
                stale@.len() + reclaimed@.len() <= STALE_MAX,
                stale@ + reclaimed@.reverse() == seq![page] + gone.reverse(),
            decreases reclaimed@.len(),
        {
            let ghost left = reclaimed@;
            let ghost so_far = stale@;
            if let Some(table) = reclaimed.take() {
                stale.push(table);
                assert(stale@ + reclaimed@.reverse() =~= so_far + left.reverse());
            }
        }
        assert(stale@ =~= seq![page] + gone.reverse());
        Some(stale)
    }

    /// Take every mapping in `[start, end)` away.
    pub fn unmap_range<M: Machine>(
        &mut self,
        machine: &mut M,
        space: &Tables,
        start: u64,
        end: u64,
    )
        requires
            old(self).valid(),
            tree::is_tree::<M>(old(machine).state(), space.top(), 3),
            end <= USER_LIMIT,
        ensures
            final(self).valid(),
            final(self).turn(final(machine).state()) == old(self).turn(
                old(machine).state(),
            ).pages_unmapped::<M>(space.top(), start, pages_in(start as int, end as int)),
            tree::is_tree::<M>(final(machine).state(), space.top(), 3),
    {
        let mut page: u64 = start;
        let ghost mut count: nat = 0;
        let ghost first = self.turn(machine.state());
        while page < end
            invariant
                self.valid(),
                end <= USER_LIMIT,
                page == start + count * 0x1000,
                count > 0 ==> page < end + 0x1000,
                first == old(self).turn(old(machine).state()),
                self.turn(machine.state()) == first.pages_unmapped::<M>(space.top(), start, count),
                tree::is_tree::<M>(machine.state(), space.top(), 3),
            decreases end + 0x1000 - page,
        {
            let ghost now = self.turn(machine.state());
            let ghost mid;
            if let Some(stale) = self.unmap(machine, space, page) {
                proof {
                    mid = machine.state();
                }
                self.retire(machine, stale);
                proof {
                    let turn = Turn {
                        memory: mid,
                        tlb: change::left_behind(
                            now.tlb,
                            page,
                            change::unmapped::<M>(now.memory, space.top(), page).1,
                        ),
                        ..now
                    };
                    let bits = tree::leaf_at::<M>(now.memory, space.top(), page)->0;
                    assert(self.turn(machine.state()) == turn.retiring(
                        now.freed::<M>(space.top(), page, bits),
                    ));
                    retiring_moves_nothing::<M>(
                        turn,
                        now.freed::<M>(space.top(), page, bits),
                        space.top(),
                    );
                }
            }
            assert(self.turn(machine.state()) == now.page_unmapped::<M>(space.top(), page));
            proof {
                count = count + 1;
            }
            page += PAGE_SIZE_U64;
        }
        assert(count == pages_in(start as int, end as int));
    }
}

/// Throwing translations away and giving frames back moves no table.
pub proof fn flushing_moves_nothing<M: Machine>(turn: Turn, root: u64)
    ensures
        turn.flushed().memory.words == turn.memory.words,
        forall|p: Seq<int>|
            tree::is_path(p, 3) ==> #[trigger] tree::reached::<M>(
                turn.flushed().memory,
                root,
                3,
                p,
            ) == tree::reached::<M>(turn.memory, root, 3, p),
        forall|virt: u64| #[trigger]
            tree::leaf_at::<M>(turn.flushed().memory, root, virt) == tree::leaf_at::<M>(
                turn.memory,
                root,
                virt,
            ),
        tree::is_tree::<M>(turn.memory, root, 3) ==> tree::is_tree::<M>(
            turn.flushed().memory,
            root,
            3,
        ),
{
    let told = turn.tlb.flushed(turn.memory);
    assert(told.words == turn.memory.words);
    tables::releasing_changes_no_word(told, turn.retired);
    tables::releasing_moves_nothing::<M>(told, turn.retired, root);
    assert forall|p: Seq<int>| tree::is_path(p, 3) implies #[trigger] tree::reached::<M>(
        told,
        root,
        3,
        p,
    ) == tree::reached::<M>(turn.memory, root, 3, p) by {
        tree::unchanged_where_looked::<M>(turn.memory, told, root, 3, p);
    }
    assert forall|virt: u64| #[trigger]
        tree::leaf_at::<M>(turn.flushed().memory, root, virt) == tree::leaf_at::<M>(
            turn.memory,
            root,
            virt,
        ) by {
        tree::path_of_is_path(virt, 3);
        assert(tree::leaf_at::<M>(turn.flushed().memory, root, virt) == tree::leaf_at::<M>(
            told,
            root,
            virt,
        ));
        assert(tree::reached::<M>(told, root, 3, tree::path_of(virt)) == tree::reached::<M>(
            turn.memory,
            root,
            3,
            tree::path_of(virt),
        ));
    }
    assert(tree::is_tree::<M>(turn.memory, root, 3) ==> tree::is_tree::<M>(told, root, 3)) by {
        assert forall|frame: u64| #[trigger] told.has(frame) == turn.memory.has(frame) by {
        }
    }
}

/// Nor does holding frames back, whether or not that flushes.
pub proof fn retiring_moves_nothing<M: Machine>(turn: Turn, frames: Seq<u64>, root: u64)
    ensures
        turn.retiring(frames).memory.words == turn.memory.words,
        forall|virt: u64| #[trigger]
            tree::leaf_at::<M>(turn.retiring(frames).memory, root, virt) == tree::leaf_at::<M>(
                turn.memory,
                root,
                virt,
            ),
        tree::is_tree::<M>(turn.memory, root, 3) ==> tree::is_tree::<M>(
            turn.retiring(frames).memory,
            root,
            3,
        ),
{
    flushing_moves_nothing::<M>(turn, root);
}

/// Taking one page away leaves nothing mapped at it and everything else as it
/// was.
pub(crate) proof fn one_page_taken_away<M: Machine>(turn: Turn, root: u64, virt: u64)
    requires
        tree::is_tree::<M>(turn.memory, root, 3),
    ensures
        ({
            let after = turn.page_unmapped::<M>(root, virt).memory;
            &&& tree::is_tree::<M>(after, root, 3)
            &&& tree::leaf_at::<M>(after, root, virt) is None
            &&& change::others_unchanged::<M>(turn.memory, after, root, virt)
        }),
{
    let leaf = tree::leaf_at::<M>(turn.memory, root, virt);
    if leaf is Some {
        change::unmapping::<M>(turn.memory, root, virt);
        let (after, gone) = change::unmapped::<M>(turn.memory, root, virt);
        let mid = Turn { memory: after, tlb: change::left_behind(turn.tlb, virt, gone), ..turn };
        retiring_moves_nothing::<M>(mid, turn.freed::<M>(root, virt, leaf->0), root);
    }
}

/// Whether an address is on one of a run of pages.
pub open spec fn is_on(other: u64, start: u64, count: nat) -> bool {
    exists|k: int|
        0 <= k < count && #[trigger] tree::page_of((start + k * 0x1000) as u64) == tree::page_of(
            other,
        )
}

/// Taking a run of pages away leaves nothing mapped on any of them, and what
/// is mapped anywhere else as it was.
pub proof fn taking_pages_away<M: Machine>(turn: Turn, root: u64, start: u64, count: nat)
    requires
        tree::is_tree::<M>(turn.memory, root, 3),
        start + count * 0x1000 <= u64::MAX,
    ensures
        ({
            let after = turn.pages_unmapped::<M>(root, start, count).memory;
            &&& tree::is_tree::<M>(after, root, 3)
            &&& forall|other: u64|
                is_on(other, start, count) ==> #[trigger] tree::leaf_at::<M>(
                    after,
                    root,
                    other,
                ) is None
            &&& forall|other: u64|
                !is_on(other, start, count) ==> #[trigger] tree::leaf_at::<M>(after, root, other)
                    == tree::leaf_at::<M>(turn.memory, root, other)
        }),
    decreases count,
{
    if count > 0 {
        let less = (count - 1) as nat;
        let virt = (start + less * 0x1000) as u64;
        taking_pages_away::<M>(turn, root, start, less);
        let mid = turn.pages_unmapped::<M>(root, start, less);
        one_page_taken_away::<M>(mid, root, virt);
        let after = mid.page_unmapped::<M>(root, virt).memory;
        assert forall|other: u64| #[trigger] tree::leaf_at::<M>(after, root, other) is None
            || !is_on(other, start, count) by {
            if is_on(other, start, count) {
                if tree::page_of(other) == tree::page_of(virt) {
                    same_page_same_leaf::<M>(after, root, other, virt);
                } else {
                    let k = choose|k: int|
                        0 <= k < count && #[trigger] tree::page_of((start + k * 0x1000) as u64)
                            == tree::page_of(other);
                    assert(k < less);
                    assert(is_on(other, start, less));
                }
            }
        }
        assert forall|other: u64| !is_on(other, start, count) implies #[trigger] tree::leaf_at::<M>(
            after,
            root,
            other,
        ) == tree::leaf_at::<M>(turn.memory, root, other) by {
            assert(tree::page_of((start + less * 0x1000) as u64) != tree::page_of(other));
            if is_on(other, start, less) {
                let k = choose|k: int|
                    0 <= k < less && #[trigger] tree::page_of((start + k * 0x1000) as u64)
                        == tree::page_of(other);
                assert(k < count);
            }
            assert(tree::leaf_at::<M>(mid.memory, root, other) == tree::leaf_at::<M>(
                turn.memory,
                root,
                other,
            ));
        }
    }
}

/// Addresses of one page have one descriptor.
proof fn same_page_same_leaf<M: Machine>(m: MachineView, root: u64, a: u64, b: u64)
    requires
        tree::page_of(a) == tree::page_of(b),
    ensures
        tree::leaf_at::<M>(m, root, a) == tree::leaf_at::<M>(m, root, b),
{
    tree::indices_make_the_page(a, b);
}

// ---- what a fault decides ------------------------------------------------------------

/// A publish refused, and why.
#[derive(Debug, Clone, Copy, PartialEq, Eq, Structural)]
pub enum Refused {
    /// Something is mapped at the address already. Whoever put it there
    /// finished before this call started, so what is there is complete.
    Occupied,
    /// The walk wanted more tables than the page brought. Another task took
    /// the levels away between their being counted and the lock being taken.
    ShortOfTables,
}

/// Where a fault's page comes from.
#[derive(Debug, Clone, Copy, PartialEq, Eq, Structural)]
pub enum Source {
    /// Zeroes: the heap, an anonymous region, or a region's tail past the end
    /// of the file.
    Zero,
    /// `want` bytes of `node` at `offset`, and zeroes past them.
    File { node: u64, offset: u64, want: usize },
}

/// What the record says a fault should put at an address.
///
/// It is read under the guard, acted on outside it, and compared with the
/// record again under the guard before anything is published.
#[derive(Debug, Clone, Copy, PartialEq, Eq, Structural)]
pub struct Plan {
    pub flags: u64,
    pub source: Source,
    /// How many tables the walk to the address would have had to create at the
    /// moment this was read. A count is enough: a descriptor exists only where
    /// everything above it does, so what is missing is always the bottom
    /// levels.
    pub tables: usize,
}

impl Plan {
    /// True when the two would put the same bytes at the address with the same
    /// permissions. The table count is no part of it: a level another task
    /// created since is one fewer to create, not a different page.
    pub fn same_page_as(&self, other: &Plan) -> (r: bool)
        ensures
            r == (self.flags == other.flags && self.source == other.source),
    {
        if self.flags != other.flags {
            return false;
        }
        match (&self.source, &other.source) {
            (Source::Zero, Source::Zero) => true,
            (
                Source::File { node, offset, want },
                Source::File { node: other_node, offset: other_offset, want: other_want },
            ) => *node == *other_node && *offset == *other_offset && *want == *other_want,
            _ => false,
        }
    }
}

/// What came of a commit.
#[derive(Debug, Clone, Copy, PartialEq, Eq, Structural)]
pub enum Commit {
    /// The page is in.
    Done,
    /// Something is at the address already, finished, so the fault is served.
    Already,
    /// The record no longer says what the page was filled for. Nothing is
    /// written; the caller decides again.
    Changed,
    /// The walk wanted more tables than the page brought. Nothing is written.
    ShortOfTables,
}

/// The flags and the source of a page a region holds: the file's bytes as far
/// as the file goes into the page, and zeroes past it.
pub open spec fn wanted_in(vma: Vma, page: u64) -> (u64, Source) {
    let into = page - vma.start;
    let source = match vma.file {
        None => Source::Zero,
        Some(file) => if into >= file.length {
            Source::Zero
        } else {
            Source::File {
                node: file.node,
                offset: (file.offset + into) as u64,
                want: if file.length - into < PAGE_SIZE_U64 {
                    (file.length - into) as usize
                } else {
                    PAGE_SIZE_U64 as usize
                },
            }
        },
    };
    (record::bits_for(vma.prot), source)
}

impl MemView {
    /// Whether a page is inside the program break.
    pub open spec fn has_in_heap(self, page: u64) -> bool {
        self.brk_start <= page < self.brk
    }

    /// What the record says should be at a page.
    pub open spec fn wanted_at(self, page: u64) -> Option<(u64, Source)> {
        if self.has_in_heap(page) {
            Some((PRESENT | WRITABLE | USER | NO_EXECUTE, Source::Zero))
        } else {
            match record::holder(self.vmas, page as int) {
                None => None,
                Some(vma) => Some(wanted_in(vma, page)),
            }
        }
    }
}

/// A region found in a record is one of its regions, and holds the address.
proof fn the_holder_holds(vmas: Seq<Vma>, addr: int)
    ensures
        record::holder(vmas, addr) matches Some(vma) ==> vma.holds(addr) && exists|i: int|
            0 <= i < vmas.len() && #[trigger] vmas[i] == vma,
    decreases vmas.len(),
{
    if vmas.len() > 0 {
        let rest = vmas.drop_last();
        the_holder_holds(rest, addr);
        if let Some(vma) = record::holder(rest, addr) {
            let i = choose|i: int| 0 <= i < rest.len() && #[trigger] rest[i] == vma;
            assert(vmas[i] == vma);
        } else {
            assert(vmas[vmas.len() - 1] == vmas.last());
        }
    }
}

impl MemState {
    /// Whether `page` is inside the program break.
    pub fn in_heap(&self, page: u64) -> (r: bool)
        ensures
            r == self@.has_in_heap(page),
    {
        page >= self.brk_start && page < self.brk
    }

    /// What the record says should be at `page`, with the count of tables a
    /// mapping there would have to create. `None` when nothing is recorded at
    /// it.
    pub fn plan(&self, page: u64, tables: usize) -> (plan: Option<Plan>)
        requires
            self@.valid(),
        ensures
            plan == (match self@.wanted_at(page) {
                None => None::<Plan>,
                Some((flags, source)) => Some(Plan { flags, source, tables }),
            }),
    {
        if self.in_heap(page) {
            return Some(
                Plan {
                    flags: PRESENT | WRITABLE | USER | NO_EXECUTE,
                    source: Source::Zero,
                    tables,
                },
            );
        }
        let vma = match self.find_vma(page) {
            Some(vma) => vma,
            None => {
                return None;
            },
        };
        proof {
            the_holder_holds(self@.vmas, page as int);
            let i = choose|i: int| 0 <= i < self@.vmas.len() && #[trigger] self@.vmas[i] == vma;
            assert(self@.vmas[i].valid());
        }
        let flags = vma.page_flags();
        let source = match vma.file {
            None => Source::Zero,
            Some(file) => {
                let into: u64 = page - vma.start;
                if into >= file.length {
                    // Past the file's contents, which is zeroes.
                    Source::Zero
                } else {
                    let rest: u64 = file.length - into;
                    Source::File {
                        node: file.node,
                        offset: file.offset + into,
                        want: if rest < PAGE_SIZE_U64 {
                            rest as usize
                        } else {
                            PAGE_SIZE_U64 as usize
                        },
                    }
                }
            },
        };
        Some(Plan { flags, source, tables })
    }
}

// ---- the space, locked ------------------------------------------------------------

/// A program's address space: its page tables and the record of what is in
/// them.
pub struct Mm {
    tables: PageTables,
    mem: MemState,
}

/// The address space, locked: the record of regions, and the page tables.
///
/// The page tables are reached only by the methods below, so every change to
/// them is made here, under the lock. `unlock` is the only way back to the
/// space, and nothing leaves half done through it.
pub struct MmGuard {
    tables: PageTables,
    mem: MemState,
    /// What the changes made here have left behind.
    pending: Pending,
}

impl MmGuard {
    pub closed spec fn top(&self) -> u64 {
        self.tables.top()
    }

    pub closed spec fn pending(&self) -> Pending {
        self.pending
    }

    pub closed spec fn record(&self) -> MemState {
        self.mem
    }

    pub open spec fn valid(&self) -> bool {
        self.record()@.valid() && self.pending().valid()
    }

    /// The turn of the lock this is, over a machine's memory.
    pub open spec fn turn(&self, memory: MachineView) -> Turn {
        self.pending().turn(memory)
    }

    /// The record of what is in the space.
    pub fn mem(&self) -> (mem: &MemState)
        ensures
            *mem == self.record(),
    {
        &self.mem
    }

    /// The record of what is in the space, to change.
    pub fn mem_mut(&mut self) -> (mem: &mut MemState)
        ensures
            *mem == old(self).record(),
            final(self).record() == *final(mem),
            final(self).top() == old(self).top(),
            final(self).pending() == old(self).pending(),
    {
        &mut self.mem
    }

    /// The physical address `virt` reaches, including its offset in the page.
    pub fn translate<M: Machine>(&self, machine: &M, virt: u64) -> (phys: Option<u64>)
        requires
            tree::is_tree::<M>(machine.state(), self.top(), 3),
        ensures
            phys == change::translation::<M>(machine.state(), self.top(), virt, 3),
    {
        self.tables.walk().translate(machine, virt)
    }

    /// The flags on the mapping of `virt`, as they were asked for.
    pub fn flags_of<M: Machine>(&self, machine: &M, virt: u64) -> (flags: Option<u64>)
        requires
            tree::is_tree::<M>(machine.state(), self.top(), 3),
        ensures
            flags == (match tree::leaf_at::<M>(machine.state(), self.top(), virt) {
                Some(bits) => Some(M::flags_in(bits)),
                None => None,
            }),
    {
        self.tables.walk().flags_of(machine, virt)
    }

    /// How many tables a mapping at `virt` would have to create, which is how
    /// many frames a `Prepared` for it has to bring.
    pub fn missing_tables<M: Machine>(&self, machine: &M, virt: u64) -> (count: usize)
        requires
            tree::is_tree::<M>(machine.state(), self.top(), 3),
        ensures
            count == change::missing::<M>(machine.state(), self.top(), virt, 3),
            count <= DEPTH,
    {
        self.tables.walk().missing_tables(machine, virt)
    }

    /// The descriptors the walk of `virt` reads, for a fault report: the level,
    /// the place and the bits of each.
    pub fn dump_walk<M: Machine>(&self, machine: &M, virt: u64) -> (read: Vec<(u32, usize, u64)>)
        requires
            tree::is_tree::<M>(machine.state(), self.top(), 3),
        ensures
            read@ == teardown::trail::<M>(machine.state(), self.top(), virt, 3),
    {
        self.tables.walk().walk_of(machine, virt)
    }

    /// Throw away the translations the changes made here have left behind, and
    /// give back the frames that were waiting on that.
    pub fn flush<M: Machine>(&mut self, machine: &mut M)
        requires
            old(self).valid(),
        ensures
            final(self).valid(),
            final(self).top() == old(self).top(),
            final(self).record() == old(self).record(),
            final(self).turn(final(machine).state()) == old(self).turn(
                old(machine).state(),
            ).flushed(),
    {
        self.pending.flush(machine);
    }

    /// Hold `stale`'s frames until the invalidation, and give them back then.
    pub fn retire<M: Machine>(&mut self, machine: &mut M, stale: Stale)
        requires
            old(self).valid(),
            stale@.len() <= STALE_MAX,
        ensures
            final(self).valid(),
            final(self).top() == old(self).top(),
            final(self).record() == old(self).record(),
            final(self).turn(final(machine).state()) == old(self).turn(
                old(machine).state(),
            ).retiring(stale@),
    {
        self.pending.retire(machine, stale);
    }

    /// Put a prepared page in at `virt`, which must have nothing at it.
    ///
    /// The page's reference moves into the descriptor. A refusal leaves the
    /// page in the `Prepared`, which the caller gives back outside the lock:
    /// that is the only place a frame the guard did not use goes back.
    ///
    /// A block covering a user address is not something that is mapped, so it
    /// can only be read as occupied.
    pub fn publish<M: Machine>(
        &mut self,
        machine: &mut M,
        virt: u64,
        prepared: &mut Prepared,
        flags: u64,
    ) -> (result: Result<u64, Refused>)
        requires
            old(prepared).page() is Some,
            tree::is_tree::<M>(old(machine).state(), old(self).top(), 3),
            tree::are_spare::<M>(old(machine).state(), old(self).top(), old(prepared).stock()),
        ensures
            final(self).top() == old(self).top(),
            final(self).record() == old(self).record(),
            final(self).turn(final(machine).state()).retired == old(self).turn(
                old(machine).state(),
            ).retired,
            match change::refusal::<M>(
                old(machine).state(),
                old(self).top(),
                virt,
                3,
                old(prepared).stock().len(),
            ) {
                Some(refused) => {
                    &&& result == Err::<u64, Refused>(
                        if refused == walk::Refused::ShortOfTables {
                            Refused::ShortOfTables
                        } else {
                            Refused::Occupied
                        },
                    )
                    &&& final(machine).state() == old(machine).state()
                    &&& final(prepared).page() == old(prepared).page()
                    &&& final(prepared).stock() == old(prepared).stock()
                    &&& final(self).pending().tlb() == old(self).pending().tlb()
                },
                None => {
                    &&& result == Ok::<u64, Refused>(old(prepared).page()->0)
                    &&& (final(machine).state(), final(prepared).stock()) == change::published::<M>(
                        old(machine).state(),
                        old(self).top(),
                        virt,
                        old(prepared).page()->0,
                        flags,
                        old(prepared).stock(),
                    )
                    &&& final(prepared).page() is None
                    &&& final(self).pending().tlb() == old(self).pending().tlb().noted(virt)
                    &&& tree::leaf_at::<M>(final(machine).state(), old(self).top(), virt)
                        == change::shown::<M>(M::leaf_bits(old(prepared).page()->0, flags))
                    &&& change::others_unchanged::<M>(
                        old(machine).state(),
                        final(machine).state(),
                        old(self).top(),
                        virt,
                    )
                },
            },
            tree::is_tree::<M>(final(machine).state(), old(self).top(), 3),
            tree::are_spare::<M>(final(machine).state(), old(self).top(), final(prepared).stock()),
    {
        let space = self.tables.walk();
        match prepared.publish_in(machine, &space, virt, flags, &mut self.pending.tlb) {
            Ok(page) => Ok(page),
            Err(walk::Refused::ShortOfTables) => Err(Refused::ShortOfTables),
            Err(_) => Err(Refused::Occupied),
        }
    }

    /// Put the frame at `phys` in at `virt` in place of what is mapped there,
    /// handing back what the descriptor held.
    ///
    /// One store: taking the old mapping away and putting the new one in as
    /// two calls leaves the address with nothing at it in between, and a
    /// sibling that touches it there is served a fresh page of zeroes over the
    /// top.
    ///
    /// `Err` when nothing was mapped at `virt`, with nothing written and the
    /// frame handed back: putting it in would be creating a mapping rather
    /// than replacing one.
    pub fn replace<M: Machine>(&mut self, machine: &mut M, virt: u64, frame: Frame, flags: u64) -> (result:
        Result<Stale, Frame>)
        requires
            tree::is_tree::<M>(old(machine).state(), old(self).top(), 3),
        ensures
            final(self).top() == old(self).top(),
            final(self).record() == old(self).record(),
            final(self).pending().retired() == old(self).pending().retired(),
            match tree::leaf_at::<M>(old(machine).state(), old(self).top(), virt) {
                None => {
                    &&& result == Err::<Stale, Frame>(frame)
                    &&& final(machine).state() == old(machine).state()
                    &&& final(self).pending().tlb() == old(self).pending().tlb()
                },
                Some(bits) => {
                    &&& result matches Ok(stale) && stale@ == seq![M::named(bits)]
                    &&& final(machine).state() == change::rewritten::<M>(
                        old(machine).state(),
                        old(self).top(),
                        virt,
                        M::leaf_bits(frame.at(), flags),
                    )
                    &&& final(self).pending().tlb() == old(self).pending().tlb().noted(virt)
                    &&& tree::leaf_at::<M>(final(machine).state(), old(self).top(), virt)
                        == change::shown::<M>(M::leaf_bits(frame.at(), flags))
                },
            },
            change::others_unchanged::<M>(
                old(machine).state(),
                final(machine).state(),
                old(self).top(),
                virt,
            ),
            tree::is_tree::<M>(final(machine).state(), old(self).top(), 3),
    {
        let phys = frame.addr();
        let space = self.tables.walk();
        match space.replace(machine, virt, phys, flags, &mut self.pending.tlb) {
            Some(was) => {
                let mut stale = Stale::new();
                stale.push(was);
                assert(stale@ =~= seq![was]);
                // The descriptor has the reference now.
                frame.into_recorded();
                Ok(stale)
            },
            None => Err(frame),
        }
    }

    /// Change the flags on the mapping of `virt`, leaving the frame alone.
    /// The frame's address, or `None` when nothing is mapped there.
    ///
    /// Reading what the descriptor says and writing the new one are one step
    /// here.
    pub fn protect<M: Machine>(&mut self, machine: &mut M, virt: u64, flags: u64) -> (frame: Option<
        u64,
    >)
        requires
            tree::is_tree::<M>(old(machine).state(), old(self).top(), 3),
        ensures
            final(self).top() == old(self).top(),
            final(self).record() == old(self).record(),
            final(self).pending().retired() == old(self).pending().retired(),
            match tree::leaf_at::<M>(old(machine).state(), old(self).top(), virt) {
                None => {
                    &&& frame is None
                    &&& final(machine).state() == old(machine).state()
                    &&& final(self).pending().tlb() == old(self).pending().tlb()
                },
                Some(bits) => {
                    &&& frame == Some(M::named(bits))
                    &&& final(machine).state() == change::rewritten::<M>(
                        old(machine).state(),
                        old(self).top(),
                        virt,
                        M::leaf_bits(M::named(bits), flags),
                    )
                    &&& final(self).pending().tlb() == old(self).pending().tlb().noted(virt)
                    &&& tree::leaf_at::<M>(final(machine).state(), old(self).top(), virt)
                        == change::shown::<M>(M::leaf_bits(M::named(bits), flags))
                },
            },
            change::others_unchanged::<M>(
                old(machine).state(),
                final(machine).state(),
                old(self).top(),
                virt,
            ),
            tree::is_tree::<M>(final(machine).state(), old(self).top(), 3),
    {
        self.tables.walk().protect(machine, virt, flags, &mut self.pending.tlb)
    }

    /// Take the mapping at `virt` away, with the tables it emptied.
    ///
    /// Nothing is released: what comes back is `Stale`, which `retire` turns
    /// into frames the allocator can have once the invalidation has happened.
    #[must_use]
    pub fn unmap<M: Machine>(&mut self, machine: &mut M, virt: u64) -> (taken: Option<Stale>)
        requires
            tree::is_tree::<M>(old(machine).state(), old(self).top(), 3),
            virt < USER_LIMIT,
        ensures
            final(self).top() == old(self).top(),
            final(self).record() == old(self).record(),
            final(self).pending().retired() == old(self).pending().retired(),
            match tree::leaf_at::<M>(old(machine).state(), old(self).top(), virt) {
                None => {
                    &&& taken is None
                    &&& final(machine).state() == old(machine).state()
                    &&& final(self).pending().tlb() == old(self).pending().tlb()
                },
                Some(bits) => {
                    let (after, gone) = change::unmapped::<M>(
                        old(machine).state(),
                        old(self).top(),
                        virt,
                    );
                    &&& taken matches Some(stale) && stale@ == old(self).turn(
                        old(machine).state(),
                    ).freed::<M>(old(self).top(), virt, bits) && stale@.len() <= STALE_MAX
                    &&& final(machine).state() == after
                    &&& final(self).pending().tlb() == change::left_behind(
                        old(self).pending().tlb(),
                        virt,
                        gone,
                    )
                    &&& tree::leaf_at::<M>(final(machine).state(), old(self).top(), virt) is None
                },
            },
            change::others_unchanged::<M>(
                old(machine).state(),
                final(machine).state(),
                old(self).top(),
                virt,
            ),
            tree::is_tree::<M>(final(machine).state(), old(self).top(), 3),
    {
        let space = self.tables.walk();
        self.pending.unmap(machine, &space, virt)
    }

    /// Take every mapping in `[start, end)` away.
    pub fn unmap_range<M: Machine>(&mut self, machine: &mut M, start: u64, end: u64)
        requires
            old(self).valid(),
            tree::is_tree::<M>(old(machine).state(), old(self).top(), 3),
            end <= USER_LIMIT,
        ensures
            final(self).valid(),
            final(self).top() == old(self).top(),
            final(self).record() == old(self).record(),
            final(self).turn(final(machine).state()) == old(self).turn(
                old(machine).state(),
            ).pages_unmapped::<M>(old(self).top(), start, pages_in(start as int, end as int)),
            tree::is_tree::<M>(final(machine).state(), old(self).top(), 3),
    {
        let space = self.tables.walk();
        self.pending.unmap_range(machine, &space, start, end);
    }

    /// Whether `page` is inside the program break.
    pub fn in_heap(&self, page: u64) -> (r: bool)
        ensures
            r == self.record()@.has_in_heap(page),
    {
        self.mem.in_heap(page)
    }

    /// What the record says should be at `page`, and how many tables a mapping
    /// there would have to create. `None` when nothing is recorded at it.
    ///
    /// This is what a fault decides from, with the record held still. The page
    /// is then filled outside the lock and `commit` asks the same question
    /// again, because everything it read can have changed meanwhile.
    pub fn plan<M: Machine>(&self, machine: &M, page: u64) -> (plan: Option<Plan>)
        requires
            self.valid(),
            tree::is_tree::<M>(machine.state(), self.top(), 3),
        ensures
            plan == (match self.record()@.wanted_at(page) {
                None => None::<Plan>,
                Some((flags, source)) => Some(
                    Plan {
                        flags,
                        source,
                        tables: change::missing::<M>(machine.state(), self.top(), page, 3) as usize,
                    },
                ),
            }),
    {
        let tables = self.missing_tables(machine, page);
        self.mem.plan(page, tables)
    }

    /// Put a page prepared for `plan` in at `page`, having checked that the
    /// record still says the same thing and that nothing has been mapped there
    /// meanwhile.
    pub fn commit<M: Machine>(
        &mut self,
        machine: &mut M,
        page: u64,
        plan: &Plan,
        prepared: &mut Prepared,
    ) -> (outcome: Commit)
        requires
            old(self).valid(),
            old(prepared).page() is Some,
            tree::is_tree::<M>(old(machine).state(), old(self).top(), 3),
            tree::are_spare::<M>(old(machine).state(), old(self).top(), old(prepared).stock()),
        ensures
            final(self).valid(),
            final(self).top() == old(self).top(),
            final(self).record() == old(self).record(),
            final(self).pending().retired() == old(self).pending().retired(),
            outcome == committed::<M>(
                old(machine).state(),
                old(self).top(),
                old(self).record()@,
                page,
                *plan,
                old(prepared).stock().len(),
            ),
            outcome is Done ==> {
                &&& (final(machine).state(), final(prepared).stock()) == change::published::<M>(
                    old(machine).state(),
                    old(self).top(),
                    page,
                    old(prepared).page()->0,
                    plan.flags,
                    old(prepared).stock(),
                )
                &&& final(prepared).page() is None
                &&& final(self).pending().tlb() == old(self).pending().tlb().noted(page)
                &&& tree::leaf_at::<M>(final(machine).state(), old(self).top(), page)
                    == change::shown::<M>(M::leaf_bits(old(prepared).page()->0, plan.flags))
                &&& change::others_unchanged::<M>(
                    old(machine).state(),
                    final(machine).state(),
                    old(self).top(),
                    page,
                )
            },
            !(outcome is Done) ==> {
                &&& final(machine).state() == old(machine).state()
                &&& final(prepared).page() == old(prepared).page()
                &&& final(prepared).stock() == old(prepared).stock()
                &&& final(self).pending().tlb() == old(self).pending().tlb()
            },
            tree::is_tree::<M>(final(machine).state(), old(self).top(), 3),
            tree::are_spare::<M>(final(machine).state(), old(self).top(), final(prepared).stock()),
    {
        if self.translate(machine, page).is_some() {
            // A sibling thread reaching the same page of a program's text at
            // the same moment is ordinary, and what it published is finished,
            // because a page is published with its contents already in it.
            return Commit::Already;
        }
        let now = match self.plan(machine, page) {
            // The region went away, or changed under the fill. Publishing now
            // would leave a page mapped outside any region, or with the
            // protection the region used to have.
            None => {
                return Commit::Changed;
            },
            Some(now) => now,
        };
        if !now.same_page_as(plan) {
            return Commit::Changed;
        }
        match self.publish(machine, page, prepared, plan.flags) {
            Ok(_) => Commit::Done,
            Err(Refused::Occupied) => Commit::Already,
            Err(Refused::ShortOfTables) => Commit::ShortOfTables,
        }
    }

    /// Let the space go. Nothing leaves the lock half done: whatever the
    /// changes here left in the translation caches goes, and the frames
    /// waiting on that go back.
    pub fn unlock<M: Machine>(self, machine: &mut M) -> (space: Mm)
        requires
            self.valid(),
        ensures
            space.top() == self.top(),
            space.record() == self.record(),
            final(machine).state() == self.turn(old(machine).state()).flushed().memory,
    {
        let mut guard = self;
        guard.pending.flush(machine);
        Mm { tables: guard.tables, mem: guard.mem }
    }
}

/// What comes of committing a page filled for a plan.
pub open spec fn committed<M: Machine>(
    m: MachineView,
    root: u64,
    mem: MemView,
    page: u64,
    plan: Plan,
    stock: nat,
) -> Commit {
    if change::translation::<M>(m, root, page, 3) is Some {
        Commit::Already
    } else if mem.wanted_at(page) != Some((plan.flags, plan.source)) {
        Commit::Changed
    } else {
        match change::refusal::<M>(m, root, page, 3, stock) {
            None => Commit::Done,
            Some(walk::Refused::ShortOfTables) => Commit::ShortOfTables,
            Some(_) => Commit::Already,
        }
    }
}

impl Mm {
    pub closed spec fn top(&self) -> u64 {
        self.tables.top()
    }

    pub closed spec fn record(&self) -> MemState {
        self.mem
    }

    pub open spec fn valid(&self) -> bool {
        self.record()@.valid()
    }

    /// A number that tells this address space apart from every other one alive
    /// at the same moment.
    pub fn id(&self) -> (id: u64)
        ensures
            id == self.top(),
    {
        self.tables.id()
    }

    /// A space made of tables and a record of what is in them.
    pub(crate) fn assemble(tables: PageTables, mem: MemState) -> (space: Mm)
        ensures
            space.top() == tables.top(),
            space.record() == mem,
    {
        Mm { tables, mem }
    }

    /// The tables, with the record gone.
    pub(crate) fn into_tables(self) -> (tables: PageTables)
        ensures
            tables.top() == self.top(),
    {
        self.tables
    }

    /// The record of what is in the space.
    pub fn mem(&self) -> (mem: &MemState)
        ensures
            *mem == self.record(),
    {
        &self.mem
    }

    /// The record of what is in the space, to change.
    pub fn mem_mut(&mut self) -> (mem: &mut MemState)
        ensures
            *mem == old(self).record(),
            final(self).record() == *final(mem),
            final(self).top() == old(self).top(),
    {
        &mut self.mem
    }

    /// The walk of these tables.
    pub fn walk(&self) -> (tables: Tables)
        ensures
            tables.top() == self.top(),
    {
        self.tables.walk()
    }

    pub fn lock(self) -> (guard: MmGuard)
        requires
            self.valid(),
        ensures
            guard.valid(),
            guard.top() == self.top(),
            guard.record() == self.record(),
            guard.pending().tlb() == Tlb::Clean,
            guard.pending().retired() == Seq::<u64>::empty(),
    {
        MmGuard { tables: self.tables, mem: self.mem, pending: Pending::new() }
    }
}

} // verus!
