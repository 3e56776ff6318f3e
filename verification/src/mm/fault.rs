//! Serving a fault: read the record, fill a page from whatever it names, and
//! publish it if the record still says the same.
//!
//! The fill reads a file, which waits for the card, so it cannot be under the
//! lock and it is not done here. `Mm::fault_in` says what to fill, and
//! `Mm::fault_filled` takes the page back and either publishes it or decides
//! again; everything the first read is asked about again by the second.

use crate::mm::change;
use crate::mm::record::{MemView, NO_EXECUTE};
use crate::mm::space::{self, Commit, Mm, Plan, Refused};
use crate::mm::space_ops;
use crate::mm::tables::{self, Prepared};
use crate::mm::teardown;
use crate::mm::tree;
use crate::mm::walk::{self, Event, Machine, MachineView, Tlb, DEPTH};
use crate::mm::{self, page_align_down, PAGE_SIZE};
use vstd::prelude::*;

verus! {

/// How often a fault whose plan no longer holds is tried again.
///
/// A sibling that mapped the tables away, or changed the region, leaves this
/// with a page filled for the wrong address. Each turn either publishes, finds
/// the page already there, or finds a different record, and a program that
/// kept changing the record could otherwise keep one thread here.
pub const TRIES: usize = 8;

/// A fault being served.
#[derive(Debug, Clone, Copy, PartialEq, Eq, Structural)]
pub struct Fault {
    /// The page it is at.
    pub page: u64,
    /// How often it has been tried.
    pub tries: usize,
}

impl Fault {
    /// A fault at `addr`, not tried yet.
    pub fn new(addr: u64) -> (fault: Fault)
        ensures
            fault.page == mm::down_to(addr as int, 4096),
            fault.tries == 0,
    {
        Fault { page: page_align_down(addr), tries: 0 }
    }
}

/// What to do about a fault next.
pub enum FaultAction {
    /// Nothing more. True means the address has memory at it now, not that
    /// this fault is what put it there.
    Done(bool),
    /// Fill the page from what the plan names, and hand both back.
    Fill(Plan, Prepared),
}

/// What trying a fault once comes to: what to do next, and what was taken for
/// it.
pub open spec fn is_tried<M: Machine>(
    m: MachineView,
    after: MachineView,
    root: u64,
    mem: MemView,
    fault: Fault,
    next: Fault,
    action: FaultAction,
) -> bool {
    if fault.tries >= TRIES {
        next == fault && action == FaultAction::Done(false) && after == m
    } else {
        &&& next == Fault { tries: (fault.tries + 1) as usize, ..fault }
        &&& if change::translation::<M>(m, root, fault.page, 3) is Some {
            action == FaultAction::Done(true) && after == m
        } else {
            match mem.wanted_at(fault.page) {
                None => action == FaultAction::Done(false) && after == m,
                Some((flags, source)) => match action {
                    FaultAction::Done(served) => {
                        &&& !served
                        &&& tables::none_taken(m, after)
                        &&& walk::ran_out(m, after)
                    },
                    FaultAction::Fill(plan, prepared) => {
                        let missing = change::missing::<M>(m, root, fault.page, 3);
                        &&& plan == Plan { flags, source, tables: missing as usize }
                        &&& prepared.page() is Some
                        &&& prepared.stock().len() == missing
                        &&& tables::are_taken::<M>(m, after, prepared.frames())
                        &&& after.journal == m.journal
                    },
                },
            }
        }
    }
}

/// Memory once a page filled for a plan has been committed or refused, and
/// whatever the commit did not use has gone back.
pub open spec fn settled<M: Machine>(
    m: MachineView,
    root: u64,
    mem: MemView,
    page: u64,
    plan: Plan,
    phys: u64,
    stock: Seq<u64>,
) -> MachineView {
    if space::committed::<M>(m, root, mem, page, plan, stock.len()) is Done {
        let (put, left) = change::published::<M>(m, root, page, phys, plan.flags, stock);
        teardown::all_released(put.noting(Event::FlushPage(page)), left.reverse())
    } else {
        teardown::all_released(m, seq![phys] + stock.reverse())
    }
}

/// A page in hand for a fault in a space, with the frames for its tables: all
/// of them the holder's own.
pub open spec fn is_ready_for<M: Machine>(m: MachineView, root: u64, prepared: Prepared) -> bool {
    &&& prepared.page() is Some
    &&& M::nameable(prepared.page()->0)
    &&& space_ops::are_in_hand::<M>(m, root, prepared.stock())
    &&& forall|p: Seq<int>|
        tree::is_path(p, 3) ==> #[trigger] tree::reached::<M>(m, root, 3, p) != prepared.page()
}

/// What is taken for a fault is in hand for it, and the space is as it was.
pub proof fn what_is_taken_is_in_hand<M: Machine>(
    m: MachineView,
    after: MachineView,
    root: u64,
    prepared: Prepared,
)
    requires
        tables::is_space::<M>(m, root),
        tables::are_taken::<M>(m, after, prepared.frames()),
        prepared.page() is Some,
        prepared.stock().len() <= DEPTH,
    ensures
        tables::is_space::<M>(after, root),
        is_ready_for::<M>(after, root, prepared),
{
    let frames = prepared.frames();
    let stock = prepared.stock();
    assert(frames[0] == prepared.page()->0);
    assert forall|i: int| 0 <= i < stock.len() implies frames.contains(#[trigger] stock[i]) by {
        assert(frames[i + 1] == stock[i]);
    }
    assert forall|i: int, j: int| 0 <= i < j < stock.len() implies #[trigger] stock[i]
        != #[trigger] stock[j] by {
        assert(frames[i + 1] == stock[i] && frames[j + 1] == stock[j]);
    }
    tables::taken_frames_are_spare::<M>(m, after, root, frames, stock);
    let page = seq![prepared.page()->0];
    assert(page[0] == frames[0]);
    assert(frames.contains(page[0]));
    tables::taken_frames_are_spare::<M>(m, after, root, frames, page);
    assert(tree::is_spare::<M>(after, root, page[0]));
    tables::a_space_is_not_disturbed::<M>(m, after, root);
    assert forall|i: int| 0 <= i < stock.len() implies after.count(#[trigger] stock[i]) > 0 by {
        assert(frames[i + 1] == stock[i]);
    }
}

/// Trying a fault leaves the space as it was, and what there is to fill in
/// hand.
proof fn what_a_try_leaves<M: Machine>(
    m: MachineView,
    after: MachineView,
    root: u64,
    mem: MemView,
    fault: Fault,
    next: Fault,
    action: FaultAction,
)
    requires
        tables::is_space::<M>(m, root),
        is_tried::<M>(m, after, root, mem, fault, next, action),
    ensures
        tables::is_space::<M>(after, root),
        action matches FaultAction::Fill(_, prepared) ==> is_ready_for::<M>(after, root, prepared),
{
    match action {
        FaultAction::Fill(_, prepared) => {
            tables::missing_is_bounded::<M>(m, root, fault.page, 3);
            what_is_taken_is_in_hand::<M>(m, after, root, prepared);
        },
        FaultAction::Done(_) => {
            if after != m {
                tables::a_space_is_not_disturbed::<M>(m, after, root);
            }
        },
    }
}

/// Giving back what was in hand moves nothing in the space.
proof fn what_goes_back<M: Machine>(m: MachineView, root: u64, prepared: Prepared)
    requires
        tables::is_space::<M>(m, root),
        is_ready_for::<M>(m, root, prepared),
    ensures
        tables::is_space::<M>(teardown::all_released(m, prepared.way_back()), root),
        forall|virt: u64| #[trigger]
            tree::leaf_at::<M>(teardown::all_released(m, prepared.way_back()), root, virt)
                == tree::leaf_at::<M>(m, root, virt),
{
    let phys = prepared.page()->0;
    let stock = prepared.stock();
    let list = seq![phys] + stock.reverse();
    assert forall|i: int|
        #![trigger list[i]]
        0 <= i < list.len() implies forall|p: Seq<int>|
        tree::is_path(p, 3) ==> #[trigger] tree::reached::<M>(m, root, 3, p) != Some(list[i]) by {
        if i > 0 {
            let k = stock.len() - i;
            assert(list[i] == stock[k]);
            assert(tree::is_spare::<M>(m, root, stock[k]));
        } else {
            assert(list[0] == phys);
        }
    }
    tables::releasing_keeps_a_space::<M>(m, list, root);
    tables::releasing_moves_nothing::<M>(m, list, root);
}

/// Settling keeps the space one whose tables are held, and where the page went
/// in, the address has it.
proof fn settling<M: Machine>(
    m: MachineView,
    root: u64,
    mem: MemView,
    page: u64,
    plan: Plan,
    prepared: Prepared,
)
    requires
        tables::is_space::<M>(m, root),
        is_ready_for::<M>(m, root, prepared),
        page % 0x1000 == 0,
    ensures
        ({
            let phys = prepared.page()->0;
            let stock = prepared.stock();
            let after = settled::<M>(m, root, mem, page, plan, phys, stock);
            let outcome = space::committed::<M>(m, root, mem, page, plan, stock.len());
            &&& tables::is_space::<M>(after, root)
            &&& outcome is Done ==> {
                &&& tree::leaf_at::<M>(after, root, page) == Some(M::leaf_bits(phys, plan.flags))
                &&& change::others_unchanged::<M>(m, after, root, page)
                &&& change::translation::<M>(after, root, page, 3) == Some(phys)
            }
            &&& !(outcome is Done) ==> forall|virt: u64| #[trigger]
                tree::leaf_at::<M>(after, root, virt) == tree::leaf_at::<M>(m, root, virt)
        }),
{
    M::format_holds();
    let phys = prepared.page()->0;
    let stock = prepared.stock();
    let outcome = space::committed::<M>(m, root, mem, page, plan, stock.len());
    let after = settled::<M>(m, root, mem, page, plan, phys, stock);
    if outcome is Done {
        let (put, left) = change::published::<M>(m, root, page, phys, plan.flags, stock);
        let told = put.noting(Event::FlushPage(page));
        let list = left.reverse();
        tables::publishing_keeps_a_space::<M>(m, root, page, phys, plan.flags, stock);
        tables::same_words_and_counts::<M>(put, told, root);
        tables::releasing_moves_nothing::<M>(told, list, root);
        assert forall|i: int|
            #![trigger list[i]]
            0 <= i < list.len() implies forall|p: Seq<int>|
            tree::is_path(p, 3) ==> #[trigger] tree::reached::<M>(told, root, 3, p) != Some(
                list[i],
            ) by {
            let k = left.len() - 1 - i;
            assert(list[i] == left[k]);
            assert(tree::is_spare::<M>(put, root, left[k]));
            assert forall|p: Seq<int>| tree::is_path(p, 3) implies #[trigger] tree::reached::<M>(
                told,
                root,
                3,
                p,
            ) != Some(list[i]) by {
                assert(tree::reached::<M>(put, root, 3, p) != Some(left[k]));
            }
        }
        tables::releasing_keeps_a_space::<M>(told, list, root);
        assert(tree::leaf_at::<M>(told, root, page) == tree::leaf_at::<M>(put, root, page));
        assert forall|other: u64|
            tree::page_of(other) != tree::page_of(page) implies #[trigger] tree::leaf_at::<M>(
            after,
            root,
            other,
        ) == tree::leaf_at::<M>(m, root, other) by {
            assert(tree::leaf_at::<M>(told, root, other) == tree::leaf_at::<M>(put, root, other));
            assert(tree::leaf_at::<M>(put, root, other) == tree::leaf_at::<M>(m, root, other));
        }
        tree::path_of_is_path(page, 0);
        space_ops::translation_of_a_page::<M>(after, root, page, root, 0);
    } else {
        what_goes_back::<M>(m, root, prepared);
    }
}

impl Mm {
    /// Decide how to back the page of a fault with memory, if the heap or a
    /// region covers it.
    ///
    /// The hardware found nothing at this address. Where the tables have
    /// something at it, the two are readings of one descriptor either side of
    /// a sibling's store, and the instruction can run again.
    pub fn fault_in<M: Machine>(&self, machine: &mut M, fault: &mut Fault) -> (action: FaultAction)
        requires
            self.valid(),
            tree::is_tree::<M>(old(machine).state(), self.top(), 3),
        ensures
            is_tried::<M>(
                old(machine).state(),
                final(machine).state(),
                self.top(),
                self.record()@,
                *old(fault),
                *final(fault),
                action,
            ),
            tables::is_space::<M>(old(machine).state(), self.top()) ==> {
                &&& tables::is_space::<M>(final(machine).state(), self.top())
                &&& action matches FaultAction::Fill(_, prepared) ==> is_ready_for::<M>(
                    final(machine).state(),
                    self.top(),
                    prepared,
                )
            },
    {
        let action = self.try_fault(machine, fault);
        proof {
            if tables::is_space::<M>(old(machine).state(), self.top()) {
                what_a_try_leaves::<M>(
                    old(machine).state(),
                    machine.state(),
                    self.top(),
                    self.record()@,
                    *old(fault),
                    *fault,
                    action,
                );
            }
        }
        action
    }

    /// One try at a fault: what to do about it next.
    fn try_fault<M: Machine>(&self, machine: &mut M, fault: &mut Fault) -> (action: FaultAction)
        requires
            self.valid(),
            tree::is_tree::<M>(old(machine).state(), self.top(), 3),
        ensures
            is_tried::<M>(
                old(machine).state(),
                final(machine).state(),
                self.top(),
                self.record()@,
                *old(fault),
                *final(fault),
                action,
            ),
    {
        if fault.tries >= TRIES {
            return FaultAction::Done(false);
        }
        *fault = Fault { page: fault.page, tries: fault.tries + 1 };
        let space = self.walk();
        if space.translate(machine, fault.page).is_some() {
            return FaultAction::Done(true);
        }
        let missing = space.missing_tables(machine, fault.page);
        let plan = match self.mem().plan(fault.page, missing) {
            Some(plan) => plan,
            None => {
                return FaultAction::Done(false);
            },
        };
        match Prepared::new(machine, plan.tables) {
            Some(prepared) => FaultAction::Fill(plan, prepared),
            None => FaultAction::Done(false),
        }
    }

    /// Take back a page that was to be filled for a plan, and whether it was:
    /// a page the source could not give is a fault the program is not served.
    ///
    /// The page a refused commit did not take goes back here, with the lock
    /// let go.
    pub fn fault_filled<M: Machine>(
        &self,
        machine: &mut M,
        fault: &mut Fault,
        plan: Plan,
        prepared: Prepared,
        filled: bool,
    ) -> (action: FaultAction)
        requires
            self.valid(),
            old(fault).page % 0x1000 == 0,
            tables::is_space::<M>(old(machine).state(), self.top()),
            is_ready_for::<M>(old(machine).state(), self.top(), prepared),
        ensures
            ({
                let m = old(machine).state();
                let mem = self.record()@;
                let page = old(fault).page;
                let after = settled::<M>(
                    m,
                    self.top(),
                    mem,
                    page,
                    plan,
                    prepared.page()->0,
                    prepared.stock(),
                );
                if !filled {
                    &&& action == FaultAction::Done(false)
                    &&& *final(fault) == *old(fault)
                    &&& final(machine).state() == teardown::all_released(m, prepared.way_back())
                } else {
                    match space::committed::<M>(
                        m,
                        self.top(),
                        mem,
                        page,
                        plan,
                        prepared.stock().len(),
                    ) {
                        Commit::Done | Commit::Already => {
                            &&& action == FaultAction::Done(true)
                            &&& *final(fault) == *old(fault)
                            &&& final(machine).state() == after
                        },
                        Commit::Changed | Commit::ShortOfTables => is_tried::<M>(
                            after,
                            final(machine).state(),
                            self.top(),
                            mem,
                            *old(fault),
                            *final(fault),
                            action,
                        ),
                    }
                }
            }),
            tables::is_space::<M>(final(machine).state(), self.top()),
            action matches FaultAction::Fill(_, again) ==> is_ready_for::<M>(
                final(machine).state(),
                self.top(),
                again,
            ),
    {
        let ghost m = machine.state();
        let ghost root = self.top();
        let ghost mem = self.record()@;
        let mut prepared = prepared;
        if !filled {
            proof {
                what_goes_back::<M>(m, root, prepared);
            }
            prepared.give_back(machine);
            return FaultAction::Done(false);
        }
        let ghost phys = prepared.page()->0;
        let ghost stock = prepared.stock();
        proof {
            settling::<M>(m, root, mem, fault.page, plan, prepared);
        }
        let mut tlb = Tlb::new();
        let outcome = self.commit(machine, fault.page, &plan, &mut prepared, &mut tlb);
        tlb.flush(machine);
        prepared.give_back(machine);
        assert(machine.state() == settled::<M>(m, root, mem, fault.page, plan, phys, stock));
        match outcome {
            Commit::Done => FaultAction::Done(true),
            Commit::Already => FaultAction::Done(true),
            Commit::Changed => self.fault_in(machine, fault),
            Commit::ShortOfTables => self.fault_in(machine, fault),
        }
    }

    /// Put a page in for a plan, having checked that the record still says the
    /// same thing and that nothing has been mapped there meanwhile.
    fn commit<M: Machine>(
        &self,
        machine: &mut M,
        page: u64,
        plan: &Plan,
        prepared: &mut Prepared,
        tlb: &mut Tlb,
    ) -> (outcome: Commit)
        requires
            self.valid(),
            old(prepared).page() is Some,
            tree::is_tree::<M>(old(machine).state(), self.top(), 3),
            tree::are_spare::<M>(old(machine).state(), self.top(), old(prepared).stock()),
        ensures
            outcome == space::committed::<M>(
                old(machine).state(),
                self.top(),
                self.record()@,
                page,
                *plan,
                old(prepared).stock().len(),
            ),
            outcome is Done ==> {
                &&& (final(machine).state(), final(prepared).stock()) == change::published::<M>(
                    old(machine).state(),
                    self.top(),
                    page,
                    old(prepared).page()->0,
                    plan.flags,
                    old(prepared).stock(),
                )
                &&& final(prepared).page() is None
                &&& *final(tlb) == old(tlb).noted(page)
            },
            !(outcome is Done) ==> {
                &&& final(machine).state() == old(machine).state()
                &&& final(prepared).page() == old(prepared).page()
                &&& final(prepared).stock() == old(prepared).stock()
                &&& *final(tlb) == *old(tlb)
            },
    {
        let space = self.walk();
        if space.translate(machine, page).is_some() {
            return Commit::Already;
        }
        let now = match self.mem().plan(page, 0) {
            Some(now) => now,
            None => {
                return Commit::Changed;
            },
        };
        if !now.same_page_as(plan) {
            return Commit::Changed;
        }
        match prepared.publish_in(machine, &space, page, plan.flags, tlb) {
            Ok(_) => Commit::Done,
            Err(walk::Refused::ShortOfTables) => Commit::ShortOfTables,
            Err(_) => Commit::Already,
        }
    }
}

/// What is refused for anything but the want of tables is refused because the
/// address has something at it.
proof fn a_refusal_names_a_mapping<M: Machine>(
    m: MachineView,
    table: u64,
    virt: u64,
    level: nat,
    stock: nat,
)
    requires
        change::refusal::<M>(m, table, virt, level, stock) matches Some(refused) && !(refused is ShortOfTables),
    ensures
        change::translation::<M>(m, table, virt, level) is Some,
    decreases level,
{
    if level > 0 {
        let bits = m.word(table, walk::index_at(virt, level as int));
        if M::is_present(bits) && !M::stops(bits, level as int) {
            a_refusal_names_a_mapping::<M>(
                m,
                M::named(bits),
                virt,
                (level - 1) as nat,
                stock,
            );
        }
    }
}

/// Where an address leads rests on the words of the tables alone.
proof fn the_same_words_lead_to_the_same_place<M: Machine>(
    m: MachineView,
    after: MachineView,
    table: u64,
    virt: u64,
    level: nat,
)
    requires
        after.words == m.words,
    ensures
        change::translation::<M>(after, table, virt, level) == change::translation::<M>(
            m,
            table,
            virt,
            level,
        ),
    decreases level,
{
    if level > 0 {
        let bits = m.word(table, walk::index_at(virt, level as int));
        the_same_words_lead_to_the_same_place::<M>(
            m,
            after,
            M::named(bits),
            virt,
            (level - 1) as nat,
        );
    }
}

/// A fault answered as served has memory at its page: either it was there, and
/// stays where it was, or this fault put it there, as the record wants it.
pub proof fn a_served_fault_has_memory<M: Machine>(
    m: MachineView,
    root: u64,
    mem: MemView,
    page: u64,
    plan: Plan,
    prepared: Prepared,
)
    requires
        tables::is_space::<M>(m, root),
        is_ready_for::<M>(m, root, prepared),
        page % 0x1000 == 0,
    ensures
        ({
            let outcome = space::committed::<M>(m, root, mem, page, plan, prepared.stock().len());
            let after = settled::<M>(
                m,
                root,
                mem,
                page,
                plan,
                prepared.page()->0,
                prepared.stock(),
            );
            let leads_to = change::translation::<M>(after, root, page, 3);
            &&& outcome is Already ==> leads_to is Some && leads_to == change::translation::<M>(
                m,
                root,
                page,
                3,
            )
            &&& outcome is Done ==> leads_to == prepared.page() && mem.wanted_at(page) == Some(
                (plan.flags, plan.source),
            )
        }),
{
    settling::<M>(m, root, mem, page, plan, prepared);
    let stock = prepared.stock();
    if space::committed::<M>(m, root, mem, page, plan, stock.len()) is Already {
        let list = seq![prepared.page()->0] + stock.reverse();
        let after = teardown::all_released(m, list);
        tables::releasing_changes_no_word(m, list);
        the_same_words_lead_to_the_same_place::<M>(m, after, root, page, 3);
        if change::translation::<M>(m, root, page, 3) is None {
            a_refusal_names_a_mapping::<M>(m, root, page, 3, stock.len());
        }
    }
}

/// The bytes of a page filled from what a file holds: `want` of them from
/// `offset` where the file has them, and zeroes past them. With them, how many
/// came from the file.
pub fn fill_from(data: &[u8], offset: u64, want: usize) -> (r: (Vec<u8>, usize))
    requires
        want <= PAGE_SIZE,
    ensures
        ({
            let rest = if offset < data@.len() {
                data@.len() - offset
            } else {
                0
            };
            let available = if rest < want {
                rest
            } else {
                want as int
            };
            &&& r.1 == available
            &&& r.0@.len() == PAGE_SIZE
            &&& forall|i: int| 0 <= i < available ==> #[trigger] r.0@[i] == data@[offset + i]
            &&& forall|i: int| available <= i < PAGE_SIZE ==> #[trigger] r.0@[i] == 0
        }),
{
    let mut page: Vec<u8> = Vec::new();
    let length: usize = data.len();
    let from: usize = if offset < length as u64 {
        offset as usize
    } else {
        length
    };
    let rest: usize = length - from;
    let available: usize = if rest < want {
        rest
    } else {
        want
    };
    while page.len() < PAGE_SIZE
        invariant
            page@.len() <= PAGE_SIZE,
            available <= want <= PAGE_SIZE,
            length == data@.len(),
            from + available <= length,
            available > 0 ==> from == offset,
            forall|i: int| 0 <= i < page@.len() && i < available ==> #[trigger] page@[i]
                == data@[offset + i],
            forall|i: int| available <= i < page@.len() ==> #[trigger] page@[i] == 0,
        decreases PAGE_SIZE - page@.len(),
    {
        if page.len() < available {
            page.push(data[from + page.len()]);
        } else {
            page.push(0);
        }
    }
    (page, available)
}

/// Whether the instruction caches have to be told about a page once it is
/// filled: these bytes have just been written through a different address than
/// the one they will be fetched from.
pub fn must_sync(filled: usize, flags: u64) -> (r: bool)
    ensures
        r == (filled > 0 && flags & NO_EXECUTE == 0),
{
    filled > 0 && flags & NO_EXECUTE == 0
}

} // verus!
