//! Which tables the processor is on, and what becomes of an address space
//! whose last reference goes.
//!
//! A last reference that goes while interrupts are masked does not free the
//! space there: freeing walks every table the space has, which for a large
//! program is long enough to hold the timer off. The tables wait in a list
//! that `release_deferred` empties from a place interrupts are on.

use crate::mm::active::{Active, Deferred, Numbered};
use crate::mm::space::Mm;
use crate::mm::tables::{KernelTables, PageTables};
use crate::mm::teardown;
use crate::mm::tree;
use crate::mm::walk::Machine;
use crate::mm::USER_LIMIT;
use std::sync::Arc;
use vstd::prelude::*;

verus! {

impl Numbered for Mm {
    open spec fn number(&self) -> u64 {
        self.top()
    }

    fn id(&self) -> (id: u64) {
        self.walk().root()
    }
}

/// Whether a place that holds this many guards may sleep.
///
/// A guard masks interrupts and holds the address space's lock, so waiting for
/// the card there stops the timer and leaves every other thread of the process
/// spinning on a lock its holder is not running to release.
pub fn might_sleep(guards: u32) -> (r: bool)
    ensures
        r == (guards == 0),
{
    guards == 0
}

/// Whether the tables loaded are those of the space the processor is on, or
/// the kernel's where it is on none.
pub open spec fn is_on_its_tables(active: Active<Mm>, loaded: u64, kernel: u64) -> bool {
    loaded == (match active@ {
        Some(mm) => mm.top(),
        None => kernel,
    })
}

/// Put the processor on `mm`'s tables, unless it is on them already, and hand
/// back the reference to the address space it was on. `loaded` is the top
/// table the processor walks.
#[must_use]
pub fn switch_mm(active: &mut Active<Mm>, mm: &Arc<Mm>, loaded: &mut u64) -> (left: Option<Arc<Mm>>)
    ensures
        old(active).has_loaded(*mm) ==> left is None && final(active)@ == old(active)@
            && *final(loaded) == *old(loaded),
        !old(active).has_loaded(*mm) ==> left == old(active)@ && final(active)@ == Some(*mm)
            && *final(loaded) == mm.top(),
        forall|kernel: u64| #[trigger]
            is_on_its_tables(*old(active), *old(loaded), kernel) ==> is_on_its_tables(
                *final(active),
                *final(loaded),
                kernel,
            ),
{
    if !active.is(mm) {
        *loaded = mm.walk().root();
    }
    active.switch(
        mm,
        |space: &Mm|
            {
            },
    )
}

/// Put the processor on the kernel's own tables, and hand back the reference
/// to the address space it was on.
#[must_use]
pub fn switch_to_kernel(active: &mut Active<Mm>, kernel: &KernelTables, loaded: &mut u64) -> (left:
    Option<Arc<Mm>>)
    ensures
        left == old(active)@,
        final(active)@ is None,
        *final(loaded) == (if old(active)@ is Some {
            kernel.top()
        } else {
            *old(loaded)
        }),
        is_on_its_tables(*old(active), *old(loaded), kernel.top()) ==> is_on_its_tables(
            *final(active),
            *final(loaded),
            kernel.top(),
        ),
{
    let left = active.leave(
        ||
            {
            },
    );
    if left.is_some() {
        *loaded = kernel.walk().root();
    }
    left
}

/// The references a task let go of when it moved to another address space:
/// its own to the one it ran in, and the processor's to the one it was on.
///
/// Either can be the last. Let go where interrupts are on, that frees the
/// space there; let go where they are masked, the free waits for
/// `release_deferred`.
#[must_use]
pub struct Displaced {
    pub task: Option<Arc<Mm>>,
    pub processor: Option<Arc<Mm>>,
}

/// Let go of the last reference to an address space: free the tables, or leave
/// them for `release_deferred` when interrupts are masked.
///
/// The last reference can go anywhere a reference is held: at a context
/// switch, where the processor lets go of the space it is leaving, or in an
/// exit reached from a fault taken with interrupts off. Freeing a large
/// program's tables there holds the timer off for as long as the walk of every
/// table takes.
pub fn let_go<M: Machine>(
    mm: Mm,
    machine: &mut M,
    deferred: &mut Deferred<PageTables>,
    interrupts_on: bool,
    loaded: u64,
)
    requires
        tree::is_tree::<M>(old(machine).state(), mm.top(), 3),
        loaded != mm.top(),
    ensures
        interrupts_on ==> {
            &&& final(machine).state() == teardown::emptied_below::<M>(
                old(machine).state(),
                mm.top(),
                USER_LIMIT,
            ).released(mm.top())
            &&& final(deferred)@ == old(deferred)@
        },
        !interrupts_on ==> {
            &&& final(machine).state() == old(machine).state()
            &&& final(deferred)@.len() == old(deferred)@.len() + 1
            &&& final(deferred)@.drop_last() == old(deferred)@
            &&& final(deferred)@.last().top() == mm.top()
        },
{
    let tables = mm.into_tables();
    if interrupts_on {
        tables.destroy(machine, loaded);
        return;
    }
    deferred.push(tables);
    assert(deferred@.drop_last() =~= old(deferred)@);
}

/// The address spaces whose last reference went while interrupts were masked,
/// for the caller to destroy. There are none when they are masked here too;
/// the next caller with them on takes the list.
#[must_use]
pub fn release_deferred(deferred: &mut Deferred<PageTables>, interrupts_on: bool) -> (waiting: Vec<
    PageTables,
>)
    ensures
        interrupts_on ==> waiting@ == old(deferred)@ && final(deferred)@.len() == 0,
        !interrupts_on ==> waiting@.len() == 0 && final(deferred)@ == old(deferred)@,
{
    if !interrupts_on {
        return Vec::new();
    }
    deferred.take()
}

} // verus!
