//! Which address space a processor is on, held as a reference that keeps it
//! alive, and the address spaces whose release waits until interrupts are on.

use std::sync::Arc;
use vstd::prelude::*;

verus! {

/// Something with a number that tells it apart from every other alive at the
/// same moment.
pub trait Numbered {
    spec fn number(&self) -> u64;

    fn id(&self) -> (id: u64)
        ensures
            id == self.number(),
    ;
}

/// The address space loaded on one processor, held.
///
/// A task that exits, or a process that execs, lets go of its reference to the
/// address space it ran in while the processor is still on those tables, and a
/// kernel task runs on whatever tables it finds. Holding the loaded space here
/// as well keeps it alive for as long as the processor stays on it, and it goes
/// when the processor moves off.
///
/// `None` is the kernel's own tables, which are never freed.
pub struct Active<S> {
    loaded: Option<Arc<S>>,
}

impl<S> View for Active<S> {
    type V = Option<Arc<S>>;

    closed spec fn view(&self) -> Option<Arc<S>> {
        self.loaded
    }
}

impl<S: Numbered> Active<S> {
    /// The processor on the kernel's own tables.
    pub fn new() -> (active: Active<S>)
        ensures
            active@ is None,
    {
        Active { loaded: None }
    }

    /// Whether a space is the one loaded.
    pub open spec fn has_loaded(self, space: Arc<S>) -> bool {
        self@ matches Some(loaded) && loaded.number() == space.number()
    }

    /// True when `space` is the one loaded.
    pub fn is(&self, space: &Arc<S>) -> (r: bool)
        ensures
            r == self.has_loaded(*space),
    {
        match &self.loaded {
            Some(loaded) => loaded.id() == space.id(),
            None => false,
        }
    }

    /// Put the processor on `next`, unless it is on it already.
    ///
    /// `load` runs before the reference to the space being left goes, since in
    /// the other order that reference can be the last one and the tables are
    /// freed while the processor is still walking them. The reference is
    /// handed back rather than dropped here: dropping it can free the space,
    /// which walks every table the space has, and the caller is the one that
    /// knows whether interrupts are on.
    #[must_use]
    pub fn switch<F: FnOnce(&S)>(&mut self, next: &Arc<S>, load: F) -> (left: Option<Arc<S>>)
        requires
            load.requires((&**next,)),
        ensures
            old(self).has_loaded(*next) ==> left is None && final(self)@ == old(self)@,
            !old(self).has_loaded(*next) ==> {
                &&& left == old(self)@
                &&& final(self)@ == Some(*next)
                &&& load.ensures((&**next,), ())
            },
    {
        if self.is(next) {
            return None;
        }
        load(&**next);
        let mut left = Some(next.clone());
        core::mem::swap(&mut left, &mut self.loaded);
        left
    }

    /// Put the processor on the kernel's own tables, unless it is on them
    /// already, and hand back the space it was on, for the reason `switch`
    /// gives.
    #[must_use]
    pub fn leave<F: FnOnce()>(&mut self, load_kernel: F) -> (left: Option<Arc<S>>)
        requires
            load_kernel.requires(()),
        ensures
            left == old(self)@,
            final(self)@ is None,
            old(self)@ is Some ==> load_kernel.ensures((), ()),
    {
        if self.loaded.is_none() {
            return None;
        }
        load_kernel();
        self.loaded.take()
    }
}

/// Values whose drop is put off until a caller that may take the time takes
/// them.
pub struct Deferred<T> {
    waiting: Vec<T>,
}

impl<T> View for Deferred<T> {
    type V = Seq<T>;

    closed spec fn view(&self) -> Seq<T> {
        self.waiting@
    }
}

impl<T> Deferred<T> {
    pub fn new() -> (deferred: Deferred<T>)
        ensures
            deferred@ == Seq::<T>::empty(),
    {
        Deferred { waiting: Vec::new() }
    }

    pub fn push(&mut self, value: T)
        ensures
            final(self)@ == old(self)@.push(value),
    {
        self.waiting.push(value);
    }

    /// Everything waiting, for the caller to drop outside whatever lock holds
    /// this.
    #[must_use]
    pub fn take(&mut self) -> (waiting: Vec<T>)
        ensures
            waiting@ == old(self)@,
            final(self)@ == Seq::<T>::empty(),
    {
        let mut waiting: Vec<T> = Vec::new();
        core::mem::swap(&mut waiting, &mut self.waiting);
        waiting
    }
}

} // verus!
