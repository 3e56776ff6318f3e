//! The walk of a four-level translation table, and every change to one.
//!
//! The machines have four levels of five hundred and twelve descriptors, a
//! 4 KiB granule and the same questions to answer, and they disagree only
//! about which bits a descriptor is made of and how a cached translation is
//! thrown away. Everything that is the same is here, once: the descent, the
//! tables a descent creates, the tables an unmap gives back, the teardown and
//! the fork walk. `Machine` is what each machine supplies underneath.
//!
//! Nothing here decides *when* a change may be made. Every entry point takes
//! the caller's word for it that nothing else is looking at these tables.

use vstd::prelude::*;

verus! {

/// Descriptors in a table.
pub const ENTRIES: usize = 512;

/// Levels a walk may have to create, which is every level below the top.
pub const DEPTH: usize = 3;

/// Address bits one page covers.
pub const PAGE_BITS: u32 = 12;

/// Address bits one level of the walk consumes.
pub const LEVEL_BITS: u32 = 9;

/// Bytes in a page.
pub const PAGE_BYTES: usize = 4096;

/// How much of the address space one descriptor at `level` covers.
pub open spec fn size_at(level: int) -> int {
    if level == 0 {
        0x1000
    } else if level == 1 {
        0x20_0000
    } else if level == 2 {
        0x4000_0000
    } else {
        0x80_0000_0000
    }
}

/// The descriptor of an address at `level`: 3 in the top table, 0 at the last.
pub open spec fn index_at(virt: u64, level: int) -> int {
    (virt as int / size_at(level)) % 512
}

/// The descriptor of `virt` at `level`: 3 in the top table, 0 at the last.
pub fn index_of(virt: u64, level: u32) -> (index: usize)
    requires
        level < 4,
    ensures
        index == index_at(virt, level as int),
        index < ENTRIES,
{
    let size: u64 = level_size(level);
    ((virt / size) % 512) as usize
}

/// How much of the address space one descriptor at `level` covers.
pub fn level_size(level: u32) -> (size: u64)
    requires
        level < 4,
    ensures
        size == size_at(level as int),
{
    if level == 0 {
        0x1000
    } else if level == 1 {
        0x20_0000
    } else if level == 2 {
        0x4000_0000
    } else {
        0x80_0000_0000
    }
}

/// Something a machine was asked to do, in the order it was asked.
pub enum Event {
    /// Earlier stores go to memory before later ones.
    Barrier,
    /// A descriptor was written.
    Store { table: u64, index: usize, bits: u64 },
    /// Whatever the walker had cached for an address went.
    FlushPage(u64),
    /// Everything the walker had cached went.
    FlushAll,
    /// A reference was given back.
    Free(u64),
    /// A frame was asked for, and there was none.
    NoFrame,
    /// One frame's contents were copied over another's.
    Copy { from: u64, to: u64 },
    /// What was written to a frame was made visible to instruction fetches.
    Sync(u64),
}

/// What a machine's memory holds, who holds on to it, and what it was asked
/// to do.
#[verifier::ext_equal]
pub struct MachineView {
    /// The words of every frame there is.
    pub words: Map<u64, Seq<u64>>,
    /// How many references each frame has.
    pub counts: Map<u64, int>,
    pub journal: Seq<Event>,
}

/// At some point since there was no frame to be had.
pub open spec fn ran_out(before: MachineView, after: MachineView) -> bool {
    exists|i: int|
        before.journal.len() <= i < after.journal.len() && #[trigger] after.journal[i] is NoFrame
}

/// One reference more. The count has sixteen bits, and stays at its end.
pub open spec fn one_more(count: int) -> int {
    if count < 0xFFFF {
        count + 1
    } else {
        count
    }
}

/// A table with nothing in it.
pub open spec fn blank() -> Seq<u64> {
    Seq::new(ENTRIES as nat, |i: int| 0u64)
}

impl MachineView {
    /// There is a frame here, and it has a frame's worth of words.
    pub open spec fn has(self, frame: u64) -> bool {
        self.words.dom().contains(frame) && self.words[frame].len() == ENTRIES
    }

    pub open spec fn word(self, frame: u64, index: int) -> u64 {
        self.words[frame][index]
    }

    pub open spec fn count(self, frame: u64) -> int {
        if self.counts.dom().contains(frame) {
            self.counts[frame]
        } else {
            0
        }
    }

    pub open spec fn noting(self, event: Event) -> MachineView {
        MachineView { journal: self.journal.push(event), ..self }
    }

    /// A descriptor written, with whatever it makes reachable already in
    /// memory.
    pub open spec fn stored(self, table: u64, index: int, bits: u64) -> MachineView {
        MachineView {
            words: self.words.insert(table, self.words[table].update(index, bits)),
            journal: self.journal.push(Event::Barrier).push(
                Event::Store { table, index: index as usize, bits },
            ),
            ..self
        }
    }

    /// Another reference taken on a frame somebody holds.
    pub open spec fn shared(self, frame: u64) -> MachineView {
        MachineView {
            counts: if self.count(frame) > 0 {
                self.counts.insert(frame, one_more(self.count(frame)))
            } else {
                self.counts
            },
            ..self
        }
    }

    /// A reference given back.
    pub open spec fn released(self, frame: u64) -> MachineView {
        MachineView {
            counts: if self.count(frame) > 0 {
                self.counts.insert(frame, self.count(frame) - 1)
            } else {
                self.counts
            },
            ..self
        }.noting(Event::Free(frame))
    }

    /// One frame's contents copied over another's.
    pub open spec fn copied(self, from: u64, to: u64) -> MachineView {
        MachineView { words: self.words.insert(to, self.words[from]), ..self }.noting(
            Event::Copy { from, to },
        )
    }

    /// A fresh frame handed over.
    pub open spec fn handed_over(self, frame: u64) -> MachineView {
        MachineView {
            words: self.words.insert(frame, blank()),
            counts: self.counts.insert(frame, 1),
            ..self
        }
    }
}

/// What a machine's translation tables are made of, where its physical memory
/// is, where its frames come from, and what has to happen around a change to a
/// descriptor.
pub trait Machine: Sized {
    /// What is in the machine's memory.
    spec fn state(&self) -> MachineView;

    /// An address a descriptor can name.
    spec fn nameable(phys: u64) -> bool;

    spec fn leaf_bits(phys: u64, flags: u64) -> u64;

    spec fn table_bits(phys: u64, under: u64) -> u64;

    spec fn is_present(bits: u64) -> bool;

    spec fn stops(bits: u64, level: int) -> bool;

    spec fn named(bits: u64) -> u64;

    spec fn flags_in(bits: u64) -> u64;

    spec fn shared_flags(flags: u64) -> Option<u64>;

    spec fn widened(bits: u64, flags: u64) -> Option<u64>;

    /// What makes a format one that can be walked.
    proof fn format_holds()
        ensures
            !Self::is_present(0),
            forall|phys: u64| #[trigger] Self::nameable(phys) ==> phys % 4096 == 0,
            forall|bits: u64| Self::nameable(#[trigger] Self::named(bits)),
            forall|phys: u64, flags: u64|
                Self::nameable(phys) ==> Self::is_present(
                    #[trigger] Self::leaf_bits(phys, flags),
                ) && Self::named(Self::leaf_bits(phys, flags)) == phys,
            forall|phys: u64, under: u64|
                Self::nameable(phys) ==> Self::is_present(
                    #[trigger] Self::table_bits(phys, under),
                ) && Self::named(Self::table_bits(phys, under)) == phys,
            forall|phys: u64, under: u64, level: int|
                Self::nameable(phys) ==> !#[trigger] Self::stops(
                    Self::table_bits(phys, under),
                    level,
                ),
            forall|bits: u64, flags: u64, level: int|
                #![trigger Self::widened(bits, flags), Self::stops(bits, level)]
                Self::is_present(bits) && !Self::stops(bits, level) ==> (Self::widened(
                    bits,
                    flags,
                ) matches Some(wider) ==> Self::is_present(wider) && !Self::stops(wider, level)
                    && Self::named(wider) == Self::named(bits)),
    ;

    /// Descriptor bits for a last-level entry naming `phys` with `flags`.
    fn leaf(&self, phys: u64, flags: u64) -> (bits: u64)
        ensures
            bits == Self::leaf_bits(phys, flags),
    ;

    /// Descriptor bits for an entry naming the table at `phys`, on the way to
    /// a leaf that will ask for `under`.
    fn table(&self, phys: u64, under: u64) -> (bits: u64)
        ensures
            bits == Self::table_bits(phys, under),
    ;

    /// True when the walker follows this descriptor at all.
    fn present(&self, bits: u64) -> (r: bool)
        ensures
            r == Self::is_present(bits),
    ;

    /// True when the walk stops here rather than descending: a block or large
    /// page. Not asked at level 0, where it stops anyway.
    fn ends_walk(&self, bits: u64, level: u32) -> (r: bool)
        ensures
            r == Self::stops(bits, level as int),
    ;

    /// The output address the descriptor names.
    fn addr(&self, bits: u64) -> (phys: u64)
        ensures
            phys == Self::named(bits),
    ;

    /// The flags as they were asked for, software bits included.
    fn flags(&self, bits: u64) -> (flags: u64)
        ensures
            flags == Self::flags_in(bits),
    ;

    /// The flags a page gets when a second address space starts sharing it
    /// and the first write to either side must make a private copy, or `None`
    /// when the page is already read-only and needs no mark.
    ///
    /// The two machines do not agree on what this is. One spells write
    /// permission as a bit the hardware reads, so sharing has to take that bit
    /// away and the mark is what remembers it was there; the other keeps the
    /// permission as a software bit and derives read-only from the mark, so
    /// the permission stays as it was.
    fn shared(&self, flags: u64) -> (marked: Option<u64>)
        ensures
            marked == Self::shared_flags(flags),
    ;

    /// What a table descriptor has to become before a leaf asking for
    /// `leaf_flags` under it is reachable, or `None` when it already is.
    ///
    /// One machine forbids from above what the level below allows and the
    /// other says nothing about permission above the last level.
    fn widen(&self, table_bits: u64, leaf_flags: u64) -> (wider: Option<u64>)
        ensures
            wider == Self::widened(table_bits, leaf_flags),
    ;

    /// One descriptor of the table at `table`.
    fn read(&self, table: u64, index: usize) -> (bits: u64)
        requires
            self.state().has(table),
            index < ENTRIES,
        ensures
            bits == self.state().word(table, index as int),
    ;

    /// Write one descriptor.
    fn write(&mut self, table: u64, index: usize, bits: u64)
        requires
            old(self).state().has(table),
            index < ENTRIES,
        ensures
            final(self).state() == (MachineView {
                words: old(self).state().words.insert(
                    table,
                    old(self).state().words[table].update(index as int, bits),
                ),
                ..old(self).state()
            }).noting(Event::Store { table, index, bits }),
    ;

    /// A zeroed frame nothing else owns, or `None` when there is none.
    fn alloc_zeroed(&mut self) -> (frame: Option<u64>)
        ensures
            match frame {
                None => final(self).state() == old(self).state().noting(Event::NoFrame),
                Some(phys) => {
                    &&& old(self).state().count(phys) == 0
                    &&& old(self).state().has(phys)
                    &&& Self::nameable(phys)
                    &&& final(self).state() == old(self).state().handed_over(phys)
                },
            },
    ;

    /// Give a reference back.
    fn free(&mut self, phys: u64)
        ensures
            final(self).state() == old(self).state().released(phys),
    ;

    /// Take another reference on a frame this hierarchy already holds one on.
    fn share(&mut self, phys: u64)
        ensures
            final(self).state() == old(self).state().shared(phys),
    ;

    /// How many references the frame at `phys` has.
    fn references(&self, phys: u64) -> (count: u32)
        ensures
            count == self.state().count(phys),
    ;

    /// Copy one frame's contents over another's.
    fn copy_frame(&mut self, from: u64, to: u64)
        requires
            old(self).state().has(from),
            old(self).state().has(to),
        ensures
            final(self).state() == old(self).state().copied(from, to),
    ;

    /// Make what was written to the frame at `phys` visible to instruction
    /// fetches.
    fn sync_instructions(&mut self, phys: u64)
        ensures
            final(self).state() == old(self).state().noting(Event::Sync(phys)),
    ;

    /// Put earlier stores in memory before the descriptor naming what they
    /// filled in.
    fn store_barrier(&mut self)
        ensures
            final(self).state() == old(self).state().noting(Event::Barrier),
    ;

    /// Throw away whatever the walker has cached for `virt`.
    fn flush_page(&mut self, virt: u64)
        ensures
            final(self).state() == old(self).state().noting(Event::FlushPage(virt)),
    ;

    /// Throw away everything the walker has cached.
    fn flush_all(&mut self)
        ensures
            final(self).state() == old(self).state().noting(Event::FlushAll),
    ;
}

/// Translations that a change under way has left behind, and not thrown away
/// yet.
///
/// A translation the hardware has cached outlives the descriptor it was read
/// from, so a frame whose descriptor was cleared is still reachable until the
/// caches are told. Nothing may run between the two, and the release of the
/// frame comes after.
///
/// It collects rather than acting on each change, because a range is as long
/// as a program asks for and the machines invalidate one address at a time.
/// Past the first address the whole space goes at once, which is one operation
/// against as many as the range has pages.
#[derive(Debug, Clone, Copy, PartialEq, Eq, Structural)]
pub enum Tlb {
    /// Nothing has changed since the last flush.
    Clean,
    /// One address has, and no other.
    Page(u64),
    /// More than one has, or a table descriptor did, which covers every
    /// address under it and every unfinished walk the hardware kept.
    All,
}

impl Tlb {
    /// A change at one address recorded.
    pub open spec fn noted(self, virt: u64) -> Tlb {
        match self {
            Tlb::Clean => Tlb::Page(virt),
            Tlb::Page(already) => if already == virt {
                Tlb::Page(virt)
            } else {
                Tlb::All
            },
            Tlb::All => Tlb::All,
        }
    }

    /// Whether throwing away what was recorded throws away what is cached for
    /// an address.
    pub open spec fn covers(self, virt: u64) -> bool {
        match self {
            Tlb::Clean => false,
            Tlb::Page(page) => page == virt,
            Tlb::All => true,
        }
    }

    /// What acting on the record does.
    pub open spec fn flushed(self, state: MachineView) -> MachineView {
        match self {
            Tlb::Clean => state,
            Tlb::Page(virt) => state.noting(Event::FlushPage(virt)),
            Tlb::All => state.noting(Event::FlushAll),
        }
    }

    pub fn new() -> (tlb: Tlb)
        ensures
            tlb == Tlb::Clean,
    {
        Tlb::Clean
    }

    /// Record that the descriptor for `virt` has changed.
    pub fn note(&mut self, virt: u64)
        ensures
            *final(self) == old(self).noted(virt),
    {
        *self = match *self {
            Tlb::Clean => Tlb::Page(virt),
            Tlb::Page(already) => if already == virt {
                Tlb::Page(virt)
            } else {
                Tlb::All
            },
            Tlb::All => Tlb::All,
        };
    }

    /// Record that a table descriptor has changed, or anything else whose
    /// reach is more than one address.
    pub fn note_all(&mut self)
        ensures
            *final(self) == Tlb::All,
    {
        *self = Tlb::All;
    }

    pub fn is_clean(&self) -> (r: bool)
        ensures
            r == (*self is Clean),
    {
        matches!(self, Tlb::Clean)
    }

    /// Act on what was recorded, and start again.
    pub fn flush<M: Machine>(&mut self, machine: &mut M)
        ensures
            final(machine).state() == old(self).flushed(old(machine).state()),
            *final(self) == Tlb::Clean,
    {
        match *self {
            Tlb::Clean => {},
            Tlb::Page(virt) => machine.flush_page(virt),
            Tlb::All => machine.flush_all(),
        }
        *self = Tlb::Clean;
    }
}

/// Once a change at an address is recorded it stays recorded: whatever else is
/// noted, acting on the record throws that address's translation away.
pub proof fn what_is_noted_stays_noted(tlb: Tlb, virt: u64, other: u64)
    ensures
        tlb.noted(virt).covers(virt),
        tlb.covers(virt) ==> tlb.noted(other).covers(virt),
{
}

impl Default for Tlb {
    fn default() -> (tlb: Tlb)
        ensures
            tlb == Tlb::Clean,
    {
        Tlb::Clean
    }
}

/// Zeroed frames a walk may put missing tables in, taken before the lock.
///
/// A descent that finds a level missing cannot ask the allocator for a frame:
/// the allocator has a lock of its own, zeroing a frame is a page of stores,
/// and both are inside whatever section the descent is in. So the frames come
/// from here, and what is left over goes back afterwards, outside.
///
/// This owns nothing. The raw addresses are borrowed to the walk.
pub struct TableStock {
    frames: Vec<u64>,
}

impl View for TableStock {
    type V = Seq<u64>;

    closed spec fn view(&self) -> Seq<u64> {
        self.frames@
    }
}

impl TableStock {
    pub fn new() -> (stock: TableStock)
        ensures
            stock@ == Seq::<u64>::empty(),
    {
        TableStock { frames: Vec::new() }
    }

    /// How many frames are left.
    pub fn len(&self) -> (count: usize)
        ensures
            count == self@.len(),
    {
        self.frames.len()
    }

    pub fn is_empty(&self) -> (r: bool)
        ensures
            r == (self@.len() == 0),
    {
        self.frames.len() == 0
    }

    /// Add a frame. More than `DEPTH` is a mistake in the caller, since a
    /// walk cannot create more levels than there are.
    pub fn push(&mut self, phys: u64)
        requires
            old(self)@.len() < DEPTH,
        ensures
            final(self)@ == old(self)@.push(phys),
    {
        self.frames.push(phys);
    }

    /// Take a frame, or `None` when the stock is out.
    pub fn take(&mut self) -> (frame: Option<u64>)
        ensures
            old(self)@.len() == 0 ==> frame is None && final(self)@ == old(self)@,
            old(self)@.len() > 0 ==> frame == Some(old(self)@.last()) && final(self)@
                == old(self)@.drop_last(),
    {
        if self.frames.len() == 0 {
            return None;
        }
        self.frames.pop()
    }
}

/// A change refused, with nothing written.
#[derive(Debug, Clone, Copy, PartialEq, Eq, Structural)]
pub enum Refused {
    /// The address already has something mapped at it.
    Occupied,
    /// The walk needs a table the stock did not have.
    ShortOfTables,
    /// A block or large page covers the address, so there is no last-level
    /// descriptor to write.
    Blocked,
}

} // verus!
