//! A machine of plain memory: frames held in vectors, given out by the bitmap
//! allocator, with descriptors in the form a 64-bit PC walks. Nothing runs on
//! it; it is what the translation tables can be built in and looked at away
//! from the hardware.

use crate::mm::frame::{self, BitmapAllocator, FramesView};
use crate::mm::record::{COW, PRESENT, USER, WRITABLE};
use crate::mm::walk::{self, Event, Machine, MachineView, ENTRIES};
use vstd::prelude::*;

verus! {

/// The bits of a descriptor that are the address it names.
pub const ADDRESS: u64 = 0x000F_FFFF_FFFF_F000;

/// A descriptor above the last level that maps what it covers itself.
pub const HUGE: u64 = 0x80;

/// How many frames there can be with an address a descriptor can name.
pub const MOST_FRAMES: usize = 0x8_0000;

/// The memory and who holds it.
struct Memory {
    words: Vec<Vec<u64>>,
    allocator: BitmapAllocator,
    journal: Vec<Event>,
}

impl Memory {
    spec fn valid(&self) -> bool {
        &&& self.allocator.valid()
        &&& self.allocator@.valid()
        &&& self.words@.len() == self.allocator@.frames()
        &&& self.words@.len() <= MOST_FRAMES
        &&& forall|f: int|
            0 <= f < self.words@.len() ==> (#[trigger] self.words@[f])@.len() == ENTRIES
    }

    spec fn covers(&self, phys: u64) -> bool {
        phys % 4096 == 0 && phys / 4096 < self.words@.len()
    }

    spec fn state(&self) -> MachineView {
        MachineView {
            words: Map::new(
                |phys: u64| self.covers(phys),
                |phys: u64| self.words@[(phys / 4096) as int]@,
            ),
            counts: Map::new(
                |phys: u64| self.covers(phys),
                |phys: u64| self.allocator@.counts[(phys / 4096) as int] as int,
            ),
            journal: self.journal@,
        }
    }

    fn empty() -> (memory: Memory)
        ensures
            memory.valid(),
    {
        let allocator = BitmapAllocator::empty();
        proof {
            allocator.is_sound();
        }
        Memory { words: Vec::new(), allocator, journal: Vec::new() }
    }

    fn read(&self, phys: u64, index: usize) -> (word: u64)
        requires
            self.valid(),
            self.state().has(phys),
            index < ENTRIES,
        ensures
            word == self.state().word(phys, index as int),
    {
        let f: usize = (phys / 4096) as usize;
        self.words[f][index]
    }

    fn note(&mut self, event: Event)
        requires
            old(self).valid(),
        ensures
            final(self).valid(),
            final(self).state() == old(self).state().noting(event),
    {
        self.journal.push(event);
        assert(self.state().words =~= old(self).state().words);
        assert(self.state().counts =~= old(self).state().counts);
    }

    /// Put these words in a frame.
    fn fill(&mut self, phys: u64, words: Vec<u64>)
        requires
            old(self).valid(),
            old(self).covers(phys),
            words@.len() == ENTRIES,
        ensures
            final(self).valid(),
            final(self).state() == (MachineView {
                words: old(self).state().words.insert(phys, words@),
                ..old(self).state()
            }),
            final(self).allocator == old(self).allocator,
    {
        let f: usize = (phys / 4096) as usize;
        self.words.set(f, words);
        proof {
            same_frame_same_address(phys);
            assert(self.state().words =~= old(self).state().words.insert(phys, words@)) by {
                assert forall|other: u64| #[trigger] self.covers(other) implies self.state().words[other]
                    == old(self).state().words.insert(phys, words@)[other] by {
                    if other != phys {
                        assert(other / 4096 != phys / 4096);
                    }
                }
            }
            assert(self.state().counts =~= old(self).state().counts);
        }
    }

    fn write(&mut self, phys: u64, index: usize, word: u64)
        requires
            old(self).valid(),
            old(self).state().has(phys),
            index < ENTRIES,
        ensures
            final(self).valid(),
            final(self).state() == (MachineView {
                words: old(self).state().words.insert(
                    phys,
                    old(self).state().words[phys].update(index as int, word),
                ),
                ..old(self).state()
            }),
    {
        let mut words = self.copy_of(phys);
        words.set(index, word);
        self.fill(phys, words);
    }

    fn copy_of(&self, phys: u64) -> (words: Vec<u64>)
        requires
            self.valid(),
            self.covers(phys),
        ensures
            words@ == self.state().words[phys],
            words@.len() == ENTRIES,
    {
        let f: usize = (phys / 4096) as usize;
        let mut words: Vec<u64> = Vec::new();
        while words.len() < ENTRIES
            invariant
                f < self.words@.len(),
                self.words@[f as int]@.len() == ENTRIES,
                words@.len() <= ENTRIES,
                words@ == self.words@[f as int]@.take(words@.len() as int),
            decreases ENTRIES - words@.len(),
        {
            words.push(self.words[f][words.len()]);
            assert(words@ =~= self.words@[f as int]@.take(words@.len() as int));
        }
        assert(words@ =~= self.words@[f as int]@);
        words
    }

    fn take(&mut self) -> (frame: Option<u64>)
        requires
            old(self).valid(),
        ensures
            final(self).valid(),
            match frame {
                None => final(self).state() == old(self).state().noting(Event::NoFrame),
                Some(phys) => {
                    &&& old(self).state().count(phys) == 0
                    &&& old(self).state().has(phys)
                    &&& phys % 4096 == 0
                    &&& phys / 4096 < MOST_FRAMES
                    &&& final(self).state() == old(self).state().handed_over(phys)
                },
            },
    {
        let ghost before = self.allocator@;
        let ghost start = self.state();
        let taken = self.allocator.alloc_frame();
        proof {
            self.allocator.is_sound();
        }
        match taken {
            None => {
                assert(self.state().counts =~= start.counts);
                assert(self.state().words =~= start.words);
                self.note(Event::NoFrame);
                None
            },
            Some(phys) => {
                let ghost f = before.next_frame()->0;
                proof {
                    clear_is_clear(before.held, before.hint / 64 * 64);
                    clear_is_clear(before.held, 0);
                    assert(0 <= f < before.frames() && !before.held[f]);
                    assert(before.counts[f] == 0);
                    assert(phys == f * 4096);
                    same_frame_same_address(phys);
                    assert(self.state().words =~= start.words);
                    assert(self.state().counts =~= start.counts.insert(phys, 1)) by {
                        assert forall|other: u64| #[trigger]
                            self.covers(other) implies self.state().counts[other]
                            == start.counts.insert(phys, 1)[other] by {
                            if other != phys {
                                assert(other / 4096 != phys / 4096);
                            }
                        }
                    }
                }
                let mut blank: Vec<u64> = Vec::new();
                while blank.len() < ENTRIES
                    invariant
                        blank@.len() <= ENTRIES,
                        forall|i: int| 0 <= i < blank@.len() ==> #[trigger] blank@[i] == 0,
                    decreases ENTRIES - blank@.len(),
                {
                    blank.push(0);
                }
                assert(blank@ =~= walk::blank());
                self.fill(phys, blank);
                Some(phys)
            },
        }
    }

    fn release(&mut self, phys: u64)
        requires
            old(self).valid(),
        ensures
            final(self).valid(),
            final(self).state() == old(self).state().released(phys),
    {
        let ghost before = self.allocator@;
        let ghost start = self.state();
        if phys % 4096 == 0 && phys / 4096 < self.words.len() as u64 {
            self.allocator.free(phys);
        }
        proof {
            self.allocator.is_sound();
            same_frame_same_address(phys);
            let counts = if start.count(phys) > 0 {
                start.counts.insert(phys, start.count(phys) - 1)
            } else {
                start.counts
            };
            assert(self.state().words =~= start.words);
            assert(self.state().counts =~= counts) by {
                assert forall|other: u64| #[trigger]
                    self.covers(other) implies self.state().counts[other] == counts[other] by {
                    if other != phys {
                        assert(self.covers(phys) ==> other / 4096 != phys / 4096);
                    }
                    if self.covers(phys) && !before.held[(phys / 4096) as int] {
                        assert(before.counts[(phys / 4096) as int] == 0);
                    }
                }
            }
        }
        self.note(Event::Free(phys));
    }

    fn share(&mut self, phys: u64)
        requires
            old(self).valid(),
        ensures
            final(self).valid(),
            final(self).state() == old(self).state().shared(phys),
    {
        let ghost before = self.allocator@;
        let ghost start = self.state();
        if self.references(phys) > 0 {
            self.allocator.share(phys);
        }
        proof {
            self.allocator.is_sound();
            same_frame_same_address(phys);
            let after = start.shared(phys);
            assert(self.state().words =~= start.words);
            assert(self.state().counts =~= after.counts) by {
                assert forall|other: u64| #[trigger]
                    self.covers(other) implies self.state().counts[other] == after.counts[other] by {
                    if other != phys {
                        assert(self.covers(phys) ==> other / 4096 != phys / 4096);
                    }
                    if self.covers(phys) && !before.held[(phys / 4096) as int] {
                        assert(before.counts[(phys / 4096) as int] == 0);
                    }
                }
            }
        }
    }

    fn references(&self, phys: u64) -> (count: u32)
        requires
            self.valid(),
        ensures
            count == self.state().count(phys),
    {
        if phys % 4096 == 0 && phys / 4096 < self.words.len() as u64 {
            self.allocator.references(phys) as u32
        } else {
            0
        }
    }
}

/// A frame has one address.
proof fn same_frame_same_address(phys: u64)
    ensures
        forall|other: u64|
            other % 4096 == 0 && phys % 4096 == 0 && other != phys ==> #[trigger] (other / 4096)
                != phys / 4096,
{
}

/// What the first clear frame is: one that is not held.
proof fn clear_is_clear(held: Seq<bool>, from: int)
    ensures
        frame::first_clear(held, from) matches Some(f) ==> 0 <= f < held.len()
            && !held[f],
    decreases held.len() - from,
{
    if 0 <= from < held.len() && held[from] {
        clear_is_clear(held, from + 1);
    }
}

/// A machine of plain memory.
pub struct Ram {
    memory: Memory,
}

impl Ram {
    #[verifier::type_invariant]
    spec fn is_sound(self) -> bool {
        self.memory.valid()
    }

    /// Memory for the frames an allocator covers, all of it zero.
    pub fn new(allocator: BitmapAllocator) -> (ram: Ram)
        requires
            allocator.valid(),
            allocator@.frames() <= MOST_FRAMES,
        ensures
            ram.state().journal == Seq::<Event>::empty(),
            forall|phys: u64|
                phys % 4096 == 0 && phys / 4096 < allocator@.frames() ==> #[trigger] ram.state().has(
                    phys,
                ) && ram.state().count(phys) == allocator@.references(phys)
                    && ram.state().words[phys] == walk::blank(),
    {
        let frames: usize = allocator.covered();
        let mut words: Vec<Vec<u64>> = Vec::new();
        while words.len() < frames
            invariant
                words@.len() <= frames,
                forall|f: int|
                    0 <= f < words@.len() ==> (#[trigger] words@[f])@ == walk::blank(),
            decreases frames - words@.len(),
        {
            let mut blank: Vec<u64> = Vec::new();
            while blank.len() < ENTRIES
                invariant
                    blank@.len() <= ENTRIES,
                    forall|i: int| 0 <= i < blank@.len() ==> #[trigger] blank@[i] == 0,
                decreases ENTRIES - blank@.len(),
            {
                blank.push(0);
            }
            assert(blank@ =~= walk::blank());
            words.push(blank);
        }
        proof {
            allocator.is_sound();
        }
        Ram { memory: Memory { words, allocator, journal: Vec::new() } }
    }

    /// What the machine was asked to do so far.
    pub fn journal(&self) -> (journal: &Vec<Event>)
        ensures
            journal@ == self.state().journal,
    {
        &self.memory.journal
    }

    /// What the allocator of this memory knows.
    pub closed spec fn frames(&self) -> FramesView {
        self.memory.allocator@
    }

    /// How many frames nobody holds.
    pub fn free_frames(&self) -> (count: usize)
        ensures
            count == self.frames().frames() - self.frames().used(),
    {
        proof {
            use_type_invariant(self);
        }
        self.memory.allocator.free_frames()
    }
}

impl Machine for Ram {
    closed spec fn state(&self) -> MachineView {
        self.memory.state()
    }

    open spec fn nameable(phys: u64) -> bool {
        phys & !ADDRESS == 0
    }

    open spec fn leaf_bits(phys: u64, flags: u64) -> u64 {
        (phys & ADDRESS) | (flags & !ADDRESS) | PRESENT
    }

    open spec fn table_bits(phys: u64, under: u64) -> u64 {
        (phys & ADDRESS) | PRESENT | WRITABLE | (under & USER)
    }

    open spec fn is_present(bits: u64) -> bool {
        bits & PRESENT != 0
    }

    open spec fn stops(bits: u64, level: int) -> bool {
        bits & HUGE != 0
    }

    open spec fn named(bits: u64) -> u64 {
        bits & ADDRESS
    }

    open spec fn flags_in(bits: u64) -> u64 {
        bits & !ADDRESS
    }

    open spec fn shared_flags(flags: u64) -> Option<u64> {
        if flags & WRITABLE != 0 {
            Some((flags & !WRITABLE) | COW)
        } else {
            None
        }
    }

    open spec fn widened(bits: u64, flags: u64) -> Option<u64> {
        if flags & USER != 0 && bits & USER == 0 {
            Some(bits | USER)
        } else {
            None
        }
    }

    proof fn format_holds() {
        assert(0u64 & PRESENT == 0) by (bit_vector);
        assert forall|phys: u64| #[trigger] Self::nameable(phys) implies phys % 4096 == 0 by {
            assert(phys & !ADDRESS == 0 ==> phys % 4096 == 0) by (bit_vector);
        }
        assert forall|bits: u64| Self::nameable(#[trigger] Self::named(bits)) by {
            assert((bits & ADDRESS) & !ADDRESS == 0) by (bit_vector);
        }
        assert forall|phys: u64, flags: u64| Self::nameable(phys) implies Self::is_present(
            #[trigger] Self::leaf_bits(phys, flags),
        ) && Self::named(Self::leaf_bits(phys, flags)) == phys by {
            assert(phys & !ADDRESS == 0 ==> ((phys & ADDRESS) | (flags & !ADDRESS) | PRESENT)
                & PRESENT != 0 && ((phys & ADDRESS) | (flags & !ADDRESS) | PRESENT) & ADDRESS
                == phys) by (bit_vector);
        }
        assert forall|phys: u64, under: u64| Self::nameable(phys) implies Self::is_present(
            #[trigger] Self::table_bits(phys, under),
        ) && Self::named(Self::table_bits(phys, under)) == phys by {
            assert(phys & !ADDRESS == 0 ==> ((phys & ADDRESS) | PRESENT | WRITABLE | (under & USER))
                & PRESENT != 0 && ((phys & ADDRESS) | PRESENT | WRITABLE | (under & USER)) & ADDRESS
                == phys) by (bit_vector);
        }
        assert forall|phys: u64, under: u64, level: int|
            Self::nameable(phys) implies !#[trigger] Self::stops(
            Self::table_bits(phys, under),
            level,
        ) by {
            assert(((phys & ADDRESS) | PRESENT | WRITABLE | (under & USER)) & HUGE == 0)
                by (bit_vector);
        }
        assert forall|bits: u64, flags: u64, level: int|
            #![trigger Self::widened(bits, flags), Self::stops(bits, level)]
            Self::is_present(bits) && !Self::stops(bits, level) implies (Self::widened(bits, flags)
            matches Some(wider) ==> Self::is_present(wider) && !Self::stops(wider, level)
            && Self::named(wider) == Self::named(bits)) by {
            assert(bits & PRESENT != 0 && bits & HUGE == 0 ==> (bits | USER) & PRESENT != 0 && (bits
                | USER) & HUGE == 0 && (bits | USER) & ADDRESS == bits & ADDRESS) by (bit_vector);
        }
    }

    fn leaf(&self, phys: u64, flags: u64) -> (bits: u64) {
        (phys & ADDRESS) | (flags & !ADDRESS) | PRESENT
    }

    fn table(&self, phys: u64, under: u64) -> (bits: u64) {
        (phys & ADDRESS) | PRESENT | WRITABLE | (under & USER)
    }

    fn present(&self, bits: u64) -> (r: bool) {
        bits & PRESENT != 0
    }

    fn ends_walk(&self, bits: u64, level: u32) -> (r: bool) {
        bits & HUGE != 0
    }

    fn addr(&self, bits: u64) -> (phys: u64) {
        bits & ADDRESS
    }

    fn flags(&self, bits: u64) -> (flags: u64) {
        bits & !ADDRESS
    }

    fn shared(&self, flags: u64) -> (marked: Option<u64>) {
        if flags & WRITABLE != 0 {
            Some((flags & !WRITABLE) | COW)
        } else {
            None
        }
    }

    fn widen(&self, table_bits: u64, leaf_flags: u64) -> (wider: Option<u64>) {
        if leaf_flags & USER != 0 && table_bits & USER == 0 {
            Some(table_bits | USER)
        } else {
            None
        }
    }

    fn read(&self, table: u64, index: usize) -> (bits: u64) {
        proof {
            use_type_invariant(self);
        }
        self.memory.read(table, index)
    }

    fn write(&mut self, table: u64, index: usize, bits: u64) {
        proof {
            use_type_invariant(&*self);
        }
        let mut memory = Memory::empty();
        core::mem::swap(&mut memory, &mut self.memory);
        memory.write(table, index, bits);
        memory.note(Event::Store { table, index, bits });
        self.memory = memory;
    }

    fn alloc_zeroed(&mut self) -> (frame: Option<u64>) {
        proof {
            use_type_invariant(&*self);
        }
        let mut memory = Memory::empty();
        core::mem::swap(&mut memory, &mut self.memory);
        let frame = memory.take();
        self.memory = memory;
        if let Some(phys) = frame {
            assert(phys % 4096 == 0 && phys < 0x8000_0000 ==> phys & !ADDRESS == 0) by (bit_vector);
        }
        frame
    }

    fn free(&mut self, phys: u64) {
        proof {
            use_type_invariant(&*self);
        }
        let mut memory = Memory::empty();
        core::mem::swap(&mut memory, &mut self.memory);
        memory.release(phys);
        self.memory = memory;
    }

    fn share(&mut self, phys: u64) {
        proof {
            use_type_invariant(&*self);
        }
        let mut memory = Memory::empty();
        core::mem::swap(&mut memory, &mut self.memory);
        memory.share(phys);
        self.memory = memory;
    }

    fn references(&self, phys: u64) -> (count: u32) {
        proof {
            use_type_invariant(self);
        }
        self.memory.references(phys)
    }

    fn copy_frame(&mut self, from: u64, to: u64) {
        proof {
            use_type_invariant(&*self);
        }
        let mut memory = Memory::empty();
        core::mem::swap(&mut memory, &mut self.memory);
        let words = memory.copy_of(from);
        memory.fill(to, words);
        memory.note(Event::Copy { from, to });
        self.memory = memory;
    }

    fn sync_instructions(&mut self, phys: u64) {
        proof {
            use_type_invariant(&*self);
        }
        let mut memory = Memory::empty();
        core::mem::swap(&mut memory, &mut self.memory);
        memory.note(Event::Sync(phys));
        self.memory = memory;
    }

    fn store_barrier(&mut self) {
        proof {
            use_type_invariant(&*self);
        }
        let mut memory = Memory::empty();
        core::mem::swap(&mut memory, &mut self.memory);
        memory.note(Event::Barrier);
        self.memory = memory;
    }

    fn flush_page(&mut self, virt: u64) {
        proof {
            use_type_invariant(&*self);
        }
        let mut memory = Memory::empty();
        core::mem::swap(&mut memory, &mut self.memory);
        memory.note(Event::FlushPage(virt));
        self.memory = memory;
    }

    fn flush_all(&mut self) {
        proof {
            use_type_invariant(&*self);
        }
        let mut memory = Memory::empty();
        core::mem::swap(&mut memory, &mut self.memory);
        memory.note(Event::FlushAll);
        self.memory = memory;
    }
}

/// The flags of a mapping are read back as they were asked for.
pub proof fn flags_are_read_back(phys: u64, flags: u64)
    requires
        flags & ADDRESS == 0,
        flags & PRESENT != 0,
    ensures
        Ram::flags_in(Ram::leaf_bits(phys, flags)) == flags,
{
    assert(flags & ADDRESS == 0 && flags & PRESENT != 0 ==> ((phys & ADDRESS) | (flags & !ADDRESS)
        | PRESENT) & !ADDRESS == flags) by (bit_vector);
}

} // verus!
