//! Writing a flattened device tree.
//!
//! A blob is two blocks behind a header: a stream of tokens, and a table of
//! property names the tokens point into by offset.

use crate::bytes::{self, extend, push_be32, same_bytes};
use vstd::prelude::*;
use vstd::string::StringSliceAdditionalSpecFns;

verus! {

pub const MAGIC: u32 = 0xD00D_FEED;

pub const BEGIN_NODE: u32 = 1;

pub const END_NODE: u32 = 2;

pub const PROP: u32 = 3;

pub const END: u32 = 9;

/// The version of the format this writes.
pub const VERSION: u32 = 17;

pub const LAST_COMPATIBLE_VERSION: u32 = 16;

/// Where the stream of tokens is: behind a header of forty bytes and a list of
/// reserved memory with nothing in it.
pub const STRUCTURE_AT: usize = 56;

/// Assembles the two blocks a blob is made of.
pub struct Builder {
    structure: Vec<u8>,
    strings: Vec<u8>,
}

/// The two blocks, as far as they have been written.
#[verifier::ext_equal]
pub struct TreeView {
    pub structure: Seq<u8>,
    pub strings: Seq<u8>,
}

/// Bytes with zeroes behind them up to the next four-byte boundary.
pub open spec fn padded(s: Seq<u8>) -> Seq<u8> {
    s + Seq::new(((4 - s.len() % 4) % 4) as nat, |i: int| 0u8)
}

/// Where the first zero at or behind a place is.
pub open spec fn zero_from(strings: Seq<u8>, at: int) -> int
    decreases strings.len() - at,
{
    if at < 0 || at >= strings.len() || strings[at] == 0 {
        at
    } else {
        zero_from(strings, at + 1)
    }
}

/// Where a name is among those that begin at or behind a place.
pub open spec fn name_from(strings: Seq<u8>, name: Seq<u8>, at: int) -> Option<int>
    decreases strings.len() - at,
    when 0 <= at
    via names_end
{
    if at >= strings.len() || zero_from(strings, at) >= strings.len() {
        None
    } else if strings.subrange(at, zero_from(strings, at)) == name {
        Some(at)
    } else {
        name_from(strings, name, zero_from(strings, at) + 1)
    }
}

#[via_fn]
proof fn names_end(strings: Seq<u8>, name: Seq<u8>, at: int) {
    zero_is_not_behind(strings, at);
}

proof fn zero_is_not_behind(strings: Seq<u8>, at: int)
    ensures
        zero_from(strings, at) >= at,
        0 <= at <= strings.len() ==> zero_from(strings, at) <= strings.len(),
        0 <= at && zero_from(strings, at) < strings.len() ==> strings[zero_from(strings, at)] == 0,
        forall|i: int| 0 <= at <= i < zero_from(strings, at) ==> #[trigger] strings[i] != 0,
    decreases strings.len() - at,
{
    if !(at < 0 || at >= strings.len() || strings[at] == 0) {
        zero_is_not_behind(strings, at + 1);
    }
}

/// Names with a zero behind each.
pub open spec fn is_table(strings: Seq<u8>) -> bool {
    strings.len() == 0 || strings.last() == 0
}

/// A name that can be in a table.
pub open spec fn is_name(name: Seq<u8>) -> bool {
    forall|i: int| 0 <= i < name.len() ==> #[trigger] name[i] != 0
}

impl TreeView {
    /// Where a name is in the table, and the table with it.
    pub open spec fn interned(self, name: Seq<u8>) -> (TreeView, int) {
        match name_from(self.strings, name, 0) {
            Some(at) => (self, at),
            None => (
                TreeView { strings: self.strings + name + seq![0u8], ..self },
                self.strings.len() as int,
            ),
        }
    }

    pub open spec fn token(self, value: int) -> TreeView {
        TreeView { structure: self.structure + bytes::be32_bytes(value), ..self }
    }

    pub open spec fn node_begun(self, name: Seq<u8>) -> TreeView {
        let begun = self.token(BEGIN_NODE as int);
        TreeView { structure: padded(begun.structure + name + seq![0u8]), ..begun }
    }

    pub open spec fn with_property(self, name: Seq<u8>, value: Seq<u8>) -> TreeView {
        let (named, offset) = self.interned(name);
        let begun = named.token(PROP as int).token(value.len() as int).token(offset);
        TreeView { structure: padded(begun.structure + value), ..begun }
    }

    /// The whole blob: the header, the empty list of reserved memory, and the
    /// two blocks.
    pub open spec fn blob(self) -> Seq<u8> {
        let structure = self.token(END as int).structure;
        let strings_at = STRUCTURE_AT + structure.len();
        bytes::be32_bytes(MAGIC as int) + bytes::be32_bytes(
            strings_at + self.strings.len(),
        ) + bytes::be32_bytes(STRUCTURE_AT as int) + bytes::be32_bytes(strings_at)
            + bytes::be32_bytes(40) + bytes::be32_bytes(VERSION as int) + bytes::be32_bytes(
            LAST_COMPATIBLE_VERSION as int,
        ) + bytes::be32_bytes(0) + bytes::be32_bytes(self.strings.len() as int)
            + bytes::be32_bytes(structure.len() as int) + Seq::new(16, |i: int| 0u8) + structure
            + self.strings
    }

    /// Whether every token begins on a boundary, and the names are a table.
    pub open spec fn valid(self) -> bool {
        self.structure.len() % 4 == 0 && is_table(self.strings)
    }
}

/// Cells, one after another.
pub open spec fn cells_bytes(cells: Seq<u32>) -> Seq<u8>
    decreases cells.len(),
{
    if cells.len() == 0 {
        Seq::empty()
    } else {
        cells_bytes(cells.drop_last()) + bytes::be32_bytes(cells.last() as int)
    }
}

impl View for Builder {
    type V = TreeView;

    closed spec fn view(&self) -> TreeView {
        TreeView { structure: self.structure@, strings: self.strings@ }
    }
}

impl Builder {
    pub fn new() -> (tree: Builder)
        ensures
            tree@ == (TreeView { structure: Seq::empty(), strings: Seq::empty() }),
            tree@.valid(),
    {
        Builder { structure: Vec::new(), strings: Vec::new() }
    }

    pub fn be32(&mut self, value: u32)
        ensures
            final(self)@ == old(self)@.token(value as int),
    {
        push_be32(&mut self.structure, value);
    }

    /// Pad the token stream out to the next four-byte boundary, which every
    /// token has to start on.
    pub fn pad(&mut self)
        ensures
            final(self)@ == (TreeView {
                structure: padded(old(self)@.structure),
                ..old(self)@
            }),
    {
        let ghost first = self.structure@;
        assert(first + Seq::<u8>::empty() =~= first);
        let ghost mut added: nat = 0;
        while self.structure.len() % 4 != 0
            invariant
                self.strings@ == old(self).strings@,
                first == old(self).structure@,
                added <= (4 - first.len() % 4) % 4,
                self.structure@ == first + Seq::new(added, |i: int| 0u8),
            decreases (4 - first.len() % 4) % 4 - added,
        {
            self.structure.push(0);
            proof {
                added = added + 1;
            }
            assert(self.structure@ =~= first + Seq::new(added, |i: int| 0u8));
        }
        assert(added == (4 - first.len() % 4) % 4);
    }

    /// Where `name` sits in the string table, adding it if it is not there
    /// already.
    pub fn intern(&mut self, name: &str) -> (offset: u32)
        requires
            is_table(old(self)@.strings),
            old(self)@.strings.len() <= u32::MAX,
        ensures
            final(self)@ == old(self)@.interned(name.spec_bytes()).0,
            offset == old(self)@.interned(name.spec_bytes()).1,
            is_table(final(self)@.strings),
    {
        let wanted = name.as_bytes();
        let mut at: usize = 0;
        while at < self.strings.len()
            invariant
                *self == *old(self),
                wanted@ == name.spec_bytes(),
                is_table(self.strings@),
                self.strings@.len() <= u32::MAX,
                at <= self.strings@.len(),
                name_from(self.strings@, wanted@, at as int) == name_from(self.strings@, wanted@, 0),
            decreases self.strings@.len() - at,
        {
            let mut end: usize = at;
            while end < self.strings.len() && self.strings[end] != 0
                invariant
                    at <= end <= self.strings@.len(),
                    zero_from(self.strings@, end as int) == zero_from(self.strings@, at as int),
                decreases self.strings@.len() - end,
            {
                end += 1;
            }
            proof {
                zero_is_not_behind(self.strings@, at as int);
                assert(self.strings@[self.strings@.len() - 1] == self.strings@.last());
                assert(end == zero_from(self.strings@, at as int));
                assert(end < self.strings@.len());
            }
            let there = bytes::copy_range(self.strings.as_slice(), at, end);
            if same_bytes(there.as_slice(), wanted) {
                return at as u32;
            }
            at = end + 1;
        }
        let offset: u32 = self.strings.len() as u32;
        extend(&mut self.strings, wanted);
        self.strings.push(0);
        assert(self.strings@ =~= old(self).strings@ + wanted@ + seq![0u8]);
        offset
    }

    pub fn begin_node(&mut self, name: &str)
        requires
            old(self)@.valid(),
        ensures
            final(self)@ == old(self)@.node_begun(name.spec_bytes()),
            final(self)@.valid(),
    {
        self.be32(BEGIN_NODE);
        extend(&mut self.structure, name.as_bytes());
        self.structure.push(0);
        assert(self@.structure =~= old(self)@.token(BEGIN_NODE as int).structure
            + name.spec_bytes() + seq![0u8]);
        self.pad();
    }

    pub fn end_node(&mut self)
        requires
            old(self)@.valid(),
        ensures
            final(self)@ == old(self)@.token(END_NODE as int),
            final(self)@.valid(),
    {
        self.be32(END_NODE);
    }

    pub fn prop(&mut self, name: &str, value: &[u8])
        requires
            old(self)@.valid(),
            old(self)@.strings.len() <= u32::MAX,
            value@.len() <= u32::MAX,
        ensures
            final(self)@ == old(self)@.with_property(name.spec_bytes(), value@),
            final(self)@.valid(),
    {
        let offset: u32 = self.intern(name);
        self.be32(PROP);
        self.be32(value.len() as u32);
        self.be32(offset);
        extend(&mut self.structure, value);
        self.pad();
    }

    pub fn prop_cells(&mut self, name: &str, cells: &[u32])
        requires
            old(self)@.valid(),
            old(self)@.strings.len() <= u32::MAX,
            cells@.len() * 4 <= u32::MAX,
        ensures
            final(self)@ == old(self)@.with_property(name.spec_bytes(), cells_bytes(cells@)),
            final(self)@.valid(),
    {
        let mut value: Vec<u8> = Vec::new();
        let mut i: usize = 0;
        assert(cells@.take(0) =~= Seq::empty());
        while i < cells.len()
            invariant
                i <= cells@.len(),
                value@ == cells_bytes(cells@.take(i as int)),
                value@.len() == 4 * i,
            decreases cells@.len() - i,
        {
            push_be32(&mut value, cells[i]);
            assert(cells@.take(i + 1).drop_last() =~= cells@.take(i as int));
            i += 1;
        }
        assert(cells@.take(i as int) =~= cells@);
        self.prop(name, value.as_slice());
    }

    pub fn prop_u32(&mut self, name: &str, value: u32)
        requires
            old(self)@.valid(),
            old(self)@.strings.len() <= u32::MAX,
        ensures
            final(self)@ == old(self)@.with_property(name.spec_bytes(), bytes::be32_bytes(value as int)),
            final(self)@.valid(),
    {
        let mut cell: Vec<u8> = Vec::new();
        push_be32(&mut cell, value);
        assert(cell@ =~= bytes::be32_bytes(value as int));
        self.prop(name, cell.as_slice());
    }

    /// A property whose value is text. The terminator is part of the value.
    pub fn prop_str(&mut self, name: &str, value: &str)
        requires
            old(self)@.valid(),
            old(self)@.strings.len() <= u32::MAX,
            value.spec_bytes().len() < u32::MAX,
        ensures
            final(self)@ == old(self)@.with_property(
                name.spec_bytes(),
                value.spec_bytes() + seq![0u8],
            ),
            final(self)@.valid(),
    {
        let mut text: Vec<u8> = Vec::new();
        extend(&mut text, value.as_bytes());
        text.push(0);
        assert(text@ =~= value.spec_bytes() + seq![0u8]);
        self.prop(name, text.as_slice());
    }

    /// Wrap the two blocks in a header and an empty reserved-memory list.
    pub fn finish(self) -> (blob: Vec<u8>)
        requires
            STRUCTURE_AT + self@.structure.len() + 4 + self@.strings.len() <= u32::MAX,
        ensures
            blob@ == self@.blob(),
    {
        let mut tree = self;
        tree.be32(END);
        let strings_at: usize = STRUCTURE_AT + tree.structure.len();
        let total: usize = strings_at + tree.strings.len();
        let mut blob: Vec<u8> = Vec::new();
        push_be32(&mut blob, MAGIC);
        push_be32(&mut blob, total as u32);
        push_be32(&mut blob, STRUCTURE_AT as u32);
        push_be32(&mut blob, strings_at as u32);
        push_be32(&mut blob, 40);
        push_be32(&mut blob, VERSION);
        push_be32(&mut blob, LAST_COMPATIBLE_VERSION);
        push_be32(&mut blob, 0);
        push_be32(&mut blob, tree.strings.len() as u32);
        push_be32(&mut blob, tree.structure.len() as u32);
        let ghost header = blob@;
        assert(header.len() == 40);
        assert(header + Seq::<u8>::empty() =~= header);
        while blob.len() < STRUCTURE_AT
            invariant
                header.len() == 40,
                40 <= blob@.len() <= STRUCTURE_AT,
                blob@ == header + Seq::new((blob@.len() - 40) as nat, |i: int| 0u8),
            decreases STRUCTURE_AT - blob@.len(),
        {
            let ghost so_far = blob@;
            blob.push(0);
            assert(blob@ =~= header + Seq::new((blob@.len() - 40) as nat, |i: int| 0u8));
        }
        extend(&mut blob, tree.structure.as_slice());
        extend(&mut blob, tree.strings.as_slice());
        assert(blob@ =~= self@.blob());
        blob
    }
}

/// A name that was put in the table is what is read there, up to the zero that
/// ends it, and asking for it again finds it at the same place and adds
/// nothing.
pub proof fn a_name_is_kept_once(tree: TreeView, name: Seq<u8>)
    requires
        is_table(tree.strings),
        is_name(name),
    ensures
        ({
            let (after, at) = tree.interned(name);
            &&& 0 <= at
            &&& at + name.len() < after.strings.len()
            &&& after.strings.subrange(at, at + name.len()) == name
            &&& after.strings[at + name.len()] == 0
            &&& after.interned(name) == (after, at)
        }),
{
    let (after, at) = tree.interned(name);
    match name_from(tree.strings, name, 0) {
        Some(_) => {
            found_is_there(tree.strings, name, 0);
        },
        None => {
            let more = after.strings;
            assert(more =~= tree.strings + name + seq![0u8]);
            assert(more.subrange(at, at + name.len()) =~= name);
            assert(more[at + name.len()] == 0);
            not_found_is_found_at_the_end(tree.strings, name, 0);
        },
    }
}

/// Where a name is found it is.
proof fn found_is_there(strings: Seq<u8>, name: Seq<u8>, at: int)
    requires
        is_table(strings),
        0 <= at,
    ensures
        name_from(strings, name, at) matches Some(found) ==> at <= found && found + name.len()
            < strings.len() && strings.subrange(found, found + name.len()) == name && strings[found
            + name.len()] == 0,
    decreases strings.len() - at,
{
    if at < strings.len() {
        zero_is_not_behind(strings, at);
        let end = zero_from(strings, at);
        if end == strings.len() {
            assert(strings[strings.len() - 1] == strings.last());
        }
        if strings.subrange(at, end) != name {
            found_is_there(strings, name, end + 1);
        }
    }
}

/// A zero is where it was when more is put behind it.
proof fn zero_stays(strings: Seq<u8>, more: Seq<u8>, at: int)
    requires
        0 <= at < strings.len(),
        zero_from(strings, at) < strings.len(),
    ensures
        zero_from(strings + more, at) == zero_from(strings, at),
    decreases strings.len() - at,
{
    assert((strings + more)[at] == strings[at]);
    if strings[at] != 0 {
        assert(zero_from(strings, at) == zero_from(strings, at + 1));
        zero_stays(strings, more, at + 1);
    }
}

/// The end of a name put at the end is the zero behind it.
proof fn zero_behind_a_name(strings: Seq<u8>, name: Seq<u8>, at: int)
    requires
        is_name(name),
        strings.len() <= at <= strings.len() + name.len(),
    ensures
        zero_from(strings + name + seq![0u8], at) == strings.len() + name.len(),
    decreases strings.len() + name.len() - at,
{
    let all = strings + name + seq![0u8];
    if at < strings.len() + name.len() {
        assert(all[at] == name[at - strings.len()]);
        zero_behind_a_name(strings, name, at + 1);
    } else {
        assert(all[at] == 0);
    }
}

/// A name that was not in a table is found where it is put.
proof fn not_found_is_found_at_the_end(strings: Seq<u8>, name: Seq<u8>, at: int)
    requires
        is_table(strings),
        is_name(name),
        0 <= at <= strings.len(),
        name_from(strings, name, at) is None,
    ensures
        name_from(strings + name + seq![0u8], name, at) == Some(strings.len() as int),
    decreases strings.len() - at,
{
    let all = strings + name + seq![0u8];
    let more = name + seq![0u8];
    assert(all =~= strings + more);
    if at < strings.len() {
        zero_is_not_behind(strings, at);
        let end = zero_from(strings, at);
        if end == strings.len() {
            assert(strings[strings.len() - 1] == strings.last());
        }
        zero_stays(strings, more, at);
        assert(all.subrange(at, end) =~= strings.subrange(at, end));
        not_found_is_found_at_the_end(strings, name, end + 1);
    } else {
        zero_behind_a_name(strings, name, at);
        assert(all.subrange(at, at + name.len()) =~= name);
    }
}

/// Every token begins on a four-byte boundary, whatever names and values there
/// are between them.
pub proof fn tokens_stay_on_their_boundary(tree: TreeView, name: Seq<u8>, value: Seq<u8>)
    requires
        tree.valid(),
    ensures
        tree.node_begun(name).structure.len() % 4 == 0,
        tree.with_property(name, value).structure.len() % 4 == 0,
        tree.token(END_NODE as int).structure.len() % 4 == 0,
{
}

} // verus!
