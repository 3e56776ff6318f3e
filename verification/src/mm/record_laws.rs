//! What taking a range out of the record of an address space leaves.

use crate::mm::record::{self, Vma};
use vstd::prelude::*;

verus! {

/// Which byte of which file an address of a region shows, or nothing where it
/// shows zeroes.
pub open spec fn backing(vma: Vma, addr: int) -> Option<(u64, int)> {
    match vma.file {
        Some(file) => if addr - vma.start < file.length {
            Some((file.node, file.offset + (addr - vma.start)))
        } else {
            None
        },
        None => None,
    }
}

/// Two regions that agree about an address: the same permissions, the same
/// kind, and the same bytes.
pub open spec fn agree_at(a: Vma, b: Vma, addr: int) -> bool {
    &&& a.prot == b.prot
    &&& a.flags == b.flags
    &&& backing(a, addr) == backing(b, addr)
}

/// Looking in two lists of regions one after the other.
proof fn looking_in_both(a: Seq<Vma>, b: Seq<Vma>, addr: int)
    ensures
        record::holder(a + b, addr) == (match record::holder(a, addr) {
            Some(vma) => Some(vma),
            None => record::holder(b, addr),
        }),
    decreases b.len(),
{
    if b.len() == 0 {
        assert(a + b =~= a);
    } else {
        assert((a + b).drop_last() =~= a + b.drop_last());
        assert((a + b).last() == b.last());
        looking_in_both(a, b.drop_last(), addr);
    }
}

/// What is left of one region shows at each address outside the range what the
/// region showed there, and nothing inside it.
proof fn one_region_without(vma: Vma, start: u64, end: u64, addr: int)
    requires
        vma.valid(),
        start <= end,
    ensures
        ({
            let there = record::holder(vma.without(start, end), addr);
            &&& there is Some <==> vma.holds(addr) && !(start <= addr < end)
            &&& there is Some ==> agree_at(there->0, vma, addr) && there->0.holds(addr)
        }),
{
    let left = vma.without(start, end);
    let none = Seq::<Vma>::empty();
    if vma.end <= start || vma.start >= end {
        assert(left.drop_last() =~= none);
        assert(left.last() == vma);
        assert(record::holder(none, addr) is None);
    } else {
        let head = vma.head(start);
        let tail = vma.tail(end);
        let a = if vma.start < start {
            seq![head]
        } else {
            none
        };
        let b = if vma.end > end {
            seq![tail]
        } else {
            none
        };
        assert(left == a + b);
        looking_in_both(a, b, addr);
        assert(seq![head].drop_last() =~= none);
        assert(seq![tail].drop_last() =~= none);
        assert(record::holder(none, addr) is None);
        assert(seq![head].last() == head);
        assert(seq![tail].last() == tail);
        assert(record::holder(seq![head], addr) == (if head.holds(addr) {
            Some(head)
        } else {
            None::<Vma>
        }));
        assert(record::holder(seq![tail], addr) == (if tail.holds(addr) {
            Some(tail)
        } else {
            None::<Vma>
        }));
    }
}

/// Taking a range out of the record leaves nothing recorded in the range, and
/// outside it leaves every address showing what it showed: with the same
/// permissions, and from the same place in the same file.
pub proof fn taking_a_range_out(vmas: Seq<Vma>, start: u64, end: u64, addr: int)
    requires
        forall|i: int| 0 <= i < vmas.len() ==> (#[trigger] vmas[i]).valid(),
        start <= end,
    ensures
        ({
            let before = record::holder(vmas, addr);
            let after = record::holder(record::all_without(vmas, start, end), addr);
            &&& after is Some <==> before is Some && !(start <= addr < end)
            &&& after is Some ==> agree_at(after->0, before->0, addr)
        }),
    decreases vmas.len(),
{
    if vmas.len() > 0 {
        let rest = vmas.drop_last();
        let last = vmas.last();
        assert forall|i: int| 0 <= i < rest.len() implies (#[trigger] rest[i]).valid() by {
            assert(vmas[i].valid());
        }
        taking_a_range_out(rest, start, end, addr);
        assert(vmas[vmas.len() - 1].valid());
        one_region_without(last, start, end, addr);
        looking_in_both(
            record::all_without(rest, start, end),
            last.without(start, end),
            addr,
        );
    }
}

/// A record stays one whose regions run forwards, whatever range is taken out
/// of it.
pub proof fn what_is_left_is_valid(vmas: Seq<Vma>, start: u64, end: u64)
    requires
        forall|i: int| 0 <= i < vmas.len() ==> (#[trigger] vmas[i]).valid(),
        start <= end,
    ensures
        forall|i: int|
            0 <= i < record::all_without(vmas, start, end).len() ==> (
            #[trigger] record::all_without(vmas, start, end)[i]).valid(),
    decreases vmas.len(),
{
    if vmas.len() > 0 {
        let rest = vmas.drop_last();
        let last = vmas.last();
        assert forall|i: int| 0 <= i < rest.len() implies (#[trigger] rest[i]).valid() by {
            assert(vmas[i].valid());
        }
        what_is_left_is_valid(rest, start, end);
        assert(vmas[vmas.len() - 1].valid());
        let before = record::all_without(rest, start, end);
        let pieces = last.without(start, end);
        let all = record::all_without(vmas, start, end);
        assert(all == before + pieces);
        assert forall|i: int| 0 <= i < pieces.len() implies (#[trigger] pieces[i]).valid() by {
        }
        assert forall|i: int| 0 <= i < all.len() implies (#[trigger] all[i]).valid() by {
            if i < before.len() {
                assert(all[i] == before[i]);
            } else {
                assert(all[i] == pieces[i - before.len()]);
            }
        }
    }
}

/// Where a range has been taken out, a fault finds nothing to serve; so a page
/// taken away after its region cannot come back.
pub proof fn nothing_is_recorded_in_a_range_taken_out(
    vmas: Seq<Vma>,
    start: u64,
    end: u64,
)
    requires
        forall|i: int| 0 <= i < vmas.len() ==> (#[trigger] vmas[i]).valid(),
        start <= end,
    ensures
        forall|addr: int|
            start <= addr < end ==> #[trigger] record::holder(
                record::all_without(vmas, start, end),
                addr,
            ) is None,
{
    assert forall|addr: int| start <= addr < end implies #[trigger] record::holder(
        record::all_without(vmas, start, end),
        addr,
    ) is None by {
        taking_a_range_out(vmas, start, end, addr);
    }
}

} // verus!
