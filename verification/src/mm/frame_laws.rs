//! What the frame allocator promises.

use crate::mm::frame::{self, BootMap, FramesView, Platform};
use vstd::prelude::*;

verus! {

/// A frame that is handed out was nobody's: it was not held and had no
/// references. Afterwards it is held with one, and nothing else has changed
/// hands.
pub proof fn a_frame_handed_out_was_nobodys(v: FramesView)
    requires
        v.valid(),
        v.frames() * 4096 <= u64::MAX,
    ensures
        match v.allocated().1 {
            None => true,
            Some(phys) => {
                let frame = phys as int / 4096;
                let after = v.allocated().0;
                &&& phys as int == frame * 4096
                &&& 0 <= frame < v.frames()
                &&& !v.held[frame]
                &&& v.references(phys) == 0
                &&& after.held[frame]
                &&& after.references(phys) == 1
                &&& forall|f: int|
                    0 <= f < v.frames() && f != frame ==> #[trigger] after.held[f] == v.held[f]
                        && after.counts[f] == v.counts[f]
            },
        },
{
    frame::a_search_finds_the_first(v.held, v.hint / 64 * 64);
    frame::a_search_finds_the_first(v.held, 0);
}

/// A frame is handed out whenever there is one.
pub proof fn a_frame_is_had_while_there_is_one(v: FramesView)
    requires
        v.valid(),
    ensures
        v.allocated().1 is None <==> (forall|f: int| 0 <= f < v.frames() ==> #[trigger] v.held[f]),
{
    frame::a_search_finds_the_first(v.held, v.hint / 64 * 64);
    frame::a_search_finds_the_first(v.held, 0);
    if forall|f: int| 0 <= f < v.frames() ==> #[trigger] v.held[f] {
        if v.next_frame() is Some {
            assert(v.held[v.next_frame()->0]);
        }
    }
}

/// A run that is handed out was nobody's, is as long as was asked for, and is
/// the lowest there is. Where none is handed out there is none.
pub proof fn a_run_handed_out_was_nobodys(v: FramesView, count: int)
    requires
        v.valid(),
        count > 1,
        v.frames() * 4096 <= u64::MAX,
    ensures
        match v.allocated_run(count).1 {
            None => {
                &&& forall|first: int| !(#[trigger] frame::is_run(v.held, first, count))
                &&& v.allocated_run(count).0 == v
            },
            Some(phys) => {
                let first = phys as int / 4096;
                let after = v.allocated_run(count).0;
                &&& phys as int == first * 4096
                &&& frame::is_run(v.held, first, count)
                &&& forall|lower: int|
                    lower < first ==> !(#[trigger] frame::is_run(v.held, lower, count))
                &&& forall|f: int|
                    0 <= f < v.frames() ==> #[trigger] after.held[f] == (v.held[f] || first <= f
                        < first + count)
                &&& forall|f: int|
                    0 <= f < v.frames() ==> #[trigger] after.counts[f] == (if first <= f < first
                        + count {
                        1
                    } else {
                        v.counts[f]
                    })
            },
        },
{
    frame::a_search_finds_a_run(v.held, 0, 0, count);
}

/// A frame is only released when its last reference goes: one more reference
/// and one fewer leave the allocator as it was.
pub proof fn one_more_and_one_fewer(v: FramesView, phys: u64)
    requires
        v.valid(),
        1 <= v.references(phys) < 0xFFFF,
    ensures
        v.shared(phys).freed(phys) == v,
{
    let frame = phys as int / 4096;
    assert(v.held[frame]) by {
        if !v.held[frame] {
            assert(v.counts[frame] == 0);
        }
    }
    assert(v.shared(phys).freed(phys).counts =~= v.counts);
}

/// The last reference given back makes the frame free.
pub proof fn the_last_reference_frees(v: FramesView, phys: u64)
    requires
        v.valid(),
        v.references(phys) == 1,
    ensures
        ({
            let frame = phys as int / 4096;
            &&& !v.freed(phys).held[frame]
            &&& v.freed(phys).references(phys) == 0
            &&& v.freed(phys).used() == v.used() - 1
        }),
{
    let frame = phys as int / 4096;
    assert(v.held[frame]) by {
        if !v.held[frame] {
            assert(v.counts[frame] == 0);
        }
    }
    frame::up_after_one(v.held, frame, false);
}

/// References taken on a frame, one after another.
pub open spec fn shared_by(v: FramesView, phys: u64, count: nat) -> FramesView
    decreases count,
{
    if count == 0 {
        v
    } else {
        shared_by(v, phys, (count - 1) as nat).shared(phys)
    }
}

/// References given back, one after another.
pub open spec fn freed_by(v: FramesView, phys: u64, count: nat) -> FramesView
    decreases count,
{
    if count == 0 {
        v
    } else {
        freed_by(v, phys, (count - 1) as nat).freed(phys)
    }
}

/// A frame is held for as long as one of its references is: handed out once and
/// shared, it is held after as many references have been given back as were
/// added, and the next one given back frees it.
pub proof fn a_frame_is_held_until_its_last_reference_goes(v: FramesView, shares: nat)
    requires
        v.valid(),
        v.frames() * 4096 <= u64::MAX,
        v.allocated().1 is Some,
        shares < 0xFFFF,
    ensures
        ({
            let (had, phys) = v.allocated();
            let many = shared_by(had, phys->0, shares);
            let gone = freed_by(many, phys->0, shares + 1);
            let frame = phys->0 as int / 4096;
            &&& many.references(phys->0) == shares + 1
            &&& freed_by(many, phys->0, shares) == had
            &&& had.held[frame]
            &&& !gone.held[frame]
            &&& gone.references(phys->0) == 0
            &&& gone.held == v.held
            &&& gone.counts == v.counts
        }),
{
    let (had, phys) = v.allocated();
    let frame = phys->0 as int / 4096;
    a_frame_handed_out_was_nobodys(v);
    frame::a_search_finds_the_first(v.held, v.hint / 64 * 64);
    frame::a_search_finds_the_first(v.held, 0);
    assert(frame == v.next_frame()->0);
    sharing_counts(had, phys->0, shares);
    let many = shared_by(had, phys->0, shares);
    freeing_counts(had, phys->0, shares, shares);
    assert(shared_by(had, phys->0, 0) == had);
    let gone = freed_by(many, phys->0, shares + 1);
    assert(gone == had.freed(phys->0));
    assert(v.held[frame] == false && v.counts[frame] == 0);
    assert(gone.held =~= v.held);
    assert(gone.counts =~= v.counts);
}

/// Every reference taken is counted, while the count can hold it.
proof fn sharing_counts(v: FramesView, phys: u64, count: nat)
    requires
        v.valid(),
        v.references(phys) == 1,
        count < 0xFFFF,
    ensures
        shared_by(v, phys, count).valid(),
        shared_by(v, phys, count).references(phys) == count + 1,
    decreases count,
{
    if count > 0 {
        sharing_counts(v, phys, (count - 1) as nat);
        let before = shared_by(v, phys, (count - 1) as nat);
        let frame = phys as int / 4096;
        if !before.held[frame] {
            assert(before.counts[frame] == 0);
        }
    }
}

/// References given back undo as many that were taken.
proof fn freeing_counts(v: FramesView, phys: u64, taken: nat, given: nat)
    requires
        v.valid(),
        v.references(phys) == 1,
        given <= taken < 0xFFFF,
    ensures
        freed_by(shared_by(v, phys, taken), phys, given) == shared_by(
            v,
            phys,
            (taken - given) as nat,
        ),
    decreases given,
{
    if given > 0 {
        freeing_counts(v, phys, taken, (given - 1) as nat);
        let left = (taken - given) as nat;
        sharing_counts(v, phys, left);
        one_more_and_one_fewer(shared_by(v, phys, left), phys);
    }
}

/// While everything that is not memory is held, no less is held than there are
/// holes: what is reported used never runs below nothing.
pub proof fn holes_are_counted(v: FramesView, memory: Seq<bool>)
    requires
        v.holes_are_held(memory),
    ensures
        v.used() >= v.frames() - v.managed,
{
    covered(v.held, memory);
}

/// Where everything one list leaves out is in another, they make up the whole.
proof fn covered(held: Seq<bool>, memory: Seq<bool>)
    requires
        held.len() == memory.len(),
        forall|f: int| 0 <= f < held.len() && !(#[trigger] memory[f]) ==> held[f],
    ensures
        frame::up(held) + frame::up(memory) >= held.len(),
    decreases held.len(),
{
    if held.len() > 0 {
        let a = held.drop_last();
        let b = memory.drop_last();
        assert forall|f: int| 0 <= f < a.len() && !(#[trigger] b[f]) implies a[f] by {
            assert(!memory[f]);
        }
        covered(a, b);
        if !memory[held.len() - 1] {
            assert(held[held.len() - 1]);
        }
    }
}

/// Handing frames out and sharing them never touches a hole, and neither does
/// giving back a frame of memory.
pub proof fn holes_stay_held(v: FramesView, memory: Seq<bool>, phys: u64, count: int)
    requires
        v.valid(),
        v.holes_are_held(memory),
        phys as int / 4096 < v.frames() ==> memory[phys as int / 4096],
        count >= 0,
    ensures
        v.allocated().0.holes_are_held(memory),
        v.allocated_run(count).0.holes_are_held(memory),
        v.shared(phys).holes_are_held(memory),
        v.freed(phys).holes_are_held(memory),
{
    frame::a_search_finds_the_first(v.held, v.hint / 64 * 64);
    frame::a_search_finds_the_first(v.held, 0);
}

/// An allocator built from a memory map hands out only frames that lie wholly
/// inside memory the map calls usable, below the limit, and that nothing
/// spoken for touches.
pub proof fn nothing_spoken_for_is_handed_out(
    boot: &BootMap,
    platform: &Platform,
    limit: u64,
    metadata_phys: u64,
)
    requires
        frame::built(boot, platform, limit, metadata_phys).valid(),
    ensures
        frame::built(boot, platform, limit, metadata_phys).allocated().1 matches Some(phys)
            ==> boot.releases(limit, phys as int / 4096) && !frame::is_claimed(
            boot,
            platform,
            limit,
            metadata_phys,
            phys as int / 4096,
        ) && phys + 4096 <= limit,
{
    let v = frame::built(boot, platform, limit, metadata_phys);
    a_frame_handed_out_was_nobodys(v);
}

/// Frames that are held and that nobody gives back are never handed out, and
/// stay held, whatever is done with the others. So what was spoken for when the
/// allocator was built is spoken for for good.
pub proof fn what_is_kept_is_never_handed_out(
    v: FramesView,
    kept: Seq<bool>,
    phys: u64,
    count: int,
)
    requires
        v.valid(),
        v.frames() * 4096 <= u64::MAX,
        kept.len() == v.frames(),
        forall|f: int| 0 <= f < v.frames() && #[trigger] kept[f] ==> v.held[f],
        phys as int / 4096 < v.frames() ==> !kept[phys as int / 4096],
        count >= 0,
    ensures
        v.allocated().1 matches Some(taken) ==> !kept[taken as int / 4096],
        v.allocated_run(count).1 matches Some(taken) ==> forall|f: int|
            taken as int / 4096 <= f < taken as int / 4096 + count ==> !(#[trigger] kept[f]),
        forall|f: int|
            0 <= f < v.frames() && #[trigger] kept[f] ==> v.allocated().0.held[f]
                && v.allocated_run(count).0.held[f] && v.shared(phys).held[f] && v.freed(
                phys,
            ).held[f],
{
    a_frame_handed_out_was_nobodys(v);
    if count > 1 {
        a_run_handed_out_was_nobodys(v, count);
    }
}

} // verus!
