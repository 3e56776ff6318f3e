//! A hierarchy of translation tables as a tree: which table a path of
//! descriptors reaches, and what a store to one of them leaves alone.

use crate::mm::walk::{self, Machine, MachineView, ENTRIES};
use vstd::prelude::*;

verus! {

/// The table one level down from `table` through one of its descriptors, or
/// nothing where the walk stops.
pub open spec fn step<M: Machine>(m: MachineView, table: u64, index: int, level: int) -> Option<
    u64,
> {
    let bits = m.word(table, index);
    if !M::is_present(bits) || M::stops(bits, level) {
        None
    } else {
        Some(M::named(bits))
    }
}

/// The table a path of descriptors reaches from `root`, whose descriptors are
/// at level `top`.
pub open spec fn reached<M: Machine>(m: MachineView, root: u64, top: int, path: Seq<int>) -> Option<
    u64,
>
    decreases path.len(),
{
    if path.len() == 0 {
        Some(root)
    } else {
        match reached::<M>(m, root, top, path.drop_last()) {
            None => None,
            Some(table) => step::<M>(m, table, path.last(), top + 1 - path.len()),
        }
    }
}

/// A path that a walk from level `top` can take.
pub open spec fn is_path(path: Seq<int>, top: int) -> bool {
    &&& path.len() <= top
    &&& forall|i: int| 0 <= i < path.len() ==> 0 <= #[trigger] path[i] < ENTRIES
}

/// A hierarchy worth walking: every table a path reaches is there, and no two
/// paths reach the same one.
pub open spec fn is_tree<M: Machine>(m: MachineView, root: u64, top: int) -> bool {
    &&& forall|p: Seq<int>|
        is_path(p, top) ==> (#[trigger] reached::<M>(m, root, top, p) matches Some(table) ==> m.has(
            table,
        ))
    &&& forall|p: Seq<int>, q: Seq<int>|
        #![trigger reached::<M>(m, root, top, p), reached::<M>(m, root, top, q)]
        is_path(p, top) && is_path(q, top) && reached::<M>(m, root, top, p) is Some && reached::<
            M,
        >(m, root, top, p) == reached::<M>(m, root, top, q) ==> p == q
}

/// The way to the last-level table of an address.
pub open spec fn path_of(virt: u64) -> Seq<int> {
    seq![walk::index_at(virt, 3), walk::index_at(virt, 2), walk::index_at(virt, 1)]
}

/// The last-level table of an address.
pub open spec fn leaf_table<M: Machine>(m: MachineView, root: u64, virt: u64) -> Option<u64> {
    reached::<M>(m, root, 3, path_of(virt))
}

/// The descriptor of an address at the last level.
pub open spec fn leaf_at<M: Machine>(m: MachineView, root: u64, virt: u64) -> Option<u64> {
    match leaf_table::<M>(m, root, virt) {
        None => None,
        Some(table) => {
            let bits = m.word(table, walk::index_at(virt, 0));
            if M::is_present(bits) {
                Some(bits)
            } else {
                None
            }
        },
    }
}

/// Which page of what the four levels cover an address is in.
pub open spec fn page_of(virt: u64) -> int {
    (virt as int / 0x1000) % 0x10_0000_0000
}

/// The first indices of an address make a path.
pub proof fn path_of_is_path(virt: u64, n: int)
    requires
        0 <= n <= 3,
    ensures
        is_path(path_of(virt).take(n), 3),
        path_of(virt).take(n).len() == n,
        path_of(virt).take(3) == path_of(virt),
        path_of(virt).take(0) == Seq::<int>::empty(),
{
    assert(path_of(virt).take(3) =~= path_of(virt));
    assert(path_of(virt).take(0) =~= Seq::<int>::empty());
}

/// One more level of the walk to an address.
pub proof fn one_level_down<M: Machine>(m: MachineView, root: u64, virt: u64, level: int)
    requires
        1 <= level <= 3,
    ensures
        reached::<M>(m, root, 3, path_of(virt).take(4 - level)) == (match reached::<M>(
            m,
            root,
            3,
            path_of(virt).take(3 - level),
        ) {
            None => None,
            Some(table) => step::<M>(m, table, walk::index_at(virt, level), level),
        }),
{
    let longer = path_of(virt).take(4 - level);
    assert(longer.drop_last() =~= path_of(virt).take(3 - level));
    assert(longer.last() == walk::index_at(virt, level));
}

/// Two addresses with the same four indices are in the same page.
pub proof fn indices_make_the_page(a: u64, b: u64)
    ensures
        (path_of(a) == path_of(b) && walk::index_at(a, 0) == walk::index_at(b, 0)) <==> page_of(a)
            == page_of(b),
{
    let x = a as int / 0x1000;
    let y = b as int / 0x1000;
    indices_of_a_page(a);
    indices_of_a_page(b);
    if page_of(a) == page_of(b) {
        assert(path_of(a) =~= path_of(b));
    }
    if path_of(a) == path_of(b) {
        assert(path_of(a)[0] == path_of(b)[0]);
        assert(path_of(a)[1] == path_of(b)[1]);
        assert(path_of(a)[2] == path_of(b)[2]);
    }
}

/// A page's number is spelled by its four indices.
proof fn indices_of_a_page(virt: u64)
    ensures
        page_of(virt) == walk::index_at(virt, 3) * 0x800_0000 + walk::index_at(virt, 2) * 0x4_0000
            + walk::index_at(virt, 1) * 0x200 + walk::index_at(virt, 0),
        0 <= walk::index_at(virt, 0) < 512,
        0 <= walk::index_at(virt, 1) < 512,
        0 <= walk::index_at(virt, 2) < 512,
        0 <= walk::index_at(virt, 3) < 512,
        walk::index_at(virt, 0) == page_of(virt) % 512,
        walk::index_at(virt, 1) == page_of(virt) / 512 % 512,
        walk::index_at(virt, 2) == page_of(virt) / 0x4_0000 % 512,
        walk::index_at(virt, 3) == page_of(virt) / 0x800_0000,
{
    let v = virt as int;
    let x = v / 0x1000;
    assert(v / 0x20_0000 == x / 512);
    assert(v / 0x4000_0000 == x / 0x4_0000);
    assert(v / 0x80_0000_0000 == x / 0x800_0000);
    let p = x % 0x10_0000_0000;
    assert(x == x / 0x10_0000_0000 * 0x10_0000_0000 + p);
    let k = x / 0x10_0000_0000;
    assert(x / 512 == k * 0x800_0000 + p / 512);
    assert(x / 0x4_0000 == k * 0x4_0000 + p / 0x4_0000);
    assert(x / 0x800_0000 == k * 512 + p / 0x800_0000);
}

/// A path that goes on through one descriptor of the table at `at`.
pub open spec fn goes_through(path: Seq<int>, at: Seq<int>, index: int) -> bool {
    path.len() > at.len() && path.take(at.len() as int + 1) == at.push(index)
}

/// Words changed only where no path looks leave every path as it was.
pub proof fn unchanged_where_looked<M: Machine>(
    m: MachineView,
    after: MachineView,
    root: u64,
    top: int,
    path: Seq<int>,
)
    requires
        is_path(path, top),
        forall|p: Seq<int>|
            is_path(p, top) ==> (#[trigger] reached::<M>(m, root, top, p) matches Some(table)
                ==> after.words[table] == m.words[table]),
    ensures
        reached::<M>(after, root, top, path) == reached::<M>(m, root, top, path),
    decreases path.len(),
{
    if path.len() > 0 {
        let before = path.drop_last();
        assert(is_path(before, top));
        unchanged_where_looked::<M>(m, after, root, top, before);
        assert(reached::<M>(m, root, top, before) is Some ==> after.words[reached::<M>(
            m,
            root,
            top,
            before,
        )->0] == m.words[reached::<M>(m, root, top, before)->0]);
    }
}

/// A store to one descriptor leaves alone every path that does not go through
/// it.
pub proof fn stored_elsewhere<M: Machine>(
    m: MachineView,
    root: u64,
    top: int,
    at: Seq<int>,
    index: int,
    bits: u64,
    path: Seq<int>,
)
    requires
        is_tree::<M>(m, root, top),
        is_path(at, top),
        reached::<M>(m, root, top, at) is Some,
        0 <= index < ENTRIES,
        is_path(path, top),
        !goes_through(path, at, index),
    ensures
        reached::<M>(m.stored(reached::<M>(m, root, top, at)->0, index, bits), root, top, path)
            == reached::<M>(m, root, top, path),
    decreases path.len(),
{
    let table = reached::<M>(m, root, top, at)->0;
    let after = m.stored(table, index, bits);
    if path.len() > 0 {
        let before = path.drop_last();
        assert(is_path(before, top));
        if goes_through(before, at, index) {
            assert(before.take(at.len() as int + 1) =~= path.take(at.len() as int + 1));
        }
        stored_elsewhere::<M>(m, root, top, at, index, bits, before);
        match reached::<M>(m, root, top, before) {
            None => {},
            Some(t) => {
                assert(m.has(t));
                if t == table && path.last() == index {
                    assert(before == at);
                    assert(path.take(at.len() as int + 1) =~= at.push(index));
                } else if t == table {
                    assert(after.word(t, path.last()) == m.word(t, path.last()));
                }
            },
        }
    }
}

/// A descriptor taken away takes every path through it away.
pub proof fn cleared_leads_nowhere<M: Machine>(
    m: MachineView,
    root: u64,
    top: int,
    at: Seq<int>,
    index: int,
    path: Seq<int>,
)
    requires
        is_tree::<M>(m, root, top),
        is_path(at, top),
        reached::<M>(m, root, top, at) is Some,
        0 <= index < ENTRIES,
        is_path(path, top),
        goes_through(path, at, index),
    ensures
        reached::<M>(m.stored(reached::<M>(m, root, top, at)->0, index, 0), root, top, path) is None,
    decreases path.len(),
{
    M::format_holds();
    let table = reached::<M>(m, root, top, at)->0;
    let after = m.stored(table, index, 0);
    let before = path.drop_last();
    assert(is_path(before, top));
    if path.len() == at.len() + 1 {
        assert(path.take(at.len() as int + 1) =~= path);
        assert(before =~= at);
        assert(!goes_through(before, at, index));
        stored_elsewhere::<M>(m, root, top, at, index, 0, before);
        assert(path.last() == index);
        assert(m.has(table));
        assert(after.word(table, index) == 0);
    } else {
        assert(before.take(at.len() as int + 1) =~= path.take(at.len() as int + 1));
        cleared_leads_nowhere::<M>(m, root, top, at, index, before);
    }
}

/// Taking a descriptor away leaves a tree.
pub proof fn cleared_is_tree<M: Machine>(
    m: MachineView,
    root: u64,
    top: int,
    at: Seq<int>,
    index: int,
)
    requires
        is_tree::<M>(m, root, top),
        is_path(at, top),
        reached::<M>(m, root, top, at) is Some,
        0 <= index < ENTRIES,
    ensures
        is_tree::<M>(m.stored(reached::<M>(m, root, top, at)->0, index, 0), root, top),
{
    let table = reached::<M>(m, root, top, at)->0;
    let after = m.stored(table, index, 0);
    assert forall|p: Seq<int>| is_path(p, top) implies (#[trigger] reached::<M>(
        after,
        root,
        top,
        p,
    ) matches Some(t) ==> after.has(t) && reached::<M>(m, root, top, p) == Some(t)) by {
        if goes_through(p, at, index) {
            cleared_leads_nowhere::<M>(m, root, top, at, index, p);
        } else {
            stored_elsewhere::<M>(m, root, top, at, index, 0, p);
        }
    }
}

/// Changing what a descriptor says without changing where it leads leaves
/// every path where it was.
pub proof fn same_way_on<M: Machine>(
    m: MachineView,
    root: u64,
    top: int,
    at: Seq<int>,
    index: int,
    bits: u64,
    path: Seq<int>,
)
    requires
        is_tree::<M>(m, root, top),
        is_path(at, top),
        reached::<M>(m, root, top, at) is Some,
        0 <= index < ENTRIES,
        is_path(path, top),
        at.len() < top ==> step::<M>(
            m.stored(reached::<M>(m, root, top, at)->0, index, bits),
            reached::<M>(m, root, top, at)->0,
            index,
            top - at.len(),
        ) == step::<M>(m, reached::<M>(m, root, top, at)->0, index, top - at.len()),
    ensures
        reached::<M>(m.stored(reached::<M>(m, root, top, at)->0, index, bits), root, top, path)
            == reached::<M>(m, root, top, path),
    decreases path.len(),
{
    let table = reached::<M>(m, root, top, at)->0;
    let after = m.stored(table, index, bits);
    if path.len() > 0 {
        let before = path.drop_last();
        assert(is_path(before, top));
        same_way_on::<M>(m, root, top, at, index, bits, before);
        match reached::<M>(m, root, top, before) {
            None => {},
            Some(t) => {
                assert(m.has(t));
                if t == table {
                    assert(before == at);
                    if path.last() != index {
                        assert(after.word(t, path.last()) == m.word(t, path.last()));
                    }
                }
            },
        }
    }
}

/// And it leaves a tree.
pub proof fn same_way_is_tree<M: Machine>(
    m: MachineView,
    root: u64,
    top: int,
    at: Seq<int>,
    index: int,
    bits: u64,
)
    requires
        is_tree::<M>(m, root, top),
        is_path(at, top),
        reached::<M>(m, root, top, at) is Some,
        0 <= index < ENTRIES,
        at.len() < top ==> step::<M>(
            m.stored(reached::<M>(m, root, top, at)->0, index, bits),
            reached::<M>(m, root, top, at)->0,
            index,
            top - at.len(),
        ) == step::<M>(m, reached::<M>(m, root, top, at)->0, index, top - at.len()),
    ensures
        is_tree::<M>(m.stored(reached::<M>(m, root, top, at)->0, index, bits), root, top),
{
    let table = reached::<M>(m, root, top, at)->0;
    let after = m.stored(table, index, bits);
    assert forall|p: Seq<int>| is_path(p, top) implies (#[trigger] reached::<M>(
        after,
        root,
        top,
        p,
    ) matches Some(t) ==> after.has(t)) && reached::<M>(after, root, top, p) == reached::<M>(
        m,
        root,
        top,
        p,
    ) by {
        same_way_on::<M>(m, root, top, at, index, bits, p);
    }
}

/// A frame a hierarchy has no use of yet: it is there, blank, and no path
/// reaches it.
pub open spec fn is_spare<M: Machine>(m: MachineView, root: u64, frame: u64) -> bool {
    &&& m.has(frame)
    &&& m.words[frame] == walk::blank()
    &&& M::nameable(frame)
    &&& forall|p: Seq<int>|
        is_path(p, 3) ==> #[trigger] reached::<M>(m, root, 3, p) != Some(frame)
}

/// Frames for a walk to use, each of them once.
pub open spec fn are_spare<M: Machine>(m: MachineView, root: u64, stock: Seq<u64>) -> bool {
    &&& forall|i: int| 0 <= i < stock.len() ==> is_spare::<M>(m, root, #[trigger] stock[i])
    &&& forall|i: int, j: int|
        0 <= i < j < stock.len() ==> #[trigger] stock[i] != #[trigger] stock[j]
}

/// A blank table put where there was none is reached through its descriptor,
/// and nothing is reached through it.
pub proof fn blank_table_reached<M: Machine>(
    m: MachineView,
    root: u64,
    at: Seq<int>,
    index: int,
    fresh: u64,
    under: u64,
    path: Seq<int>,
)
    requires
        is_tree::<M>(m, root, 3),
        is_path(at, 3),
        at.len() < 3,
        reached::<M>(m, root, 3, at) is Some,
        0 <= index < ENTRIES,
        is_spare::<M>(m, root, fresh),
        is_path(path, 3),
        goes_through(path, at, index),
    ensures
        reached::<M>(
            m.stored(reached::<M>(m, root, 3, at)->0, index, M::table_bits(fresh, under)),
            root,
            3,
            path,
        ) == (if path.len() == at.len() + 1 {
            Some(fresh)
        } else {
            None
        }),
    decreases path.len(),
{
    M::format_holds();
    let table = reached::<M>(m, root, 3, at)->0;
    let bits = M::table_bits(fresh, under);
    let after = m.stored(table, index, bits);
    let before = path.drop_last();
    assert(is_path(before, 3));
    assert(m.has(table));
    assert(table != fresh);
    if path.len() == at.len() + 1 {
        assert(path.take(at.len() as int + 1) =~= path);
        assert(before =~= at);
        stored_elsewhere::<M>(m, root, 3, at, index, bits, before);
        assert(path.last() == index);
        assert(after.word(table, index) == bits);
        assert(!M::stops(bits, 4 - path.len()));
    } else {
        assert(before.take(at.len() as int + 1) =~= path.take(at.len() as int + 1));
        blank_table_reached::<M>(m, root, at, index, fresh, under, before);
        if before.len() == at.len() + 1 {
            assert(after.words[fresh] == walk::blank());
            assert(after.word(fresh, path.last()) == 0);
        }
    }
}

/// Putting a blank table where there was none leaves a tree.
pub proof fn blank_table_is_tree<M: Machine>(
    m: MachineView,
    root: u64,
    at: Seq<int>,
    index: int,
    fresh: u64,
    under: u64,
)
    requires
        is_tree::<M>(m, root, 3),
        is_path(at, 3),
        at.len() < 3,
        reached::<M>(m, root, 3, at) is Some,
        0 <= index < ENTRIES,
        is_spare::<M>(m, root, fresh),
    ensures
        is_tree::<M>(
            m.stored(reached::<M>(m, root, 3, at)->0, index, M::table_bits(fresh, under)),
            root,
            3,
        ),
{
    let table = reached::<M>(m, root, 3, at)->0;
    let after = m.stored(table, index, M::table_bits(fresh, under));
    let new = at.push(index);
    assert forall|p: Seq<int>| is_path(p, 3) implies (#[trigger] reached::<M>(
        after,
        root,
        3,
        p,
    ) matches Some(t) ==> after.has(t) && (if t == fresh {
        p == new
    } else {
        reached::<M>(m, root, 3, p) == Some(t)
    })) by {
        if goes_through(p, at, index) {
            blank_table_reached::<M>(m, root, at, index, fresh, under, p);
            if p.len() == at.len() + 1 {
                assert(p.take(at.len() as int + 1) =~= p);
            }
        } else {
            stored_elsewhere::<M>(
                m,
                root,
                3,
                at,
                index,
                M::table_bits(fresh, under),
                p,
            );
        }
    }
}

/// A descriptor the walk does not follow leads nowhere.
pub proof fn absent_leads_nowhere<M: Machine>(
    m: MachineView,
    root: u64,
    top: int,
    at: Seq<int>,
    index: int,
    path: Seq<int>,
)
    requires
        is_path(path, top),
        reached::<M>(m, root, top, at) matches Some(table) ==> step::<M>(
            m,
            table,
            index,
            top - at.len(),
        ) is None,
        goes_through(path, at, index),
    ensures
        reached::<M>(m, root, top, path) is None,
    decreases path.len(),
{
    let before = path.drop_last();
    if path.len() == at.len() + 1 {
        assert(path.take(at.len() as int + 1) =~= path);
        assert(before =~= at);
        assert(path.last() == index);
    } else {
        assert(before.take(at.len() as int + 1) =~= path.take(at.len() as int + 1));
        absent_leads_nowhere::<M>(m, root, top, at, index, before);
    }
}

/// A longer piece of the way to an address goes through the descriptor after a
/// shorter one.
pub proof fn the_way_goes_on(virt: u64, n: int, k: int)
    requires
        0 <= n < 3,
        0 <= k <= 3,
    ensures
        path_of(virt).take(n).push(walk::index_at(virt, 3 - n)) == path_of(virt).take(n + 1),
        goes_through(path_of(virt).take(k), path_of(virt).take(n), walk::index_at(virt, 3 - n))
            <==> k > n,
{
    assert(path_of(virt).take(n).push(walk::index_at(virt, 3 - n)) =~= path_of(virt).take(n + 1));
    if k > n {
        assert(path_of(virt).take(k).take(n + 1) =~= path_of(virt).take(n + 1));
    }
}

} // verus!
