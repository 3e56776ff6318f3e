//! Reading a hierarchy of translation tables, and every change to one.

use crate::mm::tree;
use crate::mm::walk::{
    self, index_of, level_size, Machine, MachineView, Refused, TableStock, Tlb, DEPTH, ENTRIES,
};
use vstd::prelude::*;

verus! {

/// Why a mapping at an address cannot be put in, walking down from a table at
/// `level` with `available` frames for missing tables, if it cannot.
pub open spec fn refusal<M: Machine>(
    m: MachineView,
    table: u64,
    virt: u64,
    level: nat,
    available: nat,
) -> Option<Refused>
    decreases level,
{
    let bits = m.word(table, walk::index_at(virt, level as int));
    if level == 0 {
        if M::is_present(bits) {
            Some(Refused::Occupied)
        } else {
            None
        }
    } else if !M::is_present(bits) {
        if available < level {
            Some(Refused::ShortOfTables)
        } else {
            None
        }
    } else if M::stops(bits, level as int) {
        Some(Refused::Blocked)
    } else {
        refusal::<M>(m, M::named(bits), virt, (level - 1) as nat, available)
    }
}

/// A descriptor opened up for a leaf that asks for `under`, where the machine
/// forbids from above what the last level allows.
pub open spec fn opened_up<M: Machine>(m: MachineView, table: u64, index: int, under: u64) -> MachineView {
    match M::widened(m.word(table, index), under) {
        Some(wider) => m.stored(table, index, wider),
        None => m,
    }
}

/// The way down to an address's last-level table made, with the stock's frames
/// put in where a level is missing: the memory afterwards, the stock, and the
/// table.
pub open spec fn way_made<M: Machine>(
    m: MachineView,
    table: u64,
    virt: u64,
    level: nat,
    under: u64,
    stock: Seq<u64>,
) -> (MachineView, Seq<u64>, u64)
    decreases level,
{
    let index = walk::index_at(virt, level as int);
    let bits = m.word(table, index);
    if level == 0 {
        (m, stock, table)
    } else if !M::is_present(bits) {
        way_made::<M>(
            m.stored(table, index, M::table_bits(stock.last(), under)),
            stock.last(),
            virt,
            (level - 1) as nat,
            under,
            stock.drop_last(),
        )
    } else {
        way_made::<M>(
            opened_up::<M>(m, table, index, under),
            M::named(bits),
            virt,
            (level - 1) as nat,
            under,
            stock,
        )
    }
}

/// A frame put in at an address that has nothing at it.
pub open spec fn published<M: Machine>(
    m: MachineView,
    root: u64,
    virt: u64,
    phys: u64,
    flags: u64,
    stock: Seq<u64>,
) -> (MachineView, Seq<u64>) {
    let (open, left, table) = way_made::<M>(m, root, virt, 3, flags, stock);
    (open.stored(table, walk::index_at(virt, 0), M::leaf_bits(phys, flags)), left)
}

/// The last descriptor of an address written over.
pub open spec fn rewritten<M: Machine>(m: MachineView, root: u64, virt: u64, bits: u64) -> MachineView {
    m.stored(tree::leaf_table::<M>(m, root, virt)->0, walk::index_at(virt, 0), bits)
}

/// Where an address leads, walking down from a table at `level`.
pub open spec fn translation<M: Machine>(m: MachineView, table: u64, virt: u64, level: nat) -> Option<
    u64,
>
    decreases level,
{
    let bits = m.word(table, walk::index_at(virt, level as int));
    let size = walk::size_at(level as int);
    if !M::is_present(bits) {
        None
    } else if level == 0 {
        Some(M::named(bits) | (virt % 0x1000))
    } else if M::stops(bits, level as int) {
        Some((M::named(bits) as int / size * size + virt as int % size) as u64)
    } else {
        translation::<M>(m, M::named(bits), virt, (level - 1) as nat)
    }
}

/// How many tables a mapping at an address would have to create, walking down
/// from a table at `level`.
pub open spec fn missing<M: Machine>(m: MachineView, table: u64, virt: u64, level: nat) -> nat
    decreases level,
{
    if level == 0 {
        0
    } else {
        match tree::step::<M>(m, table, walk::index_at(virt, level as int), level as int) {
            None => level,
            Some(next) => missing::<M>(m, next, virt, (level - 1) as nat),
        }
    }
}

/// A hierarchy of translation tables, named by its top table.
///
/// This is the raw layer: it says nothing about who may call it or when.
pub struct Tables {
    root: u64,
}

impl Tables {
    pub closed spec fn top(&self) -> u64 {
        self.root
    }

    /// The hierarchy whose top table is the frame at `root`.
    pub fn new(root: u64) -> (tables: Tables)
        ensures
            tables.top() == root,
    {
        Tables { root }
    }

    pub fn root(&self) -> (root: u64)
        ensures
            root == self.top(),
    {
        self.root
    }

    /// Write a descriptor, with whatever it makes reachable already in memory.
    ///
    /// The barrier is what puts the zeroed table or the filled page there
    /// before the descriptor naming it is. Without it the walker can reach the
    /// descriptor and read what was at that address before. This is the only
    /// place a descriptor is written, so it cannot be left out.
    pub(crate) fn store<M: Machine>(machine: &mut M, table: u64, index: usize, bits: u64)
        requires
            old(machine).state().has(table),
            index < ENTRIES,
        ensures
            final(machine).state() == old(machine).state().stored(table, index as int, bits),
    {
        machine.store_barrier();
        machine.write(table, index, bits);
        assert(machine.state() =~= old(machine).state().stored(table, index as int, bits));
    }

    /// The table one level down from `table` on the way to `virt`, or nothing
    /// where the walk stops.
    fn step<M: Machine>(machine: &M, table: u64, virt: u64, level: u32) -> (next: Option<u64>)
        requires
            machine.state().has(table),
            level < 4,
        ensures
            next == tree::step::<M>(
                machine.state(),
                table,
                walk::index_at(virt, level as int),
                level as int,
            ),
    {
        let bits = machine.read(table, index_of(virt, level));
        if !machine.present(bits) || machine.ends_walk(bits, level) {
            return None;
        }
        Some(machine.addr(bits))
    }

    /// The last-level table for `virt`, walking what is there and creating
    /// nothing.
    fn leaf_table<M: Machine>(&self, machine: &M, virt: u64) -> (table: Option<u64>)
        requires
            tree::is_tree::<M>(machine.state(), self.top(), 3),
        ensures
            table == tree::leaf_table::<M>(machine.state(), self.top(), virt),
            table matches Some(t) ==> machine.state().has(t),
    {
        let mut table = self.root;
        let mut level: u32 = 3;
        proof {
            tree::path_of_is_path(virt, 0);
            tree::path_of_is_path(virt, 3);
        }
        while level > 0
            invariant
                level <= 3,
                self.root == self.top(),
                tree::is_tree::<M>(machine.state(), self.top(), 3),
                tree::reached::<M>(machine.state(), self.top(), 3, tree::path_of(virt).take(3 - level)) == Some(
                    table,
                ),
            decreases level,
        {
            proof {
                tree::path_of_is_path(virt, 3 - level);
                tree::one_level_down::<M>(machine.state(), self.top(), virt, level as int);
            }
            match Tables::step(machine, table, virt, level) {
                Some(next) => {
                    table = next;
                },
                None => {
                    proof {
                        stops_for_good::<M>(
                            machine.state(),
                            self.top(),
                            virt,
                            4 - level as int,
                        );
                    }
                    return None;
                },
            }
            level -= 1;
        }
        proof {
            tree::path_of_is_path(virt, 3);
        }
        Some(table)
    }

    /// How many tables a mapping at `virt` would have to create.
    ///
    /// The answer is a count rather than a set because the levels a walk is
    /// missing are always the bottom ones: a descriptor exists only where
    /// everything above it does.
    pub fn missing_tables<M: Machine>(&self, machine: &M, virt: u64) -> (count: usize)
        requires
            tree::is_tree::<M>(machine.state(), self.top(), 3),
        ensures
            count == missing::<M>(machine.state(), self.top(), virt, 3),
            count <= DEPTH,
    {
        let mut table = self.root;
        let mut level: u32 = 3;
        proof {
            tree::path_of_is_path(virt, 0);
        }
        while level > 0
            invariant
                level <= 3,
                tree::is_tree::<M>(machine.state(), self.top(), 3),
                tree::reached::<M>(machine.state(), self.top(), 3, tree::path_of(virt).take(3 - level)) == Some(
                    table,
                ),
                missing::<M>(machine.state(), table, virt, level as nat) == missing::<M>(
                    machine.state(),
                    self.top(),
                    virt,
                    3,
                ),
            decreases level,
        {
            proof {
                tree::path_of_is_path(virt, 3 - level);
                tree::one_level_down::<M>(machine.state(), self.top(), virt, level as int);
            }
            match Tables::step(machine, table, virt, level) {
                Some(next) => {
                    table = next;
                },
                // This level and every one below it.
                None => {
                    return level as usize;
                },
            }
            level -= 1;
        }
        0
    }

    /// The descriptor of `virt` at the last level, as it stands.
    pub fn leaf<M: Machine>(&self, machine: &M, virt: u64) -> (bits: Option<u64>)
        requires
            tree::is_tree::<M>(machine.state(), self.top(), 3),
        ensures
            bits == tree::leaf_at::<M>(machine.state(), self.top(), virt),
    {
        let table = match self.leaf_table(machine, virt) {
            Some(table) => table,
            None => {
                return None;
            },
        };
        let bits = machine.read(table, index_of(virt, 0));
        if machine.present(bits) {
            Some(bits)
        } else {
            None
        }
    }

    /// The flags on the mapping of `virt`, as they were asked for.
    pub fn flags_of<M: Machine>(&self, machine: &M, virt: u64) -> (flags: Option<u64>)
        requires
            tree::is_tree::<M>(machine.state(), self.top(), 3),
        ensures
            flags == (match tree::leaf_at::<M>(machine.state(), self.top(), virt) {
                Some(bits) => Some(M::flags_in(bits)),
                None => None,
            }),
    {
        match self.leaf(machine, virt) {
            Some(bits) => Some(machine.flags(bits)),
            None => None,
        }
    }

    /// The physical address `virt` reaches, including its offset in the page.
    pub fn translate<M: Machine>(&self, machine: &M, virt: u64) -> (phys: Option<u64>)
        requires
            tree::is_tree::<M>(machine.state(), self.top(), 3),
        ensures
            phys == translation::<M>(machine.state(), self.top(), virt, 3),
    {
        let mut table = self.root;
        let mut level: u32 = 3;
        proof {
            tree::path_of_is_path(virt, 0);
        }
        while level > 0
            invariant
                level <= 3,
                tree::is_tree::<M>(machine.state(), self.top(), 3),
                tree::reached::<M>(machine.state(), self.top(), 3, tree::path_of(virt).take(3 - level)) == Some(
                    table,
                ),
                translation::<M>(machine.state(), table, virt, level as nat) == translation::<M>(
                    machine.state(),
                    self.top(),
                    virt,
                    3,
                ),
            decreases level,
        {
            proof {
                tree::path_of_is_path(virt, 3 - level);
                tree::one_level_down::<M>(machine.state(), self.top(), virt, level as int);
            }
            let bits = machine.read(table, index_of(virt, level));
            if !machine.present(bits) {
                return None;
            }
            if machine.ends_walk(bits, level) {
                let size = level_size(level);
                let base = machine.addr(bits);
                return Some(base / size * size + virt % size);
            }
            table = machine.addr(bits);
            level -= 1;
        }
        proof {
            tree::path_of_is_path(virt, 3);
        }
        let bits = machine.read(table, index_of(virt, 0));
        if !machine.present(bits) {
            return None;
        }
        Some(machine.addr(bits) | (virt % 0x1000))
    }
}

/// A walk that has stopped goes no further.
pub proof fn stops_for_good<M: Machine>(m: MachineView, root: u64, virt: u64, n: int)
    requires
        0 <= n <= 3,
        tree::reached::<M>(m, root, 3, tree::path_of(virt).take(n)) is None,
    ensures
        tree::leaf_table::<M>(m, root, virt) is None,
    decreases 3 - n,
{
    tree::path_of_is_path(virt, 3);
    if n < 3 {
        tree::one_level_down::<M>(m, root, virt, 3 - n);
        stops_for_good::<M>(m, root, virt, n + 1);
    }
}

/// A table above the `n`th on the way to an address.
pub open spec fn on_the_way<M: Machine>(
    m: MachineView,
    root: u64,
    virt: u64,
    n: int,
    frame: u64,
) -> bool {
    exists|k: int|
        0 <= k < n && #[trigger] tree::reached::<M>(m, root, 3, tree::path_of(virt).take(k)) == Some(frame)
}

/// The way down to an address made as far as the table `n` steps down: there
/// is a tree still, in which every other address's last-level table is what it
/// was, and frames still to use.
pub open spec fn is_part_way<M: Machine>(
    m: MachineView,
    root: u64,
    virt: u64,
    stock: Seq<u64>,
    after: MachineView,
    left: Seq<u64>,
    table: u64,
    n: int,
) -> bool {
    &&& tree::is_tree::<M>(after, root, 3)
    &&& tree::are_spare::<M>(m, root, stock)
    &&& tree::are_spare::<M>(after, root, left)
    &&& left.len() <= stock.len()
    &&& left == stock.take(left.len() as int)
    &&& tree::reached::<M>(after, root, 3, tree::path_of(virt).take(n)) == Some(table)
    &&& after.counts == m.counts
    &&& forall|frame: u64| #[trigger] after.has(frame) == m.has(frame)
    &&& forall|q: Seq<int>|
        tree::is_path(q, 3) && q.len() == 3 && q != tree::path_of(virt) ==> #[trigger] tree::reached::<M>(
            after,
            root,
            3,
            q,
        ) == tree::reached::<M>(m, root, 3, q)
    &&& tree::leaf_table::<M>(m, root, virt) is Some ==> left == stock && tree::leaf_table::<M>(
        after,
        root,
        virt,
    ) == tree::leaf_table::<M>(m, root, virt)
    &&& after.words[table] == walk::blank() || tree::reached::<M>(m, root, 3, tree::path_of(virt).take(n))
        == Some(table)
    &&& forall|frame: u64|
        m.has(frame) && !on_the_way::<M>(after, root, virt, n, frame) && !stock.contains(frame)
            ==> #[trigger] after.words[frame] == m.words[frame]
    &&& forall|q: Seq<int>|
        tree::is_path(q, 3) ==> (#[trigger] tree::reached::<M>(after, root, 3, q) matches Some(t)
            ==> tree::reached::<M>(m, root, 3, q) == Some(t) || stock.contains(t))
}

/// Nothing made yet.
pub(crate) proof fn nothing_made<M: Machine>(m: MachineView, root: u64, virt: u64, stock: Seq<u64>)
    requires
        tree::is_tree::<M>(m, root, 3),
        tree::are_spare::<M>(m, root, stock),
    ensures
        is_part_way::<M>(m, root, virt, stock, m, stock, root, 0),
{
    tree::path_of_is_path(virt, 0);
    assert(stock.take(stock.len() as int) =~= stock);
    assert forall|q: Seq<int>| tree::is_path(q, 3) implies (#[trigger] tree::reached::<M>(
        m,
        root,
        3,
        q,
    ) matches Some(t) ==> tree::reached::<M>(m, root, 3, q) == Some(t) || stock.contains(t)) by {
    }
}

/// One more level of the way made, out of the stock.
pub(crate) proof fn one_level_created<M: Machine>(
    m: MachineView,
    root: u64,
    virt: u64,
    stock: Seq<u64>,
    now: MachineView,
    left: Seq<u64>,
    table: u64,
    n: int,
    under: u64,
)
    requires
        is_part_way::<M>(m, root, virt, stock, now, left, table, n),
        0 <= n < 3,
        left.len() > 0,
        !M::is_present(now.word(table, walk::index_at(virt, 3 - n))),
    ensures
        is_part_way::<M>(
            m,
            root,
            virt,
            stock,
            now.stored(table, walk::index_at(virt, 3 - n), M::table_bits(left.last(), under)),
            left.drop_last(),
            left.last(),
            n + 1,
        ),
{
    let index = walk::index_at(virt, 3 - n);
    let at = tree::path_of(virt).take(n);
    let fresh = left.last();
    let after = now.stored(table, index, M::table_bits(fresh, under));
    let rest = left.drop_last();
    tree::path_of_is_path(virt, n);
    tree::path_of_is_path(virt, n + 1);
    tree::the_way_goes_on(virt, n, n + 1);
    tree::the_way_goes_on(virt, n, 3);
    assert(tree::is_spare::<M>(now, root, left[left.len() - 1]));
    tree::blank_table_is_tree::<M>(now, root, at, index, fresh, under);
    tree::blank_table_reached::<M>(now, root, at, index, fresh, under, tree::path_of(virt).take(n + 1));
    // There was nothing here, so the address had no last-level table.
    tree::path_of_is_path(virt, 3);
    tree::absent_leads_nowhere::<M>(now, root, 3, at, index, tree::path_of(virt));
    assert(tree::leaf_table::<M>(m, root, virt) is None);
    assert(now.has(table));
    assert forall|p: Seq<int>| tree::is_path(p, 3) implies ({
        let r = #[trigger] tree::reached::<M>(after, root, 3, p);
        r == Some(fresh) || r == tree::reached::<M>(now, root, 3, p) || r is None
    }) by {
        if tree::goes_through(p, at, index) {
            tree::blank_table_reached::<M>(now, root, at, index, fresh, under, p);
        } else {
            tree::stored_elsewhere::<M>(
                now,
                root,
                3,
                at,
                index,
                M::table_bits(fresh, under),
                p,
            );
        }
    }
    assert forall|i: int| 0 <= i < rest.len() implies tree::is_spare::<M>(
        after,
        root,
        #[trigger] rest[i],
    ) by {
        assert(rest[i] == left[i]);
        assert(tree::is_spare::<M>(now, root, left[i]));
        assert(left[i] != left[left.len() - 1]);
        assert(left[i] != table);
    }
    assert forall|i: int, j: int| 0 <= i < j < rest.len() implies #[trigger] rest[i]
        != #[trigger] rest[j] by {
        assert(left[i] != left[j]);
    }
    assert(rest =~= stock.take(rest.len() as int));
    assert forall|q: Seq<int>|
        tree::is_path(q, 3) && q.len() == 3 && q != tree::path_of(virt) implies #[trigger] tree::reached::<M>(
        after,
        root,
        3,
        q,
    ) == tree::reached::<M>(m, root, 3, q) by {
        if tree::goes_through(q, at, index) {
            tree::absent_leads_nowhere::<M>(now, root, 3, at, index, q);
            tree::blank_table_reached::<M>(now, root, at, index, fresh, under, q);
            if n == 2 {
                assert(q.take(3) =~= q);
            }
        } else {
            tree::stored_elsewhere::<M>(
                now,
                root,
                3,
                at,
                index,
                M::table_bits(fresh, under),
                q,
            );
        }
    }
    still_on_the_way::<M>(now, after, root, virt, n, index, M::table_bits(fresh, under), table);
    assert forall|frame: u64| #[trigger] after.has(frame) == m.has(frame) by {
        assert(now.has(frame) == m.has(frame));
    }
    assert(stock.contains(fresh)) by {
        assert(stock[left.len() - 1] == stock.take(left.len() as int)[left.len() - 1]);
    }
}

/// What was on the way to an address before a store to the last table reached
/// so far is on it afterwards, and so is that table.
proof fn still_on_the_way<M: Machine>(
    now: MachineView,
    after: MachineView,
    root: u64,
    virt: u64,
    n: int,
    index: int,
    bits: u64,
    table: u64,
)
    requires
        tree::is_tree::<M>(now, root, 3),
        0 <= n < 3,
        index == walk::index_at(virt, 3 - n),
        tree::reached::<M>(now, root, 3, tree::path_of(virt).take(n)) == Some(table),
        after == now.stored(table, index, bits),
    ensures
        forall|frame: u64| #[trigger]
            on_the_way::<M>(now, root, virt, n + 1, frame) ==> on_the_way::<M>(
                after,
                root,
                virt,
                n + 1,
                frame,
            ),
        on_the_way::<M>(after, root, virt, n + 1, table),
        forall|frame: u64| #[trigger]
            on_the_way::<M>(now, root, virt, n, frame) ==> on_the_way::<M>(
                after,
                root,
                virt,
                n + 1,
                frame,
            ),
{
    tree::path_of_is_path(virt, n);
    assert forall|k: int| 0 <= k <= n implies #[trigger] tree::reached::<M>(
        after,
        root,
        3,
        tree::path_of(virt).take(k),
    ) == tree::reached::<M>(now, root, 3, tree::path_of(virt).take(k)) by {
        tree::path_of_is_path(virt, k);
        tree::the_way_goes_on(virt, n, k);
        tree::stored_elsewhere::<M>(
            now,
            root,
            3,
            tree::path_of(virt).take(n),
            index,
            bits,
            tree::path_of(virt).take(k),
        );
    }
    assert(tree::reached::<M>(after, root, 3, tree::path_of(virt).take(n)) == Some(table));
    assert forall|frame: u64| #[trigger]
        on_the_way::<M>(now, root, virt, n + 1, frame) implies on_the_way::<M>(
        after,
        root,
        virt,
        n + 1,
        frame,
    ) by {
        let k = choose|k: int|
            0 <= k < n + 1 && #[trigger] tree::reached::<M>(now, root, 3, tree::path_of(virt).take(k)) == Some(
                frame,
            );
        assert(tree::reached::<M>(after, root, 3, tree::path_of(virt).take(k)) == Some(frame));
    }
    assert forall|frame: u64| #[trigger]
        on_the_way::<M>(now, root, virt, n, frame) implies on_the_way::<M>(
        after,
        root,
        virt,
        n + 1,
        frame,
    ) by {
        let k = choose|k: int|
            0 <= k < n && #[trigger] tree::reached::<M>(now, root, 3, tree::path_of(virt).take(k)) == Some(
                frame,
            );
        assert(tree::reached::<M>(after, root, 3, tree::path_of(virt).take(k)) == Some(frame));
    }
}

/// One more level of the way found, and opened up where it has to be.
pub(crate) proof fn one_level_found<M: Machine>(
    m: MachineView,
    root: u64,
    virt: u64,
    stock: Seq<u64>,
    now: MachineView,
    left: Seq<u64>,
    table: u64,
    n: int,
    under: u64,
)
    requires
        is_part_way::<M>(m, root, virt, stock, now, left, table, n),
        0 <= n < 3,
        M::is_present(now.word(table, walk::index_at(virt, 3 - n))),
        !M::stops(now.word(table, walk::index_at(virt, 3 - n)), 3 - n),
    ensures
        is_part_way::<M>(
            m,
            root,
            virt,
            stock,
            opened_up::<M>(now, table, walk::index_at(virt, 3 - n), under),
            left,
            M::named(now.word(table, walk::index_at(virt, 3 - n))),
            n + 1,
        ),
{
    M::format_holds();
    let index = walk::index_at(virt, 3 - n);
    let at = tree::path_of(virt).take(n);
    let bits = now.word(table, index);
    let after = opened_up::<M>(now, table, index, under);
    tree::path_of_is_path(virt, n);
    tree::path_of_is_path(virt, n + 1);
    tree::path_of_is_path(virt, 3);
    tree::one_level_down::<M>(now, root, virt, 3 - n);
    assert(now.has(table));
    let wider = match M::widened(bits, under) {
        Some(wider) => wider,
        None => bits,
    };
    let same = now.stored(table, index, wider);
    assert(same.word(table, index) == wider);
    assert(tree::step::<M>(same, table, index, 3 - n) == tree::step::<M>(
        now,
        table,
        index,
        3 - n,
    ));
    if M::widened(bits, under) is Some {
        assert(after == same);
        tree::same_way_is_tree::<M>(now, root, 3, at, index, wider);
        assert forall|p: Seq<int>| tree::is_path(p, 3) implies #[trigger] tree::reached::<M>(after, root, 3, p)
            == tree::reached::<M>(now, root, 3, p) by {
            tree::same_way_on::<M>(now, root, 3, at, index, wider, p);
        }
        still_on_the_way::<M>(now, after, root, virt, n, index, wider, table);
        assert forall|frame: u64| #[trigger] after.has(frame) == m.has(frame) by {
            assert(now.has(frame) == m.has(frame));
        }
        assert forall|i: int| 0 <= i < left.len() implies tree::is_spare::<M>(
            after,
            root,
            #[trigger] left[i],
        ) by {
            assert(tree::is_spare::<M>(now, root, left[i]));
            assert(left[i] != table);
        }
    }
    assert forall|frame: u64| #[trigger]
        on_the_way::<M>(now, root, virt, n, frame) implies on_the_way::<M>(
        after,
        root,
        virt,
        n + 1,
        frame,
    ) by {
        let k = choose|k: int|
            0 <= k < n && #[trigger] tree::reached::<M>(now, root, 3, tree::path_of(virt).take(k)) == Some(
                frame,
            );
        tree::path_of_is_path(virt, k);
        assert(tree::reached::<M>(after, root, 3, tree::path_of(virt).take(k)) == Some(frame));
    }
    if tree::reached::<M>(m, root, 3, at) == Some(table) {
        // Neither made nor changed so far, so what it says is what it said.
        tree::one_level_down::<M>(m, root, virt, 3 - n);
        assert(!on_the_way::<M>(now, root, virt, n, table)) by {
            if on_the_way::<M>(now, root, virt, n, table) {
                let k = choose|k: int|
                    0 <= k < n && #[trigger] tree::reached::<M>(
                        now,
                        root,
                        3,
                        tree::path_of(virt).take(k),
                    ) == Some(table);
                tree::path_of_is_path(virt, k);
                assert(tree::path_of(virt).take(k) == at);
            }
        }
        if stock.contains(table) {
            let i = choose|i: int| 0 <= i < stock.len() && stock[i] == table;
            assert(tree::is_spare::<M>(m, root, stock[i]));
        }
    }
}

/// What is mapped at every other address is unchanged.
pub open spec fn others_unchanged<M: Machine>(
    m: MachineView,
    after: MachineView,
    root: u64,
    virt: u64,
) -> bool {
    forall|other: u64|
        tree::page_of(other) != tree::page_of(virt) ==> #[trigger] tree::leaf_at::<M>(
            after,
            root,
            other,
        ) == tree::leaf_at::<M>(m, root, other)
}

/// Once the way is made, writing an address's last descriptor puts what it
/// says at that address and leaves every other alone.
pub proof fn written_at_the_end<M: Machine>(
    m: MachineView,
    root: u64,
    virt: u64,
    stock: Seq<u64>,
    open: MachineView,
    left: Seq<u64>,
    table: u64,
    bits: u64,
)
    requires
        is_part_way::<M>(m, root, virt, stock, open, left, table, 3),
        tree::is_tree::<M>(m, root, 3),
    ensures
        ({
            let after = open.stored(table, walk::index_at(virt, 0), bits);
            &&& tree::is_tree::<M>(after, root, 3)
            &&& tree::are_spare::<M>(after, root, left)
            &&& tree::leaf_at::<M>(after, root, virt) == (if M::is_present(bits) {
                Some(bits)
            } else {
                None
            })
            &&& others_unchanged::<M>(m, after, root, virt)
            &&& forall|q: Seq<int>|
                tree::is_path(q, 3) ==> #[trigger] tree::reached::<M>(after, root, 3, q) == tree::reached::<M>(
                    open,
                    root,
                    3,
                    q,
                )
        }),
{
    let index = walk::index_at(virt, 0);
    let after = open.stored(table, index, bits);
    tree::path_of_is_path(virt, 3);
    tree::same_way_is_tree::<M>(open, root, 3, tree::path_of(virt), index, bits);
    assert forall|q: Seq<int>| tree::is_path(q, 3) implies #[trigger] tree::reached::<M>(after, root, 3, q)
        == tree::reached::<M>(open, root, 3, q) by {
        tree::same_way_on::<M>(open, root, 3, tree::path_of(virt), index, bits, q);
    }
    assert(open.has(table));
    assert(after.word(table, index) == bits);
    assert forall|i: int| 0 <= i < left.len() implies tree::is_spare::<M>(
        after,
        root,
        #[trigger] left[i],
    ) by {
        assert(tree::is_spare::<M>(open, root, left[i]));
        assert(left[i] != table);
    }
    assert forall|other: u64|
        tree::page_of(other) != tree::page_of(virt) implies #[trigger] tree::leaf_at::<M>(
        after,
        root,
        other,
    ) == tree::leaf_at::<M>(m, root, other) by {
        tree::path_of_is_path(other, 3);
        tree::indices_make_the_page(other, virt);
        if tree::path_of(other) == tree::path_of(virt) {
            same_table_other_entry::<M>(m, root, virt, other, stock, open, left, table, bits);
        } else {
            untouched_elsewhere::<M>(m, root, virt, other, stock, open, left, table);
            match tree::leaf_table::<M>(m, root, other) {
                None => {},
                Some(t) => {
                    assert(tree::reached::<M>(open, root, 3, tree::path_of(other)) == Some(t));
                    assert(t != table);
                },
            }
        }
    }
}

/// The last-level table of another path is as it was while the way to an
/// address is made.
proof fn untouched_elsewhere<M: Machine>(
    m: MachineView,
    root: u64,
    virt: u64,
    other: u64,
    stock: Seq<u64>,
    open: MachineView,
    left: Seq<u64>,
    table: u64,
)
    requires
        is_part_way::<M>(m, root, virt, stock, open, left, table, 3),
        tree::is_tree::<M>(m, root, 3),
        tree::path_of(other) != tree::path_of(virt),
    ensures
        tree::leaf_table::<M>(open, root, other) == tree::leaf_table::<M>(m, root, other),
        tree::leaf_table::<M>(m, root, other) matches Some(t) ==> open.words[t] == m.words[t],
{
    tree::path_of_is_path(other, 3);
    assert(tree::reached::<M>(open, root, 3, tree::path_of(other)) == tree::reached::<M>(m, root, 3, tree::path_of(other)));
    if tree::leaf_table::<M>(m, root, other) is Some {
        let t = tree::leaf_table::<M>(m, root, other)->0;
        assert(m.has(t));
        not_on_the_way::<M>(m, root, virt, tree::path_of(other), stock, open, left, table, t);
    }
}

/// A last-level table found both before and after is neither on the way to an
/// address nor out of the stock.
proof fn not_on_the_way<M: Machine>(
    m: MachineView,
    root: u64,
    virt: u64,
    path: Seq<int>,
    stock: Seq<u64>,
    open: MachineView,
    left: Seq<u64>,
    table: u64,
    t: u64,
)
    requires
        is_part_way::<M>(m, root, virt, stock, open, left, table, 3),
        tree::is_path(path, 3),
        path.len() == 3,
        tree::reached::<M>(m, root, 3, path) == Some(t),
        tree::reached::<M>(open, root, 3, path) == Some(t),
    ensures
        !on_the_way::<M>(open, root, virt, 3, t),
        !stock.contains(t),
{
    if on_the_way::<M>(open, root, virt, 3, t) {
        let k = choose|k: int|
            0 <= k < 3 && #[trigger] tree::reached::<M>(open, root, 3, tree::path_of(virt).take(k)) == Some(t);
        tree::path_of_is_path(virt, k);
        assert(tree::path_of(virt).take(k) == path);
    }
    if stock.contains(t) {
        let i = choose|i: int| 0 <= i < stock.len() && stock[i] == t;
        assert(tree::is_spare::<M>(m, root, stock[i]));
    }
}

/// Another descriptor of the same last-level table.
proof fn same_table_other_entry<M: Machine>(
    m: MachineView,
    root: u64,
    virt: u64,
    other: u64,
    stock: Seq<u64>,
    open: MachineView,
    left: Seq<u64>,
    table: u64,
    bits: u64,
)
    requires
        is_part_way::<M>(m, root, virt, stock, open, left, table, 3),
        tree::is_tree::<M>(m, root, 3),
        tree::path_of(other) == tree::path_of(virt),
        walk::index_at(other, 0) != walk::index_at(virt, 0),
    ensures
        ({
            let after = open.stored(table, walk::index_at(virt, 0), bits);
            let there = after.word(table, walk::index_at(other, 0));
            tree::leaf_at::<M>(m, root, other) == (if M::is_present(there) {
                Some(there)
            } else {
                None
            })
        }),
{
    M::format_holds();
    tree::path_of_is_path(virt, 3);
    assert(open.has(table));
    match tree::leaf_table::<M>(m, root, virt) {
        Some(t) => {
            assert(t == table);
            assert(m.has(t));
            not_on_the_way::<M>(m, root, virt, tree::path_of(virt), stock, open, left, table, t);
        },
        None => {
            assert(open.words[table] == walk::blank());
        },
    }
}

/// A change to a table higher up changes nothing about what stands in the way
/// further down.
pub(crate) proof fn same_refusal<M: Machine>(
    m: MachineView,
    after: MachineView,
    root: u64,
    virt: u64,
    table: u64,
    changed: u64,
    k: int,
    n: int,
    available: nat,
)
    requires
        tree::is_tree::<M>(m, root, 3),
        0 <= k < n <= 3,
        tree::reached::<M>(m, root, 3, tree::path_of(virt).take(k)) == Some(changed),
        tree::reached::<M>(m, root, 3, tree::path_of(virt).take(n)) == Some(table),
        forall|frame: u64| frame != changed ==> #[trigger] after.words[frame] == m.words[frame],
    ensures
        refusal::<M>(after, table, virt, (3 - n) as nat, available) == refusal::<M>(
            m,
            table,
            virt,
            (3 - n) as nat,
            available,
        ),
    decreases 3 - n,
{
    tree::path_of_is_path(virt, k);
    tree::path_of_is_path(virt, n);
    assert(table != changed);
    assert(after.words[table] == m.words[table]);
    if n < 3 {
        tree::one_level_down::<M>(m, root, virt, 3 - n);
        if tree::step::<M>(m, table, walk::index_at(virt, 3 - n), 3 - n) is Some {
            same_refusal::<M>(
                m,
                after,
                root,
                virt,
                tree::step::<M>(m, table, walk::index_at(virt, 3 - n), 3 - n)->0,
                changed,
                k,
                n + 1,
                available,
            );
        }
    }
}

/// Where nothing stands in the way, making it gets all the way down.
proof fn making<M: Machine>(
    m: MachineView,
    root: u64,
    virt: u64,
    stock: Seq<u64>,
    now: MachineView,
    left: Seq<u64>,
    table: u64,
    n: int,
    under: u64,
)
    requires
        is_part_way::<M>(m, root, virt, stock, now, left, table, n),
        0 <= n <= 3,
        refusal::<M>(now, table, virt, (3 - n) as nat, left.len()) is None,
    ensures
        ({
            let (open, rest, end) = way_made::<M>(now, table, virt, (3 - n) as nat, under, left);
            is_part_way::<M>(m, root, virt, stock, open, rest, end, 3)
        }),
    decreases 3 - n,
{
    if n < 3 {
        let index = walk::index_at(virt, 3 - n);
        let bits = now.word(table, index);
        tree::path_of_is_path(virt, n);
        assert(now.has(table));
        if !M::is_present(bits) {
            let fresh = left.last();
            let after = now.stored(table, index, M::table_bits(fresh, under));
            M::format_holds();
            one_level_created::<M>(m, root, virt, stock, now, left, table, n, under);
            assert(tree::is_spare::<M>(now, root, left[left.len() - 1]));
            assert(after.words[fresh] == walk::blank());
            tree::path_of_is_path(virt, n + 1);
            making::<M>(m, root, virt, stock, after, left.drop_last(), fresh, n + 1, under);
        } else {
            let after = opened_up::<M>(now, table, index, under);
            one_level_found::<M>(m, root, virt, stock, now, left, table, n, under);
            tree::one_level_down::<M>(now, root, virt, 3 - n);
            same_refusal::<M>(
                now,
                after,
                root,
                virt,
                M::named(bits),
                table,
                n,
                n + 1,
                left.len(),
            );
            making::<M>(m, root, virt, stock, after, left, M::named(bits), n + 1, under);
        }
    }
}

/// Where a mapping is not refused, the way to it can be made.
pub proof fn the_way_is_made<M: Machine>(
    m: MachineView,
    root: u64,
    virt: u64,
    under: u64,
    stock: Seq<u64>,
)
    requires
        tree::is_tree::<M>(m, root, 3),
        tree::are_spare::<M>(m, root, stock),
        refusal::<M>(m, root, virt, 3, stock.len()) is None,
    ensures
        ({
            let (open, left, table) = way_made::<M>(m, root, virt, 3, under, stock);
            is_part_way::<M>(m, root, virt, stock, open, left, table, 3)
        }),
{
    nothing_made::<M>(m, root, virt, stock);
    making::<M>(m, root, virt, stock, m, stock, root, 0, under);
}

impl Tables {
    /// Whether a mapping at `virt` can be put in with this many frames for the
    /// tables it needs.
    fn survey<M: Machine>(&self, machine: &M, virt: u64, available: usize) -> (refused: Option<
        Refused,
    >)
        requires
            tree::is_tree::<M>(machine.state(), self.top(), 3),
        ensures
            refused == refusal::<M>(machine.state(), self.top(), virt, 3, available as nat),
    {
        let mut table = self.root;
        let mut level: u32 = 3;
        proof {
            tree::path_of_is_path(virt, 0);
        }
        while level > 0
            invariant
                level <= 3,
                tree::is_tree::<M>(machine.state(), self.top(), 3),
                tree::reached::<M>(machine.state(), self.top(), 3, tree::path_of(virt).take(3 - level)) == Some(
                    table,
                ),
                refusal::<M>(machine.state(), table, virt, level as nat, available as nat)
                    == refusal::<M>(machine.state(), self.top(), virt, 3, available as nat),
            decreases level,
        {
            proof {
                tree::path_of_is_path(virt, 3 - level);
                tree::one_level_down::<M>(machine.state(), self.top(), virt, level as int);
            }
            let bits = machine.read(table, index_of(virt, level));
            if !machine.present(bits) {
                if available < level as usize {
                    return Some(Refused::ShortOfTables);
                }
                return None;
            }
            if machine.ends_walk(bits, level) {
                return Some(Refused::Blocked);
            }
            table = machine.addr(bits);
            level -= 1;
        }
        proof {
            tree::path_of_is_path(virt, 3);
        }
        if machine.present(machine.read(table, index_of(virt, 0))) {
            Some(Refused::Occupied)
        } else {
            None
        }
    }

    /// The last-level table for `virt`, putting the stock's frames in where a
    /// level is missing.
    fn leaf_table_creating<M: Machine>(
        &self,
        machine: &mut M,
        virt: u64,
        under: u64,
        stock: &mut TableStock,
    ) -> (table: u64)
        requires
            tree::is_tree::<M>(old(machine).state(), self.top(), 3),
            tree::are_spare::<M>(old(machine).state(), self.top(), old(stock)@),
            refusal::<M>(
                old(machine).state(),
                self.top(),
                virt,
                3,
                old(stock)@.len(),
            ) is None,
        ensures
            (final(machine).state(), final(stock)@, table) == way_made::<M>(
                old(machine).state(),
                self.top(),
                virt,
                3,
                under,
                old(stock)@,
            ),
            is_part_way::<M>(
                old(machine).state(),
                self.top(),
                virt,
                old(stock)@,
                final(machine).state(),
                final(stock)@,
                table,
                3,
            ),
    {
        let ghost first = machine.state();
        let ghost all = stock@;
        let mut table = self.root;
        let mut level: u32 = 3;
        proof {
            nothing_made::<M>(first, self.top(), virt, all);
        }
        while level > 0
            invariant
                level <= 3,
                is_part_way::<M>(
                    first,
                    self.top(),
                    virt,
                    all,
                    machine.state(),
                    stock@,
                    table,
                    3 - level,
                ),
                way_made::<M>(machine.state(), table, virt, level as nat, under, stock@)
                    == way_made::<M>(first, self.top(), virt, 3, under, all),
                refusal::<M>(machine.state(), table, virt, level as nat, stock@.len()) is None,
            decreases level,
        {
            let index = index_of(virt, level);
            proof {
                tree::path_of_is_path(virt, 3 - level);
                assert(machine.state().has(table));
            }
            let bits = machine.read(table, index);
            let ghost now = machine.state();
            let ghost left = stock@;
            if !machine.present(bits) {
                let fresh = match stock.take() {
                    Some(fresh) => fresh,
                    None => table,
                };
                let descriptor = machine.table(fresh, under);
                Tables::store(machine, table, index, descriptor);
                proof {
                    one_level_created::<M>(
                        first,
                        self.top(),
                        virt,
                        all,
                        now,
                        left,
                        table,
                        3 - level,
                        under,
                    );
                    M::format_holds();
                    tree::path_of_is_path(virt, 4 - level);
                    assert(machine.state().words[fresh] == walk::blank()) by {
                        assert(tree::is_spare::<M>(now, self.top(), left[left.len() - 1]));
                    }
                }
                table = fresh;
            } else {
                // A machine that forbids from above what the last level allows
                // needs the way down opened as well.
                if let Some(wider) = machine.widen(bits, under) {
                    Tables::store(machine, table, index, wider);
                }
                proof {
                    one_level_found::<M>(
                        first,
                        self.top(),
                        virt,
                        all,
                        now,
                        left,
                        table,
                        3 - level,
                        under,
                    );
                    tree::one_level_down::<M>(now, self.top(), virt, level as int);
                    same_refusal::<M>(
                        now,
                        machine.state(),
                        self.top(),
                        virt,
                        M::named(bits),
                        table,
                        3 - level,
                        4 - level,
                        left.len(),
                    );
                }
                table = machine.addr(bits);
            }
            level -= 1;
        }
        table
    }
}

/// What a descriptor shows of itself: nothing, where the walker does not
/// follow it.
pub open spec fn shown<M: Machine>(bits: u64) -> Option<u64> {
    if M::is_present(bits) {
        Some(bits)
    } else {
        None
    }
}

/// Where an address has a last-level table, there is no way to make.
proof fn the_way_is_there<M: Machine>(m: MachineView, root: u64, virt: u64)
    requires
        tree::is_tree::<M>(m, root, 3),
        tree::leaf_table::<M>(m, root, virt) is Some,
    ensures
        is_part_way::<M>(
            m,
            root,
            virt,
            Seq::empty(),
            m,
            Seq::empty(),
            tree::leaf_table::<M>(m, root, virt)->0,
            3,
        ),
{
    tree::path_of_is_path(virt, 3);
    let none = Seq::<u64>::empty();
    assert(none.take(0) =~= none);
    assert forall|q: Seq<int>| tree::is_path(q, 3) implies (#[trigger] tree::reached::<M>(
        m,
        root,
        3,
        q,
    ) matches Some(t) ==> tree::reached::<M>(m, root, 3, q) == Some(t) || none.contains(t)) by {
    }
}

/// Writing over an address's last descriptor puts what it says at that
/// address, keeps every table where it is, and leaves every other address
/// alone.
pub proof fn rewriting<M: Machine>(m: MachineView, root: u64, virt: u64, bits: u64)
    requires
        tree::is_tree::<M>(m, root, 3),
        tree::leaf_table::<M>(m, root, virt) is Some,
    ensures
        tree::is_tree::<M>(rewritten::<M>(m, root, virt, bits), root, 3),
        tree::leaf_at::<M>(rewritten::<M>(m, root, virt, bits), root, virt) == shown::<M>(bits),
        others_unchanged::<M>(m, rewritten::<M>(m, root, virt, bits), root, virt),
        forall|q: Seq<int>|
            tree::is_path(q, 3) ==> #[trigger] tree::reached::<M>(
                rewritten::<M>(m, root, virt, bits),
                root,
                3,
                q,
            ) == tree::reached::<M>(m, root, 3, q),
{
    the_way_is_there::<M>(m, root, virt);
    written_at_the_end::<M>(
        m,
        root,
        virt,
        Seq::empty(),
        m,
        Seq::empty(),
        tree::leaf_table::<M>(m, root, virt)->0,
        bits,
    );
}

/// Nothing in a table is present.
pub open spec fn is_bare<M: Machine>(m: MachineView, table: u64) -> bool {
    forall|i: int| 0 <= i < ENTRIES ==> !M::is_present(#[trigger] m.word(table, i))
}

/// The tables on the way to an address that nothing is left in handed back,
/// from the one `level` steps up from the last descriptor upwards.
pub open spec fn reclaimed<M: Machine>(
    m: MachineView,
    root: u64,
    virt: u64,
    level: int,
    gone: Seq<u64>,
) -> (MachineView, Seq<u64>)
    decreases 4 - level,
{
    if level < 1 || level > 3 {
        (m, gone)
    } else {
        match tree::reached::<M>(m, root, 3, tree::path_of(virt).take(3 - level)) {
            None => (m, gone),
            Some(parent) => match tree::step::<M>(
                m,
                parent,
                walk::index_at(virt, level),
                level,
            ) {
                None => (m, gone),
                Some(table) => if !is_bare::<M>(m, table) || m.count(table) != 1 {
                    (m, gone)
                } else {
                    reclaimed::<M>(
                        m.stored(parent, walk::index_at(virt, level), 0),
                        root,
                        virt,
                        level + 1,
                        gone.push(table),
                    )
                },
            },
        }
    }
}

/// The mapping at an address taken away, with the tables it emptied.
pub open spec fn unmapped<M: Machine>(m: MachineView, root: u64, virt: u64) -> (
    MachineView,
    Seq<u64>,
) {
    reclaimed::<M>(rewritten::<M>(m, root, virt, 0), root, virt, 1, Seq::empty())
}

/// What is left behind by a mapping taken away: the translation of its own
/// address, or every translation where a table went with it.
pub open spec fn left_behind(tlb: Tlb, virt: u64, gone: Seq<u64>) -> Tlb {
    if gone.len() == 0 {
        tlb.noted(virt)
    } else {
        Tlb::All
    }
}

/// No more tables come back than there are levels left to empty.
pub proof fn reclaiming_is_bounded<M: Machine>(
    m: MachineView,
    root: u64,
    virt: u64,
    level: int,
    gone: Seq<u64>,
)
    requires
        1 <= level <= 4,
    ensures
        reclaimed::<M>(m, root, virt, level, gone).1.len() <= gone.len() + (4 - level),
    decreases 4 - level,
{
    if level <= 3 {
        let parent = tree::reached::<M>(m, root, 3, tree::path_of(virt).take(3 - level));
        if parent is Some {
            let table = tree::step::<M>(m, parent->0, walk::index_at(virt, level), level);
            if table is Some {
                reclaiming_is_bounded::<M>(
                    m.stored(parent->0, walk::index_at(virt, level), 0),
                    root,
                    virt,
                    level + 1,
                    gone.push(table->0),
                );
            }
        }
    }
}

/// Handing tables back only ever adds to what is handed back.
proof fn reclaiming_adds<M: Machine>(
    m: MachineView,
    root: u64,
    virt: u64,
    level: int,
    gone: Seq<u64>,
)
    ensures
        reclaimed::<M>(m, root, virt, level, gone).1.len() >= gone.len(),
    decreases 4 - level,
{
    if 1 <= level <= 3 {
        if tree::reached::<M>(m, root, 3, tree::path_of(virt).take(3 - level)) is Some {
            let parent = tree::reached::<M>(m, root, 3, tree::path_of(virt).take(3 - level))->0;
            let next = tree::step::<M>(m, parent, walk::index_at(virt, level), level);
            if next is Some && is_bare::<M>(m, next->0) && m.count(next->0) == 1 {
                reclaiming_adds::<M>(
                    m.stored(parent, walk::index_at(virt, level), 0),
                    root,
                    virt,
                    level + 1,
                    gone.push(next->0),
                );
            }
        }
    }
}

/// Taking a bare table out of the way to an address leaves a tree, and changes
/// what is mapped nowhere.
pub(crate) proof fn one_table_handed_back<M: Machine>(
    m: MachineView,
    root: u64,
    virt: u64,
    level: int,
    parent: u64,
    table: u64,
)
    requires
        tree::is_tree::<M>(m, root, 3),
        1 <= level <= 3,
        tree::reached::<M>(m, root, 3, tree::path_of(virt).take(3 - level)) == Some(parent),
        tree::step::<M>(m, parent, walk::index_at(virt, level), level) == Some(table),
        is_bare::<M>(m, table),
    ensures
        ({
            let after = m.stored(parent, walk::index_at(virt, level), 0);
            &&& tree::is_tree::<M>(after, root, 3)
            &&& forall|other: u64| #[trigger]
                tree::leaf_at::<M>(after, root, other) == tree::leaf_at::<M>(m, root, other)
            &&& forall|p: Seq<int>|
                tree::is_path(p, 3) ==> #[trigger] tree::reached::<M>(after, root, 3, p) != Some(table)
            &&& forall|p: Seq<int>|
                tree::is_path(p, 3) ==> (#[trigger] tree::reached::<M>(after, root, 3, p) is Some
                    ==> tree::reached::<M>(after, root, 3, p) == tree::reached::<M>(m, root, 3, p))
        }),
{
    let n = 3 - level;
    let index = walk::index_at(virt, level);
    let at = tree::path_of(virt).take(n);
    let after = m.stored(parent, index, 0);
    tree::path_of_is_path(virt, n);
    tree::path_of_is_path(virt, n + 1);
    tree::the_way_goes_on(virt, n, n + 1);
    tree::one_level_down::<M>(m, root, virt, level);
    tree::cleared_is_tree::<M>(m, root, 3, at, index);
    assert forall|p: Seq<int>| tree::is_path(p, 3) implies ({
        let r = #[trigger] tree::reached::<M>(after, root, 3, p);
        if tree::goes_through(p, at, index) {
            r is None
        } else {
            r == tree::reached::<M>(m, root, 3, p)
        }
    }) by {
        if tree::goes_through(p, at, index) {
            tree::cleared_leads_nowhere::<M>(m, root, 3, at, index, p);
        } else {
            tree::stored_elsewhere::<M>(m, root, 3, at, index, 0, p);
        }
    }
    assert forall|p: Seq<int>| tree::is_path(p, 3) implies #[trigger] tree::reached::<M>(after, root, 3, p)
        != Some(table) by {
        if tree::reached::<M>(after, root, 3, p) == Some(table) {
            assert(tree::reached::<M>(m, root, 3, p) == Some(table));
            assert(p == tree::path_of(virt).take(n + 1));
            assert(tree::goes_through(p, at, index));
        }
    }
    assert forall|other: u64| #[trigger]
        tree::leaf_at::<M>(after, root, other) == tree::leaf_at::<M>(m, root, other) by {
        tree::path_of_is_path(other, 3);
        let p = tree::path_of(other);
        if tree::goes_through(p, at, index) {
            assert(tree::reached::<M>(after, root, 3, p) is None);
            bare_leads_nowhere::<M>(m, root, virt, other, level, table);
        } else {
            assert(tree::reached::<M>(after, root, 3, p) == tree::reached::<M>(m, root, 3, p));
            if tree::reached::<M>(m, root, 3, p) is Some {
                let t = tree::reached::<M>(m, root, 3, p)->0;
                assert(m.has(t));
                assert(t != parent) by {
                    if t == parent {
                        assert(p == at);
                    }
                }
            }
        }
    }
}

/// Nothing is mapped through a bare table.
proof fn bare_leads_nowhere<M: Machine>(
    m: MachineView,
    root: u64,
    virt: u64,
    other: u64,
    level: int,
    table: u64,
)
    requires
        1 <= level <= 3,
        tree::reached::<M>(m, root, 3, tree::path_of(virt).take(4 - level)) == Some(table),
        is_bare::<M>(m, table),
        tree::goes_through(
            tree::path_of(other),
            tree::path_of(virt).take(3 - level),
            walk::index_at(virt, level),
        ),
    ensures
        tree::leaf_at::<M>(m, root, other) is None,
{
    let n = 4 - level;
    tree::path_of_is_path(virt, n);
    tree::path_of_is_path(other, 3);
    tree::the_way_goes_on(virt, n - 1, n);
    assert(tree::path_of(other).take(n) == tree::path_of(virt).take(n));
    if n < 3 {
        tree::path_of_is_path(other, n);
        tree::the_way_goes_on(other, n, 3);
        assert(!M::is_present(m.word(table, walk::index_at(other, 3 - n))));
        tree::absent_leads_nowhere::<M>(
            m,
            root,
            3,
            tree::path_of(other).take(n),
            walk::index_at(other, 3 - n),
            tree::path_of(other),
        );
    } else {
        assert(tree::path_of(other).take(3) =~= tree::path_of(other));
        assert(!M::is_present(m.word(table, walk::index_at(other, 0))));
    }
}

/// Handing back the tables an address leaves bare keeps a tree, and changes
/// what is mapped nowhere. None of them is part of the tree any more.
pub proof fn reclaiming<M: Machine>(
    m: MachineView,
    root: u64,
    virt: u64,
    level: int,
    gone: Seq<u64>,
)
    requires
        tree::is_tree::<M>(m, root, 3),
        forall|i: int|
            #![trigger gone[i]]
            0 <= i < gone.len() ==> forall|p: Seq<int>|
                tree::is_path(p, 3) ==> #[trigger] tree::reached::<M>(m, root, 3, p) != Some(gone[i]),
    ensures
        ({
            let (after, all) = reclaimed::<M>(m, root, virt, level, gone);
            &&& tree::is_tree::<M>(after, root, 3)
            &&& forall|other: u64| #[trigger]
                tree::leaf_at::<M>(after, root, other) == tree::leaf_at::<M>(m, root, other)
            &&& forall|i: int|
                #![trigger all[i]]
                0 <= i < all.len() ==> forall|p: Seq<int>|
                    tree::is_path(p, 3) ==> #[trigger] tree::reached::<M>(after, root, 3, p) != Some(all[i])
            &&& after.counts == m.counts
        }),
    decreases 4 - level,
{
    if 1 <= level <= 3 {
        if tree::reached::<M>(m, root, 3, tree::path_of(virt).take(3 - level)) is Some {
            let parent = tree::reached::<M>(m, root, 3, tree::path_of(virt).take(3 - level))->0;
            let next = tree::step::<M>(m, parent, walk::index_at(virt, level), level);
            if next is Some && is_bare::<M>(m, next->0) && m.count(next->0) == 1 {
                let table = next->0;
                let after = m.stored(parent, walk::index_at(virt, level), 0);
                let more = gone.push(table);
                one_table_handed_back::<M>(m, root, virt, level, parent, table);
                assert forall|i: int|
                    #![trigger more[i]]
                    0 <= i < more.len() implies forall|p: Seq<int>|
                    tree::is_path(p, 3) ==> #[trigger] tree::reached::<M>(after, root, 3, p) != Some(
                        more[i],
                    ) by {
                    if i < gone.len() {
                        assert(more[i] == gone[i]);
                        assert forall|p: Seq<int>| tree::is_path(p, 3) implies #[trigger] tree::reached::<M>(
                            after,
                            root,
                            3,
                            p,
                        ) != Some(more[i]) by {
                            if tree::reached::<M>(after, root, 3, p) is Some {
                                assert(tree::reached::<M>(m, root, 3, p) != Some(gone[i]));
                            }
                        }
                    }
                }
                reclaiming::<M>(after, root, virt, level + 1, more);
            }
        }
    }
}

/// Taking a mapping away leaves nothing at its address, and every other
/// address as it was. The tables that went with it are part of the tree no
/// more.
pub proof fn unmapping<M: Machine>(m: MachineView, root: u64, virt: u64)
    requires
        tree::is_tree::<M>(m, root, 3),
        tree::leaf_table::<M>(m, root, virt) is Some,
    ensures
        ({
            let (after, gone) = unmapped::<M>(m, root, virt);
            &&& tree::is_tree::<M>(after, root, 3)
            &&& tree::leaf_at::<M>(after, root, virt) is None
            &&& others_unchanged::<M>(m, after, root, virt)
            &&& forall|i: int|
                #![trigger gone[i]]
                0 <= i < gone.len() ==> forall|p: Seq<int>|
                    tree::is_path(p, 3) ==> #[trigger] tree::reached::<M>(after, root, 3, p) != Some(gone[i])
            &&& after.counts == m.counts
        }),
{
    M::format_holds();
    rewriting::<M>(m, root, virt, 0);
    reclaiming::<M>(rewritten::<M>(m, root, virt, 0), root, virt, 1, Seq::empty());
    let cleared = rewritten::<M>(m, root, virt, 0);
    let after = unmapped::<M>(m, root, virt).0;
    assert forall|other: u64|
        tree::page_of(other) != tree::page_of(virt) implies #[trigger] tree::leaf_at::<M>(
        after,
        root,
        other,
    ) == tree::leaf_at::<M>(m, root, other) by {
        assert(tree::leaf_at::<M>(after, root, other) == tree::leaf_at::<M>(cleared, root, other));
    }
    assert(tree::leaf_at::<M>(after, root, virt) == tree::leaf_at::<M>(cleared, root, virt));
}

impl Tables {
    /// Put the frame at `phys` in at `virt`.
    ///
    /// An address that already has a mapping is refused rather than written
    /// over: the descriptor is the only record of the reference the frame it
    /// names holds, so overwriting it would leave that frame with no owner and
    /// no way back. The caller gets its frame back to release.
    pub fn publish<M: Machine>(
        &self,
        machine: &mut M,
        virt: u64,
        phys: u64,
        flags: u64,
        stock: &mut TableStock,
        tlb: &mut Tlb,
    ) -> (result: Result<(), Refused>)
        requires
            tree::is_tree::<M>(old(machine).state(), self.top(), 3),
            tree::are_spare::<M>(old(machine).state(), self.top(), old(stock)@),
        ensures
            match refusal::<M>(
                old(machine).state(),
                self.top(),
                virt,
                3,
                old(stock)@.len(),
            ) {
                Some(refused) => {
                    &&& result == Err::<(), Refused>(refused)
                    &&& final(machine).state() == old(machine).state()
                    &&& final(stock)@ == old(stock)@
                    &&& *final(tlb) == *old(tlb)
                },
                None => {
                    &&& result == Ok::<(), Refused>(())
                    &&& (final(machine).state(), final(stock)@) == published::<M>(
                        old(machine).state(),
                        self.top(),
                        virt,
                        phys,
                        flags,
                        old(stock)@,
                    )
                    &&& *final(tlb) == old(tlb).noted(virt)
                    &&& tree::leaf_at::<M>(final(machine).state(), self.top(), virt) == shown::<M>(
                        M::leaf_bits(phys, flags),
                    )
                    &&& others_unchanged::<M>(
                        old(machine).state(),
                        final(machine).state(),
                        self.top(),
                        virt,
                    )
                },
            },
            tree::is_tree::<M>(final(machine).state(), self.top(), 3),
            tree::are_spare::<M>(final(machine).state(), self.top(), final(stock)@),
    {
        if let Some(refused) = self.survey(machine, virt, stock.len()) {
            return Err(refused);
        }
        let table = self.leaf_table_creating(machine, virt, flags, stock);
        let ghost open = machine.state();
        let bits = machine.leaf(phys, flags);
        proof {
            tree::path_of_is_path(virt, 3);
            written_at_the_end::<M>(
                old(machine).state(),
                self.top(),
                virt,
                old(stock)@,
                open,
                stock@,
                table,
                bits,
            );
        }
        Tables::store(machine, table, index_of(virt, 0), bits);
        // A descriptor that was absent leaves nothing cached on the machines
        // this kernel runs on, but a table created on the way down does: the
        // walker is allowed to keep the fact that the address translated to
        // nothing. Noting it costs one invalidation the caller was making
        // anyway for the whole change.
        tlb.note(virt);
        Ok(())
    }

    /// Put the frame at `phys` in at `virt` over whatever was there, handing
    /// back what the descriptor held.
    ///
    /// One store, because the two-step form is wrong and reads as if it were
    /// not: taking the old mapping away and putting the new one in leaves the
    /// address with nothing at it in between, and a sibling on this address
    /// space that touches it there does not find a page on its way back, it
    /// finds one that was never there and is served a fresh page of zeroes
    /// over the top.
    ///
    /// `None` when nothing was mapped at `virt`, with nothing written: putting
    /// the frame in would be creating a mapping rather than replacing one.
    #[must_use]
    pub fn replace<M: Machine>(
        &self,
        machine: &mut M,
        virt: u64,
        phys: u64,
        flags: u64,
        tlb: &mut Tlb,
    ) -> (old_frame: Option<u64>)
        requires
            tree::is_tree::<M>(old(machine).state(), self.top(), 3),
        ensures
            match tree::leaf_at::<M>(old(machine).state(), self.top(), virt) {
                None => {
                    &&& old_frame is None
                    &&& final(machine).state() == old(machine).state()
                    &&& *final(tlb) == *old(tlb)
                },
                Some(bits) => {
                    &&& old_frame == Some(M::named(bits))
                    &&& final(machine).state() == rewritten::<M>(
                        old(machine).state(),
                        self.top(),
                        virt,
                        M::leaf_bits(phys, flags),
                    )
                    &&& *final(tlb) == old(tlb).noted(virt)
                    &&& tree::leaf_at::<M>(final(machine).state(), self.top(), virt) == shown::<M>(
                        M::leaf_bits(phys, flags),
                    )
                },
            },
            others_unchanged::<M>(
                old(machine).state(),
                final(machine).state(),
                self.top(),
                virt,
            ),
            tree::is_tree::<M>(final(machine).state(), self.top(), 3),
    {
        let table = match self.leaf_table(machine, virt) {
            Some(table) => table,
            None => {
                return None;
            },
        };
        let index = index_of(virt, 0);
        let held = machine.read(table, index);
        if !machine.present(held) {
            return None;
        }
        let bits = machine.leaf(phys, flags);
        proof {
            rewriting::<M>(machine.state(), self.top(), virt, bits);
        }
        Tables::store(machine, table, index, bits);
        tlb.note(virt);
        Some(machine.addr(held))
    }

    /// Change the flags on the mapping of `virt`, leaving the frame alone.
    /// The frame's address, or `None` when nothing is mapped there.
    pub fn protect<M: Machine>(&self, machine: &mut M, virt: u64, flags: u64, tlb: &mut Tlb) -> (frame:
        Option<u64>)
        requires
            tree::is_tree::<M>(old(machine).state(), self.top(), 3),
        ensures
            match tree::leaf_at::<M>(old(machine).state(), self.top(), virt) {
                None => {
                    &&& frame is None
                    &&& final(machine).state() == old(machine).state()
                    &&& *final(tlb) == *old(tlb)
                },
                Some(bits) => {
                    &&& frame == Some(M::named(bits))
                    &&& final(machine).state() == rewritten::<M>(
                        old(machine).state(),
                        self.top(),
                        virt,
                        M::leaf_bits(M::named(bits), flags),
                    )
                    &&& *final(tlb) == old(tlb).noted(virt)
                    &&& tree::leaf_at::<M>(final(machine).state(), self.top(), virt) == shown::<M>(
                        M::leaf_bits(M::named(bits), flags),
                    )
                },
            },
            others_unchanged::<M>(
                old(machine).state(),
                final(machine).state(),
                self.top(),
                virt,
            ),
            tree::is_tree::<M>(final(machine).state(), self.top(), 3),
    {
        let table = match self.leaf_table(machine, virt) {
            Some(table) => table,
            None => {
                return None;
            },
        };
        let index = index_of(virt, 0);
        let held = machine.read(table, index);
        if !machine.present(held) {
            return None;
        }
        let phys = machine.addr(held);
        let bits = machine.leaf(phys, flags);
        proof {
            rewriting::<M>(machine.state(), self.top(), virt, bits);
        }
        Tables::store(machine, table, index, bits);
        tlb.note(virt);
        Some(phys)
    }

    /// Take the mapping at `virt` away, handing back the frame the descriptor
    /// held, and put any table the removal emptied into `reclaimed`.
    ///
    /// Nothing is released here. Everything handed back is a frame whose
    /// translation the hardware may still have, and the caller releases it
    /// only after acting on `tlb`.
    #[must_use]
    pub fn unmap<M: Machine>(
        &self,
        machine: &mut M,
        virt: u64,
        tlb: &mut Tlb,
        reclaimed: &mut TableStock,
    ) -> (frame: Option<u64>)
        requires
            tree::is_tree::<M>(old(machine).state(), self.top(), 3),
            tree::leaf_at::<M>(old(machine).state(), self.top(), virt) is Some ==> old(
                reclaimed,
            )@.len() + unmapped::<M>(old(machine).state(), self.top(), virt).1.len() <= DEPTH,
        ensures
            match tree::leaf_at::<M>(old(machine).state(), self.top(), virt) {
                None => {
                    &&& frame is None
                    &&& final(machine).state() == old(machine).state()
                    &&& *final(tlb) == *old(tlb)
                    &&& final(reclaimed)@ == old(reclaimed)@
                },
                Some(bits) => {
                    let (after, gone) = unmapped::<M>(old(machine).state(), self.top(), virt);
                    &&& frame == Some(M::named(bits))
                    &&& final(machine).state() == after
                    &&& *final(tlb) == left_behind(*old(tlb), virt, gone)
                    &&& final(reclaimed)@ == old(reclaimed)@ + gone
                    &&& tree::leaf_at::<M>(final(machine).state(), self.top(), virt) is None
                },
            },
            others_unchanged::<M>(
                old(machine).state(),
                final(machine).state(),
                self.top(),
                virt,
            ),
            tree::is_tree::<M>(final(machine).state(), self.top(), 3),
    {
        let table = match self.leaf_table(machine, virt) {
            Some(table) => table,
            None => {
                return None;
            },
        };
        let index = index_of(virt, 0);
        let held = machine.read(table, index);
        if !machine.present(held) {
            return None;
        }
        proof {
            rewriting::<M>(machine.state(), self.top(), virt, 0);
            unmapping::<M>(machine.state(), self.top(), virt);
        }
        Tables::store(machine, table, index, 0);
        tlb.note(virt);
        self.reclaim(machine, virt, tlb, reclaimed);
        Some(machine.addr(held))
    }

    /// Hand back the tables the unmap of `virt` has left with nothing in them,
    /// from the last level upwards, stopping at the first that still holds
    /// something. The top table is not among them: it belongs to the address
    /// space and goes back when the space does.
    ///
    /// A last-level table covers two megabytes. Without this, a program that
    /// maps one page, touches it and takes it away again at one fresh
    /// two-megabyte-aligned address after another gets every page back and
    /// leaves a table behind each time.
    ///
    /// A table handed back must be named by nothing else, which its reference
    /// count is the answer to: a fork builds the child's tables with mappings
    /// of its own rather than pointing at the parent's, so a live table's
    /// count is one.
    fn reclaim<M: Machine>(
        &self,
        machine: &mut M,
        virt: u64,
        tlb: &mut Tlb,
        reclaimed: &mut TableStock,
    )
        requires
            tree::is_tree::<M>(old(machine).state(), self.top(), 3),
            old(reclaimed)@.len() + self::reclaimed::<M>(
                old(machine).state(),
                self.top(),
                virt,
                1,
                Seq::empty(),
            ).1.len() <= DEPTH,
        ensures
            ({
                let (after, gone) = self::reclaimed::<M>(
                    old(machine).state(),
                    self.top(),
                    virt,
                    1,
                    Seq::empty(),
                );
                &&& final(machine).state() == after
                &&& final(reclaimed)@ == old(reclaimed)@ + gone
                &&& *final(tlb) == (if gone.len() == 0 {
                    *old(tlb)
                } else {
                    Tlb::All
                })
            }),
    {
        let ghost whole = self::reclaimed::<M>(machine.state(), self.top(), virt, 1, Seq::empty());
        let ghost mut gone: Seq<u64> = Seq::empty();
        let mut level: u32 = 1;
        assert(reclaimed@ =~= old(reclaimed)@ + gone);
        while level < 4
            invariant
                1 <= level <= 4,
                tree::is_tree::<M>(machine.state(), self.top(), 3),
                self::reclaimed::<M>(machine.state(), self.top(), virt, level as int, gone)
                    == whole,
                whole == self::reclaimed::<M>(
                    old(machine).state(),
                    self.top(),
                    virt,
                    1,
                    Seq::empty(),
                ),
                reclaimed@ == old(reclaimed)@ + gone,
                old(reclaimed)@.len() + whole.1.len() <= DEPTH,
                *tlb == (if gone.len() == 0 {
                    *old(tlb)
                } else {
                    Tlb::All
                }),
            decreases 4 - level,
        {
            // Walked again from the top each time rather than from a table
            // kept across the level below: the table this is about to look in
            // may be the one the previous turn handed back.
            let parent = match self.table_above(machine, virt, level) {
                Some(parent) => parent,
                None => {
                    return;
                },
            };
            proof {
                tree::path_of_is_path(virt, 3 - level);
                tree::path_of_is_path(virt, 4 - level);
                tree::one_level_down::<M>(machine.state(), self.top(), virt, level as int);
            }
            let table = match Tables::step(machine, parent, virt, level) {
                Some(table) => table,
                None => {
                    return;
                },
            };
            assert(tree::reached::<M>(
                machine.state(),
                self.top(),
                3,
                tree::path_of(virt).take(4 - level),
            ) == Some(table));
            if !Tables::table_is_empty(machine, table, index_of(virt, level - 1))
                || machine.references(table) != 1 {
                return;
            }
            let ghost now = machine.state();
            proof {
                one_table_handed_back::<M>(
                    now,
                    self.top(),
                    virt,
                    level as int,
                    parent,
                    table,
                );
                reclaiming_adds::<M>(
                    now.stored(parent, walk::index_at(virt, level as int), 0),
                    self.top(),
                    virt,
                    level + 1,
                    gone.push(table),
                );
            }
            Tables::store(machine, parent, index_of(virt, level), 0);
            // A table descriptor covered every address under it, and the
            // walker keeps unfinished walks as well as finished translations.
            tlb.note_all();
            reclaimed.push(table);
            proof {
                gone = gone.push(table);
                assert(reclaimed@ =~= old(reclaimed)@ + gone);
            }
            level += 1;
        }
    }

    /// The table whose descriptors on the way to `virt` are at `level`.
    fn table_above<M: Machine>(&self, machine: &M, virt: u64, level: u32) -> (table: Option<u64>)
        requires
            tree::is_tree::<M>(machine.state(), self.top(), 3),
            1 <= level <= 3,
        ensures
            table == tree::reached::<M>(machine.state(), self.top(), 3, tree::path_of(virt).take(3 - level)),
            table matches Some(t) ==> machine.state().has(t),
    {
        let mut table = self.root;
        let mut above: u32 = 3;
        proof {
            tree::path_of_is_path(virt, 0);
            tree::path_of_is_path(virt, 3 - level);
        }
        while above > level
            invariant
                level <= above <= 3,
                1 <= level,
                tree::is_tree::<M>(machine.state(), self.top(), 3),
                tree::reached::<M>(machine.state(), self.top(), 3, tree::path_of(virt).take(3 - above)) == Some(
                    table,
                ),
            decreases above,
        {
            proof {
                tree::path_of_is_path(virt, 3 - above);
                tree::one_level_down::<M>(machine.state(), self.top(), virt, above as int);
            }
            match Tables::step(machine, table, virt, above) {
                Some(next) => {
                    table = next;
                },
                None => {
                    proof {
                        stops_above::<M>(
                            machine.state(),
                            self.top(),
                            virt,
                            4 - above as int,
                            3 - level as int,
                        );
                    }
                    return None;
                },
            }
            above -= 1;
        }
        Some(table)
    }

    /// True when nothing in the table at `phys` is present.
    ///
    /// The sweep starts one past `cleared`, the descriptor an unmap has just
    /// emptied, because a range taken away a page at a time still has the next
    /// page in place there and the sweep stops on its first look. Only the
    /// last page of a table costs all five hundred and twelve.
    fn table_is_empty<M: Machine>(machine: &M, phys: u64, cleared: usize) -> (r: bool)
        requires
            machine.state().has(phys),
            cleared < ENTRIES,
        ensures
            r == is_bare::<M>(machine.state(), phys),
    {
        let mut step: usize = 1;
        while step <= ENTRIES
            invariant
                1 <= step <= ENTRIES + 1,
                machine.state().has(phys),
                cleared < ENTRIES,
                forall|i: int|
                    0 <= i < ENTRIES && (if i > cleared {
                        i - cleared
                    } else {
                        i + ENTRIES - cleared
                    }) < step ==> !M::is_present(#[trigger] machine.state().word(phys, i)),
            decreases ENTRIES + 1 - step,
        {
            let index = (cleared + step) % ENTRIES;
            let bits = machine.read(phys, index);
            if machine.present(bits) {
                return false;
            }
            step += 1;
        }
        true
    }
}

/// A walk that has stopped goes no further.
proof fn stops_above<M: Machine>(m: MachineView, root: u64, virt: u64, n: int, k: int)
    requires
        0 <= n <= k <= 3,
        tree::reached::<M>(m, root, 3, tree::path_of(virt).take(n)) is None,
    ensures
        tree::reached::<M>(m, root, 3, tree::path_of(virt).take(k)) is None,
    decreases k - n,
{
    if n < k {
        tree::one_level_down::<M>(m, root, virt, 3 - n);
        stops_above::<M>(m, root, virt, n + 1, k);
    }
}

} // verus!
