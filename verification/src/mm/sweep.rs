//! Walks over many addresses: finding what is populated, and sharing a
//! parent's pages with a child.

use crate::mm::change::{self, Tables};
use crate::mm::tree;
use crate::mm::walk::{self, level_size, Machine, MachineView, Refused, TableStock, Tlb, ENTRIES};
use crate::mm::USER_LIMIT;
use vstd::prelude::*;

verus! {

// ---- what is populated -------------------------------------------------------

/// Two addresses under one descriptor at `level` take the same way down to it.
pub(crate) proof fn same_block_same_way(a: u64, b: u64, level: int)
    requires
        1 <= level <= 3,
        a as int / walk::size_at(level) == b as int / walk::size_at(level),
    ensures
        tree::path_of(a).take(4 - level) == tree::path_of(b).take(4 - level),
{
    let x = a as int;
    let y = b as int;
    assert(x / 0x4000_0000 == x / 0x20_0000 / 512);
    assert(y / 0x4000_0000 == y / 0x20_0000 / 512);
    assert(x / 0x80_0000_0000 == x / 0x4000_0000 / 512);
    assert(y / 0x80_0000_0000 == y / 0x4000_0000 / 512);
    assert(tree::path_of(a).take(4 - level) =~= tree::path_of(b).take(4 - level));
}

/// The span one descriptor at `level` covers around an address.
proof fn span_of(virt: int, level: int)
    requires
        virt >= 0,
        1 <= level <= 3,
    ensures
        ({
            let size = walk::size_at(level);
            let base = virt / size * size;
            &&& base <= virt < base + size
            &&& (base + size) % 0x20_0000 == 0
            &&& forall|w: int| virt <= w < base + size ==> #[trigger] (w / size) == virt / size
        }),
{
    let size = walk::size_at(level);
    let base = virt / size * size;
    vstd::arithmetic::div_mod::lemma_fundamental_div_mod(virt, size);
    vstd::arithmetic::mul::lemma_mul_is_commutative(virt / size, size);
    vstd::arithmetic::div_mod::lemma_mod_bound(virt, size);
    assert((base + size) % 0x20_0000 == 0) by {
        let k = virt / size;
        assert(base + size == (k + 1) * size) by (nonlinear_arith)
            requires
                base == k * size,
        ;
        let times = size / 0x20_0000;
        assert(size == times * 0x20_0000);
        assert((k + 1) * size == (k + 1) * times * 0x20_0000) by (nonlinear_arith)
            requires
                size == times * 0x20_0000,
        ;
        vstd::arithmetic::div_mod::lemma_mod_multiples_basic((k + 1) * times, 0x20_0000);
    }
    assert forall|w: int| virt <= w < base + size implies #[trigger] (w / size) == virt / size by {
        vstd::arithmetic::div_mod::lemma_fundamental_div_mod_converse(
            w,
            size,
            virt / size,
            w - base,
        );
    }
}

/// Nothing is populated under a descriptor the walk does not follow.
proof fn nothing_under<M: Machine>(m: MachineView, root: u64, virt: u64, other: u64, level: int)
    requires
        1 <= level <= 3,
        tree::reached::<M>(m, root, 3, tree::path_of(virt).take(4 - level)) is None,
        virt as int / walk::size_at(level) == other as int / walk::size_at(level),
    ensures
        tree::leaf_table::<M>(m, root, other) is None,
{
    same_block_same_way(virt, other, level);
    change::stops_for_good::<M>(m, root, other, 4 - level);
}

// ---- sharing ------------------------------------------------------------------

/// A path that stays in the half a program owns.
pub open spec fn is_own(p: Seq<int>) -> bool {
    tree::is_path(p, 3) && (p.len() > 0 ==> p[0] < 256)
}

/// No table that one hierarchy reaches in the half a program owns is reached
/// by another. The half the kernel owns is the same in both.
pub open spec fn are_apart<M: Machine>(m: MachineView, own: u64, other: u64) -> bool {
    forall|p: Seq<int>, q: Seq<int>|
        #![trigger tree::reached::<M>(m, own, 3, p), tree::reached::<M>(m, other, 3, q)]
        is_own(p) && tree::is_path(q, 3) && tree::reached::<M>(m, own, 3, p) is Some ==> tree::reached::<M>(
            m,
            own,
            3,
            p,
        ) != tree::reached::<M>(m, other, 3, q)
}

/// Two address spaces side by side, with frames neither has a use of yet.
pub open spec fn side_by_side<M: Machine>(m: MachineView, a: u64, b: u64, stock: Seq<u64>) -> bool {
    &&& tree::is_tree::<M>(m, a, 3)
    &&& tree::is_tree::<M>(m, b, 3)
    &&& are_apart::<M>(m, a, b)
    &&& are_apart::<M>(m, b, a)
    &&& tree::are_spare::<M>(m, a, stock)
    &&& tree::are_spare::<M>(m, b, stock)
}

/// The parent's side of sharing a page: another reference for the child, and
/// the page marked so that the first write makes a private copy.
pub open spec fn marked<M: Machine>(m: MachineView, parent: u64, virt: u64, bits: u64) -> MachineView {
    let counted = m.shared(M::named(bits));
    match M::shared_flags(M::flags_in(bits)) {
        Some(flags) => change::rewritten::<M>(
            counted,
            parent,
            virt,
            M::leaf_bits(M::named(bits), flags),
        ),
        None => counted,
    }
}

/// The flags both sides get.
pub open spec fn given_flags<M: Machine>(bits: u64) -> u64 {
    match M::shared_flags(M::flags_in(bits)) {
        Some(flags) => flags,
        None => M::flags_in(bits),
    }
}

/// What sharing pages leaves: the memory, the frames still to use, the
/// translations left behind, and whether a page was refused.
#[verifier::ext_equal]
pub struct Shared {
    pub memory: MachineView,
    pub stock: Seq<u64>,
    pub tlb: Tlb,
    pub result: Result<(), Refused>,
}

/// One page of the parent shared with the child. A page the child cannot take
/// gives its reference back.
pub open spec fn page_shared<M: Machine>(
    m: MachineView,
    child: u64,
    parent: u64,
    virt: u64,
    stock: Seq<u64>,
    tlb: Tlb,
) -> Shared {
    match tree::leaf_at::<M>(m, parent, virt) {
        None => Shared { memory: m, stock, tlb, result: Ok(()) },
        Some(bits) => {
            let ready = marked::<M>(m, parent, virt, bits);
            let noted = if M::shared_flags(M::flags_in(bits)) is Some {
                tlb.noted(virt)
            } else {
                tlb
            };
            match change::refusal::<M>(ready, child, virt, 3, stock.len()) {
                Some(refused) => Shared {
                    memory: ready.released(M::named(bits)),
                    stock,
                    tlb: noted,
                    result: Err(refused),
                },
                None => {
                    let (memory, left) = change::published::<M>(
                        ready,
                        child,
                        virt,
                        M::named(bits),
                        given_flags::<M>(bits),
                        stock,
                    );
                    Shared { memory, stock: left, tlb: noted.noted(virt), result: Ok(()) }
                },
            }
        },
    }
}

/// Pages shared one after another, up to the first that is refused.
pub open spec fn pages_shared<M: Machine>(
    m: MachineView,
    child: u64,
    parent: u64,
    start: u64,
    count: nat,
    stock: Seq<u64>,
    tlb: Tlb,
) -> Shared
    decreases count,
{
    if count == 0 {
        Shared { memory: m, stock, tlb, result: Ok(()) }
    } else {
        let before = pages_shared::<M>(m, child, parent, start, (count - 1) as nat, stock, tlb);
        if before.result is Err {
            before
        } else {
            page_shared::<M>(
                before.memory,
                child,
                parent,
                (start + (count - 1) * 0x1000) as u64,
                before.stock,
                before.tlb,
            )
        }
    }
}

/// An address in the half a program owns takes a way through it.
pub proof fn own_addresses_take_own_ways(virt: u64, n: int)
    requires
        virt < USER_LIMIT,
        0 <= n <= 3,
    ensures
        is_own(tree::path_of(virt).take(n)),
        is_own(tree::path_of(virt)),
{
    tree::path_of_is_path(virt, n);
    tree::path_of_is_path(virt, 3);
    assert(virt as int / 0x80_0000_0000 < 256);
}

/// Counting a reference changes nothing about the tables.
pub(crate) proof fn counting_moves_nothing<M: Machine>(m: MachineView, after: MachineView, a: u64, b: u64, stock: Seq<u64>)
    requires
        side_by_side::<M>(m, a, b, stock),
        after.words == m.words,
    ensures
        side_by_side::<M>(after, a, b, stock),
        forall|other: u64| #[trigger]
            tree::leaf_at::<M>(after, a, other) == tree::leaf_at::<M>(m, a, other),
        forall|other: u64| #[trigger]
            tree::leaf_at::<M>(after, b, other) == tree::leaf_at::<M>(m, b, other),
{
    same_words_same_ways::<M>(m, after, a);
    same_words_same_ways::<M>(m, after, b);
    assert forall|i: int| 0 <= i < stock.len() implies tree::is_spare::<M>(
        after,
        a,
        #[trigger] stock[i],
    ) by {
        assert(tree::is_spare::<M>(m, a, stock[i]));
    }
    assert forall|i: int| 0 <= i < stock.len() implies tree::is_spare::<M>(
        after,
        b,
        #[trigger] stock[i],
    ) by {
        assert(tree::is_spare::<M>(m, b, stock[i]));
    }
    assert forall|frame: u64| #[trigger] after.has(frame) == m.has(frame) by {
    }
    assert forall|other: u64| #[trigger]
        tree::leaf_at::<M>(after, a, other) == tree::leaf_at::<M>(m, a, other) by {
        tree::path_of_is_path(other, 3);
        assert(tree::reached::<M>(after, a, 3, tree::path_of(other)) == tree::reached::<M>(m, a, 3, tree::path_of(other)));
    }
    assert forall|other: u64| #[trigger]
        tree::leaf_at::<M>(after, b, other) == tree::leaf_at::<M>(m, b, other) by {
        tree::path_of_is_path(other, 3);
        assert(tree::reached::<M>(after, b, 3, tree::path_of(other)) == tree::reached::<M>(m, b, 3, tree::path_of(other)));
    }
}

/// The same words make the same ways.
pub(crate) proof fn same_words_same_ways<M: Machine>(m: MachineView, after: MachineView, root: u64)
    requires
        after.words == m.words,
    ensures
        forall|p: Seq<int>|
            tree::is_path(p, 3) ==> #[trigger] tree::reached::<M>(after, root, 3, p) == tree::reached::<M>(
                m,
                root,
                3,
                p,
            ),
{
    assert forall|p: Seq<int>| tree::is_path(p, 3) implies #[trigger] tree::reached::<M>(after, root, 3, p)
        == tree::reached::<M>(m, root, 3, p) by {
        tree::unchanged_where_looked::<M>(m, after, root, 3, p);
    }
}

/// A change that only touches frames another hierarchy does not reach leaves
/// that hierarchy as it was.
pub(crate) proof fn out_of_sight<M: Machine>(m: MachineView, after: MachineView, root: u64)
    requires
        forall|p: Seq<int>|
            tree::is_path(p, 3) ==> (#[trigger] tree::reached::<M>(m, root, 3, p) matches Some(t)
                ==> after.words[t] == m.words[t]),
    ensures
        forall|p: Seq<int>|
            tree::is_path(p, 3) ==> #[trigger] tree::reached::<M>(after, root, 3, p) == tree::reached::<M>(
                m,
                root,
                3,
                p,
            ),
        forall|other: u64| #[trigger]
            tree::leaf_at::<M>(after, root, other) == tree::leaf_at::<M>(m, root, other),
{
    assert forall|p: Seq<int>| tree::is_path(p, 3) implies #[trigger] tree::reached::<M>(after, root, 3, p)
        == tree::reached::<M>(m, root, 3, p) by {
        tree::unchanged_where_looked::<M>(m, after, root, 3, p);
    }
    assert forall|other: u64| #[trigger]
        tree::leaf_at::<M>(after, root, other) == tree::leaf_at::<M>(m, root, other) by {
        tree::path_of_is_path(other, 3);
        assert(tree::reached::<M>(after, root, 3, tree::path_of(other)) == tree::reached::<M>(
            m,
            root,
            3,
            tree::path_of(other),
        ));
    }
}

/// Writing over one of the parent's own descriptors leaves the two spaces side
/// by side, and the child as it was.
pub(crate) proof fn marking<M: Machine>(m: MachineView, child: u64, parent: u64, virt: u64, bits: u64, stock: Seq<u64>)
    requires
        side_by_side::<M>(m, child, parent, stock),
        virt < USER_LIMIT,
        tree::leaf_table::<M>(m, parent, virt) is Some,
    ensures
        ({
            let after = change::rewritten::<M>(m, parent, virt, bits);
            &&& side_by_side::<M>(after, child, parent, stock)
            &&& forall|other: u64| #[trigger]
                tree::leaf_at::<M>(after, child, other) == tree::leaf_at::<M>(m, child, other)
            &&& tree::leaf_at::<M>(after, parent, virt) == change::shown::<M>(bits)
            &&& change::others_unchanged::<M>(m, after, parent, virt)
            &&& after.counts == m.counts
            &&& forall|p: Seq<int>|
                tree::is_path(p, 3) ==> #[trigger] tree::reached::<M>(after, child, 3, p)
                    == tree::reached::<M>(m, child, 3, p)
            &&& forall|p: Seq<int>|
                tree::is_path(p, 3) ==> #[trigger] tree::reached::<M>(after, parent, 3, p)
                    == tree::reached::<M>(m, parent, 3, p)
        }),
{
    let after = change::rewritten::<M>(m, parent, virt, bits);
    let table = tree::leaf_table::<M>(m, parent, virt)->0;
    tree::path_of_is_path(virt, 3);
    own_addresses_take_own_ways(virt, 3);
    change::rewriting::<M>(m, parent, virt, bits);
    assert(m.has(table));
    assert forall|p: Seq<int>| tree::is_path(p, 3) implies (#[trigger] tree::reached::<M>(m, child, 3, p)
        matches Some(t) ==> after.words[t] == m.words[t]) by {
        assert(tree::reached::<M>(m, parent, 3, tree::path_of(virt)) == Some(table));
    }
    out_of_sight::<M>(m, after, child);
    assert forall|frame: u64| #[trigger] after.has(frame) == m.has(frame) by {
    }
    assert forall|i: int| 0 <= i < stock.len() implies tree::is_spare::<M>(
        after,
        child,
        #[trigger] stock[i],
    ) && tree::is_spare::<M>(after, parent, stock[i]) by {
        assert(tree::is_spare::<M>(m, child, stock[i]));
        assert(tree::is_spare::<M>(m, parent, stock[i]));
        assert(tree::reached::<M>(m, parent, 3, tree::path_of(virt)) != Some(stock[i]));
    }
}

/// Putting a page in at one of the child's own addresses leaves the two spaces
/// side by side, and the parent as it was.
pub(crate) proof fn taking<M: Machine>(
    m: MachineView,
    child: u64,
    parent: u64,
    virt: u64,
    stock: Seq<u64>,
    open: MachineView,
    left: Seq<u64>,
    table: u64,
    bits: u64,
)
    requires
        side_by_side::<M>(m, child, parent, stock),
        virt < USER_LIMIT,
        change::is_part_way::<M>(m, child, virt, stock, open, left, table, 3),
    ensures
        ({
            let after = open.stored(table, walk::index_at(virt, 0), bits);
            &&& side_by_side::<M>(after, child, parent, left)
            &&& forall|other: u64| #[trigger]
                tree::leaf_at::<M>(after, parent, other) == tree::leaf_at::<M>(m, parent, other)
            &&& after.counts == m.counts
            &&& forall|p: Seq<int>|
                tree::is_path(p, 3) ==> #[trigger] tree::reached::<M>(after, parent, 3, p)
                    == tree::reached::<M>(m, parent, 3, p)
            &&& forall|p: Seq<int>|
                tree::is_path(p, 3) ==> (#[trigger] tree::reached::<M>(after, child, 3, p)
                    matches Some(t) ==> tree::reached::<M>(m, child, 3, p) == Some(t)
                    || stock.contains(t))
        }),
{
    let after = open.stored(table, walk::index_at(virt, 0), bits);
    change::written_at_the_end::<M>(m, child, virt, stock, open, left, table, bits);
    tree::path_of_is_path(virt, 3);
    // Every table the child reaches now it reached before by the same path, or
    // is one of the stock's.
    assert forall|p: Seq<int>| tree::is_path(p, 3) implies (#[trigger] tree::reached::<M>(after, child, 3, p)
        matches Some(t) ==> tree::reached::<M>(m, child, 3, p) == Some(t) || stock.contains(t)) by {
        assert(tree::reached::<M>(after, child, 3, p) == tree::reached::<M>(open, child, 3, p));
    }
    assert forall|t: u64|
        stock.contains(t) || change::on_the_way::<M>(open, child, virt, 3, t) || t
            == table implies forall|q: Seq<int>|
        tree::is_path(q, 3) ==> #[trigger] tree::reached::<M>(m, parent, 3, q) != Some(t) by {
        not_seen_from_the_parent::<M>(m, child, parent, virt, stock, open, left, table, t);
    }
    assert forall|q: Seq<int>| tree::is_path(q, 3) implies (#[trigger] tree::reached::<M>(m, parent, 3, q)
        matches Some(t) ==> after.words[t] == m.words[t]) by {
        if tree::reached::<M>(m, parent, 3, q) is Some {
            let t = tree::reached::<M>(m, parent, 3, q)->0;
            assert(m.has(t));
            assert(open.words[t] == m.words[t]);
        }
    }
    out_of_sight::<M>(m, after, parent);
    assert forall|frame: u64| #[trigger] after.has(frame) == m.has(frame) by {
        assert(open.has(frame) == m.has(frame));
        assert(open.has(table));
    }
    assert forall|i: int| 0 <= i < left.len() implies tree::is_spare::<M>(
        after,
        parent,
        #[trigger] left[i],
    ) by {
        assert(tree::is_spare::<M>(after, child, left[i]));
        assert(left[i] == stock.take(left.len() as int)[i]);
        assert(tree::is_spare::<M>(m, parent, stock[i]));
    }
    assert forall|p: Seq<int>, q: Seq<int>|
        #![trigger tree::reached::<M>(after, child, 3, p), tree::reached::<M>(after, parent, 3, q)]
        tree::is_path(p, 3) && tree::is_path(q, 3) && (is_own(p) || is_own(q)) && tree::reached::<M>(
            after,
            child,
            3,
            p,
        ) is Some implies tree::reached::<M>(after, child, 3, p) != tree::reached::<M>(
        after,
        parent,
        3,
        q,
    ) by {
        let t = tree::reached::<M>(after, child, 3, p)->0;
        assert(tree::reached::<M>(after, parent, 3, q) == tree::reached::<M>(m, parent, 3, q));
        if stock.contains(t) {
            assert(tree::reached::<M>(m, parent, 3, q) != Some(t));
        } else {
            assert(tree::reached::<M>(m, child, 3, p) == Some(t));
            if tree::reached::<M>(m, parent, 3, q) == Some(t) {
                if is_own(p) {
                    assert(tree::reached::<M>(m, child, 3, p) != tree::reached::<M>(m, parent, 3, q));
                } else {
                    assert(tree::reached::<M>(m, parent, 3, q) != tree::reached::<M>(m, child, 3, p));
                }
            }
        }
    }
}

/// A table on the way to one of the child's own addresses, or a frame of the
/// stock, is no table of the parent's.
proof fn not_seen_from_the_parent<M: Machine>(
    m: MachineView,
    child: u64,
    parent: u64,
    virt: u64,
    stock: Seq<u64>,
    open: MachineView,
    left: Seq<u64>,
    table: u64,
    t: u64,
)
    requires
        side_by_side::<M>(m, child, parent, stock),
        virt < USER_LIMIT,
        change::is_part_way::<M>(m, child, virt, stock, open, left, table, 3),
        stock.contains(t) || change::on_the_way::<M>(open, child, virt, 3, t) || t == table,
    ensures
        forall|q: Seq<int>|
            tree::is_path(q, 3) ==> #[trigger] tree::reached::<M>(m, parent, 3, q) != Some(t),
{
    assert forall|q: Seq<int>| tree::is_path(q, 3) implies #[trigger] tree::reached::<M>(m, parent, 3, q)
        != Some(t) by {
        if stock.contains(t) {
            let i = choose|i: int| 0 <= i < stock.len() && stock[i] == t;
            assert(tree::is_spare::<M>(m, parent, stock[i]));
        } else {
            let k = if change::on_the_way::<M>(open, child, virt, 3, t) {
                choose|k: int|
                    0 <= k < 3 && #[trigger] tree::reached::<M>(
                        open,
                        child,
                        3,
                        tree::path_of(virt).take(k),
                    ) == Some(t)
            } else {
                3
            };
            own_addresses_take_own_ways(virt, k);
            let p = tree::path_of(virt).take(k);
            assert(tree::reached::<M>(open, child, 3, p) == Some(t));
            assert(tree::reached::<M>(m, child, 3, p) == Some(t));
        }
    }
}

/// What sharing one page leaves: the two spaces side by side, the page at its
/// address in both with the same flags and another reference, and every other
/// address of either as it was.
pub proof fn sharing_a_page<M: Machine>(
    m: MachineView,
    child: u64,
    parent: u64,
    virt: u64,
    stock: Seq<u64>,
    tlb: Tlb,
)
    requires
        side_by_side::<M>(m, child, parent, stock),
        virt < USER_LIMIT,
    ensures
        ({
            let s = page_shared::<M>(m, child, parent, virt, stock, tlb);
            let page = tree::leaf_at::<M>(m, parent, virt);
            &&& side_by_side::<M>(s.memory, child, parent, s.stock)
            &&& change::others_unchanged::<M>(m, s.memory, parent, virt)
            &&& change::others_unchanged::<M>(m, s.memory, child, virt)
            &&& page is None ==> s.memory == m
            &&& page is Some ==> {
                let bits = page->0;
                &&& tree::leaf_at::<M>(s.memory, parent, virt) == (if M::shared_flags(
                    M::flags_in(bits),
                ) is Some {
                    change::shown::<M>(M::leaf_bits(M::named(bits), given_flags::<M>(bits)))
                } else {
                    page
                })
                &&& s.result is Ok ==> tree::leaf_at::<M>(s.memory, child, virt)
                    == change::shown::<M>(M::leaf_bits(M::named(bits), given_flags::<M>(bits)))
                &&& s.result is Ok ==> s.memory.counts == m.shared(M::named(bits)).counts
                &&& s.result is Err ==> tree::leaf_at::<M>(s.memory, child, virt)
                    == tree::leaf_at::<M>(m, child, virt)
            }
        }),
{
    let page = tree::leaf_at::<M>(m, parent, virt);
    if page is Some {
        let bits = page->0;
        let phys = M::named(bits);
        let counted = m.shared(phys);
        counting_moves_nothing::<M>(m, counted, child, parent, stock);
        let ready = marked::<M>(m, parent, virt, bits);
        same_words_same_ways::<M>(m, counted, parent);
        tree::path_of_is_path(virt, 3);
        if M::shared_flags(M::flags_in(bits)) is Some {
            marking::<M>(
                counted,
                child,
                parent,
                virt,
                M::leaf_bits(phys, given_flags::<M>(bits)),
                stock,
            );
        }
        assert(side_by_side::<M>(ready, child, parent, stock));
        assert forall|other: u64|
            tree::page_of(other) != tree::page_of(virt) implies #[trigger] tree::leaf_at::<M>(
            ready,
            parent,
            other,
        ) == tree::leaf_at::<M>(m, parent, other) by {
            assert(tree::leaf_at::<M>(counted, parent, other) == tree::leaf_at::<M>(
                m,
                parent,
                other,
            ));
        }
        assert forall|other: u64| #[trigger]
            tree::leaf_at::<M>(ready, child, other) == tree::leaf_at::<M>(m, child, other) by {
            assert(tree::leaf_at::<M>(counted, child, other) == tree::leaf_at::<M>(
                m,
                child,
                other,
            ));
        }
        let s = page_shared::<M>(m, child, parent, virt, stock, tlb);
        match change::refusal::<M>(ready, child, virt, 3, stock.len()) {
            Some(_) => {
                counting_moves_nothing::<M>(
                    ready,
                    ready.released(phys),
                    child,
                    parent,
                    stock,
                );
                assert forall|other: u64|
                    tree::page_of(other) != tree::page_of(
                        virt,
                    ) implies #[trigger] tree::leaf_at::<M>(s.memory, parent, other)
                    == tree::leaf_at::<M>(m, parent, other) by {
                    assert(tree::leaf_at::<M>(ready, parent, other) == tree::leaf_at::<M>(
                        m,
                        parent,
                        other,
                    ));
                }
                assert forall|other: u64| #[trigger]
                    tree::leaf_at::<M>(s.memory, child, other) == tree::leaf_at::<M>(
                        m,
                        child,
                        other,
                    ) by {
                    assert(tree::leaf_at::<M>(ready, child, other) == tree::leaf_at::<M>(
                        m,
                        child,
                        other,
                    ));
                }
                assert(tree::leaf_at::<M>(s.memory, parent, virt) == tree::leaf_at::<M>(
                    ready,
                    parent,
                    virt,
                ));
                assert(tree::leaf_at::<M>(counted, parent, virt) == page);
            },
            None => {
                let flags = given_flags::<M>(bits);
                change::the_way_is_made::<M>(ready, child, virt, flags, stock);
                let (open, left, table) = change::way_made::<M>(
                    ready,
                    child,
                    virt,
                    3,
                    flags,
                    stock,
                );
                taking::<M>(
                    ready,
                    child,
                    parent,
                    virt,
                    stock,
                    open,
                    left,
                    table,
                    M::leaf_bits(phys, flags),
                );
                change::written_at_the_end::<M>(
                    ready,
                    child,
                    virt,
                    stock,
                    open,
                    left,
                    table,
                    M::leaf_bits(phys, flags),
                );
                assert forall|other: u64|
                    tree::page_of(other) != tree::page_of(
                        virt,
                    ) implies #[trigger] tree::leaf_at::<M>(s.memory, parent, other)
                    == tree::leaf_at::<M>(m, parent, other) by {
                    assert(tree::leaf_at::<M>(ready, parent, other) == tree::leaf_at::<M>(
                        m,
                        parent,
                        other,
                    ));
                }
                assert forall|other: u64|
                    tree::page_of(other) != tree::page_of(
                        virt,
                    ) implies #[trigger] tree::leaf_at::<M>(s.memory, child, other)
                    == tree::leaf_at::<M>(m, child, other) by {
                    assert(tree::leaf_at::<M>(ready, child, other) == tree::leaf_at::<M>(
                        m,
                        child,
                        other,
                    ));
                }
                assert(tree::leaf_at::<M>(s.memory, parent, virt) == tree::leaf_at::<M>(
                    ready,
                    parent,
                    virt,
                ));
                assert(tree::leaf_at::<M>(counted, parent, virt) == page);
            },
        }
    }
}

impl Tables {
    /// The lowest address at or above `from` and below `limit` whose
    /// last-level table exists, rounded down to what that table covers.
    ///
    /// This is how a walk of a whole address space is driven from outside
    /// without holding on to a descriptor: the caller gets an address, lets
    /// go of whatever it was holding, and comes back with the address.
    pub fn next_populated<M: Machine>(&self, machine: &M, from: u64, limit: u64) -> (block: Option<
        u64,
    >)
        requires
            tree::is_tree::<M>(machine.state(), self.top(), 3),
        ensures
            match block {
                Some(at) => {
                    &&& at % 0x20_0000 == 0
                    &&& from - from % 0x20_0000 <= at < limit
                    &&& tree::leaf_table::<M>(machine.state(), self.top(), at) is Some
                    &&& forall|w: u64|
                        from - from % 0x20_0000 <= w < at ==> #[trigger] tree::leaf_table::<M>(
                            machine.state(),
                            self.top(),
                            w,
                        ) is None
                },
                None => forall|w: u64|
                    from - from % 0x20_0000 <= w < limit ==> #[trigger] tree::leaf_table::<M>(
                        machine.state(),
                        self.top(),
                        w,
                    ) is None,
            },
    {
        let start: u64 = from - from % 0x20_0000;
        let mut virt: u64 = start;
        while virt < limit
            invariant
                start == from - from % 0x20_0000,
                start <= virt,
                virt % 0x20_0000 == 0,
                tree::is_tree::<M>(machine.state(), self.top(), 3),
                forall|w: u64|
                    start <= w < virt ==> #[trigger] tree::leaf_table::<M>(
                        machine.state(),
                        self.top(),
                        w,
                    ) is None,
            decreases u64::MAX - virt,
        {
            let level = self.missing_tables(machine, virt);
            proof {
                missing_is_where_it_stops::<M>(machine.state(), self.top(), virt, 0);
            }
            if level == 0 {
                return Some(virt);
            }
            // Nothing under this descriptor: on to the next one at this level,
            // which skips everything it covered.
            let size: u64 = level_size(level as u32);
            proof {
                span_of(virt as int, level as int);
            }
            let base: u64 = virt / size * size;
            let ghost before = virt;
            proof {
                assert forall|w: u64| before <= w < base + size implies #[trigger] tree::leaf_table::<
                    M,
                >(machine.state(), self.top(), w) is None by {
                    assert(w as int / walk::size_at(level as int) == before as int
                        / walk::size_at(level as int));
                    nothing_under::<M>(machine.state(), self.top(), before, w, level as int);
                }
            }
            if base > u64::MAX - size {
                return None;
            }
            virt = base + size;
        }
        None
    }

    /// Share the page mapped at `virt` in `parent` into this hierarchy,
    /// leaving both sides marked so that the first write makes a private copy.
    ///
    /// One call, because the two halves are one account of the page. The
    /// reference for the child is taken first, so the count is never lower
    /// than the number of mappings that are going to hold it.
    pub fn share_from<M: Machine>(
        &self,
        machine: &mut M,
        parent: &Tables,
        virt: u64,
        stock: &mut TableStock,
        tlb: &mut Tlb,
    ) -> (result: Result<(), Refused>)
        requires
            side_by_side::<M>(old(machine).state(), self.top(), parent.top(), old(stock)@),
            virt < USER_LIMIT,
        ensures
            page_shared::<M>(
                old(machine).state(),
                self.top(),
                parent.top(),
                virt,
                old(stock)@,
                *old(tlb),
            ) == (Shared {
                memory: final(machine).state(),
                stock: final(stock)@,
                tlb: *final(tlb),
                result,
            }),
            side_by_side::<M>(final(machine).state(), self.top(), parent.top(), final(stock)@),
    {
        let ghost m = machine.state();
        proof {
            sharing_a_page::<M>(m, self.top(), parent.top(), virt, stock@, *tlb);
        }
        let bits = match parent.leaf(machine, virt) {
            Some(bits) => bits,
            // There is nothing here to share.
            None => {
                return Ok(());
            },
        };
        let phys = machine.addr(bits);
        let held = machine.flags(bits);
        machine.share(phys);
        proof {
            counting_moves_nothing::<M>(m, machine.state(), self.top(), parent.top(), stock@);
            same_words_same_ways::<M>(m, machine.state(), parent.top());
            tree::path_of_is_path(virt, 3);
            assert(tree::leaf_at::<M>(machine.state(), parent.top(), virt) == Some(bits));
        }
        let flags = match machine.shared(held) {
            Some(shared) => {
                // The page the parent is still running on has to lose write
                // permission too, or its writes would be seen by the child.
                proof {
                    marking::<M>(
                        machine.state(),
                        self.top(),
                        parent.top(),
                        virt,
                        M::leaf_bits(phys, shared),
                        stock@,
                    );
                }
                let _ = parent.protect(machine, virt, shared, tlb);
                shared
            },
            None => held,
        };
        match self.publish(machine, virt, phys, flags, stock, tlb) {
            Ok(_) => Ok(()),
            Err(refused) => {
                // The child took no mapping, so it holds no reference.
                machine.free(phys);
                Err(refused)
            },
        }
    }

    /// Share `count` pages from `start` on out of `parent` into this
    /// hierarchy, as `share_from` does one.
    pub fn share_range<M: Machine>(
        &self,
        machine: &mut M,
        parent: &Tables,
        start: u64,
        count: usize,
        stock: &mut TableStock,
        tlb: &mut Tlb,
    ) -> (result: Result<(), Refused>)
        requires
            side_by_side::<M>(old(machine).state(), self.top(), parent.top(), old(stock)@),
            start + count * 0x1000 <= USER_LIMIT,
        ensures
            pages_shared::<M>(
                old(machine).state(),
                self.top(),
                parent.top(),
                start,
                count as nat,
                old(stock)@,
                *old(tlb),
            ) == (Shared {
                memory: final(machine).state(),
                stock: final(stock)@,
                tlb: *final(tlb),
                result,
            }),
            side_by_side::<M>(final(machine).state(), self.top(), parent.top(), final(stock)@),
    {
        let mut done: usize = 0;
        while done < count
            invariant
                done <= count,
                start + count * 0x1000 <= USER_LIMIT,
                side_by_side::<M>(machine.state(), self.top(), parent.top(), stock@),
                pages_shared::<M>(
                    old(machine).state(),
                    self.top(),
                    parent.top(),
                    start,
                    done as nat,
                    old(stock)@,
                    *old(tlb),
                ) == (Shared {
                    memory: machine.state(),
                    stock: stock@,
                    tlb: *tlb,
                    result: Ok(()),
                }),
            decreases count - done,
        {
            let virt: u64 = start + done as u64 * 0x1000;
            let result = self.share_from(machine, parent, virt, stock, tlb);
            done += 1;
            if result.is_err() {
                proof {
                    a_refusal_ends_it::<M>(
                        old(machine).state(),
                        self.top(),
                        parent.top(),
                        start,
                        done as nat,
                        count as nat,
                        old(stock)@,
                        *old(tlb),
                    );
                }
                return result;
            }
        }
        Ok(())
    }

    /// Share every page of the last-level table covering `block` out of
    /// `parent` into this hierarchy, as `share_from` does one.
    ///
    /// A block is one table, so three levels at most have to be created
    /// whatever it holds, which is what makes the stock a fixed size.
    pub fn share_block<M: Machine>(
        &self,
        machine: &mut M,
        parent: &Tables,
        block: u64,
        stock: &mut TableStock,
        tlb: &mut Tlb,
    ) -> (result: Result<(), Refused>)
        requires
            side_by_side::<M>(old(machine).state(), self.top(), parent.top(), old(stock)@),
            block + ENTRIES * 0x1000 <= USER_LIMIT,
        ensures
            pages_shared::<M>(
                old(machine).state(),
                self.top(),
                parent.top(),
                block,
                ENTRIES as nat,
                old(stock)@,
                *old(tlb),
            ) == (Shared {
                memory: final(machine).state(),
                stock: final(stock)@,
                tlb: *final(tlb),
                result,
            }),
            side_by_side::<M>(final(machine).state(), self.top(), parent.top(), final(stock)@),
    {
        self.share_range(machine, parent, block, ENTRIES, stock, tlb)
    }
}

/// Nothing more is shared after a page that was refused.
proof fn a_refusal_ends_it<M: Machine>(
    m: MachineView,
    child: u64,
    parent: u64,
    start: u64,
    done: nat,
    count: nat,
    stock: Seq<u64>,
    tlb: Tlb,
)
    requires
        done <= count,
        pages_shared::<M>(m, child, parent, start, done, stock, tlb).result is Err,
    ensures
        pages_shared::<M>(m, child, parent, start, count, stock, tlb) == pages_shared::<M>(
            m,
            child,
            parent,
            start,
            done,
            stock,
            tlb,
        ),
    decreases count - done,
{
    if done < count {
        a_refusal_ends_it::<M>(m, child, parent, start, done, (count - 1) as nat, stock, tlb);
    }
}

/// The tables missing on the way to an address are the ones below where its
/// walk stops.
proof fn missing_is_where_it_stops<M: Machine>(m: MachineView, root: u64, virt: u64, n: int)
    requires
        0 <= n <= 3,
        tree::reached::<M>(m, root, 3, tree::path_of(virt).take(n)) is Some,
    ensures
        ({
            let table = tree::reached::<M>(m, root, 3, tree::path_of(virt).take(n))->0;
            let level = change::missing::<M>(m, table, virt, (3 - n) as nat) as int;
            &&& 0 <= level <= 3 - n
            &&& level == 0 ==> tree::leaf_table::<M>(m, root, virt) is Some
            &&& level > 0 ==> tree::reached::<M>(m, root, 3, tree::path_of(virt).take(4 - level)) is None
        }),
    decreases 3 - n,
{
    tree::path_of_is_path(virt, 3);
    if n < 3 {
        tree::one_level_down::<M>(m, root, virt, 3 - n);
        if tree::reached::<M>(m, root, 3, tree::path_of(virt).take(n + 1)) is Some {
            missing_is_where_it_stops::<M>(m, root, virt, n + 1);
        }
    }
}

} // verus!
