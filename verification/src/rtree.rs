use vstd::prelude::*;
use crate::bump::{Bump, BumpError, ChunkError};
use crate::layout::Layout;
use crate::prim::va_size;
use crate::system::System;

verus! {

#[derive(Clone, Copy, Debug, PartialEq, Eq, Structural)]
pub enum RTreeError {
    Bump(BumpError),
    AlreadyPresent,
}

pub type RTreeResult<T> = Result<T, RTreeError>;

/// A node of the radix tree. Nodes live in the tree's table and name one
/// another by their place in it. `prefix` records the digits that lead
/// from the root to the node.
pub struct RNode<T, const FANOUT: usize> {
    value: Option<T>,
    children: Vec<Option<usize>>,
    parent: Option<usize>,
    prefix: Ghost<Seq<usize>>,
}

/// Whether a tree can be built with this fan-out: a power of two, at
/// least two and at most 2^32.
pub open spec fn fanout_ok(fanout: usize) -> bool {
    vstd::arithmetic::power2::is_pow2(fanout as int) && 2 <= fanout <= 0x1_0000_0000
}

/// Key bits consumed per level.
pub open spec fn spec_bpl(fanout: usize) -> int {
    vstd::std_specs::bits::u64_trailing_zeros(fanout as u64) as int
}

/// Levels needed to consume every bit of a virtual address.
pub open spec fn spec_levels(fanout: usize) -> int {
    (crate::prim::VA_BITS + spec_bpl(fanout) - 1) / spec_bpl(fanout)
}

/// The digit of `key` that selects the child at `level`.
pub open spec fn spec_index_for(fanout: usize, key: usize, level: int) -> usize {
    (((key as u64) >> (((spec_levels(fanout) - 1 - level) * spec_bpl(fanout)) as u64)) & ((fanout
        - 1) as u64)) as usize
}

/// The digits of `key`, from the root's level down to the leaf's.
pub open spec fn key_path(fanout: usize, key: usize) -> Seq<usize> {
    Seq::new(spec_levels(fanout) as nat, |l: int| spec_index_for(fanout, key, l))
}

pub proof fn lemma_fanout(fanout: usize)
    requires
        fanout_ok(fanout),
    ensures
        1 <= spec_bpl(fanout) <= 32,
        1 <= spec_levels(fanout) <= 48,
        (spec_levels(fanout) - 1) * spec_bpl(fanout) < 48,
{
    broadcast use vstd::std_specs::bits::axiom_u64_trailing_zeros;

    let f = fanout as u64;
    let tz = vstd::std_specs::bits::u64_trailing_zeros(f);
    reveal(vstd::arithmetic::power2::is_pow2);
    assert(f % 2 == 0);
    assert(f % 2 == 0 ==> (f >> 0u64) & 1u64 != 1u64) by (bit_vector);
    assert(tz != 0);
    let t = tz as u64;
    assert(t < 64 && (f >> t) & 1u64 == 1u64 && f <= 0x1_0000_0000u64 ==> t <= 32) by (bit_vector);
    let b = tz as int;
    let l = (48 + b - 1) / b;
    vstd::arithmetic::div_mod::lemma_fundamental_div_mod(48 + b - 1, b);
    assert((l - 1) * b < 48 && l >= 1 && l <= 48) by (nonlinear_arith)
        requires
            48 + b - 1 == b * l + ((48 + b - 1) % b),
            0 <= ((48 + b - 1) % b) < b,
            1 <= b <= 32,
    ;
}

impl<T: Copy, const FANOUT: usize> RNode<T, FANOUT> {
    pub closed spec fn spec_value(&self) -> Option<T> {
        self.value
    }

    pub closed spec fn spec_children(&self) -> Seq<Option<usize>> {
        self.children@
    }

    pub closed spec fn spec_parent(&self) -> Option<usize> {
        self.parent
    }

    pub closed spec fn spec_prefix(&self) -> Seq<usize> {
        self.prefix@
    }

    /// The node has neither a value nor a child.
    pub open spec fn is_bare(&self) -> bool {
        self.spec_value() is None && forall|j: int|
            0 <= j < self.spec_children().len() ==> self.spec_children()[j] is None
    }

    /// A node without children.
    pub fn new(value: Option<T>) -> (r: Self)
        ensures
            r.spec_value() == value,
            r.spec_children().len() == FANOUT,
            forall|j: int| 0 <= j < FANOUT ==> r.spec_children()[j] is None,
            r.spec_parent() is None,
            r.spec_prefix() == Seq::<usize>::empty(),
    {
        let mut children: Vec<Option<usize>> = Vec::new();
        let mut i: usize = 0;
        while i < FANOUT
            invariant
                i <= FANOUT,
                children@.len() == i,
                forall|j: int| 0 <= j < i ==> children@[j] is None,
            decreases FANOUT - i,
        {
            children.push(None);
            i += 1;
        }
        Self { value, children, parent: None, prefix: Ghost(Seq::empty()) }
    }

    #[inline(always)]
    fn load_child(&self, idx: usize) -> (r: Option<usize>)
        requires
            idx < self.spec_children().len(),
        ensures
            r == self.spec_children()[idx as int],
    {
        self.children[idx]
    }

    /// Puts `new` into slot `idx` if the slot holds `expected`.
    #[inline(always)]
    fn cas_child(&mut self, idx: usize, expected: Option<usize>, new: usize) -> (r: bool)
        requires
            idx < old(self).spec_children().len(),
        ensures
            r == (old(self).spec_children()[idx as int] == expected),
            final(self).spec_children() == if r {
                old(self).spec_children().update(idx as int, Some(new))
            } else {
                old(self).spec_children()
            },
            final(self).spec_value() == old(self).spec_value(),
            final(self).spec_parent() == old(self).spec_parent(),
            final(self).spec_prefix() == old(self).spec_prefix(),
    {
        let same: bool = match (self.children[idx], expected) {
            (Some(a), Some(b)) => a == b,
            (None, None) => true,
            _ => false,
        };
        if same {
            self.children.set(idx, Some(new));
        }
        same
    }

    /// Empties the first slot that holds `target`; tells whether there was one.
    fn clear_child(&mut self, target: usize) -> (r: bool)
        ensures
            final(self).spec_value() == old(self).spec_value(),
            final(self).spec_parent() == old(self).spec_parent(),
            final(self).spec_prefix() == old(self).spec_prefix(),
            r == exists|j: int|
                0 <= j < old(self).spec_children().len() && old(self).spec_children()[j] == Some(
                    target,
                ),
            !r ==> final(self).spec_children() == old(self).spec_children(),
            r ==> exists|j: int|
                0 <= j < old(self).spec_children().len() && old(self).spec_children()[j] == Some(
                    target,
                ) && final(self).spec_children() == old(self).spec_children().update(j, None),
    {
        let n: usize = self.children.len();
        let mut i: usize = 0;
        while i < n
            invariant
                i <= n,
                n == self.children@.len(),
                self.children@ == old(self).children@,
                self.value == old(self).value,
                self.parent == old(self).parent,
                self.prefix == old(self).prefix,
                forall|j: int| 0 <= j < i ==> self.children@[j] != Some(target),
            decreases n - i,
        {
            let hit: bool = match self.children[i] {
                Some(c) => c == target,
                None => false,
            };
            if hit {
                self.children.set(i, None);
                return true;
            }
            i += 1;
        }
        false
    }
}

/// The node that the digits of `path` lead to from `root`, if every
/// child on the way exists.
pub open spec fn walk<T: Copy, const FANOUT: usize>(
    nodes: Seq<RNode<T, FANOUT>>,
    root: Option<usize>,
    path: Seq<usize>,
) -> Option<usize>
    decreases path.len(),
{
    if path.len() == 0 {
        root
    } else {
        match walk(nodes, root, path.drop_last()) {
            Some(m) => nodes[m as int].spec_children()[path.last() as int],
            None => None,
        }
    }
}

/// Every digit of `path` names a child slot.
pub open spec fn digits_ok(fanout: usize, path: Seq<usize>) -> bool {
    forall|i: int| 0 <= i < path.len() ==> #[trigger] path[i] < fanout
}

/// What the tree holds under `path`: the value of the node that the path
/// leads to, if there is such a node and it has one.
pub open spec fn entry<T: Copy, const FANOUT: usize>(
    nodes: Seq<RNode<T, FANOUT>>,
    root: Option<usize>,
    path: Seq<usize>,
) -> Option<T> {
    match walk(nodes, root, path) {
        Some(l) => nodes[l as int].spec_value(),
        None => None,
    }
}

/// The table is closed under its links, and every node records the digits
/// that lead to it.
pub open spec fn nodes_wf<T: Copy, const FANOUT: usize>(
    nodes: Seq<RNode<T, FANOUT>>,
    root: Option<usize>,
) -> bool {
    &&& root matches Some(r) ==> r < nodes.len() && nodes[r as int].spec_prefix().len() == 0
        && nodes[r as int].spec_parent() is None
    &&& forall|n: int|
        0 <= n < nodes.len() ==> (#[trigger] nodes[n]).spec_children().len() == FANOUT
    &&& forall|n: int, j: int|
        0 <= n < nodes.len() && 0 <= j < FANOUT && (#[trigger] nodes[n].spec_children()[j])
            is Some ==> {
            let c = nodes[n].spec_children()[j]->0;
            &&& c < nodes.len()
            &&& nodes[c as int].spec_prefix() == nodes[n].spec_prefix().push(j as usize)
            &&& nodes[c as int].spec_parent() == Some(n as usize)
        }
    &&& forall|n: int|
        0 <= n < nodes.len() ==> ((#[trigger] nodes[n]).spec_parent() matches Some(p) ==> p
            < nodes.len())
}

/// A walk that arrives has passed a node after each of its digits.
pub proof fn lemma_walk_passes<T: Copy, const FANOUT: usize>(
    nodes: Seq<RNode<T, FANOUT>>,
    root: Option<usize>,
    path: Seq<usize>,
    k: int,
)
    requires
        0 <= k <= path.len(),
        walk(nodes, root, path) is Some,
    ensures
        walk(nodes, root, path.subrange(0, k)) is Some,
    decreases path.len() - k,
{
    if k == path.len() {
        assert(path.subrange(0, k) =~= path);
    } else {
        lemma_walk_passes(nodes, root, path.drop_last(), k);
        assert(path.drop_last().subrange(0, k) =~= path.subrange(0, k));
    }
}

/// A walk ends at a node of the table that records the walked path.
pub proof fn lemma_walk_prefix<T: Copy, const FANOUT: usize>(
    nodes: Seq<RNode<T, FANOUT>>,
    root: Option<usize>,
    path: Seq<usize>,
)
    requires
        nodes_wf(nodes, root),
        digits_ok(FANOUT, path),
    ensures
        walk(nodes, root, path) matches Some(n) ==> n < nodes.len() && nodes[n as int].spec_prefix()
            == path,
    decreases path.len(),
{
    if path.len() == 0 {
        if let Some(r) = root {
            assert(nodes[r as int].spec_prefix() =~= path);
        }
    } else {
        let q = path.drop_last();
        lemma_walk_prefix(nodes, root, q);
        if let Some(m) = walk(nodes, root, q) {
            let j = path.last();
            assert(path[path.len() - 1] < FANOUT);
            if nodes[m as int].spec_children()[j as int] is Some {
                assert(q.push(j) =~= path);
            }
        }
    }
}

/// `after` is `before` with the fresh bare node `fresh` appended and hung
/// into the empty slot `j` of node `m`.
pub open spec fn attached<T: Copy, const FANOUT: usize>(
    before: Seq<RNode<T, FANOUT>>,
    after: Seq<RNode<T, FANOUT>>,
    m: usize,
    j: usize,
    fresh: usize,
) -> bool {
    &&& m < before.len()
    &&& j < FANOUT
    &&& fresh == before.len()
    &&& before[m as int].spec_children()[j as int] is None
    &&& after.len() == before.len() + 1
    &&& after[fresh as int].is_bare()
    &&& after[fresh as int].spec_children().len() == FANOUT
    &&& forall|n: int| 0 <= n < before.len() && n != m ==> #[trigger] after[n] == before[n]
    &&& after[m as int].spec_children() == before[m as int].spec_children().update(
        j as int,
        Some(fresh),
    )
    &&& after[m as int].spec_value() == before[m as int].spec_value()
    &&& after[m as int].spec_prefix() == before[m as int].spec_prefix()
}

/// Hanging in a bare node changes no walk that existed, and every walk
/// that it adds ends at the new node.
pub proof fn lemma_attached_walk<T: Copy, const FANOUT: usize>(
    before: Seq<RNode<T, FANOUT>>,
    after: Seq<RNode<T, FANOUT>>,
    root: Option<usize>,
    m: usize,
    j: usize,
    fresh: usize,
    path: Seq<usize>,
)
    requires
        nodes_wf(before, root),
        attached(before, after, m, j, fresh),
        digits_ok(FANOUT, path),
    ensures
        walk(before, root, path) is Some ==> walk(after, root, path) == walk(before, root, path),
        walk(before, root, path) is None ==> walk(after, root, path) is None || walk(
            after,
            root,
            path,
        ) == Some(fresh),
        entry(after, root, path) == entry(before, root, path),
    decreases path.len(),
{
    if path.len() > 0 {
        let q = path.drop_last();
        let d = path.last();
        assert(path[path.len() - 1] < FANOUT);
        lemma_attached_walk(before, after, root, m, j, fresh, q);
        lemma_walk_prefix(before, root, q);
        if let Some(a) = walk(before, root, q) {
            if a != m {
                assert(after[a as int] == before[a as int]);
            }
        } else if walk(after, root, q) == Some(fresh) {
            assert(after[fresh as int].spec_children()[d as int] is None);
        }
    }
    lemma_walk_prefix(before, root, path);
    if let Some(l) = walk(before, root, path) {
        if l != m {
            assert(after[l as int] == before[l as int]);
        }
    }
}

/// `after` is `before` with the bare node `c` taken out of slot `j` of node `m`.
pub open spec fn detached<T: Copy, const FANOUT: usize>(
    before: Seq<RNode<T, FANOUT>>,
    after: Seq<RNode<T, FANOUT>>,
    m: usize,
    j: usize,
    c: usize,
) -> bool {
    &&& m < before.len()
    &&& j < FANOUT
    &&& c < before.len()
    &&& c != m
    &&& before[m as int].spec_children()[j as int] == Some(c)
    &&& before[c as int].is_bare()
    &&& after.len() == before.len()
    &&& forall|n: int| 0 <= n < before.len() && n != m ==> #[trigger] after[n] == before[n]
    &&& after[m as int].spec_children() == before[m as int].spec_children().update(j as int, None)
    &&& after[m as int].spec_value() == before[m as int].spec_value()
    &&& after[m as int].spec_prefix() == before[m as int].spec_prefix()
}

/// Taking out a bare node removes only walks that ended at it.
pub proof fn lemma_detached_walk<T: Copy, const FANOUT: usize>(
    before: Seq<RNode<T, FANOUT>>,
    after: Seq<RNode<T, FANOUT>>,
    root: Option<usize>,
    m: usize,
    j: usize,
    c: usize,
    path: Seq<usize>,
)
    requires
        nodes_wf(before, root),
        detached(before, after, m, j, c),
        digits_ok(FANOUT, path),
    ensures
        walk(after, root, path) is Some ==> walk(after, root, path) == walk(before, root, path),
        walk(after, root, path) is None ==> walk(before, root, path) is None || walk(
            before,
            root,
            path,
        ) == Some(c),
        entry(after, root, path) == entry(before, root, path),
    decreases path.len(),
{
    if path.len() > 0 {
        let q = path.drop_last();
        let d = path.last();
        assert(path[path.len() - 1] < FANOUT);
        lemma_detached_walk(before, after, root, m, j, c, q);
        lemma_walk_prefix(before, root, q);
        if let Some(a) = walk(after, root, q) {
            if a != m {
                assert(after[a as int] == before[a as int]);
            }
        } else if walk(before, root, q) == Some(c) {
            assert(before[c as int].spec_children()[d as int] is None);
        }
    }
    lemma_walk_prefix(before, root, path);
    if let Some(l) = walk(after, root, path) {
        if l != m {
            assert(after[l as int] == before[l as int]);
        }
    }
}

/// `after` has the links of `before`.
pub open spec fn same_links<T: Copy, const FANOUT: usize>(
    before: Seq<RNode<T, FANOUT>>,
    after: Seq<RNode<T, FANOUT>>,
) -> bool {
    &&& after.len() == before.len()
    &&& forall|n: int|
        0 <= n < before.len() ==> (#[trigger] after[n]).spec_children() == before[n].spec_children()
}

/// Walks depend on the links alone.
pub proof fn lemma_same_links_walk<T: Copy, const FANOUT: usize>(
    before: Seq<RNode<T, FANOUT>>,
    after: Seq<RNode<T, FANOUT>>,
    root: Option<usize>,
    path: Seq<usize>,
)
    requires
        nodes_wf(before, root),
        same_links(before, after),
        digits_ok(FANOUT, path),
    ensures
        walk(after, root, path) == walk(before, root, path),
    decreases path.len(),
{
    if path.len() > 0 {
        let q = path.drop_last();
        assert(path[path.len() - 1] < FANOUT);
        lemma_same_links_walk(before, after, root, q);
        lemma_walk_prefix(before, root, q);
    }
}

/// From a bare root, and from no root at all, no walk of one step or more arrives.
pub proof fn lemma_bare_root_walk<T: Copy, const FANOUT: usize>(
    nodes: Seq<RNode<T, FANOUT>>,
    root: Option<usize>,
    path: Seq<usize>,
)
    requires
        root matches Some(r) ==> r < nodes.len() && nodes[r as int].is_bare()
            && nodes[r as int].spec_children().len()
            == FANOUT,
        digits_ok(FANOUT, path),
        path.len() > 0,
    ensures
        walk(nodes, root, path) is None,
    decreases path.len(),
{
    let q = path.drop_last();
    assert(path[path.len() - 1] < FANOUT);
    if q.len() > 0 {
        lemma_bare_root_walk(nodes, root, q);
    } else if let Some(r) = root {
        assert(walk(nodes, root, q) == root);
        assert(nodes[r as int].spec_children()[path.last() as int] is None);
    }
}

/// Values sit at the end of full paths, and children hang below it.
pub open spec fn levels_wf<T: Copy, const FANOUT: usize>(nodes: Seq<RNode<T, FANOUT>>) -> bool {
    &&& forall|n: int|
        0 <= n < nodes.len() && (#[trigger] nodes[n]).spec_value() is Some
            ==> nodes[n].spec_prefix().len() == spec_levels(FANOUT)
    &&& forall|n: int, j: int|
        0 <= n < nodes.len() && 0 <= j < FANOUT && (#[trigger] nodes[n].spec_children()[j])
            is Some ==> nodes[n].spec_prefix().len() < spec_levels(FANOUT)
}

/// Node `n` stands in the tree, where its recorded path says.
pub open spec fn is_reachable<T: Copy, const FANOUT: usize>(
    nodes: Seq<RNode<T, FANOUT>>,
    root: Option<usize>,
    n: int,
) -> bool {
    &&& 0 <= n < nodes.len()
    &&& digits_ok(FANOUT, nodes[n].spec_prefix())
    &&& walk(nodes, root, nodes[n].spec_prefix()) matches Some(m)
    &&& m == n
}

/// Every node that stands in the tree has a value or a child, with the
/// possible exception of node `skip`.
pub open spec fn pruned_except<T: Copy, const FANOUT: usize>(
    nodes: Seq<RNode<T, FANOUT>>,
    root: Option<usize>,
    skip: Option<usize>,
) -> bool {
    forall|n: int| #[trigger]
        is_reachable(nodes, root, n) && !(skip matches Some(k) && k == n) ==> !nodes[n].is_bare()
}

/// A node that stands in the tree after a bare node was hung in stood
/// there before, or is the new node.
pub proof fn lemma_attached_reach<T: Copy, const FANOUT: usize>(
    before: Seq<RNode<T, FANOUT>>,
    after: Seq<RNode<T, FANOUT>>,
    root: Option<usize>,
    m: usize,
    j: usize,
    fresh: usize,
    n: int,
)
    requires
        nodes_wf(before, root),
        attached(before, after, m, j, fresh),
        is_reachable(after, root, n),
    ensures
        n == fresh || is_reachable(before, root, n),
{
    if n != fresh {
        assert(after[n].spec_prefix() == before[n].spec_prefix());
        lemma_attached_walk(before, after, root, m, j, fresh, before[n].spec_prefix());
    }
}

/// A node that stands in the tree after a bare node was taken out stood
/// there before, and is not the node taken out.
pub proof fn lemma_detached_reach<T: Copy, const FANOUT: usize>(
    before: Seq<RNode<T, FANOUT>>,
    after: Seq<RNode<T, FANOUT>>,
    root: Option<usize>,
    m: usize,
    j: usize,
    c: usize,
    n: int,
)
    requires
        nodes_wf(before, root),
        detached(before, after, m, j, c),
        is_reachable(after, root, n),
    ensures
        n != c,
        is_reachable(before, root, n),
{
    assert(after[n].spec_prefix() == before[n].spec_prefix());
    let path = before[n].spec_prefix();
    lemma_detached_walk(before, after, root, m, j, c, path);
    if n == c {
        assert(before[m as int].spec_children()[j as int] is Some);
        assert(before[c as int].spec_prefix() == before[m as int].spec_prefix().push(j));
        assert(path.len() > 0);
        let q = path.drop_last();
        assert(q =~= before[m as int].spec_prefix());
        assert(path.last() == j);
        assert(path[path.len() - 1] < FANOUT);
        lemma_detached_walk(before, after, root, m, j, c, q);
        lemma_walk_prefix(before, root, q);
        let x = walk(after, root, q)->0;
        assert(before[x as int].spec_children()[j as int] == Some(c));
        assert(before[c as int].spec_parent() == Some(x));
        assert(x == m);
    }
}

/// In a pruned tree every node that stands in it leads to a value.
pub proof fn lemma_pruned_leads_to_value<T: Copy, const FANOUT: usize>(
    nodes: Seq<RNode<T, FANOUT>>,
    root: Option<usize>,
    n: int,
) -> (p: Seq<usize>)
    requires
        nodes_wf(nodes, root),
        levels_wf(nodes),
        pruned_except(nodes, root, None),
        is_reachable(nodes, root, n),
        nodes[n].spec_prefix().len() <= spec_levels(FANOUT),
    ensures
        p.len() == spec_levels(FANOUT),
        digits_ok(FANOUT, p),
        entry(nodes, root, p) is Some,
    decreases spec_levels(FANOUT) - nodes[n].spec_prefix().len(),
{
    let prefix = nodes[n].spec_prefix();
    assert(!nodes[n].is_bare());
    if nodes[n].spec_value() is Some {
        prefix
    } else {
        let j = choose|j: int|
            0 <= j < nodes[n].spec_children().len() && !(nodes[n].spec_children()[j] is None);
        assert(nodes[n].spec_children()[j] is Some);
        let c = nodes[n].spec_children()[j]->0;
        assert(nodes[c as int].spec_prefix() == prefix.push(j as usize));
        assert(prefix.push(j as usize).drop_last() =~= prefix);
        lemma_pruned_leads_to_value(nodes, root, c as int)
    }
}

/// Once a walk along a prefix of `path` has failed, the walk along `path` fails.
pub proof fn lemma_walk_none_extends<T: Copy, const FANOUT: usize>(
    nodes: Seq<RNode<T, FANOUT>>,
    root: Option<usize>,
    path: Seq<usize>,
    k: int,
)
    requires
        0 <= k <= path.len(),
        walk(nodes, root, path.subrange(0, k)) is None,
    ensures
        walk(nodes, root, path) is None,
    decreases path.len() - k,
{
    if k < path.len() {
        assert(path.subrange(0, k + 1).drop_last() =~= path.subrange(0, k));
        lemma_walk_none_extends(nodes, root, path, k + 1);
    } else {
        assert(path.subrange(0, k) =~= path);
    }
}

/// Without a root no walk arrives anywhere.
pub proof fn lemma_no_root_walk<T: Copy, const FANOUT: usize>(
    nodes: Seq<RNode<T, FANOUT>>,
    path: Seq<usize>,
)
    ensures
        walk(nodes, None, path) is None,
    decreases path.len(),
{
    if path.len() > 0 {
        lemma_no_root_walk(nodes, path.drop_last());
    }
}

/// The map from paths to values that a table of nodes holds.
pub open spec fn tree_view<T: Copy, const FANOUT: usize>(
    nodes: Seq<RNode<T, FANOUT>>,
    root: Option<usize>,
) -> Map<Seq<usize>, T> {
    Map::new(
        |p: Seq<usize>|
            p.len() == spec_levels(FANOUT) && digits_ok(FANOUT, p) && entry(nodes, root, p) is Some,
        |p: Seq<usize>| entry(nodes, root, p)->0,
    )
}

/// The digits of a key are a path of the tree.
pub proof fn lemma_key_path(fanout: usize, key: usize)
    requires
        fanout_ok(fanout),
    ensures
        key_path(fanout, key).len() == spec_levels(fanout),
        digits_ok(fanout, key_path(fanout, key)),
{
    lemma_fanout(fanout);
    assert forall|l: int| 0 <= l < spec_levels(fanout) implies #[trigger] key_path(fanout, key)[l]
        < fanout by {
        let sh = ((spec_levels(fanout) - 1 - l) * spec_bpl(fanout)) as u64;
        let k = key as u64;
        let m = (fanout - 1) as u64;
        assert((k >> sh) & m <= m) by (bit_vector);
    }
}

/// A radix tree over the digits of page addresses. Its contents are a
/// map from paths, the digit sequences of keys, to values.
pub struct RTree<T, const FANOUT: usize> {
    bump: Bump,
    root: Option<usize>,
    nodes: Vec<RNode<T, FANOUT>>,
}

impl<T: Copy, const FANOUT: usize> RTree<T, FANOUT> {
    pub closed spec fn wf(&self) -> bool {
        &&& fanout_ok(FANOUT)
        &&& self.bump.wf()
        &&& nodes_wf(self.nodes@, self.root)
        &&& levels_wf(self.nodes@)
    }

    /// Every node of the tree has a value or a child: no path ends at a
    /// node that holds nothing.
    pub closed spec fn pruned(&self) -> bool {
        pruned_except(self.nodes@, self.root, None)
    }

    /// After a value has been filed in an empty tree and taken out
    /// again, a pruned tree holds no node: nothing is left of the path
    /// that led to the value.
    pub proof fn lemma_single_key_round_trip(&self, path: Seq<usize>, val: T)
        requires
            self.wf(),
            self.pruned(),
            self@ == Map::<Seq<usize>, T>::empty().insert(path, val).remove(path),
        ensures
            self.is_bare(),
    {
        assert(self@ =~= Map::<Seq<usize>, T>::empty());
        self.lemma_pruned_empty();
    }

    /// A pruned tree that holds no value holds no node.
    pub proof fn lemma_pruned_empty(&self)
        requires
            self.wf(),
            self.pruned(),
            self@ == Map::<Seq<usize>, T>::empty(),
        ensures
            self.is_bare(),
    {
        if let Some(r) = self.root {
            assert(walk(self.nodes@, self.root, Seq::<usize>::empty()) == self.root);
            assert(self.nodes@[r as int].spec_prefix() =~= Seq::<usize>::empty());
            lemma_fanout(FANOUT);
            let p = lemma_pruned_leads_to_value(self.nodes@, self.root, r as int);
            assert(self@.contains_key(p));
        }
    }

    /// The values held, by the path of their key.
    pub closed spec fn view(&self) -> Map<Seq<usize>, T> {
        tree_view(self.nodes@, self.root)
    }

    /// Every node on the way to the leaf of `key` exists.
    pub closed spec fn has_path(&self, key: usize) -> bool {
        walk(self.nodes@, self.root, Self::path(key)) is Some
    }

    /// A key under which a value is filed has its path.
    pub proof fn lemma_has_path(&self, key: usize)
        requires
            self@.contains_key(Self::path(key)),
        ensures
            self.has_path(key),
    {
    }

    /// The bytes that a node takes from the tree's allocator.
    pub open spec fn spec_node_bytes() -> usize {
        ((FANOUT + 2) * 8) as usize
    }

    /// What a refusal `e` of the memory for a node tells: a node has no
    /// layout, or the chunk to map for it has no size that fits a word,
    /// which is the error, or the host refused the chunk.
    pub open spec fn node_refused(&self, e: ChunkError) -> bool {
        if (FANOUT + 2) * 8 + 7 > isize::MAX {
            e == ChunkError::Overflow
        } else {
            Bump::chunk_refused(self.spec_bump().spec_chunk_size(), Self::spec_node_bytes(), 8, e)
        }
    }

    /// The path under which `key` is filed.
    pub open spec fn path(key: usize) -> Seq<usize> {
        key_path(FANOUT, key)
    }

    /// The tree holds no node at all.
    pub closed spec fn is_bare(&self) -> bool {
        self.root is None
    }

    pub fn new(chunk_size: usize) -> (r: Self)
        ensures
            fanout_ok(FANOUT) ==> r.wf(),
            r@ == Map::<Seq<usize>, T>::empty(),
            r.is_bare(),
            r.pruned(),
    {
        let r = Self { bump: Bump::new(chunk_size), root: None, nodes: Vec::new() };
        proof {
            assert forall|p: Seq<usize>| entry(r.nodes@, r.root, p) is None by {
                lemma_no_root_walk(r.nodes@, p);
            }
            assert forall|n: int| !is_reachable(r.nodes@, r.root, n) by {}
            assert(r@ =~= Map::<Seq<usize>, T>::empty());
        }
        r
    }

    /// The allocator that accounts for the memory of the tree's nodes.
    pub closed spec fn spec_bump(&self) -> Bump {
        self.bump
    }

    /// Returns the memory of the tree's nodes to the host: each chunk of
    /// the tree's allocator is offered once. Returns how many chunks the
    /// host took back.
    pub fn release<S: System>(self, sys: &S) -> (r: usize)
        requires
            self.wf(),
        ensures
            r <= self.spec_bump()@.len(),
    {
        self.bump.release(sys)
    }

    /// Whether the tree holds any node.
    pub fn has_nodes(&self) -> (r: bool)
        ensures
            r == !self.is_bare(),
    {
        self.root.is_some()
    }

    fn bpl() -> (r: usize)
        requires
            fanout_ok(FANOUT),
        ensures
            r == spec_bpl(FANOUT),
            1 <= r <= 32,
    {
        proof {
            lemma_fanout(FANOUT);
        }
        (FANOUT as u64).trailing_zeros() as usize
    }

    fn levels() -> (r: usize)
        requires
            fanout_ok(FANOUT),
        ensures
            r == spec_levels(FANOUT),
            1 <= r <= 48,
    {
        proof {
            lemma_fanout(FANOUT);
        }
        let bpl: usize = Self::bpl();
        (va_size() + bpl - 1) / bpl
    }

    #[inline(always)]
    fn index_for(key: usize, level: usize) -> (r: usize)
        requires
            fanout_ok(FANOUT),
            level < spec_levels(FANOUT),
        ensures
            r == spec_index_for(FANOUT, key, level as int),
            r < FANOUT,
    {
        proof {
            lemma_fanout(FANOUT);
        }
        let bpl: usize = Self::bpl();
        let steps: usize = Self::levels() - 1 - level;
        assert(steps * bpl < 48) by (nonlinear_arith)
            requires
                steps <= spec_levels(FANOUT) - 1,
                (spec_levels(FANOUT) - 1) * bpl < 48,
                bpl >= 1,
        ;
        let shift: usize = steps * bpl;
        let mask: u64 = (FANOUT - 1) as u64;
        let digit: u64 = ((key as u64) >> (shift as u64)) & mask;
        assert(digit <= mask) by (bit_vector)
            requires
                digit == ((key as u64) >> (shift as u64)) & mask,
        ;
        digit as usize
    }

    /// Appends a node that has no children yet.
    fn new_node<S: System>(
        &mut self,
        sys: &S,
        value: Option<T>,
        parent: Option<usize>,
        Ghost(prefix): Ghost<Seq<usize>>,
    ) -> (r: RTreeResult<usize>)
        requires
            old(self).bump.wf(),
            fanout_ok(FANOUT),
        ensures
            final(self).bump.wf(),
            final(self).root == old(self).root,
            final(self).bump.spec_chunk_size() == old(self).bump.spec_chunk_size(),
            r matches Err(e) ==> e is Bump && old(self).node_refused(e->Bump_0),
            match r {
                Ok(id) => {
                    &&& id == old(self).nodes@.len()
                    &&& final(self).nodes@.len() == old(self).nodes@.len() + 1
                    &&& forall|n: int|
                        0 <= n < old(self).nodes@.len() ==> #[trigger] final(self).nodes@[n]
                            == old(self).nodes@[n]
                    &&& final(self).nodes@[id as int].spec_value() == value
                    &&& final(self).nodes@[id as int].spec_children().len() == FANOUT
                    &&& forall|j: int|
                        0 <= j < FANOUT ==> final(self).nodes@[id as int].spec_children()[j] is None
                    &&& final(self).nodes@[id as int].spec_parent() == parent
                    &&& final(self).nodes@[id as int].spec_prefix() == prefix
                },
                Err(e) => e is Bump && final(self).nodes@ == old(self).nodes@,
            },
    {
        proof {
            assert(8usize & ((8usize - 1) as usize) == 0) by (bit_vector);
            crate::math::lemma_single_bit_is_pow2(8);
        }
        let words: usize = match FANOUT.checked_add(2) {
            Some(v) => v,
            None => return Err(RTreeError::Bump(ChunkError::Overflow)),
        };
        let bytes: usize = match words.checked_mul(8) {
            Some(v) => v,
            None => return Err(RTreeError::Bump(ChunkError::Overflow)),
        };
        let layout: Layout = match Layout::from_size_align(bytes, 8) {
            Ok(l) => l,
            Err(_) => return Err(RTreeError::Bump(ChunkError::Overflow)),
        };
        if let Err(e) = self.bump.create(sys, layout) {
            return Err(RTreeError::Bump(e));
        }
        let mut node: RNode<T, FANOUT> = RNode::new(value);
        node.parent = parent;
        node.prefix = Ghost(prefix);
        self.nodes.push(node);
        Ok(self.nodes.len() - 1)
    }

    fn ensure_root<S: System>(&mut self, sys: &S) -> (r: RTreeResult<usize>)
        requires
            old(self).wf(),
        ensures
            final(self).wf(),
            final(self)@ == old(self)@,
            match r {
                Ok(root) => final(self).root == Some(root) && root < final(self).nodes@.len(),
                Err(e) => e is Bump && old(self).root is None && old(self).node_refused(e->Bump_0),
            },
            final(self).bump.spec_chunk_size() == old(self).bump.spec_chunk_size(),
            old(self).root is Some ==> r is Ok && final(self).nodes@ == old(self).nodes@
                && final(self).root == old(self).root,
            old(self).pruned() ==> (r matches Ok(root) ==> pruned_except(
                final(self).nodes@,
                final(self).root,
                Some(root),
            )),
    {
        if let Some(root) = self.root {
            return Ok(root);
        }
        let new_root: usize = match self.new_node(sys, None, None, Ghost(Seq::empty())) {
            Ok(v) => v,
            Err(e) => {
                return Err(e);
            },
        };
        self.root = Some(new_root);
        proof {
            lemma_fanout(FANOUT);
            assert forall|p: Seq<usize>|
                p.len() == spec_levels(FANOUT) && digits_ok(FANOUT, p) implies entry(
                self.nodes@,
                self.root,
                p,
            ) == entry(old(self).nodes@, old(self).root, p) by {
                lemma_bare_root_walk(self.nodes@, self.root, p);
                lemma_bare_root_walk(old(self).nodes@, old(self).root, p);
            }
            assert(self@ =~= old(self)@);
            assert forall|n: int| #[trigger]
                is_reachable(self.nodes@, self.root, n) implies n == new_root by {
                let prefix = self.nodes@[n].spec_prefix();
                if prefix.len() > 0 {
                    lemma_bare_root_walk(self.nodes@, self.root, prefix);
                }
            }
        }
        Ok(new_root)
    }

    /// The child of `parent` in slot `idx`, created where there was none.
    fn ensure_child<S: System>(
        &mut self,
        sys: &S,
        parent: usize,
        idx: usize,
        Ghost(path): Ghost<Seq<usize>>,
    ) -> (r: RTreeResult<usize>)
        requires
            old(self).wf(),
            idx < FANOUT,
            digits_ok(FANOUT, path),
            path.len() < spec_levels(FANOUT),
            walk(old(self).nodes@, old(self).root, path) == Some(parent),
        ensures
            final(self).wf(),
            final(self)@ == old(self)@,
            final(self).root == old(self).root,
            match r {
                Ok(child) => walk(final(self).nodes@, final(self).root, path.push(idx)) == Some(
                    child,
                ) && child < final(self).nodes@.len(),
                Err(e) => e is Bump && walk(old(self).nodes@, old(self).root, path.push(idx))
                    is None && old(self).node_refused(e->Bump_0),
            },
            final(self).bump.spec_chunk_size() == old(self).bump.spec_chunk_size(),
            walk(old(self).nodes@, old(self).root, path.push(idx)) is Some ==> r is Ok
                && final(self).nodes@ == old(self).nodes@,
            pruned_except(old(self).nodes@, old(self).root, Some(parent)) ==> (r matches Ok(
                child,
            ) ==> pruned_except(final(self).nodes@, final(self).root, Some(child))),
    {
        proof {
            lemma_walk_prefix(self.nodes@, self.root, path);
            assert(path.push(idx).drop_last() =~= path);
        }
        let current: Option<usize> = self.nodes[parent].load_child(idx);
        if let Some(child) = current {
            proof {
                assert(!self.nodes@[parent as int].is_bare());
            }
            return Ok(child);
        }
        let new_child: usize = match self.new_node(
            sys,
            None,
            Some(parent),
            Ghost(path.push(idx)),
        ) {
            Ok(v) => v,
            Err(e) => {
                proof {
                    assert(self.nodes@ =~= old(self).nodes@);
                }
                return Err(e);
            },
        };
        let swapped: bool = self.nodes[parent].cas_child(idx, current, new_child);
        proof {
            assert(swapped);
            assert(attached(old(self).nodes@, self.nodes@, parent, idx, new_child));
            assert(nodes_wf(self.nodes@, self.root)) by {
                assert forall|n: int, j: int|
                    0 <= n < self.nodes@.len() && 0 <= j < FANOUT && (
                    #[trigger] self.nodes@[n].spec_children()[j]) is Some implies {
                    let c = self.nodes@[n].spec_children()[j]->0;
                    &&& c < self.nodes@.len()
                    &&& self.nodes@[c as int].spec_prefix() == self.nodes@[n].spec_prefix().push(
                        j as usize,
                    )
                    &&& self.nodes@[c as int].spec_parent() == Some(n as usize)
                } by {
                    if n == parent as int {
                        if j != idx as int {
                            assert(old(self).nodes@[n].spec_children()[j] is Some);
                        }
                    } else if n < old(self).nodes@.len() {
                        assert(old(self).nodes@[n].spec_children()[j] is Some);
                    }
                }
            }
            assert forall|p: Seq<usize>|
                p.len() == spec_levels(FANOUT) && digits_ok(FANOUT, p) implies entry(
                self.nodes@,
                self.root,
                p,
            ) == entry(old(self).nodes@, old(self).root, p) by {
                lemma_attached_walk(old(self).nodes@, self.nodes@, self.root, parent, idx, new_child, p);
            }
            assert(self@ =~= old(self)@);
            lemma_attached_walk(old(self).nodes@, self.nodes@, self.root, parent, idx, new_child, path);
            assert(levels_wf(self.nodes@)) by {
                assert forall|n: int, j: int|
                    0 <= n < self.nodes@.len() && 0 <= j < FANOUT && (
                    #[trigger] self.nodes@[n].spec_children()[j]) is Some implies self.nodes@[n].spec_prefix().len()
                    < spec_levels(FANOUT) by {
                    if n == parent as int {
                    } else if n < old(self).nodes@.len() {
                        assert(old(self).nodes@[n].spec_children()[j] is Some);
                    }
                }
            }
            if pruned_except(old(self).nodes@, old(self).root, Some(parent)) {
                assert forall|n: int| #[trigger]
                    is_reachable(self.nodes@, self.root, n)
                        && n != new_child implies !self.nodes@[n].is_bare() by {
                    lemma_attached_reach(
                        old(self).nodes@,
                        self.nodes@,
                        self.root,
                        parent,
                        idx,
                        new_child,
                        n,
                    );
                    if n == parent as int {
                        assert(self.nodes@[n].spec_children()[idx as int] is Some);
                    } else {
                        assert(!old(self).nodes@[n].is_bare());
                    }
                }
            }
        }
        Ok(new_child)
    }

    /// The node that the digits of `key` lead to, if it exists.
    fn leaf(&self, key: usize) -> (r: Option<usize>)
        requires
            self.wf(),
        ensures
            r == walk(self.nodes@, self.root, Self::path(key)),
            r matches Some(l) ==> l < self.nodes@.len(),
    {
        let ghost path = Self::path(key);
        proof {
            lemma_key_path(FANOUT, key);
            lemma_walk_prefix(self.nodes@, self.root, path);
            assert(path.subrange(0, 0) =~= Seq::<usize>::empty());
        }
        let mut current: usize = match self.root {
            Some(r) => r,
            None => {
                proof {
                    lemma_walk_none_extends(self.nodes@, self.root, path, 0);
                }
                return None;
            },
        };
        let levels: usize = Self::levels();
        let mut level: usize = 0;
        while level < levels
            invariant
                self.wf(),
                levels == spec_levels(FANOUT),
                level <= levels,
                path == Self::path(key),
                path.len() == levels,
                digits_ok(FANOUT, path),
                current < self.nodes@.len(),
                walk(self.nodes@, self.root, path.subrange(0, level as int)) == Some(current),
            decreases levels - level,
        {
            let idx: usize = Self::index_for(key, level);
            proof {
                assert(path.subrange(0, level + 1).drop_last() =~= path.subrange(0, level as int));
                assert(path.subrange(0, level + 1).last() == idx);
                lemma_walk_prefix(self.nodes@, self.root, path.subrange(0, level + 1));
            }
            current = match self.nodes[current].load_child(idx) {
                Some(c) => c,
                None => {
                    proof {
                        lemma_walk_none_extends(self.nodes@, self.root, path, level + 1);
                    }
                    return None;
                },
            };
            level += 1;
        }
        proof {
            assert(path.subrange(0, level as int) =~= path);
        }
        Some(current)
    }

    /// The node that the digits of `key` lead to, with every node on the
    /// way created where it was missing.
    fn ensure_leaf<S: System>(&mut self, sys: &S, key: usize) -> (r: RTreeResult<usize>)
        requires
            old(self).wf(),
        ensures
            final(self).wf(),
            final(self)@ == old(self)@,
            match r {
                Ok(l) => walk(final(self).nodes@, final(self).root, Self::path(key)) == Some(l) && l
                    < final(self).nodes@.len(),
                Err(e) => e is Bump && !old(self).has_path(key) && old(self).node_refused(
                    e->Bump_0,
                ),
            },
            final(self).bump.spec_chunk_size() == old(self).bump.spec_chunk_size(),
            old(self).has_path(key) ==> r is Ok && final(self).nodes@ == old(self).nodes@
                && final(self).root == old(self).root,
            old(self).pruned() ==> (r matches Ok(l) ==> pruned_except(
                final(self).nodes@,
                final(self).root,
                Some(l),
            )),
    {
        let ghost path = Self::path(key);
        proof {
            lemma_key_path(FANOUT, key);
            assert(path.subrange(0, 0) =~= Seq::<usize>::empty());
        }
        proof {
            if old(self).has_path(key) {
                lemma_walk_passes(self.nodes@, self.root, path, 0);
            }
        }
        let mut current: usize = match self.ensure_root(sys) {
            Ok(v) => v,
            Err(e) => return Err(e),
        };
        let levels: usize = Self::levels();
        let mut level: usize = 0;
        while level < levels
            invariant
                self.wf(),
                self@ == old(self)@,
                self.bump.spec_chunk_size() == old(self).bump.spec_chunk_size(),
                old(self).has_path(key) ==> self.nodes@ == old(self).nodes@ && self.root == old(self).root,
                levels == spec_levels(FANOUT),
                level <= levels,
                path == Self::path(key),
                path.len() == levels,
                digits_ok(FANOUT, path),
                current < self.nodes@.len(),
                walk(self.nodes@, self.root, path.subrange(0, level as int)) == Some(current),
                old(self).pruned() ==> pruned_except(self.nodes@, self.root, Some(current)),
            decreases levels - level,
        {
            let idx: usize = Self::index_for(key, level);
            proof {
                assert(path.subrange(0, level as int).push(idx) =~= path.subrange(0, level + 1));
                if old(self).has_path(key) {
                    lemma_walk_passes(self.nodes@, self.root, path, level + 1);
                }
            }
            current = match self.ensure_child(
                sys,
                current,
                idx,
                Ghost(path.subrange(0, level as int)),
            ) {
                Ok(c) => c,
                Err(e) => return Err(e),
            };
            level += 1;
        }
        proof {
            assert(path.subrange(0, level as int) =~= path);
        }
        Ok(current)
    }

    /// Puts `val` into `node`, unless it already holds a value.
    fn store(&mut self, node: usize, val: T, Ghost(path): Ghost<Seq<usize>>) -> (r: RTreeResult<()>)
        requires
            old(self).wf(),
            path.len() == spec_levels(FANOUT),
            digits_ok(FANOUT, path),
            walk(old(self).nodes@, old(self).root, path) == Some(node),
        ensures
            final(self).wf(),
            final(self).bump == old(self).bump,
            pruned_except(old(self).nodes@, old(self).root, Some(node)) ==> final(self).pruned(),
            match r {
                Ok(()) => !old(self)@.contains_key(path) && final(self)@ == old(self)@.insert(
                    path,
                    val,
                ),
                Err(e) => e == RTreeError::AlreadyPresent && old(self)@.contains_key(path)
                    && final(self)@ == old(self)@,
            },
    {
        proof {
            lemma_walk_prefix(self.nodes@, self.root, path);
        }
        if self.nodes[node].value.is_some() {
            proof {
                if pruned_except(self.nodes@, self.root, Some(node)) {
                    assert forall|n: int| #[trigger]
                        is_reachable(self.nodes@, self.root, n) implies !self.nodes@[n].is_bare() by {
                        if n != node as int {
                            assert(!self.nodes@[n].is_bare());
                        }
                    }
                }
            }
            return Err(RTreeError::AlreadyPresent);
        }
        self.nodes[node].value = Some(val);
        proof {
            assert(same_links(old(self).nodes@, self.nodes@));
            if pruned_except(old(self).nodes@, old(self).root, Some(node)) {
                assert forall|n: int| #[trigger]
                    is_reachable(self.nodes@, self.root, n) implies !self.nodes@[n].is_bare() by {
                    lemma_same_links_walk(
                        old(self).nodes@,
                        self.nodes@,
                        self.root,
                        self.nodes@[n].spec_prefix(),
                    );
                    if n != node as int {
                        assert(is_reachable(old(self).nodes@, old(self).root, n));
                        assert(!old(self).nodes@[n].is_bare());
                    }
                }
            }
            assert forall|p: Seq<usize>|
                p.len() == spec_levels(FANOUT) && digits_ok(FANOUT, p) implies entry(
                self.nodes@,
                self.root,
                p,
            ) == if p == path {
                Some(val)
            } else {
                entry(old(self).nodes@, old(self).root, p)
            } by {
                lemma_same_links_walk(old(self).nodes@, self.nodes@, self.root, p);
                lemma_walk_prefix(old(self).nodes@, self.root, p);
            }
            assert(self@ =~= old(self)@.insert(path, val));
        }
        Ok(())
    }

    /// Files `val` under `key`. An occupied leaf refuses the value.
    pub fn insert<S: System>(&mut self, sys: &S, key: usize, val: T) -> (r: RTreeResult<()>)
        requires
            old(self).wf(),
        ensures
            final(self).wf(),
            match r {
                Ok(()) => !old(self)@.contains_key(Self::path(key)) && final(self)@
                    == old(self)@.insert(Self::path(key), val),
                Err(RTreeError::AlreadyPresent) => old(self)@.contains_key(Self::path(key))
                    && final(self)@ == old(self)@,
                Err(RTreeError::Bump(e)) => final(self)@ == old(self)@ && !old(self).has_path(key)
                    && old(self).node_refused(e),
            },
            old(self).pruned() && !(r matches Err(RTreeError::Bump(_))) ==> final(self).pruned(),
            old(self)@.contains_key(Self::path(key)) ==> r == Err::<(), RTreeError>(
                RTreeError::AlreadyPresent,
            ),
            old(self).has_path(key) && !old(self)@.contains_key(Self::path(key)) ==> r is Ok,
            final(self).spec_bump().spec_chunk_size() == old(self).spec_bump().spec_chunk_size(),
    {
        proof {
            lemma_key_path(FANOUT, key);
        }
        let leaf: usize = match self.ensure_leaf(sys, key) {
            Ok(v) => v,
            Err(e) => return Err(e),
        };
        self.store(leaf, val, Ghost(Self::path(key)))
    }

    /// The value filed under `key`.
    pub fn lookup(&self, key: usize) -> (r: Option<&T>)
        requires
            self.wf(),
        ensures
            match r {
                Some(v) => self@.contains_key(Self::path(key)) && *v == self@[Self::path(key)],
                None => !self@.contains_key(Self::path(key)),
            },
    {
        proof {
            lemma_key_path(FANOUT, key);
        }
        let node: usize = match self.leaf(key) {
            Some(n) => n,
            None => return None,
        };
        match &self.nodes[node].value {
            Some(v) => Some(v),
            None => None,
        }
    }

    /// Writing a value into an occupied leaf changes the value filed
    /// under the leaf's path, and nothing else.
    proof fn lemma_value_written(before: Self, after: Self, node: usize, path: Seq<usize>)
        requires
            before.wf(),
            path.len() == spec_levels(FANOUT),
            digits_ok(FANOUT, path),
            walk(before.nodes@, before.root, path) == Some(node),
            before.nodes@[node as int].value is Some,
            after.bump == before.bump,
            after.root == before.root,
            after.nodes@.len() == before.nodes@.len(),
            forall|i: int| 0 <= i < before.nodes@.len() && i != node ==> after.nodes@[i] == before.nodes@[i],
            after.nodes@[node as int].value is Some,
            after.nodes@[node as int].children == before.nodes@[node as int].children,
            after.nodes@[node as int].parent == before.nodes@[node as int].parent,
            after.nodes@[node as int].prefix == before.nodes@[node as int].prefix,
        ensures
            after.wf(),
            after@ == before@.insert(path, after.nodes@[node as int].value->0),
            before.pruned() ==> after.pruned(),
    {
        lemma_walk_prefix(before.nodes@, before.root, path);
        assert(same_links(before.nodes@, after.nodes@));
        if before.pruned() {
            assert forall|n: int| #[trigger]
                is_reachable(after.nodes@, after.root, n) implies !after.nodes@[n].is_bare() by {
                lemma_same_links_walk(
                    before.nodes@,
                    after.nodes@,
                    after.root,
                    after.nodes@[n].spec_prefix(),
                );
                if n != node as int {
                    assert(is_reachable(before.nodes@, before.root, n));
                    assert(!before.nodes@[n].is_bare());
                }
            }
        }
        let val = after.nodes@[node as int].value->0;
        assert forall|p: Seq<usize>|
            p.len() == spec_levels(FANOUT) && digits_ok(FANOUT, p) implies entry(
            after.nodes@,
            after.root,
            p,
        ) == if p == path {
            Some(val)
        } else {
            entry(before.nodes@, before.root, p)
        } by {
            lemma_same_links_walk(before.nodes@, after.nodes@, after.root, p);
            lemma_walk_prefix(before.nodes@, before.root, p);
        }
        assert(after@ =~= before@.insert(path, val));
    }

    /// The value filed under `key`, for writing.
    pub fn lookup_mut(&mut self, key: usize) -> (r: Option<&mut T>)
        requires
            old(self).wf(),
        ensures
            final(self).wf(),
            old(self).pruned() ==> final(self).pruned(),
            match r {
                Some(v) => old(self)@.contains_key(Self::path(key)) && *v == old(self)@[Self::path(
                    key,
                )] && final(self)@ == old(self)@.insert(Self::path(key), *final(v)),
                None => !old(self)@.contains_key(Self::path(key)) && *final(self) == *old(self),
            },
    {
        proof {
            lemma_key_path(FANOUT, key);
        }
        let node: usize = match self.leaf(key) {
            Some(n) => n,
            None => return None,
        };
        if self.nodes[node].value.is_none() {
            return None;
        }
        let r: Option<&mut T> = self.nodes[node].value.as_mut();
        proof {
            Self::lemma_value_written(*old(self), *after_borrow(self), node, Self::path(key));
        }
        r
    }

    /// Whether `node` has neither a value nor a child.
    fn should_remove_node(&self, node: usize) -> (r: bool)
        requires
            node < self.nodes@.len(),
        ensures
            r == self.nodes@[node as int].is_bare(),
    {
        if self.nodes[node].value.is_some() {
            return false;
        }
        let n: usize = self.nodes[node].children.len();
        let mut i: usize = 0;
        while i < n
            invariant
                i <= n,
                node < self.nodes@.len(),
                n == self.nodes@[node as int].spec_children().len(),
                forall|j: int| 0 <= j < i ==> self.nodes@[node as int].spec_children()[j] is None,
            decreases n - i,
        {
            if self.nodes[node].children[i].is_some() {
                return false;
            }
            i += 1;
        }
        true
    }

    /// The node stands where its recorded path says.
    pub closed spec fn reachable(&self, node: usize) -> bool {
        &&& node < self.nodes@.len()
        &&& digits_ok(FANOUT, self.nodes@[node as int].spec_prefix())
        &&& walk(self.nodes@, self.root, self.nodes@[node as int].spec_prefix()) == Some(node)
    }

    /// Takes `node` out of the tree if it is bare, then its parent if that
    /// has become bare, and so on upward.
    fn prune(&mut self, node: usize)
        requires
            old(self).wf(),
            old(self).reachable(node),
        ensures
            final(self).wf(),
            final(self)@ == old(self)@,
            final(self).bump == old(self).bump,
            pruned_except(old(self).nodes@, old(self).root, Some(node)) ==> final(self).pruned(),
    {
        let ghost first = node;
        let mut node: usize = node;
        let mut done: bool = false;
        while !done
            invariant
                self.wf(),
                self.bump == old(self).bump,
                self@ == old(self)@,
                !done ==> self.reachable(node),
                pruned_except(old(self).nodes@, old(self).root, Some(first)) ==> pruned_except(
                    self.nodes@,
                    self.root,
                    if done {
                        None
                    } else {
                        Some(node)
                    },
                ),
            decreases
                    if done {
                        0
                    } else {
                        self.nodes@[node as int].spec_prefix().len() + 1
                    },
        {
            if !self.should_remove_node(node) {
                done = true;
            } else {
                let ghost before = self.nodes@;
                let ghost root = self.root;
                let ghost prefix = before[node as int].spec_prefix();
                proof {
                    lemma_walk_prefix(before, root, prefix);
                    if prefix.len() > 0 {
                        lemma_walk_prefix(before, root, prefix.drop_last());
                        assert(prefix[prefix.len() - 1] < FANOUT);
                    }
                }
                match self.nodes[node].parent {
                    None => {
                        self.root = None;
                        done = true;
                        proof {
                            lemma_fanout(FANOUT);
                            assert forall|p: Seq<usize>|
                                p.len() == spec_levels(FANOUT) && digits_ok(
                                    FANOUT,
                                    p,
                                ) implies entry(self.nodes@, self.root, p) == entry(
                                before,
                                root,
                                p,
                            ) by {
                                lemma_bare_root_walk(before, root, p);
                                lemma_no_root_walk(self.nodes@, p);
                            }
                            assert(self@ =~= old(self)@);
                            assert forall|n: int| !is_reachable(self.nodes@, self.root, n) by {
                                lemma_no_root_walk(self.nodes@, self.nodes@[n].spec_prefix());
                            }
                        }
                    },
                    Some(parent) => {
                        let cleared: bool = self.nodes[parent].clear_child(node);
                        proof {
                            let m = walk(before, root, prefix.drop_last())->0;
                            assert(m == parent);
                            assert(before[parent as int].spec_children()[prefix.last() as int]
                                == Some(node));
                            assert(cleared);
                            let j = choose|j: int|
                                0 <= j < before[parent as int].spec_children().len()
                                    && before[parent as int].spec_children()[j] == Some(node)
                                    && self.nodes@[parent as int].spec_children()
                                    == before[parent as int].spec_children().update(j, None);
                            assert(before[parent as int].spec_children()[j] is Some);
                            assert(detached(before, self.nodes@, parent, j as usize, node));
                            assert(nodes_wf(self.nodes@, self.root)) by {
                                assert forall|n: int, k: int|
                                    0 <= n < self.nodes@.len() && 0 <= k < FANOUT && (
                                    #[trigger] self.nodes@[n].spec_children()[k]) is Some implies {
                                    let c = self.nodes@[n].spec_children()[k]->0;
                                    &&& c < self.nodes@.len()
                                    &&& self.nodes@[c as int].spec_prefix()
                                        == self.nodes@[n].spec_prefix().push(k as usize)
                                    &&& self.nodes@[c as int].spec_parent() == Some(n as usize)
                                } by {
                                    assert(before[n].spec_children()[k] is Some);
                                }
                            }
                            assert forall|p: Seq<usize>|
                                p.len() == spec_levels(FANOUT) && digits_ok(
                                    FANOUT,
                                    p,
                                ) implies entry(self.nodes@, self.root, p) == entry(
                                before,
                                root,
                                p,
                            ) by {
                                lemma_detached_walk(
                                    before,
                                    self.nodes@,
                                    root,
                                    parent,
                                    j as usize,
                                    node,
                                    p,
                                );
                            }
                            assert(self@ =~= old(self)@);
                            lemma_detached_walk(
                                before,
                                self.nodes@,
                                root,
                                parent,
                                j as usize,
                                node,
                                prefix.drop_last(),
                            );
                            assert(before[parent as int].spec_prefix() == prefix.drop_last());
                            assert(levels_wf(self.nodes@)) by {
                                assert forall|n: int, k: int|
                                    0 <= n < self.nodes@.len() && 0 <= k < FANOUT && (
                                    #[trigger] self.nodes@[n].spec_children()[k])
                                        is Some implies self.nodes@[n].spec_prefix().len()
                                    < spec_levels(FANOUT) by {
                                    assert(before[n].spec_children()[k] is Some);
                                }
                            }
                            if pruned_except(before, root, Some(node)) {
                                assert forall|n: int| #[trigger]
                                    is_reachable(self.nodes@, self.root, n) && n
                                        != parent implies !self.nodes@[n].is_bare() by {
                                    lemma_detached_reach(
                                        before,
                                        self.nodes@,
                                        root,
                                        parent,
                                        j as usize,
                                        node,
                                        n,
                                    );
                                    assert(!before[n].is_bare());
                                }
                            }
                        }
                        node = parent;
                    },
                }
            }
        }
    }

    /// Takes the value filed under `key` out of the tree, and with it
    /// every node that this leaves bare.
    pub fn remove(&mut self, key: usize) -> (r: Option<T>)
        requires
            old(self).wf(),
        ensures
            final(self).wf(),
            final(self)@ == old(self)@.remove(Self::path(key)),
            final(self).spec_bump() == old(self).spec_bump(),
            old(self).pruned() ==> final(self).pruned(),
            match r {
                Some(v) => old(self)@.contains_key(Self::path(key)) && v == old(self)@[Self::path(
                    key,
                )],
                None => !old(self)@.contains_key(Self::path(key)),
            },
    {
        let ghost path = Self::path(key);
        proof {
            lemma_key_path(FANOUT, key);
        }
        let node: usize = match self.leaf(key) {
            Some(n) => n,
            None => {
                proof {
                    assert(self@ =~= old(self)@.remove(path));
                }
                return None;
            },
        };
        proof {
            lemma_walk_prefix(self.nodes@, self.root, path);
        }
        let val: Option<T> = self.nodes[node].value;
        self.nodes[node].value = None;
        proof {
            assert(same_links(old(self).nodes@, self.nodes@));
            assert forall|p: Seq<usize>|
                p.len() == spec_levels(FANOUT) && digits_ok(FANOUT, p) implies entry(
                self.nodes@,
                self.root,
                p,
            ) == if p == path {
                None
            } else {
                entry(old(self).nodes@, old(self).root, p)
            } by {
                lemma_same_links_walk(old(self).nodes@, self.nodes@, self.root, p);
                lemma_walk_prefix(old(self).nodes@, self.root, p);
            }
            assert(self@ =~= old(self)@.remove(path));
            lemma_same_links_walk(old(self).nodes@, self.nodes@, self.root, path);
            if old(self).pruned() {
                assert forall|n: int| #[trigger]
                    is_reachable(self.nodes@, self.root, n) && n
                        != node implies !self.nodes@[n].is_bare() by {
                    lemma_same_links_walk(
                        old(self).nodes@,
                        self.nodes@,
                        self.root,
                        self.nodes@[n].spec_prefix(),
                    );
                    assert(is_reachable(old(self).nodes@, old(self).root, n));
                    assert(!old(self).nodes@[n].is_bare());
                }
            }
        }
        self.prune(node);
        val
    }
}

} // verus!
