//! The binary trie in an arena, and its flat array encoding.

use vstd::prelude::*;

verus! {

/// One node of an arena trie: the arena index of the child for bit 0
/// (`left`) and for bit 1 (`right`), if any.
#[derive(Clone, Copy, Debug, PartialEq, Eq, Structural)]
pub struct TrieNode {
    pub left: Option<usize>,
    pub right: Option<usize>,
}

/// A binary trie kept in an arena: node 0 is the root, and every child
/// index is greater than its parent's index.
#[derive(Clone, Debug)]
pub struct Trie {
    pub nodes: Vec<TrieNode>,
}

pub open spec fn child_of(n: TrieNode, b: bool) -> Option<usize> {
    if b {
        n.right
    } else {
        n.left
    }
}

pub open spec fn is_leaf(n: TrieNode) -> bool {
    n.left is None && n.right is None
}

/// Every child link points forward, inside the arena, and the root exists.
pub open spec fn arena_wf(nodes: Seq<TrieNode>) -> bool {
    &&& nodes.len() >= 1
    &&& forall|i: int, b: bool|
        0 <= i < nodes.len() ==> match #[trigger] child_of(nodes[i], b) {
            Some(c) => i < c < nodes.len(),
            None => true,
        }
}

/// The node reached from the root by following the bits of `p`.
pub open spec fn node_at(nodes: Seq<TrieNode>, p: Seq<bool>) -> Option<int>
    decreases p.len(),
{
    if p.len() == 0 {
        Some(0)
    } else {
        match node_at(nodes, p.drop_last()) {
            Some(i) => if 0 <= i < nodes.len() {
                match child_of(nodes[i], p.last()) {
                    Some(c) => Some(c as int),
                    None => None,
                }
            } else {
                None
            },
            None => None,
        }
    }
}

/// The bit paths that reach a node: the shape of the tree.
pub open spec fn paths(nodes: Seq<TrieNode>) -> Set<Seq<bool>> {
    Set::new(|p: Seq<bool>| node_at(nodes, p) is Some)
}

/// The bit paths that reach a terminal node: the prefixes the trie matches.
pub open spec fn leaf_paths(nodes: Seq<TrieNode>) -> Set<Seq<bool>> {
    Set::new(
        |p: Seq<bool>|
            match node_at(nodes, p) {
                Some(i) => 0 <= i < nodes.len() && is_leaf(nodes[i]),
                None => false,
            },
    )
}

/// Number of nodes in the tree hanging from node `i`.
pub open spec fn subtree_size(nodes: Seq<TrieNode>, i: int) -> nat
    decreases nodes.len() - i,
{
    if 0 <= i < nodes.len() {
        let l: nat = match nodes[i].left {
            Some(c) => if i < c < nodes.len() {
                subtree_size(nodes, c as int)
            } else {
                0
            },
            None => 0,
        };
        let r: nat = match nodes[i].right {
            Some(c) => if i < c < nodes.len() {
                subtree_size(nodes, c as int)
            } else {
                0
            },
            None => 0,
        };
        1 + l + r
    } else {
        0
    }
}

/// Total number of nodes of the trie, counted as a tree from the root.
pub open spec fn node_count(nodes: Seq<TrieNode>) -> nat {
    subtree_size(nodes, 0)
}

pub open spec fn weight(nodes: Seq<TrieNode>, s: Seq<int>) -> nat
    decreases s.len(),
{
    if s.len() == 0 {
        0
    } else {
        weight(nodes, s.drop_last()) + subtree_size(nodes, s.last())
    }
}

proof fn lemma_weight_push(nodes: Seq<TrieNode>, s: Seq<int>, x: int)
    ensures
        weight(nodes, s.push(x)) == weight(nodes, s) + subtree_size(nodes, x),
{
    assert(s.push(x).drop_last() =~= s);
}

/// Following one more bit from a reached node.
pub proof fn lemma_node_at_push(nodes: Seq<TrieNode>, p: Seq<bool>, b: bool)
    ensures
        node_at(nodes, p.push(b)) == match node_at(nodes, p) {
            Some(i) => if 0 <= i < nodes.len() {
                match child_of(nodes[i], b) {
                    Some(c) => Some(c as int),
                    None => None,
                }
            } else {
                None
            },
            None => None,
        },
{
    assert(p.push(b).drop_last() =~= p);
}

/// In a well-formed arena every reached index is a node of the arena.
pub proof fn lemma_node_at_in_arena(nodes: Seq<TrieNode>, p: Seq<bool>)
    requires
        arena_wf(nodes),
    ensures
        match node_at(nodes, p) {
            Some(i) => 0 <= i < nodes.len(),
            None => true,
        },
    decreases p.len(),
{
    if p.len() > 0 {
        lemma_node_at_in_arena(nodes, p.drop_last());
        match node_at(nodes, p.drop_last()) {
            Some(i) => {
                if 0 <= i < nodes.len() {
                    let _ = child_of(nodes[i], p.last());
                }
            },
            None => {},
        }
    }
}

/// The flat encoding: one `(left, right)` pair per node, `0` for no child.
pub open spec fn flat_wf(f: Seq<(usize, usize)>) -> bool {
    &&& f.len() >= 1
    &&& forall|i: int|
        0 <= i < f.len() ==> {
            &&& (#[trigger] f[i]).0 == 0 || (i < f[i].0 < f.len())
            &&& f[i].1 == 0 || (i < f[i].1 < f.len())
        }
}

/// The child index held in slot `b` of entry `i`.
pub open spec fn slot(f: Seq<(usize, usize)>, i: int, b: bool) -> usize {
    if b {
        f[i].1
    } else {
        f[i].0
    }
}

/// No child index appears in two slots: every node has one parent.
pub open spec fn refs_unique(f: Seq<(usize, usize)>) -> bool {
    forall|i: int, b: bool, j: int, c: bool|
        0 <= i < f.len() && 0 <= j < f.len() && (i != j || b != c) && #[trigger] slot(f, i, b) != 0
            ==> slot(f, i, b) != #[trigger] slot(f, j, c)
}

pub open spec fn link_of(x: usize) -> Option<usize> {
    if x == 0 {
        None
    } else {
        Some(x)
    }
}

pub open spec fn decode_pair(e: (usize, usize)) -> TrieNode {
    TrieNode { left: link_of(e.0), right: link_of(e.1) }
}

/// The arena that a flat array describes.
pub open spec fn flat_nodes(f: Seq<(usize, usize)>) -> Seq<TrieNode> {
    f.map_values(|e: (usize, usize)| decode_pair(e))
}

pub proof fn lemma_flat_wf_arena(f: Seq<(usize, usize)>)
    requires
        flat_wf(f),
    ensures
        arena_wf(flat_nodes(f)),
{
    let n = flat_nodes(f);
    assert forall|i: int, b: bool| 0 <= i < n.len() implies match #[trigger] child_of(n[i], b) {
        Some(c) => i < c < n.len(),
        None => true,
    } by {
        let _ = f[i];
    }
}

/// Flat entry `k` mirrors old node `m[k]`: its links are present exactly
/// where the old node's are, point forward, and lead to the mirrors of the
/// old children.
pub open spec fn entry_mirrors(
    f: Seq<(usize, usize)>,
    nodes: Seq<TrieNode>,
    m: Seq<int>,
    k: int,
) -> bool {
    &&& (f[k].0 == 0) == (nodes[m[k]].left is None)
    &&& f[k].0 != 0 ==> k < f[k].0 < f.len() && m[f[k].0 as int] == nodes[m[k]].left->Some_0
    &&& (f[k].1 == 0) == (nodes[m[k]].right is None)
    &&& f[k].1 != 0 ==> k < f[k].1 < f.len() && m[f[k].1 as int] == nodes[m[k]].right->Some_0
}

proof fn lemma_mirror_paths(f: Seq<(usize, usize)>, nodes: Seq<TrieNode>, m: Seq<int>, p: Seq<bool>)
    requires
        arena_wf(nodes),
        f.len() == m.len(),
        f.len() >= 1,
        m[0] == 0,
        forall|k: int| 0 <= k < m.len() ==> 0 <= #[trigger] m[k] < nodes.len(),
        forall|k: int| 0 <= k < f.len() ==> #[trigger] entry_mirrors(f, nodes, m, k),
    ensures
        match node_at(flat_nodes(f), p) {
            Some(k) => 0 <= k < f.len() && node_at(nodes, p) == Some(m[k]),
            None => node_at(nodes, p) is None,
        },
    decreases p.len(),
{
    let fl = flat_nodes(f);
    if p.len() > 0 {
        let q = p.drop_last();
        let b = p.last();
        lemma_mirror_paths(f, nodes, m, q);
        assert(p =~= q.push(b));
        lemma_node_at_push(fl, q, b);
        lemma_node_at_push(nodes, q, b);
        match node_at(fl, q) {
            Some(k) => {
                assert(entry_mirrors(f, nodes, m, k));
                let _ = child_of(nodes[m[k]], b);
            },
            None => {},
        }
    }
}

/// Flattens the trie by a depth-first walk on an explicit stack. Slot 0 is
/// the root; each child gets the next free slot when its parent is visited,
/// the right child before the left one.
pub fn flatten(trie: Trie) -> (r: Vec<(usize, usize)>)
    requires
        arena_wf(trie.nodes@),
    ensures
        flat_wf(r@),
        refs_unique(r@),
        r@.len() == node_count(trie.nodes@),
        paths(flat_nodes(r@)) == paths(trie.nodes@),
        leaf_paths(flat_nodes(r@)) == leaf_paths(trie.nodes@),
{
    let nodes = &trie.nodes;
    let ghost n = nodes@;
    let mut out: Vec<(usize, usize)> = Vec::new();
    out.push((0, 0));
    let mut stack: Vec<(usize, usize)> = Vec::new();
    stack.push((0, 0));
    let ghost mut m: Seq<int> = seq![0int];
    let ghost mut done: Seq<bool> = seq![false];
    let ghost mut olds: Seq<int> = seq![0int];
    proof {
        lemma_weight_push(n, Seq::empty(), 0);
        assert(seq![0int] =~= Seq::<int>::empty().push(0));
        assert(stack@[0].1 == 0);
        assert(out@[0] == (0usize, 0usize));
    }
    while stack.len() > 0
        invariant
            arena_wf(n),
            n == nodes@,
            out@.len() == m.len(),
            out@.len() == done.len(),
            out@.len() >= 1,
            m[0] == 0,
            olds.len() == stack@.len(),
            forall|j: int| 0 <= j < stack@.len() ==> #[trigger] olds[j] == stack@[j].0 as int,
            forall|k: int| 0 <= k < m.len() ==> 0 <= #[trigger] m[k] < n.len(),
            forall|j: int|
                0 <= j < stack@.len() ==> {
                    &&& (#[trigger] stack@[j]).1 < out@.len()
                    &&& m[stack@[j].1 as int] == stack@[j].0 as int
                    &&& !done[stack@[j].1 as int]
                },
            forall|k: int| 0 <= k < out@.len() && done[k] ==> #[trigger] entry_mirrors(out@, n, m, k),
            forall|k: int| 0 <= k < out@.len() && !done[k] ==> #[trigger] out@[k] == (0usize, 0usize),
            forall|k: int, b: bool| 0 <= k < out@.len() ==> #[trigger] slot(out@, k, b) < out@.len(),
            refs_unique(out@),
            forall|k: int|
                0 <= k < out@.len() && !#[trigger] done[k] ==> exists|j: int|
                    0 <= j < stack@.len() && stack@[j].1 == k,
            forall|i: int, j: int|
                0 <= i < j < stack@.len() ==> (#[trigger] stack@[i]).1 < (#[trigger] stack@[j]).1,
            out@.len() - stack@.len() + weight(n, olds) == node_count(n),
        decreases weight(n, olds),
    {
        let ghost out0 = out@;
        let ghost olds0 = olds;
        let ghost stack0 = stack@;
        let ghost m0 = m;
        let ghost done0 = done;
        let (o, k) = stack.pop().unwrap();
        proof {
            olds = olds.drop_last();
            assert(olds0.last() == o as int);
        }
        let node = nodes[o];
        let mut right: usize = 0;
        let mut left: usize = 0;
        if let Some(c) = node.right {
            assert(child_of(n[o as int], true) == Some(c));
            right = out.len();
            out.push((0, 0));
            stack.push((c, right));
            proof {
                lemma_weight_push(n, olds, c as int);
                olds = olds.push(c as int);
                m = m.push(c as int);
                done = done.push(false);
            }
        }
        if let Some(c) = node.left {
            assert(child_of(n[o as int], false) == Some(c));
            left = out.len();
            out.push((0, 0));
            stack.push((c, left));
            proof {
                lemma_weight_push(n, olds, c as int);
                olds = olds.push(c as int);
                m = m.push(c as int);
                done = done.push(false);
            }
        }
        let ghost out1 = out@;
        proof {
            assert forall|kk: int, b: bool| 0 <= kk < out1.len() implies #[trigger] slot(out1, kk, b) < out0.len() || out1[kk] == (0usize, 0usize) by {
                if kk < out0.len() {
                    assert(out1[kk] == out0[kk]);
                    assert(slot(out0, kk, b) < out0.len());
                }
            }
        }
        out.set(k, (left, right));
        proof {
            let f = out@;
            assert(left == 0 || (out0.len() <= left < f.len()));
            assert(right == 0 || (out0.len() <= right < f.len()));
            assert(left == 0 || left != right);
            assert forall|kk: int, b: bool| 0 <= kk < f.len() implies #[trigger] slot(f, kk, b) < f.len() by {
                if kk != k {
                    assert(f[kk] == out1[kk]);
                    assert(slot(out1, kk, b) < out0.len() || out1[kk] == (0usize, 0usize));
                }
            }
            assert forall|i: int, b: bool, j: int, c: bool|
                0 <= i < f.len() && 0 <= j < f.len() && (i != j || b != c) && #[trigger] slot(f, i, b) != 0
                    implies slot(f, i, b) != #[trigger] slot(f, j, c) by {
                if i != k {
                    assert(f[i] == out1[i]);
                    if i >= out0.len() {
                        assert(out1[i] == (0usize, 0usize));
                    }
                    assert(slot(out1, i, b) < out0.len());
                }
                if j != k {
                    assert(f[j] == out1[j]);
                    if j < out0.len() {
                        assert(out1[j] == out0[j]);
                        assert(slot(out0, j, c) < out0.len());
                    } else {
                        assert(out1[j] == (0usize, 0usize));
                    }
                }
                if i != k && j != k && i < out0.len() && j < out0.len() {
                    assert(out0[i] == f[i] && out0[j] == f[j]);
                    assert(slot(out0, i, b) == slot(f, i, b));
                    assert(slot(out0, j, c) == slot(f, j, c));
                }
            }
            assert forall|j: int| 0 <= j < stack@.len() && j < stack0.len() - 1 implies stack@[j].1 < k by {
                assert(stack@[j] == stack0[j]);
            }
            done = done.update(k as int, true);
            assert(entry_mirrors(out@, n, m, k as int));
            assert forall|kk: int| 0 <= kk < out@.len() && done[kk] implies #[trigger] entry_mirrors(
                out@,
                n,
                m,
                kk,
            ) by {
                if kk != k {
                    assert(done0[kk]);
                    assert(entry_mirrors(out0, n, m0, kk));
                    assert(out@[kk] == out0[kk]);
                }
            }
            assert forall|kk: int| 0 <= kk < out@.len() && !#[trigger] done[kk] implies exists|j: int|
                0 <= j < stack@.len() && stack@[j].1 == kk by {
                if kk < out0.len() {
                    assert(!done0[kk]);
                    let j = choose|j: int| 0 <= j < stack0.len() && stack0[j].1 == kk;
                    assert(j != stack0.len() - 1);
                    assert(stack@[j] == stack0[j]);
                } else if kk == right as int && node.right is Some {
                    assert(stack@[stack0.len() - 1].1 == kk);
                } else {
                    assert(stack@[stack@.len() - 1].1 == kk);
                }
            }
        }
    }
    proof {
        assert forall|k: int| 0 <= k < out@.len() implies #[trigger] entry_mirrors(out@, n, m, k) by {
            if !done[k] {
                let j = choose|j: int| 0 <= j < stack@.len() && stack@[j].1 == k;
            }
        }
        assert forall|p: Seq<bool>| paths(flat_nodes(out@)).contains(p) == paths(n).contains(p) by {
            lemma_mirror_paths(out@, n, m, p);
        }
        assert(paths(flat_nodes(out@)) =~= paths(n));
        assert forall|p: Seq<bool>| leaf_paths(flat_nodes(out@)).contains(p) == leaf_paths(n).contains(p) by {
            lemma_mirror_paths(out@, n, m, p);
            match node_at(flat_nodes(out@), p) {
                Some(k) => {
                    assert(entry_mirrors(out@, n, m, k));
                },
                None => {},
            }
        }
        assert(leaf_paths(flat_nodes(out@)) =~= leaf_paths(n));
        assert forall|i: int| 0 <= i < out@.len() implies {
            &&& (#[trigger] out@[i]).0 == 0 || (i < out@[i].0 < out@.len())
            &&& out@[i].1 == 0 || (i < out@[i].1 < out@.len())
        } by {
            assert(entry_mirrors(out@, n, m, i));
        }
    }
    out
}


/// Some slot of the entries before `i` holds `v`.
pub open spec fn seen_before(f: Seq<(usize, usize)>, i: int, v: usize) -> bool {
    exists|j: int, c: bool| 0 <= j < i && #[trigger] slot(f, j, c) == v
}

/// No child index appears twice among the slots of the entries before `i`.
pub open spec fn refs_unique_before(f: Seq<(usize, usize)>, i: int) -> bool {
    forall|i1: int, b: bool, j1: int, c: bool|
        0 <= i1 < i && 0 <= j1 < i && (i1 != j1 || b != c) && #[trigger] slot(f, i1, b) != 0 ==> slot(
            f,
            i1,
            b,
        ) != #[trigger] slot(f, j1, c)
}

/// Checks that every child index of a well-formed flat array appears in at
/// most one slot.
fn check_refs_unique(flat: &Vec<(usize, usize)>) -> (r: bool)
    requires
        flat_wf(flat@),
    ensures
        r == refs_unique(flat@),
{
    let ghost f = flat@;
    let n = flat.len();
    let mut seen: Vec<bool> = Vec::new();
    while seen.len() < n
        invariant
            seen@.len() <= n,
            forall|v: int| 0 <= v < seen@.len() ==> !seen@[v],
        decreases n - seen@.len(),
    {
        seen.push(false);
    }
    let mut i: usize = 0;
    while i < n
        invariant
            f == flat@,
            flat_wf(f),
            n == f.len(),
            i <= n,
            seen@.len() == n,
            forall|v: int| 1 <= v < n ==> seen@[v] == seen_before(f, i as int, v as usize),
            refs_unique_before(f, i as int),
        decreases n - i,
    {
        let (l, r) = flat[i];
        assert(slot(f, i as int, false) == l && slot(f, i as int, true) == r);
        let ghost seen0 = seen@;
        if l != 0 {
            if seen[l] {
                proof {
                    let (j, c) = choose|j: int, c: bool| 0 <= j < i && #[trigger] slot(f, j, c) == l;
                    assert(slot(f, j, c) != 0 && slot(f, j, c) == slot(f, i as int, false));
                }
                return false;
            }
            seen.set(l, true);
        }
        if r != 0 {
            if seen[r] {
                proof {
                    if r != l {
                        let (j, c) = choose|j: int, c: bool| 0 <= j < i && #[trigger] slot(f, j, c) == r;
                        assert(slot(f, j, c) != 0 && slot(f, j, c) == slot(f, i as int, true));
                    } else {
                        assert(slot(f, i as int, false) == slot(f, i as int, true));
                    }
                }
                return false;
            }
            seen.set(r, true);
        }
        proof {
            let i1 = (i + 1) as int;
            assert forall|v: int| 1 <= v < n implies seen@[v] == seen_before(f, i1, v as usize) by {
                if seen_before(f, i as int, v as usize) {
                    let (j, c) = choose|j: int, c: bool| 0 <= j < i && #[trigger] slot(f, j, c) == v as usize;
                    assert(0 <= j < i1 && slot(f, j, c) == v as usize);
                }
                if v == l {
                    assert(slot(f, i as int, false) == v as usize);
                }
                if v == r {
                    assert(slot(f, i as int, true) == v as usize);
                }
                if seen_before(f, i1, v as usize) {
                    let (j, c) = choose|j: int, c: bool| 0 <= j < i1 && #[trigger] slot(f, j, c) == v as usize;
                    if j < i {
                        assert(seen_before(f, i as int, v as usize));
                    }
                }
            }
            assert forall|a: int, b: bool, j1: int, c: bool|
                0 <= a < i1 && 0 <= j1 < i1 && (a != j1 || b != c) && #[trigger] slot(f, a, b) != 0 implies slot(
                f,
                a,
                b,
            ) != #[trigger] slot(f, j1, c) by {
                if a == i && j1 < i {
                    assert(slot(f, a, b) < n);
                    assert(!seen0[slot(f, a, b) as int]);
                    if slot(f, a, b) == slot(f, j1, c) {
                        assert(seen_before(f, i as int, slot(f, a, b)));
                    }
                }
                if j1 == i && a < i {
                    assert(slot(f, j1, c) < n);
                    if slot(f, j1, c) != 0 {
                        assert(!seen0[slot(f, j1, c) as int]);
                        if slot(f, a, b) == slot(f, j1, c) {
                            assert(seen_before(f, i as int, slot(f, j1, c)));
                        }
                    }
                }
            }
        }
        i = i + 1;
    }
    assert forall|a: int, b: bool, j1: int, c: bool|
        0 <= a < n && 0 <= j1 < n && (a != j1 || b != c) && #[trigger] slot(f, a, b) != 0 implies slot(
        f,
        a,
        b,
    ) != #[trigger] slot(f, j1, c) by {
    }
    true
}

/// Rebuilds the trie that a flat array encodes. An array with a child index
/// that does not point forward inside the array, or that appears in two
/// slots, is rejected with `None`.
pub fn unflatten(flat: &Vec<(usize, usize)>) -> (r: Option<Trie>)
    ensures
        r is Some <==> flat_wf(flat@) && refs_unique(flat@),
        r matches Some(t) ==> t.nodes@ == flat_nodes(flat@) && arena_wf(t.nodes@),
{
    let len = flat.len();
    if len == 0 {
        return None;
    }
    let mut nodes: Vec<TrieNode> = Vec::new();
    let mut i: usize = 0;
    while i < len
        invariant
            len == flat@.len(),
            i <= len,
            nodes@ == flat_nodes(flat@).subrange(0, i as int),
            forall|j: int|
                0 <= j < i ==> {
                    &&& (#[trigger] flat@[j]).0 == 0 || (j < flat@[j].0 < flat@.len())
                    &&& flat@[j].1 == 0 || (j < flat@[j].1 < flat@.len())
                },
        decreases len - i,
    {
        let (l, r) = flat[i];
        if (l != 0 && (l <= i || l >= len)) || (r != 0 && (r <= i || r >= len)) {
            assert(!flat_wf(flat@)) by {
                assert(flat@[i as int] == (l, r));
            }
            return None;
        }
        let left = if l == 0 {
            None
        } else {
            Some(l)
        };
        let right = if r == 0 {
            None
        } else {
            Some(r)
        };
        nodes.push(TrieNode { left, right });
        i = i + 1;
        assert(nodes@ =~= flat_nodes(flat@).subrange(0, i as int));
    }
    assert(nodes@ =~= flat_nodes(flat@));
    if !check_refs_unique(flat) {
        return None;
    }
    proof {
        lemma_flat_wf_arena(flat@);
    }
    Some(Trie { nodes })
}

/// Every path that reaches a node starts with a path that reaches a node.
pub proof fn lemma_paths_prefix_closed(nodes: Seq<TrieNode>, p: Seq<bool>, k: int)
    requires
        0 <= k <= p.len(),
        node_at(nodes, p) is Some,
    ensures
        node_at(nodes, p.subrange(0, k)) is Some,
    decreases p.len() - k,
{
    if k < p.len() {
        let q = p.subrange(0, k + 1);
        if k + 1 < p.len() {
            lemma_paths_prefix_closed(nodes, p, k + 1);
        } else {
            assert(q =~= p);
        }
        assert(q.drop_last() =~= p.subrange(0, k));
    } else {
        assert(p.subrange(0, k) =~= p);
    }
}

/// Below a terminal node no path continues.
pub proof fn lemma_leaf_ends(nodes: Seq<TrieNode>, p: Seq<bool>, q: Seq<bool>)
    requires
        arena_wf(nodes),
        leaf_paths(nodes).contains(p),
        node_at(nodes, q) is Some,
        p.len() <= q.len(),
        q.subrange(0, p.len() as int) == p,
    ensures
        q == p,
{
    if q.len() > p.len() {
        lemma_paths_prefix_closed(nodes, q, (p.len() + 1) as int);
        let r = q.subrange(0, (p.len() + 1) as int);
        assert(r.drop_last() =~= p);
        let i = node_at(nodes, p)->Some_0;
        let _ = child_of(nodes[i], r.last());
    } else {
        assert(q =~= p);
    }
}

/// Distinct paths reach distinct nodes: the arena holds a tree.
pub open spec fn injective(nodes: Seq<TrieNode>) -> bool {
    forall|p: Seq<bool>, q: Seq<bool>|
        #[trigger] node_at(nodes, p) == #[trigger] node_at(nodes, q) && node_at(nodes, p) is Some ==> p == q
}

/// A path ends at a terminal node exactly when it reaches a node and
/// neither one-bit extension does.
pub proof fn lemma_leaf_by_paths(nodes: Seq<TrieNode>, q: Seq<bool>)
    requires
        arena_wf(nodes),
    ensures
        leaf_paths(nodes).contains(q) == (paths(nodes).contains(q) && !paths(nodes).contains(q.push(false))
            && !paths(nodes).contains(q.push(true))),
{
    lemma_node_at_push(nodes, q, false);
    lemma_node_at_push(nodes, q, true);
    lemma_node_at_in_arena(nodes, q);
}

/// In a trie of a lone root only the empty path reaches a node.
pub proof fn lemma_lone_root(nodes: Seq<TrieNode>, q: Seq<bool>)
    requires
        nodes == seq![TrieNode { left: None, right: None }],
    ensures
        node_at(nodes, q) == (if q.len() == 0 { Some(0int) } else { None }),
    decreases q.len(),
{
    if q.len() > 0 {
        lemma_lone_root(nodes, q.drop_last());
    }
}

/// Hanging a fresh terminal node under bit `b` of the node at `pc` adds
/// exactly the path `pc + [b]`.
pub proof fn lemma_add_child(
    n0: Seq<TrieNode>,
    n1: Seq<TrieNode>,
    pc: Seq<bool>,
    cur: int,
    b: bool,
    q: Seq<bool>,
)
    requires
        arena_wf(n0),
        injective(n0),
        node_at(n0, pc) == Some(cur),
        child_of(n0[cur], b) is None,
        n1.len() == n0.len() + 1,
        n0.len() <= usize::MAX,
        is_leaf(n1[n0.len() as int]),
        forall|x: int| 0 <= x < n0.len() && x != cur ==> n1[x] == n0[x],
        child_of(n1[cur], b) == Some(n0.len() as usize),
        child_of(n1[cur], !b) == child_of(n0[cur], !b),
    ensures
        node_at(n1, q) == (if q == pc.push(b) { Some(n0.len() as int) } else { node_at(n0, q) }),
    decreases q.len(),
{
    lemma_node_at_in_arena(n0, pc);
    assert((n0.len() as usize) as int == n0.len());
    if q.len() == 0 {
        assert(q.len() != pc.push(b).len());
    } else {
        let r = q.drop_last();
        let c = q.last();
        lemma_add_child(n0, n1, pc, cur, b, r);
        assert(q =~= r.push(c));
        lemma_node_at_push(n1, r, c);
        lemma_node_at_push(n0, r, c);
        lemma_node_at_in_arena(n0, r);
        lemma_node_at_push(n0, pc, b);
        let goal = if q == pc.push(b) { Some(n0.len() as int) } else { node_at(n0, q) };
        if q == pc.push(b) {
            assert(r =~= pc.push(b).drop_last());
            assert(r =~= pc);
            assert(c == b);
            assert(r.len() != pc.push(b).len());
            assert(node_at(n1, r) == Some(cur));
            assert(0 <= cur < n1.len());
            assert(child_of(n1[cur], b) == Some(n0.len() as usize));
            assert(node_at(n1, q) == goal);
        } else if r == pc.push(b) {
            let _ = child_of(n1[n0.len() as int], c);
            assert(node_at(n1, r) == Some(n0.len() as int));
            assert(node_at(n0, r) is None);
            assert(node_at(n1, q) == goal);
        } else {
            match node_at(n0, r) {
                Some(i) => {
                    if i == cur && c == b {
                        assert(r == pc);
                        assert(false);
                    } else if i == cur {
                        assert(c == !b);
                        assert(node_at(n1, q) == goal);
                    } else {
                        assert(n1[i] == n0[i]);
                        assert(node_at(n1, q) == goal);
                    }
                },
                None => {
                    assert(node_at(n1, q) == goal);
                },
            }
        }
    }
}

impl Trie {
    /// A trie whose root is its only node.
    pub fn new() -> (r: Trie)
        ensures
            r.nodes@ == seq![TrieNode { left: None, right: None }],
            arena_wf(r.nodes@),
    {
        let mut nodes: Vec<TrieNode> = Vec::new();
        nodes.push(TrieNode { left: None, right: None });
        assert(nodes@ =~= seq![TrieNode { left: None, right: None }]);
        Trie { nodes }
    }

    /// The bit paths of all terminal nodes, found by a depth-first walk on
    /// an explicit stack.
    pub fn leaf_prefixes(&self) -> (r: Vec<Vec<bool>>)
        requires
            arena_wf(self.nodes@),
        ensures
            forall|i: int| 0 <= i < r@.len() ==> leaf_paths(self.nodes@).contains(#[trigger] r@[i]@),
            forall|p: Seq<bool>|
                #[trigger] leaf_paths(self.nodes@).contains(p) ==> exists|i: int|
                    0 <= i < r@.len() && r@[i]@ == p,
    {
        let nodes = &self.nodes;
        let ghost n = nodes@;
        let mut out: Vec<Vec<bool>> = Vec::new();
        let mut stack: Vec<(usize, Vec<bool>)> = Vec::new();
        stack.push((0, Vec::new()));
        let ghost mut olds: Seq<int> = seq![0int];
        proof {
            lemma_weight_push(n, Seq::empty(), 0);
            assert(seq![0int] =~= Seq::<int>::empty().push(0));
            assert(stack@[0].1@ =~= Seq::<bool>::empty());
        }
        while stack.len() > 0
            invariant
                arena_wf(n),
                n == nodes@,
                olds.len() == stack@.len(),
                forall|j: int| 0 <= j < stack@.len() ==> #[trigger] olds[j] == stack@[j].0 as int,
                forall|j: int|
                    0 <= j < stack@.len() ==> node_at(n, (#[trigger] stack@[j]).1@) == Some(
                        stack@[j].0 as int,
                    ),
                forall|i: int| 0 <= i < out@.len() ==> leaf_paths(n).contains(#[trigger] out@[i]@),
                forall|p: Seq<bool>|
                    #[trigger] leaf_paths(n).contains(p) ==> (exists|i: int|
                        0 <= i < out@.len() && out@[i]@ == p) || (exists|j: int|
                        0 <= j < stack@.len() && stack@[j].1@.len() <= p.len() && p.subrange(
                            0,
                            stack@[j].1@.len() as int,
                        ) == stack@[j].1@),
            decreases weight(n, olds),
        {
            let ghost stack0 = stack@;
            let ghost out0 = out@;
            let ghost olds0 = olds;
            let (o, path) = stack.pop().unwrap();
            proof {
                olds = olds.drop_last();
                assert(olds0.last() == o as int);
                assert(stack0.last() == (o, path));
                lemma_node_at_in_arena(n, path@);
            }
            let node = nodes[o];
            if node.left.is_none() && node.right.is_none() {
                let ghost pv = path@;
                out.push(path);
                proof {
                    assert(leaf_paths(n).contains(pv));
                    assert forall|p: Seq<bool>| #[trigger] leaf_paths(n).contains(p) implies (exists|
                        i: int,
                    | 0 <= i < out@.len() && out@[i]@ == p) || (exists|j: int|
                        0 <= j < stack@.len() && stack@[j].1@.len() <= p.len() && p.subrange(
                            0,
                            stack@[j].1@.len() as int,
                        ) == stack@[j].1@) by {
                        if exists|i: int| 0 <= i < out0.len() && out0[i]@ == p {
                            let i = choose|i: int| 0 <= i < out0.len() && out0[i]@ == p;
                            assert(out@[i] == out0[i]);
                        } else {
                            let j = choose|j: int|
                                0 <= j < stack0.len() && stack0[j].1@.len() <= p.len() && p.subrange(
                                    0,
                                    stack0[j].1@.len() as int,
                                ) == stack0[j].1@;
                            if j == stack0.len() - 1 {
                                lemma_leaf_ends(n, pv, p);
                                assert(out@[out@.len() - 1]@ == p);
                            } else {
                                assert(stack@[j] == stack0[j]);
                            }
                        }
                    }
                }
            } else {
                let ghost mid = stack@;
                if let Some(c) = node.right {
                    let mut p1 = path.clone();
                    p1.push(true);
                    proof {
                        assert(p1@ =~= path@.push(true));
                        lemma_node_at_push(n, path@, true);
                        lemma_weight_push(n, olds, c as int);
                        olds = olds.push(c as int);
                    }
                    stack.push((c, p1));
                }
                if let Some(c) = node.left {
                    let mut p0 = path.clone();
                    p0.push(false);
                    proof {
                        assert(p0@ =~= path@.push(false));
                        lemma_node_at_push(n, path@, false);
                        lemma_weight_push(n, olds, c as int);
                        olds = olds.push(c as int);
                    }
                    stack.push((c, p0));
                }
                proof {
                    assert forall|j: int| 0 <= j < mid.len() implies stack@[j] == mid[j] by {}
                    assert forall|p: Seq<bool>| #[trigger] leaf_paths(n).contains(p) implies (exists|
                        i: int,
                    | 0 <= i < out@.len() && out@[i]@ == p) || (exists|j: int|
                        0 <= j < stack@.len() && stack@[j].1@.len() <= p.len() && p.subrange(
                            0,
                            stack@[j].1@.len() as int,
                        ) == stack@[j].1@) by {
                        if exists|i: int| 0 <= i < out0.len() && out0[i]@ == p {
                        } else {
                            let j = choose|j: int|
                                0 <= j < stack0.len() && stack0[j].1@.len() <= p.len() && p.subrange(
                                    0,
                                    stack0[j].1@.len() as int,
                                ) == stack0[j].1@;
                            if j == stack0.len() - 1 {
                                let pv = path@;
                                if p.len() == pv.len() {
                                    assert(p =~= pv);
                                } else {
                                    let b = p[pv.len() as int];
                                    lemma_paths_prefix_closed(n, p, (pv.len() + 1) as int);
                                    let q = p.subrange(0, (pv.len() + 1) as int);
                                    assert(q =~= pv.push(b));
                                    lemma_node_at_push(n, pv, b);
                                    assert(q.subrange(0, pv.len() as int) =~= pv);
                                    let jj: int = if b || node.right is None {
                                        mid.len() as int
                                    } else {
                                        (mid.len() + 1) as int
                                    };
                                    assert(stack@[jj].1@ == q);
                                    assert(p.subrange(0, q.len() as int) =~= q);
                                }
                            } else {
                                assert(stack@[j] == stack0[j]);
                            }
                        }
                    }
                }
            }
        }
        out
    }
}

} // verus!
