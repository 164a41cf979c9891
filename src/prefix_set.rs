//! Prefix sets of one address family: canonical form, and conversion to
//! and from the trie.

use vstd::prelude::*;
use crate::trie::{
    Trie, TrieNode, arena_wf, child_of, injective, lemma_add_child, lemma_leaf_by_paths, lemma_lone_root,
    lemma_node_at_in_arena, lemma_node_at_push, leaf_paths, node_at, paths, flat_nodes,
};

verus! {

/// `p` is a prefix of `a`: `a` lies in the range that `p` names.
pub open spec fn starts_with(a: Seq<bool>, p: Seq<bool>) -> bool {
    p.len() <= a.len() && a.subrange(0, p.len() as int) == p
}

/// Some member of `s` is a prefix of `a`.
pub open spec fn covers(s: Seq<Seq<bool>>, a: Seq<bool>) -> bool {
    exists|i: int| 0 <= i < s.len() && starts_with(a, #[trigger] s[i])
}

/// Two prefixes of one length that differ only in their last bit.
pub open spec fn siblings(p: Seq<bool>, q: Seq<bool>) -> bool {
    &&& p.len() == q.len()
    &&& p.len() > 0
    &&& p.drop_last() == q.drop_last()
    &&& p.last() != q.last()
}

/// No member is a prefix of another member (so no duplicates either).
pub open spec fn nested_free(s: Seq<Seq<bool>>) -> bool {
    forall|i: int, j: int|
        0 <= i < s.len() && 0 <= j < s.len() && i != j ==> !starts_with(s[j], s[i])
}

/// No two members are siblings.
pub open spec fn sibling_free(s: Seq<Seq<bool>>) -> bool {
    forall|i: int, j: int|
        0 <= i < s.len() && 0 <= j < s.len() ==> !#[trigger] siblings(s[i], s[j])
}

/// The canonical form that simplifying reaches.
pub open spec fn canonical(s: Seq<Seq<bool>>) -> bool {
    nested_free(s) && sibling_free(s)
}

/// Every member is at most `w` bits long.
pub open spec fn bounded(s: Seq<Seq<bool>>, w: nat) -> bool {
    forall|i: int| 0 <= i < s.len() ==> (#[trigger] s[i]).len() <= w
}

/// `s` and `t` cover the same `w`-bit addresses.
pub open spec fn same_cover(s: Seq<Seq<bool>>, t: Seq<Seq<bool>>, w: nat) -> bool {
    forall|a: Seq<bool>| a.len() == w ==> covers(s, a) == covers(t, a)
}

pub open spec fn views(v: Seq<Vec<bool>>) -> Seq<Seq<bool>> {
    Seq::new(v.len(), |i: int| v[i]@)
}

pub proof fn lemma_starts_with_trans(a: Seq<bool>, q: Seq<bool>, p: Seq<bool>)
    requires
        starts_with(a, q),
        starts_with(q, p),
    ensures
        starts_with(a, p),
{
    assert(a.subrange(0, p.len() as int) =~= q.subrange(0, p.len() as int));
}

pub proof fn lemma_starts_with_refl(a: Seq<bool>)
    ensures
        starts_with(a, a),
{
    assert(a.subrange(0, a.len() as int) =~= a);
}

/// Below a prefix of length under `a`'s, `a` lies in exactly one of its
/// two halves.
pub proof fn lemma_halves(a: Seq<bool>, p: Seq<bool>, q: Seq<bool>)
    requires
        siblings(p, q),
        p.len() <= a.len(),
    ensures
        starts_with(a, p.drop_last()) == (starts_with(a, p) || starts_with(a, q)),
{
    let n = p.len() as int;
    let parent = p.drop_last();
    if starts_with(a, p) {
        assert(a.subrange(0, n - 1) =~= a.subrange(0, n).drop_last());
    }
    if starts_with(a, q) {
        assert(a.subrange(0, n - 1) =~= a.subrange(0, n).drop_last());
    }
    if starts_with(a, parent) {
        assert(a.subrange(0, n - 1) == parent);
        if a[n - 1] == p.last() {
            assert(a.subrange(0, n) =~= p);
        } else {
            assert(a.subrange(0, n) =~= q);
        }
    }
}

/// Two prefixes of one address are prefixes of each other.
pub proof fn lemma_common_prefix(a: Seq<bool>, u: Seq<bool>, v: Seq<bool>)
    requires
        starts_with(a, u),
        starts_with(a, v),
        u.len() <= v.len(),
    ensures
        starts_with(v, u),
{
    assert(v.subrange(0, u.len() as int) =~= a.subrange(0, u.len() as int));
}

/// Every `w`-bit address below `s` is covered by a member of `r` that lies
/// below `s` itself.
pub open spec fn filled_below(r: Seq<Seq<bool>>, s: Seq<bool>, w: nat) -> bool {
    forall|a: Seq<bool>|
        a.len() == w && #[trigger] starts_with(a, s) ==> exists|i: int|
            0 <= i < r.len() && starts_with(a, #[trigger] r[i]) && starts_with(r[i], s)
}

/// In a canonical set, a prefix whose whole range is filled by members
/// below it is itself a member.
proof fn lemma_filled_is_member(r: Seq<Seq<bool>>, s: Seq<bool>, w: nat)
    requires
        canonical(r),
        bounded(r, w),
        s.len() <= w,
        filled_below(r, s, w),
    ensures
        r.contains(s),
    decreases w - s.len(),
{
    if s.len() == w {
        lemma_starts_with_refl(s);
        let i = choose|i: int| 0 <= i < r.len() && starts_with(s, #[trigger] r[i]) && starts_with(r[i], s);
        assert(r[i].len() == s.len());
        assert(r[i] =~= s.subrange(0, r[i].len() as int));
        assert(s.subrange(0, s.len() as int) =~= s);
    } else if !r.contains(s) {
        assert forall|b: bool| filled_below(r, #[trigger] s.push(b), w) by {
            let sb = s.push(b);
            assert(sb.subrange(0, s.len() as int) =~= s);
            assert forall|a: Seq<bool>| a.len() == w && #[trigger] starts_with(a, sb) implies exists|i: int|
                0 <= i < r.len() && starts_with(a, #[trigger] r[i]) && starts_with(r[i], sb) by {
                lemma_starts_with_trans(a, sb, s);
                let i = choose|i: int| 0 <= i < r.len() && starts_with(a, #[trigger] r[i]) && starts_with(r[i], s);
                if r[i].len() == s.len() {
                    assert(r[i] =~= s.subrange(0, s.len() as int));
                    assert(s.subrange(0, s.len() as int) =~= s);
                    assert(r.contains(s));
                }
                assert(r[i].len() > s.len());
                assert(r[i][s.len() as int] == a.subrange(0, r[i].len() as int)[s.len() as int]);
                assert(a[s.len() as int] == a.subrange(0, sb.len() as int)[s.len() as int]);
                assert(r[i].subrange(0, sb.len() as int) =~= sb) by {
                    assert forall|j: int| 0 <= j < sb.len() implies r[i][j] == sb[j] by {
                        if j < s.len() {
                            assert(r[i][j] == r[i].subrange(0, s.len() as int)[j]);
                        } else {
                            assert(sb[j] == a.subrange(0, sb.len() as int)[j]);
                        }
                    }
                }
            }
        }
        lemma_filled_is_member(r, s.push(false), w);
        lemma_filled_is_member(r, s.push(true), w);
        let i = choose|i: int| 0 <= i < r.len() && r[i] == s.push(false);
        let j = choose|j: int| 0 <= j < r.len() && r[j] == s.push(true);
        assert(s.push(false).drop_last() =~= s.push(true).drop_last());
        assert(siblings(r[i], r[j]));
    }
}

/// A member of a canonical set `x` belongs to every canonical set `y` that
/// covers the same addresses.
proof fn lemma_member_shared(x: Seq<Seq<bool>>, y: Seq<Seq<bool>>, w: nat, p: Seq<bool>)
    requires
        canonical(x),
        canonical(y),
        bounded(x, w),
        bounded(y, w),
        same_cover(x, y, w),
        x.contains(p),
    ensures
        y.contains(p),
{
    let ip = choose|ip: int| 0 <= ip < x.len() && x[ip] == p;
    assert forall|a: Seq<bool>| a.len() == w && #[trigger] starts_with(a, p) implies exists|i: int|
        0 <= i < y.len() && starts_with(a, #[trigger] y[i]) && starts_with(y[i], p) by {
        assert(covers(x, a));
        assert(covers(y, a));
        let j = choose|j: int| 0 <= j < y.len() && starts_with(a, #[trigger] y[j]);
        let q = y[j];
        if q.len() >= p.len() {
            lemma_common_prefix(a, p, q);
        } else {
            lemma_common_prefix(a, q, p);
            assert forall|a2: Seq<bool>| a2.len() == w && #[trigger] starts_with(a2, q) implies exists|i: int|
                0 <= i < x.len() && starts_with(a2, #[trigger] x[i]) && starts_with(x[i], q) by {
                assert(covers(y, a2));
                assert(covers(x, a2));
                let k = choose|k: int| 0 <= k < x.len() && starts_with(a2, #[trigger] x[k]);
                if x[k].len() <= q.len() {
                    lemma_common_prefix(a2, x[k], q);
                    lemma_starts_with_trans(p, q, x[k]);
                    assert(!starts_with(x[ip], x[k]));
                } else {
                    lemma_common_prefix(a2, q, x[k]);
                }
            }
            lemma_filled_is_member(x, q, w);
            let iq = choose|iq: int| 0 <= iq < x.len() && x[iq] == q;
            assert(!starts_with(x[ip], x[iq]));
        }
    }
    lemma_filled_is_member(y, p, w);
}

/// Canonical form is unique: two canonical sets that cover the same
/// addresses hold the same prefixes. So what `simplify` yields depends only
/// on the addresses covered, not on the order of insertion or on duplicates.
pub proof fn lemma_canonical_unique(x: Seq<Seq<bool>>, y: Seq<Seq<bool>>, w: nat)
    requires
        canonical(x),
        canonical(y),
        bounded(x, w),
        bounded(y, w),
        same_cover(x, y, w),
    ensures
        x.to_set() == y.to_set(),
{
    assert forall|p: Seq<bool>| x.to_set().contains(p) == y.to_set().contains(p) by {
        if x.contains(p) {
            lemma_member_shared(x, y, w, p);
        }
        if y.contains(p) {
            lemma_member_shared(y, x, w, p);
        }
    }
    assert(x.to_set() =~= y.to_set());
}

/// Round trip: build the trie of a canonical set, flatten it, rebuild a
/// trie from the flat array, read its terminal paths back as a set and
/// simplify that set; the result holds exactly the prefixes of the start.
pub proof fn lemma_round_trip(
    s: Seq<Seq<bool>>,
    w: nat,
    built: Seq<TrieNode>,
    flat: Seq<(usize, usize)>,
    rebuilt: Seq<TrieNode>,
    read: Seq<Seq<bool>>,
    result: Seq<Seq<bool>>,
)
    requires
        canonical(s),
        bounded(s, w),
        leaf_paths(built) == s.to_set(),
        leaf_paths(flat_nodes(flat)) == leaf_paths(built),
        rebuilt == flat_nodes(flat),
        read.to_set() == leaf_paths(rebuilt),
        canonical(result),
        bounded(result, w),
        same_cover(result, read, w),
    ensures
        result.to_set() == s.to_set(),
{
    lemma_cover_by_set(read, s, w);
    assert forall|a: Seq<bool>| a.len() == w implies covers(result, a) == covers(s, a) by {
    }
    lemma_canonical_unique(result, s, w);
}

/// Coverage depends only on which prefixes are held.
pub proof fn lemma_cover_by_set(x: Seq<Seq<bool>>, y: Seq<Seq<bool>>, w: nat)
    requires
        x.to_set() == y.to_set(),
    ensures
        same_cover(x, y, w),
{
    assert forall|a: Seq<bool>| a.len() == w implies covers(x, a) == covers(y, a) by {
        if covers(x, a) {
            let i = choose|i: int| 0 <= i < x.len() && starts_with(a, #[trigger] x[i]);
            assert(x.to_set().contains(x[i]));
            assert(y.contains(x[i]));
        }
        if covers(y, a) {
            let i = choose|i: int| 0 <= i < y.len() && starts_with(a, #[trigger] y[i]);
            assert(y.to_set().contains(y[i]));
            assert(x.contains(y[i]));
        }
    }
}

fn bits_starts_with(a: &Vec<bool>, p: &Vec<bool>) -> (r: bool)
    ensures
        r == starts_with(a@, p@),
{
    if p.len() > a.len() {
        return false;
    }
    let mut i: usize = 0;
    while i < p.len()
        invariant
            p@.len() <= a@.len(),
            i <= p@.len(),
            forall|j: int| 0 <= j < i ==> a@[j] == p@[j],
        decreases p@.len() - i,
    {
        if a[i] != p[i] {
            assert(a@.subrange(0, p@.len() as int)[i as int] != p@[i as int]);
            return false;
        }
        i = i + 1;
    }
    assert(a@.subrange(0, p@.len() as int) =~= p@);
    true
}

fn bits_siblings(p: &Vec<bool>, q: &Vec<bool>) -> (r: bool)
    ensures
        r == siblings(p@, q@),
{
    let n = p.len();
    if n != q.len() || n == 0 {
        return false;
    }
    if p[n - 1] == q[n - 1] {
        return false;
    }
    let mut i: usize = 0;
    while i < n - 1
        invariant
            n == p@.len(),
            n == q@.len(),
            n > 0,
            i <= n - 1,
            forall|j: int| 0 <= j < i ==> p@[j] == q@[j],
        decreases n - 1 - i,
    {
        if p[i] != q[i] {
            assert(p@.drop_last()[i as int] != q@.drop_last()[i as int]);
            return false;
        }
        i = i + 1;
    }
    assert(p@.drop_last() =~= q@.drop_last());
    true
}

/// Member `k` is redundant: another member is a shorter prefix of it, or an
/// equal one that comes first.
pub open spec fn shadowed(s: Seq<Seq<bool>>, k: int) -> bool {
    exists|j: int|
        0 <= j < s.len() && j != k && #[trigger] starts_with(s[k], s[j]) && (s[j].len() < s[k].len()
            || j < k)
}

proof fn lemma_unshadowed_root(s: Seq<Seq<bool>>, k: int)
    requires
        0 <= k < s.len(),
    ensures
        exists|j: int| 0 <= j < s.len() && !shadowed(s, j) && #[trigger] starts_with(s[k], s[j]),
    decreases s[k].len() * s.len() + k,
{
    if !shadowed(s, k) {
        lemma_starts_with_refl(s[k]);
    } else {
        let j = choose|j: int|
            0 <= j < s.len() && j != k && #[trigger] starts_with(s[k], s[j]) && (s[j].len()
                < s[k].len() || j < k);
        let n = s.len();
        let lj = s[j].len();
        let lk = s[k].len();
        assert(lj * n + j < lk * n + k) by (nonlinear_arith)
            requires
                0 <= j < n,
                0 <= k,
                lj <= lk,
                lj < lk || j < k,
        ;
        lemma_unshadowed_root(s, j);
        let j2 = choose|j2: int| 0 <= j2 < s.len() && !shadowed(s, j2) && #[trigger] starts_with(s[j], s[j2]);
        lemma_starts_with_trans(s[k], s[j], s[j2]);
    }
}

/// Drops every member that another member already covers, keeping the first
/// of equal members.
fn prune(items: &Vec<Vec<bool>>) -> (r: Vec<Vec<bool>>)
    ensures
        r@.len() <= items@.len(),
        forall|i: int| 0 <= i < r@.len() ==> views(items@).contains(#[trigger] views(r@)[i]),
        forall|k: int| 0 <= k < items@.len() ==> covers(views(r@), #[trigger] views(items@)[k]),
        nested_free(views(r@)),
        nested_free(views(items@)) ==> views(r@) == views(items@),
{
    let ghost s = views(items@);
    let n = items.len();
    let mut out: Vec<Vec<bool>> = Vec::new();
    let ghost mut idx: Seq<int> = Seq::empty();
    let mut k: usize = 0;
    while k < n
        invariant
            n == items@.len(),
            s == views(items@),
            k <= n,
            out@.len() == idx.len(),
            out@.len() <= k,
            forall|i: int| 0 <= i < idx.len() ==> 0 <= #[trigger] idx[i] < k && !shadowed(s, idx[i]) && out@[i]@ == s[idx[i]],
            forall|i: int, j: int| 0 <= i < j < idx.len() ==> #[trigger] idx[i] < #[trigger] idx[j],
            forall|kk: int| 0 <= kk < k && !shadowed(s, kk) ==> exists|i: int| 0 <= i < idx.len() && #[trigger] idx[i] == kk,
            nested_free(s) ==> views(out@) == s.subrange(0, k as int),
        decreases n - k,
    {
        let mut hit = false;
        let mut j: usize = 0;
        while j < n
            invariant
                n == items@.len(),
                s == views(items@),
                k < n,
                j <= n,
                hit == exists|jj: int| 0 <= jj < j && jj != k && #[trigger] starts_with(s[k as int], s[jj]) && (s[jj].len() < s[k as int].len() || jj < k),
            decreases n - j,
        {
            let ghost hit0 = hit;
            assert(s[j as int] == items@[j as int]@ && s[k as int] == items@[k as int]@);
            if j != k && bits_starts_with(&items[k], &items[j]) && (items[j].len() < items[k].len() || j < k) {
                hit = true;
            }
            j = j + 1;
            proof {
                if !hit0 && !hit {
                    assert forall|jj: int| 0 <= jj < j implies !(jj != k && #[trigger] starts_with(s[k as int], s[jj]) && (s[jj].len() < s[k as int].len() || jj < k)) by {
                    }
                }
            }
        }
        let ghost out0 = out@;
        let ghost idx0 = idx;
        assert(hit == shadowed(s, k as int));
        if !hit {
            let c = items[k].clone();
            assert(c@ == s[k as int]);
            out.push(c);
            proof {
                idx = idx.push(k as int);
            }
        }
        proof {
            assert forall|kk: int| 0 <= kk <= k && !shadowed(s, kk) implies exists|i: int| 0 <= i < idx.len() && #[trigger] idx[i] == kk by {
                if kk < k {
                    let i = choose|i: int| 0 <= i < idx0.len() && #[trigger] idx0[i] == kk;
                    assert(idx[i] == idx0[i]);
                } else {
                    assert(idx[idx.len() - 1] == kk);
                }
            }
            if nested_free(s) {
                assert(!shadowed(s, k as int));
                assert(views(out@) =~= s.subrange(0, k + 1));
            }
        }
        k = k + 1;
    }
    proof {
        assert(s.subrange(0, n as int) =~= s);
        assert forall|i: int| 0 <= i < out@.len() implies s.contains(#[trigger] views(out@)[i]) by {
            assert(s[idx[i]] == views(out@)[i]);
        }
        assert forall|kk: int| 0 <= kk < items@.len() implies covers(views(out@), #[trigger] s[kk]) by {
            lemma_unshadowed_root(s, kk);
            let j2 = choose|j2: int| 0 <= j2 < s.len() && !shadowed(s, j2) && #[trigger] starts_with(s[kk], s[j2]);
            let i = choose|i: int| 0 <= i < idx.len() && #[trigger] idx[i] == j2;
            assert(views(out@)[i] == s[j2]);
        }
        let v = views(out@);
        assert forall|i: int, j: int| 0 <= i < v.len() && 0 <= j < v.len() && i != j implies !starts_with(v[j], v[i]) by {
            if starts_with(v[j], v[i]) {
                let a = idx[i];
                let b = idx[j];
                if i < j {
                    assert(idx[i] < idx[j]);
                } else {
                    assert(idx[j] < idx[i]);
                }
                if s[a].len() < s[b].len() {
                    assert(shadowed(s, b));
                } else {
                    assert(s[b].subrange(0, s[a].len() as int) =~= s[b]);
                    if a < b {
                        assert(shadowed(s, b));
                    } else {
                        lemma_starts_with_refl(s[a]);
                        assert(starts_with(s[a], s[b]));
                        assert(shadowed(s, a));
                    }
                }
            }
        }
    }
    out
}


/// Every `w`-bit address below `p` is covered by `s`.
pub open spec fn within(s: Seq<Seq<bool>>, p: Seq<bool>, w: nat) -> bool {
    forall|a: Seq<bool>| a.len() == w && #[trigger] starts_with(a, p) ==> covers(s, a)
}

proof fn lemma_within_push(s: Seq<Seq<bool>>, x: Seq<bool>, p: Seq<bool>, w: nat)
    requires
        within(s, p, w),
    ensures
        within(s.push(x), p, w),
{
    assert forall|a: Seq<bool>| a.len() == w && #[trigger] starts_with(a, p) implies covers(s.push(x), a) by {
        let i = choose|i: int| 0 <= i < s.len() && starts_with(a, #[trigger] s[i]);
        assert(s.push(x)[i] == s[i]);
    }
}

/// One pass that merges every sibling pair it finds into the pair's parent.
/// It reports whether it merged anything; if not, the list had no siblings
/// and is handed back unchanged.
fn merge_siblings(items: &Vec<Vec<bool>>, Ghost(w): Ghost<nat>) -> (r: (Vec<Vec<bool>>, bool))
    requires
        bounded(views(items@), w),
    ensures
        bounded(views(r.0@), w),
        same_cover(views(r.0@), views(items@), w),
        r.1 ==> r.0@.len() < items@.len(),
        !r.1 ==> views(r.0@) == views(items@) && sibling_free(views(items@)),
        sibling_free(views(items@)) ==> !r.1,
{
    let ghost s = views(items@);
    let n = items.len();
    let mut consumed: Vec<bool> = Vec::new();
    while consumed.len() < n
        invariant
            consumed@.len() <= n,
            forall|v: int| 0 <= v < consumed@.len() ==> !consumed@[v],
        decreases n - consumed@.len(),
    {
        consumed.push(false);
    }
    let mut out: Vec<Vec<bool>> = Vec::new();
    let mut merged = false;
    let ghost mut saved = false;
    let mut i: usize = 0;
    while i < n
        invariant
            n == items@.len(),
            s == views(items@),
            bounded(s, w),
            i <= n,
            consumed@.len() == n,
            bounded(views(out@), w),
            forall|t: int| 0 <= t < out@.len() ==> within(s, #[trigger] views(out@)[t], w),
            forall|k: int| 0 <= k < n && (k < i || consumed@[k]) ==> within(views(out@), #[trigger] s[k], w),
            out@.len() + (if saved { 1int } else { 0 }) <= i,
            merged ==> saved || exists|j: int| i <= j < n && #[trigger] consumed@[j],
            merged ==> !sibling_free(s),
            !merged ==> views(out@) == s.subrange(0, i as int) && (forall|k: int| 0 <= k < n ==> !#[trigger] consumed@[k])
                && (forall|a: int, b: int| 0 <= a < i && a < b < n ==> !#[trigger] siblings(s[a], s[b])),
        decreases n - i,
    {
        let ghost out0 = views(out@);
        assert(s[i as int] == items@[i as int]@);
        if consumed[i] {
            proof {
                saved = true;
            }
        } else {
            let mut partner: usize = n;
            let mut j: usize = i + 1;
            while j < n
                invariant
                    n == items@.len(),
                    s == views(items@),
                    consumed@.len() == n,
                    i < j <= n,
                    partner == n || (i < partner < n && !consumed@[partner as int] && siblings(s[i as int], s[partner as int])),
                    partner == n ==> forall|b: int| i < b < j && !consumed@[b] ==> !#[trigger] siblings(s[i as int], s[b]),
                decreases n - j,
            {
                if partner == n && !consumed[j] {
                    assert(s[j as int] == items@[j as int]@);
                    if bits_siblings(&items[i], &items[j]) {
                        partner = j;
                    }
                }
                j = j + 1;
            }
            if partner < n {
                let mut parent = items[i].clone();
                parent.pop();
                assert(parent@ == s[i as int].drop_last());
                consumed.set(i, true);
                consumed.set(partner, true);
                out.push(parent);
                merged = true;
                proof {
                    let o = views(out@);
                    assert(o =~= out0.push(parent@));
                    let pi = s[i as int];
                    let pj = s[partner as int];
                    assert forall|a: Seq<bool>| a.len() == w && #[trigger] starts_with(a, parent@) implies covers(s, a) by {
                        lemma_halves(a, pi, pj);
                        if starts_with(a, pi) {
                            assert(starts_with(a, s[i as int]));
                        } else {
                            assert(starts_with(a, s[partner as int]));
                        }
                    }
                    assert forall|t: int| 0 <= t < o.len() implies within(s, #[trigger] o[t], w) by {
                        if t < out0.len() {
                            assert(o[t] == out0[t]);
                        }
                    }
                    assert forall|k: int| 0 <= k < n && (k < i + 1 || consumed@[k]) implies within(o, #[trigger] s[k], w) by {
                        if k == i || k == partner {
                            assert(s[k].subrange(0, parent@.len() as int) =~= parent@);
                            assert forall|a: Seq<bool>| a.len() == w && #[trigger] starts_with(a, s[k]) implies covers(o, a) by {
                                lemma_starts_with_trans(a, s[k], parent@);
                                assert(o[o.len() - 1] == parent@);
                            }
                        } else {
                            lemma_within_push(out0, parent@, s[k], w);
                        }
                    }
                    assert forall|t: int| 0 <= t < o.len() implies (#[trigger] o[t]).len() <= w by {
                        if t < out0.len() {
                            assert(o[t] == out0[t]);
                        }
                    }
                    assert(consumed@[partner as int]);
                    assert(siblings(s[i as int], s[partner as int]));
                }
            } else {
                let c = items[i].clone();
                assert(c@ == s[i as int]);
                out.push(c);
                proof {
                    let o = views(out@);
                    assert(o =~= out0.push(s[i as int]));
                    assert forall|t: int| 0 <= t < o.len() implies within(s, #[trigger] o[t], w) by {
                        if t < out0.len() {
                            assert(o[t] == out0[t]);
                        } else {
                            assert forall|a: Seq<bool>| a.len() == w && #[trigger] starts_with(a, o[t]) implies covers(s, a) by {
                                assert(starts_with(a, s[i as int]));
                            }
                        }
                    }
                    assert forall|k: int| 0 <= k < n && (k < i + 1 || consumed@[k]) implies within(o, #[trigger] s[k], w) by {
                        if k == i {
                            assert forall|a: Seq<bool>| a.len() == w && #[trigger] starts_with(a, s[k]) implies covers(o, a) by {
                                assert(starts_with(a, o[o.len() - 1]));
                            }
                        } else {
                            lemma_within_push(out0, s[i as int], s[k], w);
                        }
                    }
                    assert forall|t: int| 0 <= t < o.len() implies (#[trigger] o[t]).len() <= w by {
                        if t < out0.len() {
                            assert(o[t] == out0[t]);
                        }
                    }
                    if !merged {
                        assert(o =~= s.subrange(0, i + 1));
                        assert forall|a: int, b: int| 0 <= a < i + 1 && a < b < n implies !#[trigger] siblings(s[a], s[b]) by {
                        }
                    }
                    if merged && !saved {
                        let j = choose|j: int| i <= j < n && #[trigger] consumed@[j];
                        assert(j != i);
                    }
                }
            }
        }
        i = i + 1;
    }
    proof {
        let o = views(out@);
        assert forall|a: Seq<bool>| a.len() == w implies covers(o, a) == covers(s, a) by {
            if covers(o, a) {
                let t = choose|t: int| 0 <= t < o.len() && starts_with(a, #[trigger] o[t]);
                assert(within(s, o[t], w));
            }
            if covers(s, a) {
                let k = choose|k: int| 0 <= k < s.len() && starts_with(a, #[trigger] s[k]);
                assert(within(o, s[k], w));
            }
        }
        if !merged {
            assert(s.subrange(0, n as int) =~= s);
            assert forall|a: int, b: int| 0 <= a < n && 0 <= b < n implies !#[trigger] siblings(s[a], s[b]) by {
                if a > b {
                    assert(!siblings(s[b], s[a]));
                }
            }
        }
    }
    (out, merged)
}

/// Canonicalizes a list of prefixes: drops covered members and merges
/// siblings into their parent until neither applies.
fn canonicalize(items: Vec<Vec<bool>>, Ghost(w): Ghost<nat>) -> (r: Vec<Vec<bool>>)
    requires
        bounded(views(items@), w),
    ensures
        bounded(views(r@), w),
        canonical(views(r@)),
        same_cover(views(r@), views(items@), w),
        canonical(views(items@)) ==> views(r@) == views(items@),
{
    let ghost orig = views(items@);
    let mut cur = items;
    let mut settled = false;
    while !settled
        invariant
            bounded(views(cur@), w),
            same_cover(views(cur@), orig, w),
            settled ==> canonical(views(cur@)),
            canonical(orig) ==> views(cur@) == orig,
        decreases 2 * cur@.len() + (if settled { 0int } else { 1 }),
    {
        let kept = prune(&cur);
        proof {
            let s = views(cur@);
            let t = views(kept@);
            assert forall|q: int| 0 <= q < t.len() implies (#[trigger] t[q]).len() <= w by {
                assert(s.contains(t[q]));
            }
            assert forall|a: Seq<bool>| a.len() == w implies covers(t, a) == covers(s, a) by {
                if covers(t, a) {
                    let q = choose|q: int| 0 <= q < t.len() && starts_with(a, #[trigger] t[q]);
                    assert(s.contains(t[q]));
                    let k = choose|k: int| 0 <= k < s.len() && s[k] == t[q];
                    assert(starts_with(a, s[k]));
                }
                if covers(s, a) {
                    let k = choose|k: int| 0 <= k < s.len() && starts_with(a, #[trigger] s[k]);
                    assert(covers(t, s[k]));
                    let q = choose|q: int| 0 <= q < t.len() && starts_with(s[k], #[trigger] t[q]);
                    lemma_starts_with_trans(a, s[k], t[q]);
                }
            }
        }
        let (next, merged) = merge_siblings(&kept, Ghost(w));
        if merged {
            cur = next;
        } else {
            cur = kept;
            settled = true;
        }
    }
    cur
}
fn bits_eq(a: &Vec<bool>, b: &Vec<bool>) -> (r: bool)
    ensures
        r == (a@ == b@),
{
    let r = a.len() == b.len() && bits_starts_with(a, b);
    proof {
        if a@.len() == b@.len() {
            assert(a@.subrange(0, b@.len() as int) =~= a@);
        }
    }
    r
}

/// Every member of `b` is a member of `a`.
fn contains_all(a: &Vec<Vec<bool>>, b: &Vec<Vec<bool>>) -> (r: bool)
    ensures
        r == (forall|i: int| 0 <= i < b@.len() ==> views(a@).contains(#[trigger] views(b@)[i])),
{
    let mut i: usize = 0;
    while i < b.len()
        invariant
            i <= b@.len(),
            forall|k: int| 0 <= k < i ==> views(a@).contains(#[trigger] views(b@)[k]),
        decreases b@.len() - i,
    {
        let mut found = false;
        let mut j: usize = 0;
        while j < a.len()
            invariant
                i < b@.len(),
                j <= a@.len(),
                found == exists|k: int| 0 <= k < j && views(a@)[k] == views(b@)[i as int],
            decreases a@.len() - j,
        {
            assert(views(a@)[j as int] == a@[j as int]@ && views(b@)[i as int] == b@[i as int]@);
            if bits_eq(&a[j], &b[i]) {
                found = true;
            }
            j = j + 1;
            proof {
                if !found {
                    assert forall|k: int| 0 <= k < j implies views(a@)[k] != views(b@)[i as int] by {
                    }
                }
            }
        }
        if !found {
            assert(!views(a@).contains(views(b@)[i as int]));
            return false;
        }
        i = i + 1;
    }
    true
}

/// Adds the path `p` to the arena trie, creating the missing nodes on the
/// way, and makes its node terminal. No path of the trie may run past `p`.
fn insert_path(nodes: &mut Vec<TrieNode>, p: &Vec<bool>)
    requires
        arena_wf(old(nodes)@),
        injective(old(nodes)@),
        forall|q: Seq<bool>|
            #[trigger] paths(old(nodes)@).contains(q) && starts_with(q, p@) ==> q.len() <= p@.len(),
    ensures
        arena_wf(final(nodes)@),
        injective(final(nodes)@),
        forall|q: Seq<bool>|
            #[trigger] paths(final(nodes)@).contains(q) == (paths(old(nodes)@).contains(q) || starts_with(
                p@,
                q,
            )),
{
    let ghost n_old = nodes@;
    let mut cur: usize = 0;
    let mut i: usize = 0;
    proof {
        assert(p@.subrange(0, 0) =~= Seq::<bool>::empty());
        assert forall|q: Seq<bool>| #[trigger] paths(nodes@).contains(q) == (paths(n_old).contains(q) || (
        starts_with(p@, q) && q.len() <= 0)) by {
            if starts_with(p@, q) && q.len() <= 0 {
                assert(q =~= Seq::<bool>::empty());
            }
        }
    }
    while i < p.len()
        invariant
            arena_wf(nodes@),
            injective(nodes@),
            i <= p@.len(),
            node_at(nodes@, p@.subrange(0, i as int)) == Some(cur as int),
            forall|q: Seq<bool>| #[trigger] paths(nodes@).contains(q) == (paths(n_old).contains(q) || (
            starts_with(p@, q) && q.len() <= i)),
        decreases p@.len() - i,
    {
        let ghost n0 = nodes@;
        let ghost pc = p@.subrange(0, i as int);
        let node = nodes[cur];
        let b = p[i];
        proof {
            assert(p@.subrange(0, i + 1) =~= pc.push(b));
            lemma_node_at_push(n0, pc, b);
            lemma_node_at_in_arena(n0, pc);
        }
        let next = if b {
            node.right
        } else {
            node.left
        };
        match next {
            Some(c) => {
                assert(child_of(nodes@[cur as int], b) == Some(c));
                cur = c;
            },
            None => {
                let c = nodes.len();
                nodes.push(TrieNode { left: None, right: None });
                let mut nn = node;
                if b {
                    nn.right = Some(c);
                } else {
                    nn.left = Some(c);
                }
                nodes.set(cur, nn);
                proof {
                    let n1 = nodes@;
                    assert forall|x: int, y: bool| 0 <= x < n1.len() implies match #[trigger] child_of(n1[x], y) {
                        Some(d) => x < d < n1.len(),
                        None => true,
                    } by {
                        if x < n0.len() {
                            let _ = child_of(n0[x], y);
                        }
                    }
                    assert forall|q: Seq<bool>| #[trigger] node_at(n1, q) == (if q == pc.push(b) {
                        Some(n0.len() as int)
                    } else {
                        node_at(n0, q)
                    }) by {
                        lemma_add_child(n0, n1, pc, cur as int, b, q);
                    }
                    assert forall|q1: Seq<bool>, q2: Seq<bool>|
                        #[trigger] node_at(n1, q1) == #[trigger] node_at(n1, q2) && node_at(n1, q1) is Some implies q1 == q2 by {
                        lemma_node_at_in_arena(n0, q1);
                        lemma_node_at_in_arena(n0, q2);
                        assert(node_at(n0, q1) == node_at(n0, q2) || q1 == pc.push(b) || q2 == pc.push(b));
                    }
                }
                cur = c;
            },
        }
        i = i + 1;
        proof {
            let pi = p@.subrange(0, i as int);
            assert forall|q: Seq<bool>| #[trigger] paths(nodes@).contains(q) == (paths(n_old).contains(q) || (
            starts_with(p@, q) && q.len() <= i)) by {
                if starts_with(p@, q) && q.len() == i {
                    assert(q =~= pi);
                }
                if q == pi {
                    assert(p@.subrange(0, q.len() as int) =~= q);
                }
                assert(paths(nodes@).contains(q) == (paths(n0).contains(q) || q == pi));
            }
        }
    }
    proof {
        assert(p@.subrange(0, p@.len() as int) =~= p@);
        lemma_node_at_in_arena(nodes@, p@);
        assert forall|d: bool| child_of(nodes@[cur as int], d) is None by {
            lemma_node_at_push(nodes@, p@, d);
            let q = p@.push(d);
            if child_of(nodes@[cur as int], d) is Some {
                assert(paths(nodes@).contains(q));
                assert(!starts_with(p@, q));
                assert(q.subrange(0, p@.len() as int) =~= p@);
                assert(paths(n_old).contains(q));
            }
        }
        assert(child_of(nodes@[cur as int], false) is None);
        assert(child_of(nodes@[cur as int], true) is None);
    }
    let ghost before = nodes@;
    nodes.set(cur, TrieNode { left: None, right: None });
    assert(nodes@ =~= before);
}

/// A set of prefixes of one address family, `width` bits wide (32 for
/// IPv4, 128 for IPv6).
#[derive(Clone, Debug)]
pub struct PrefixSet {
    pub width: usize,
    pub items: Vec<Vec<bool>>,
}

impl View for PrefixSet {
    type V = Seq<Seq<bool>>;

    open spec fn view(&self) -> Seq<Seq<bool>> {
        views(self.items@)
    }
}

impl PrefixSet {
    pub open spec fn spec_width(&self) -> nat {
        self.width as nat
    }

    /// Every member fits in the address width.
    pub open spec fn wf(&self) -> bool {
        bounded(self@, self.spec_width())
    }

    /// An empty set of `width`-bit prefixes.
    pub fn new(width: usize) -> (r: PrefixSet)
        ensures
            r.wf(),
            r@.len() == 0,
            r.spec_width() == width,
    {
        let r = PrefixSet { width, items: Vec::new() };
        assert(r@ =~= Seq::<Seq<bool>>::empty());
        r
    }

    /// An empty set of IPv4 prefixes.
    pub fn new_v4() -> (r: PrefixSet)
        ensures
            r.wf(),
            r@.len() == 0,
            r.spec_width() == 32,
    {
        PrefixSet::new(32)
    }

    /// An empty set of IPv6 prefixes.
    pub fn new_v6() -> (r: PrefixSet)
        ensures
            r.wf(),
            r@.len() == 0,
            r.spec_width() == 128,
    {
        PrefixSet::new(128)
    }

    pub fn width(&self) -> (r: usize)
        ensures
            r == self.spec_width(),
    {
        self.width
    }

    /// The members, in their current order.
    pub fn prefixes(&self) -> (r: Vec<Vec<bool>>)
        ensures
            views(r@) == self@,
    {
        let r = self.items.clone();
        assert(views(r@) =~= self@) by {
            assert forall|i: int| 0 <= i < r@.len() implies r@[i]@ == self.items@[i]@ by {
                assert(vstd::pervasive::cloned::<Vec<bool>>(self.items@[i], r@[i]));
            }
        }
        r
    }

    /// Appends a prefix; nothing is merged or dropped until `simplify`.
    pub fn add(&mut self, p: crate::prefix::Prefix)
        requires
            old(self).wf(),
            p@.len() <= old(self).spec_width(),
        ensures
            final(self).wf(),
            final(self)@ == old(self)@.push(p@),
            final(self).spec_width() == old(self).spec_width(),
    {
        self.items.push(p.bits);
        assert(self@ =~= old(self)@.push(p@));
    }

    /// Canonicalizes the set in place: afterwards no member is a prefix of
    /// another and no two members are siblings, while the same addresses are
    /// covered. A set that is already canonical is left as it is.
    pub fn simplify(&mut self)
        requires
            old(self).wf(),
        ensures
            final(self).wf(),
            final(self).spec_width() == old(self).spec_width(),
            canonical(final(self)@),
            same_cover(final(self)@, old(self)@, old(self).spec_width()),
            canonical(old(self)@) ==> final(self)@ == old(self)@,
    {
        let items = self.prefixes();
        self.items = canonicalize(items, Ghost(self.width as nat));
    }

    /// Simplifies the set and builds its trie; `None` when the set is
    /// empty, as a trie always has a root. The trie's terminal paths are
    /// the members of the simplified set, so for a set that is already
    /// canonical they are its members.
    pub fn into_trie(self) -> (r: Option<Trie>)
        requires
            self.wf(),
        ensures
            r is None <==> (forall|a: Seq<bool>| a.len() == self.spec_width() ==> !covers(self@, a)),
            r matches Some(t) ==> arena_wf(t.nodes@) && injective(t.nodes@) && exists|s: Seq<Seq<bool>>|
                canonical(s) && bounded(s, self.spec_width()) && same_cover(s, self@, self.spec_width())
                    && leaf_paths(t.nodes@) == s.to_set(),
            r matches Some(t) ==> (canonical(self@) ==> leaf_paths(t.nodes@) == self@.to_set()),
    {
        let ghost orig = self@;
        let mut set = self;
        set.simplify();
        if set.items.len() == 0 {
            return None;
        }
        proof {
            let p = set@[0];
            let a = p + Seq::new((set.spec_width() - p.len()) as nat, |i: int| false);
            assert(a.subrange(0, p.len() as int) =~= p);
            assert(starts_with(a, set@[0]));
        }
        let ghost s = set@;
        let mut trie = Trie::new();
        proof {
            assert forall|q: Seq<bool>| #[trigger] paths(trie.nodes@).contains(q) == (q.len() == 0) by {
                lemma_lone_root(trie.nodes@, q);
            }
            assert forall|q1: Seq<bool>, q2: Seq<bool>|
                #[trigger] node_at(trie.nodes@, q1) == #[trigger] node_at(trie.nodes@, q2) && node_at(trie.nodes@, q1) is Some implies q1 == q2 by {
                lemma_lone_root(trie.nodes@, q1);
                lemma_lone_root(trie.nodes@, q2);
                assert(q1 =~= q2);
            }
        }
        let mut k: usize = 0;
        while k < set.items.len()
            invariant
                s == set@,
                canonical(s),
                k <= s.len(),
                arena_wf(trie.nodes@),
                injective(trie.nodes@),
                forall|q: Seq<bool>| #[trigger] paths(trie.nodes@).contains(q) == (q.len() == 0 || exists|i: int|
                    0 <= i < k && starts_with(#[trigger] s[i], q)),
            decreases s.len() - k,
        {
            let ghost n0 = trie.nodes@;
            let ghost p = s[k as int];
            assert(set.items@[k as int]@ == p);
            proof {
                assert forall|q: Seq<bool>| #[trigger] paths(n0).contains(q) && starts_with(q, p) implies q.len() <= p.len() by {
                    if q.len() > p.len() {
                        let i = choose|i: int| 0 <= i < k && starts_with(#[trigger] s[i], q);
                        lemma_starts_with_trans(s[i], q, p);
                        assert(!starts_with(s[i], s[k as int]));
                    }
                }
            }
            insert_path(&mut trie.nodes, &set.items[k]);
            k = k + 1;
            proof {
                assert forall|q: Seq<bool>| #[trigger] paths(trie.nodes@).contains(q) == (q.len() == 0 || exists|i: int|
                    0 <= i < k && starts_with(#[trigger] s[i], q)) by {
                    if starts_with(p, q) {
                        assert(starts_with(s[k - 1], q));
                    }
                    if q.len() != 0 && exists|i: int| 0 <= i < k && starts_with(#[trigger] s[i], q) {
                        let i = choose|i: int| 0 <= i < k && starts_with(#[trigger] s[i], q);
                        if i < k - 1 {
                            assert(paths(n0).contains(q));
                        }
                    }
                }
            }
        }
        proof {
            let n = trie.nodes@;
            assert forall|q: Seq<bool>| leaf_paths(n).contains(q) == s.to_set().contains(q) by {
                lemma_leaf_by_paths(n, q);
                let q0 = q.push(false);
                let q1 = q.push(true);
                assert(paths(n).contains(q0) == (q0.len() == 0 || exists|i: int| 0 <= i < s.len() && starts_with(#[trigger] s[i], q0)));
                assert(paths(n).contains(q1) == (q1.len() == 0 || exists|i: int| 0 <= i < s.len() && starts_with(#[trigger] s[i], q1)));
                assert(paths(n).contains(q) == (q.len() == 0 || exists|i: int| 0 <= i < s.len() && starts_with(#[trigger] s[i], q)));
                if s.to_set().contains(q) {
                    let i = choose|i: int| 0 <= i < s.len() && s[i] == q;
                    lemma_starts_with_refl(q);
                    assert(starts_with(s[i], q));
                    assert forall|d: bool| !paths(n).contains(#[trigger] q.push(d)) by {
                        let qd = q.push(d);
                        if paths(n).contains(qd) {
                            let j = choose|j: int| 0 <= j < s.len() && starts_with(#[trigger] s[j], qd);
                            assert(qd.subrange(0, q.len() as int) =~= q);
                            lemma_starts_with_trans(s[j], qd, q);
                            assert(!starts_with(s[j], s[i]));
                        }
                    }
                }
                if leaf_paths(n).contains(q) {
                    let i = if q.len() == 0 {
                        assert(s[0].subrange(0, 0) =~= q);
                        assert(starts_with(s[0], q));
                        0
                    } else {
                        choose|i: int| 0 <= i < s.len() && starts_with(#[trigger] s[i], q)
                    };
                    assert(starts_with(s[i], q));
                    if s[i].len() > q.len() {
                        let d = s[i][q.len() as int];
                        let qd = q.push(d);
                        assert(s[i].subrange(0, qd.len() as int) =~= qd);
                        assert(starts_with(s[i], qd));
                        assert(paths(n).contains(qd));
                    }
                    assert(s[i] =~= q);
                }
            }
            assert(leaf_paths(n) =~= s.to_set());
        }
        Some(trie)
    }

    /// The prefixes of a trie's terminal nodes, as a set of `width`-bit
    /// prefixes; `None` if a terminal node lies deeper than `width`.
    pub fn from_trie(trie: &Trie, width: usize) -> (r: Option<PrefixSet>)
        requires
            arena_wf(trie.nodes@),
        ensures
            r is Some <==> (forall|p: Seq<bool>| #[trigger] leaf_paths(trie.nodes@).contains(p) ==> p.len() <= width),
            r matches Some(s) ==> s.wf() && s.spec_width() == width && s@.to_set() == leaf_paths(trie.nodes@),
    {
        let leaves = trie.leaf_prefixes();
        let mut i: usize = 0;
        while i < leaves.len()
            invariant
                i <= leaves@.len(),
                forall|j: int| 0 <= j < i ==> (#[trigger] leaves@[j])@.len() <= width,
                forall|j: int| 0 <= j < leaves@.len() ==> leaf_paths(trie.nodes@).contains(#[trigger] leaves@[j]@),
                forall|p: Seq<bool>|
                    #[trigger] leaf_paths(trie.nodes@).contains(p) ==> exists|j: int|
                        0 <= j < leaves@.len() && leaves@[j]@ == p,
            decreases leaves@.len() - i,
        {
            if leaves[i].len() > width {
                assert(leaf_paths(trie.nodes@).contains(leaves@[i as int]@));
                return None;
            }
            i = i + 1;
        }
        let r = PrefixSet { width, items: leaves };
        proof {
            assert forall|p: Seq<bool>| #[trigger] leaf_paths(trie.nodes@).contains(p) implies p.len() <= width by {
                let j = choose|j: int| 0 <= j < leaves@.len() && leaves@[j]@ == p;
            }
            assert forall|p: Seq<bool>| r@.to_set().contains(p) == leaf_paths(trie.nodes@).contains(p) by {
                if leaf_paths(trie.nodes@).contains(p) {
                    let j = choose|j: int| 0 <= j < leaves@.len() && leaves@[j]@ == p;
                    assert(r@[j] == p);
                }
                if r@.to_set().contains(p) {
                    let j = choose|j: int| 0 <= j < r@.len() && r@[j] == p;
                    assert(leaves@[j]@ == p);
                }
            }
            assert(r@.to_set() =~= leaf_paths(trie.nodes@));
        }
        Some(r)
    }

    /// Whether two canonical sets hold the same prefixes, in any order.
    pub fn equals(&self, other: &PrefixSet) -> (r: bool)
        requires
            canonical(self@),
            canonical(other@),
        ensures
            r == (self.spec_width() == other.spec_width() && self@.to_set() == other@.to_set()),
    {
        if self.width != other.width {
            return false;
        }
        let a = contains_all(&self.items, &other.items);
        let b = contains_all(&other.items, &self.items);
        proof {
            if a && b {
                assert(self@.to_set() =~= other@.to_set());
            }
            if self@.to_set() == other@.to_set() {
                assert forall|i: int| 0 <= i < other@.len() implies self@.contains(#[trigger] other@[i]) by {
                    assert(other@.to_set().contains(other@[i]));
                }
                assert forall|i: int| 0 <= i < self@.len() implies other@.contains(#[trigger] self@[i]) by {
                    assert(self@.to_set().contains(self@[i]));
                }
            }
        }
        a && b
    }

    /// Set equality: whether the two sets, once simplified, hold the same
    /// prefixes; that is, whether they are of one width and cover the same
    /// addresses.
    pub fn same_as(&self, other: &PrefixSet) -> (r: bool)
        requires
            self.wf(),
            other.wf(),
        ensures
            r == (self.spec_width() == other.spec_width() && same_cover(self@, other@, self.spec_width())),
    {
        let mut a = PrefixSet { width: self.width, items: self.prefixes() };
        let mut b = PrefixSet { width: other.width, items: other.prefixes() };
        a.simplify();
        b.simplify();
        let r = a.equals(&b);
        proof {
            if self.spec_width() == other.spec_width() && same_cover(self@, other@, self.spec_width()) {
                assert forall|x: Seq<bool>| x.len() == self.spec_width() implies covers(a@, x) == covers(b@, x) by {
                }
                lemma_canonical_unique(a@, b@, self.spec_width());
            }
            if r {
                assert forall|x: Seq<bool>| x.len() == self.spec_width() implies covers(a@, x) == covers(b@, x) by {
                    if covers(a@, x) {
                        let i = choose|i: int| 0 <= i < a@.len() && starts_with(x, #[trigger] a@[i]);
                        assert(a@.to_set().contains(a@[i]));
                        let j = choose|j: int| 0 <= j < b@.len() && b@[j] == a@[i];
                        assert(starts_with(x, b@[j]));
                    }
                    if covers(b@, x) {
                        let i = choose|i: int| 0 <= i < b@.len() && starts_with(x, #[trigger] b@[i]);
                        assert(b@.to_set().contains(b@[i]));
                        let j = choose|j: int| 0 <= j < a@.len() && a@[j] == b@[i];
                        assert(starts_with(x, a@[j]));
                    }
                }
            }
        }
        r
    }
}

} // verus!
