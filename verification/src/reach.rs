//! Ancestry of revisions.
//!
//! A revision's ancestry is the set of revisions reachable from it by
//! following parent links, itself included. The traversal here is an
//! explicit worklist walk with a visited set, so that every reachable
//! revision is visited exactly once even on merge topologies, where
//! branches share ancestors.

use vstd::prelude::*;

verus! {

use crate::backend::Backend;

/// Whether revision `v` is a direct parent of revision `u`.
pub open spec fn parent_edge(b: Backend, u: int, v: int) -> bool {
    &&& 0 <= u < b.revisions@.len()
    &&& exists|j: int|
        0 <= j < b.revisions@[u].parents@.len() && b.revisions@[u].parents@[j] == v
}

/// Whether `p` is a chain of parent links from `from` to `to`.
pub open spec fn is_ancestry_path(b: Backend, p: Seq<int>, from: int, to: int) -> bool {
    &&& p.len() >= 1
    &&& p[0] == from
    &&& p[p.len() - 1] == to
    &&& forall|i: int| 0 <= i < p.len() ==> 0 <= #[trigger] p[i] < b.revisions@.len()
    &&& forall|i: int| 0 <= i < p.len() - 1 ==> parent_edge(b, #[trigger] p[i], p[i + 1])
}

/// Whether `to` belongs to the ancestry of `from`: some chain of parent
/// links leads from `from` to `to`. Every revision belongs to its own
/// ancestry.
pub open spec fn reaches(b: Backend, from: int, to: int) -> bool {
    exists|p: Seq<int>| is_ancestry_path(b, p, from, to)
}

/// Whether `anc` is a strict ancestor of `of`: an older revision on some
/// parent chain starting at `of`.
pub open spec fn strict_ancestor(b: Backend, anc: int, of: int) -> bool {
    anc != of && reaches(b, of, anc)
}

/// Whether ancestry is acyclic: two revisions that reach each other are
/// the same. This is the directed-acyclic-graph shape of history that the
/// backend's data model guarantees.
pub open spec fn acyclic(b: Backend) -> bool {
    forall|u: int, v: int| reaches(b, u, v) && reaches(b, v, u) ==> u == v
}

/// Every revision reaches itself.
pub proof fn lemma_reaches_self(b: Backend, r: int)
    requires
        0 <= r < b.revisions@.len(),
    ensures
        reaches(b, r, r),
{
    let p = seq![r];
    assert(is_ancestry_path(b, p, r, r));
}

/// Extending a chain by one parent link keeps it a chain.
pub proof fn lemma_reaches_step(b: Backend, from: int, mid: int, v: int)
    requires
        reaches(b, from, mid),
        parent_edge(b, mid, v),
        0 <= v < b.revisions@.len(),
    ensures
        reaches(b, from, v),
{
    let p = choose|p: Seq<int>| is_ancestry_path(b, p, from, mid);
    let q = p.push(v);
    assert(q[q.len() - 1] == v);
    assert(forall|i: int| 0 <= i < p.len() ==> #[trigger] q[i] == p[i]);
    assert(q[p.len() - 1] == mid);
    assert(is_ancestry_path(b, q, from, v));
    assert(reaches(b, from, v));
}

/// `a` reaches every revision along a chain whose start it reaches.
proof fn lemma_reaches_along(b: Backend, a: int, q: Seq<int>, k: int)
    requires
        q.len() >= 1,
        is_ancestry_path(b, q, q[0], q[q.len() - 1]),
        reaches(b, a, q[0]),
        0 <= k < q.len(),
    ensures
        reaches(b, a, q[k]),
    decreases k,
{
    if k > 0 {
        lemma_reaches_along(b, a, q, k - 1);
        assert(parent_edge(b, q[k - 1], q[k]));
        lemma_reaches_step(b, a, q[k - 1], q[k]);
    }
}

/// Ancestry is transitive: a chain to `c` followed by a chain from `c`
/// forms one chain.
pub proof fn lemma_reaches_trans(b: Backend, a: int, c: int, d: int)
    requires
        reaches(b, a, c),
        reaches(b, c, d),
    ensures
        reaches(b, a, d),
{
    let q = choose|q: Seq<int>| is_ancestry_path(b, q, c, d);
    lemma_reaches_along(b, a, q, q.len() - 1);
}

/// Whether history is linear: no revision has more than one parent.
pub open spec fn linear(b: Backend) -> bool {
    forall|r: int|
        0 <= r < b.revisions@.len() ==> (#[trigger] b.revisions@[r]).parents@.len() <= 1
}

/// In a linear history, two chains from the same revision agree while
/// both last: each step has only one parent to move to.
proof fn lemma_linear_paths_agree(b: Backend, p: Seq<int>, q: Seq<int>, k: int)
    requires
        linear(b),
        p.len() >= 1,
        q.len() >= 1,
        is_ancestry_path(b, p, p[0], p[p.len() - 1]),
        is_ancestry_path(b, q, q[0], q[q.len() - 1]),
        p[0] == q[0],
        0 <= k < p.len(),
        k < q.len(),
    ensures
        p[k] == q[k],
    decreases k,
{
    if k > 0 {
        lemma_linear_paths_agree(b, p, q, k - 1);
        assert(parent_edge(b, p[k - 1], p[k]));
        assert(parent_edge(b, q[k - 1], q[k]));
        assert(b.revisions@[p[k - 1]].parents@.len() <= 1);
    }
}

/// The tail of a chain is a chain.
proof fn lemma_path_suffix(b: Backend, q: Seq<int>, m: int)
    requires
        q.len() >= 1,
        is_ancestry_path(b, q, q[0], q[q.len() - 1]),
        0 <= m < q.len(),
    ensures
        is_ancestry_path(b, q.subrange(m, q.len() as int), q[m], q[q.len() - 1]),
{
    let sub = q.subrange(m, q.len() as int);
    assert(forall|i: int| 0 <= i < sub.len() ==> #[trigger] sub[i] == q[i + m]);
    assert forall|i: int| 0 <= i < sub.len() - 1 implies parent_edge(b, #[trigger] sub[i], sub[i
        + 1]) by {
        assert(parent_edge(b, q[i + m], q[i + m + 1]));
    }
}

/// In a linear history, two revisions in the ancestry of one revision are
/// comparable: one belongs to the ancestry of the other.
pub proof fn lemma_linear_comparable(b: Backend, start: int, r1: int, r2: int)
    requires
        linear(b),
        reaches(b, start, r1),
        reaches(b, start, r2),
    ensures
        reaches(b, r1, r2) || reaches(b, r2, r1),
{
    let p = choose|p: Seq<int>| is_ancestry_path(b, p, start, r1);
    let q = choose|q: Seq<int>| is_ancestry_path(b, q, start, r2);
    if p.len() <= q.len() {
        lemma_linear_paths_agree(b, p, q, p.len() - 1);
        lemma_path_suffix(b, q, p.len() - 1);
        assert(is_ancestry_path(b, q.subrange(p.len() - 1, q.len() as int), r1, r2));
    } else {
        lemma_linear_paths_agree(b, q, p, q.len() - 1);
        lemma_path_suffix(b, p, q.len() - 1);
        assert(is_ancestry_path(b, p.subrange(q.len() - 1, p.len() as int), r2, r1));
    }
}

/// A visited set that holds the start of a chain and is closed under
/// parent links holds the chain's end.
proof fn lemma_closed_set_covers(b: Backend, visited: Seq<bool>, p: Seq<int>)
    requires
        visited.len() == b.revisions@.len(),
        p.len() >= 1,
        is_ancestry_path(b, p, p[0], p[p.len() - 1]),
        visited[p[0]],
        forall|u: int, v: int|
            0 <= u < visited.len() && visited[u] && #[trigger] parent_edge(b, u, v) && 0 <= v
                < visited.len() ==> visited[v],
    ensures
        visited[p[p.len() - 1]],
    decreases p.len(),
{
    if p.len() > 1 {
        let q = p.drop_last();
        assert(forall|i: int| 0 <= i < q.len() ==> #[trigger] q[i] == p[i]);
        assert(is_ancestry_path(b, q, q[0], q[q.len() - 1]));
        lemma_closed_set_covers(b, visited, q);
        assert(parent_edge(b, p[p.len() - 2], p[p.len() - 1]));
    }
}

/// How many revisions a visited set still lacks.
spec fn count_unvisited(s: Seq<bool>) -> int
    decreases s.len(),
{
    if s.len() == 0 {
        0
    } else {
        count_unvisited(s.drop_last()) + if s[s.len() - 1] {
            0int
        } else {
            1int
        }
    }
}

proof fn lemma_count_unvisited_nonneg(s: Seq<bool>)
    ensures
        count_unvisited(s) >= 0,
    decreases s.len(),
{
    if s.len() > 0 {
        lemma_count_unvisited_nonneg(s.drop_last());
    }
}

proof fn lemma_count_unvisited_update(s: Seq<bool>, i: int)
    requires
        0 <= i < s.len(),
        !s[i],
    ensures
        count_unvisited(s.update(i, true)) == count_unvisited(s) - 1,
    decreases s.len(),
{
    let t = s.update(i, true);
    if i == s.len() - 1 {
        assert(t.drop_last() =~= s.drop_last());
    } else {
        assert(t.drop_last() =~= s.drop_last().update(i, true));
        lemma_count_unvisited_update(s.drop_last(), i);
        assert(t[t.len() - 1] == s[s.len() - 1]);
    }
}

/// Mark every revision reachable from `start` by following parent links,
/// visiting each reachable revision exactly once.
///
/// The result has one flag per revision: set exactly when the revision
/// belongs to the ancestry of `start`.
pub fn reachable_from(b: &Backend, start: usize) -> (visited: Vec<bool>)
    requires
        b.wf(),
        start < b.revisions@.len(),
    ensures
        visited@.len() == b.revisions@.len(),
        forall|i: int|
            0 <= i < visited@.len() ==> (visited@[i] <==> reaches(*b, start as int, i)),
{
    let n = b.revisions.len();
    let mut visited: Vec<bool> = Vec::new();
    let mut k: usize = 0;
    while k < n
        invariant
            0 <= k <= n,
            visited@.len() == k,
            forall|i: int| 0 <= i < k ==> !visited@[i],
        decreases n - k,
    {
        visited.push(false);
        k = k + 1;
    }
    let mut worklist: Vec<usize> = Vec::new();
    visited.set(start, true);
    worklist.push(start);
    proof {
        lemma_reaches_self(*b, start as int);
        lemma_count_unvisited_nonneg(visited@);
        assert(worklist@[0] == start);
        assert(worklist@.contains(start));
    }
    while worklist.len() > 0
        invariant
            b.wf(),
            start < n,
            n == b.revisions@.len(),
            visited@.len() == n,
            visited@[start as int],
            forall|i: int| 0 <= i < worklist@.len() ==> (#[trigger] worklist@[i]) < n,
            forall|i: int| 0 <= i < worklist@.len() ==> visited@[#[trigger] worklist@[i] as int],
            forall|i: int| 0 <= i < n && visited@[i] ==> reaches(*b, start as int, i),
            forall|u: int, v: int|
                0 <= u < n && visited@[u] && !worklist@.contains(u as usize) && #[trigger]
                    parent_edge(*b, u, v) && 0 <= v < n ==> visited@[v],
        decreases 2 * count_unvisited(visited@) + worklist@.len(),
    {
        let ghost old_visited = visited@;
        let ghost old_worklist = worklist@;
        let u = worklist.pop().unwrap();
        proof {
            assert forall|x: usize| old_worklist.contains(x) && x != u implies
                worklist@.contains(x) by {
                let i = choose|i: int| 0 <= i < old_worklist.len() && old_worklist[i] == x;
                assert(worklist@[i] == x);
            }
        }
        let parents = &b.revisions[u].parents;
        let m = parents.len();
        let mut j: usize = 0;
        while j < m
            invariant
                b.wf(),
                start < n,
                n == b.revisions@.len(),
                visited@.len() == n,
                visited@[start as int],
                u < n,
                m == parents@.len(),
                0 <= j <= m,
                parents@ == b.revisions@[u as int].parents@,
                visited@[u as int],
                forall|i: int| 0 <= i < worklist@.len() ==> (#[trigger] worklist@[i]) < n,
                forall|i: int|
                    0 <= i < worklist@.len() ==> visited@[#[trigger] worklist@[i] as int],
                forall|i: int| 0 <= i < n && visited@[i] ==> reaches(*b, start as int, i),
                forall|up: int, v: int|
                    0 <= up < n && visited@[up] && !worklist@.contains(up as usize) && up != u
                        as int && #[trigger] parent_edge(*b, up, v) && 0 <= v < n ==> visited@[v],
                forall|i: int| 0 <= i < j ==> visited@[#[trigger] parents@[i] as int],
                2 * count_unvisited(visited@) + worklist@.len() <= 2 * count_unvisited(
                    old_visited,
                ) + old_worklist.len() - 1,
            decreases m - j,
        {
            let p = parents[j];
            assert(parent_edge(*b, u as int, p as int));
            if !visited[p] {
                proof {
                    lemma_count_unvisited_update(visited@, p as int);
                    lemma_reaches_step(*b, start as int, u as int, p as int);
                }
                let ghost wl_before = worklist@;
                visited.set(p, true);
                worklist.push(p);
                proof {
                    assert(worklist@[worklist@.len() - 1] == p);
                    assert(worklist@.contains(p));
                    assert forall|x: usize| wl_before.contains(x) implies worklist@.contains(
                        x,
                    ) by {
                        let i = choose|i: int| 0 <= i < wl_before.len() && wl_before[i] == x;
                        assert(worklist@[i] == x);
                    }
                }
            }
            j = j + 1;
        }
        proof {
            lemma_count_unvisited_nonneg(visited@);
        }
    }
    proof {
        assert forall|i: int| 0 <= i < n && reaches(*b, start as int, i) implies visited@[i] by {
            let p = choose|p: Seq<int>| is_ancestry_path(*b, p, start as int, i);
            lemma_closed_set_covers(*b, visited@, p);
        }
    }
    visited
}

/// Whether revision `anc` is a strict ancestor of revision `of`.
pub fn is_strict_ancestor(b: &Backend, anc: usize, of: usize) -> (r: bool)
    requires
        b.wf(),
        anc < b.revisions@.len(),
        of < b.revisions@.len(),
    ensures
        r == strict_ancestor(*b, anc as int, of as int),
{
    if anc == of {
        return false;
    }
    let visited = reachable_from(b, of);
    visited[anc]
}

} // verus!
