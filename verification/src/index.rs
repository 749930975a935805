//! The provenance index: content fingerprint to oldest containing revision.
//!
//! The builder walks every revision in the ancestry of the starting
//! revision, resolves the same logical path against that revision's own
//! root, and records each immediate child's fingerprint. A recorded
//! revision is replaced only when the candidate is a strict ancestor of the
//! stored one, so the completed index attributes each fingerprint to a
//! revision none of whose strict ancestors lists that fingerprint —
//! independent of the order revisions are walked in. Revisions where the
//! path does not exist contribute nothing. Ties between revisions on
//! independent branches resolve to whichever the walk happens to favor.

use vstd::prelude::*;

verus! {

use crate::backend::Backend;
use crate::backend::TreeEntryRecord;
use crate::mode::indexable_spec;
use crate::mode::indexable;
use crate::reach::acyclic;
use crate::reach::lemma_reaches_trans;
use crate::reach::reaches;
use crate::reach::reachable_from;
use crate::reach::is_strict_ancestor;
use crate::reach::strict_ancestor;

/// One attribution: a content fingerprint and the revision it is
/// attributed to.
#[derive(Clone, Copy, Debug, PartialEq, Eq, Structural)]
pub struct IndexEntry {
    pub fingerprint: u64,
    pub revision: usize,
}

/// The first index at or after `i` of an index entry keyed `fp`, or `-1`.
pub open spec fn index_find_at(entries: Seq<IndexEntry>, fp: u64, i: int) -> int
    decreases entries.len() - i,
{
    if i < 0 || i >= entries.len() {
        -1
    } else if entries[i].fingerprint == fp {
        i
    } else {
        index_find_at(entries, fp, i + 1)
    }
}

pub proof fn lemma_index_find_at(entries: Seq<IndexEntry>, fp: u64, i: int)
    requires
        0 <= i <= entries.len(),
    ensures
        index_find_at(entries, fp, i) == -1 || (i <= index_find_at(entries, fp, i)
            < entries.len() && entries[index_find_at(entries, fp, i)].fingerprint == fp),
        index_find_at(entries, fp, i) == -1 ==> forall|j: int|
            i <= j < entries.len() ==> (#[trigger] entries[j]).fingerprint != fp,
        forall|j: int| i <= j < index_find_at(entries, fp, i) ==> (#[trigger] entries[
        j]).fingerprint != fp,
    decreases entries.len() - i,
{
    if i < entries.len() && entries[i].fingerprint != fp {
        lemma_index_find_at(entries, fp, i + 1);
    }
}

/// A mapping from content fingerprint to attributed revision, with unique
/// keys. Built fresh for each invocation and discarded after the listing
/// assembler consumes it.
#[derive(Clone, Debug)]
pub struct ProvenanceIndex {
    pub entries: Vec<IndexEntry>,
}

impl ProvenanceIndex {
    /// The position of the entry keyed `fp`, or `-1`.
    pub open spec fn find(self, fp: u64) -> int {
        index_find_at(self.entries@, fp, 0)
    }

    /// Whether the index holds an attribution for `fp`.
    pub open spec fn contains_fp(self, fp: u64) -> bool {
        exists|i: int|
            0 <= i < self.entries@.len() && (#[trigger] self.entries@[i]).fingerprint == fp
    }

    /// Each fingerprint is keyed at most once.
    pub open spec fn keys_unique(self) -> bool {
        forall|i: int, j: int|
            0 <= i < j < self.entries@.len() ==> (#[trigger] self.entries@[i]).fingerprint != (
            #[trigger] self.entries@[j]).fingerprint
    }

    /// Look up the revision attributed to `fp`.
    pub fn lookup(&self, fp: u64) -> (r: Option<usize>)
        ensures
            match r {
                Some(rev) => {
                    &&& 0 <= self.find(fp) < self.entries@.len()
                    &&& self.entries@[self.find(fp)].fingerprint == fp
                    &&& self.entries@[self.find(fp)].revision == rev
                    &&& self.contains_fp(fp)
                },
                None => !self.contains_fp(fp),
            },
    {
        proof {
            lemma_index_find_at(self.entries@, fp, 0);
        }
        let n = self.entries.len();
        let mut i: usize = 0;
        while i < n
            invariant
                n == self.entries@.len(),
                0 <= i <= n,
                forall|j: int| 0 <= j < i ==> (#[trigger] self.entries@[j]).fingerprint != fp,
                index_find_at(self.entries@, fp, 0) == index_find_at(self.entries@, fp, i as int),
            decreases n - i,
        {
            if self.entries[i].fingerprint == fp {
                return Some(self.entries[i].revision);
            }
            i = i + 1;
        }
        None
    }
}

/// The invariant of a completed index entry: the attributed revision
/// belongs to the ancestry of `start`, its directory at `path` lists the
/// fingerprint, and no strict ancestor of it lists the fingerprint — the
/// "oldest revision carrying this content" contract.
pub open spec fn is_oldest_for(
    b: Backend,
    start: int,
    path: Seq<String>,
    fp: u64,
    rev: int,
) -> bool {
    &&& 0 <= rev < b.revisions@.len()
    &&& reaches(b, start, rev)
    &&& b.rev_lists_fp(rev, path, fp)
    &&& forall|q: int| strict_ancestor(b, q, rev) ==> !b.rev_lists_fp(q, path, fp)
}

/// The same invariant with the ancestor condition restricted to revisions
/// below `upto` — the shape the builder maintains while it still has
/// revisions left to walk.
spec fn attributed_upto(
    b: Backend,
    start: int,
    path: Seq<String>,
    fp: u64,
    rev: int,
    upto: int,
) -> bool {
    &&& 0 <= rev < b.revisions@.len()
    &&& reaches(b, start, rev)
    &&& b.rev_lists_fp(rev, path, fp)
    &&& forall|q: int|
        0 <= q < upto && reaches(b, start, q) && strict_ancestor(b, q, rev)
            ==> !b.rev_lists_fp(q, path, fp)
}

/// Once every revision has been walked, the restricted invariant is the
/// full one: an unwalked strict ancestor listing the fingerprint would
/// itself be reachable from `start`.
proof fn lemma_attributed_full(b: Backend, start: int, path: Seq<String>, fp: u64, rev: int)
    requires
        attributed_upto(b, start, path, fp, rev, b.revisions@.len() as int),
    ensures
        is_oldest_for(b, start, path, fp, rev),
{
    assert forall|q: int| strict_ancestor(b, q, rev) implies !b.rev_lists_fp(q, path, fp) by {
        if b.rev_lists_fp(q, path, fp) {
            lemma_reaches_trans(b, start, rev, q);
        }
    }
}

/// On a linear history the oldest-revision contract leaves no choice: two
/// attributions of the same fingerprint agree. (On a merge topology two
/// independent branches may tie, and the walk picks one.)
pub proof fn lemma_linear_attribution_unique(
    b: Backend,
    start: int,
    path: Seq<String>,
    fp: u64,
    rev1: int,
    rev2: int,
)
    requires
        crate::reach::linear(b),
        is_oldest_for(b, start, path, fp, rev1),
        is_oldest_for(b, start, path, fp, rev2),
    ensures
        rev1 == rev2,
{
    if rev1 != rev2 {
        crate::reach::lemma_linear_comparable(b, start, rev1, rev2);
        if reaches(b, rev1, rev2) {
            assert(strict_ancestor(b, rev2, rev1));
        } else {
            assert(strict_ancestor(b, rev1, rev2));
        }
    }
}

/// Whether one of the first `e` entries carries fingerprint `fp` with an
/// indexable mode.
spec fn prefix_lists(entries: Seq<TreeEntryRecord>, e: int, fp: u64) -> bool {
    exists|i: int|
        0 <= i < e && (#[trigger] entries[i]).fingerprint == fp && indexable_spec(entries[i].mode)
}

/// Build the provenance index for `path` over the full ancestry of
/// `start`.
///
/// Every fingerprint listed by any revision in the ancestry is covered,
/// and each is attributed to a revision none of whose strict ancestors
/// lists it.
pub fn build_index(b: &Backend, start: usize, path: &Vec<String>) -> (idx: ProvenanceIndex)
    requires
        b.wf(),
        acyclic(*b),
        start < b.revisions@.len(),
    ensures
        idx.keys_unique(),
        forall|k: int|
            0 <= k < idx.entries@.len() ==> is_oldest_for(
                *b,
                start as int,
                path@,
                (#[trigger] idx.entries@[k]).fingerprint,
                idx.entries@[k].revision as int,
            ),
        forall|r: int, fp: u64|
            reaches(*b, start as int, r) && #[trigger] b.rev_lists_fp(r, path@, fp)
                ==> idx.contains_fp(fp),
        forall|fp: u64|
            #[trigger] b.rev_lists_fp(start as int, path@, fp) ==> idx.contains_fp(fp),
{
    let n = b.revisions.len();
    let reach = reachable_from(b, start);
    let mut idx = ProvenanceIndex { entries: Vec::new() };
    let mut r: usize = 0;
    while r < n
        invariant
            b.wf(),
            acyclic(*b),
            start < n,
            n == b.revisions@.len(),
            reach@.len() == n,
            forall|i: int| 0 <= i < n ==> (reach@[i] <==> reaches(*b, start as int, i)),
            0 <= r <= n,
            idx.keys_unique(),
            forall|k: int|
                0 <= k < idx.entries@.len() ==> attributed_upto(
                    *b,
                    start as int,
                    path@,
                    (#[trigger] idx.entries@[k]).fingerprint,
                    idx.entries@[k].revision as int,
                    r as int,
                ),
            forall|q: int, fp: u64|
                0 <= q < r && reaches(*b, start as int, q) && #[trigger] b.rev_lists_fp(
                    q,
                    path@,
                    fp,
                ) ==> idx.contains_fp(fp),
        decreases n - r,
    {
        if reach[r] {
            let root_fp = b.revisions[r].root_tree;
            let resolved = b.resolve_dir(root_fp, path);
            match resolved {
                Some(t) => {
                    let ghost entries_seq = b.trees@[t as int].entries@;
                    let m = b.trees[t].entries.len();
                    let mut e: usize = 0;
                    while e < m
                        invariant
                            b.wf(),
                            acyclic(*b),
                            start < n,
                            n == b.revisions@.len(),
                            r < n,
                            reaches(*b, start as int, r as int),
                            t < b.trees@.len(),
                            entries_seq == b.trees@[t as int].entries@,
                            m == entries_seq.len(),
                            0 <= e <= m,
                            b.rev_target_tree(r as int, path@) == Some(
                                b.trees@[t as int].fingerprint,
                            ),
                            b.tree_index_of(b.trees@[t as int].fingerprint) == t,
                            idx.keys_unique(),
                            forall|k: int|
                                0 <= k < idx.entries@.len() ==> attributed_upto(
                                    *b,
                                    start as int,
                                    path@,
                                    (#[trigger] idx.entries@[k]).fingerprint,
                                    idx.entries@[k].revision as int,
                                    r as int,
                                ),
                            forall|k: int|
                                0 <= k < idx.entries@.len() && prefix_lists(
                                    entries_seq,
                                    e as int,
                                    (#[trigger] idx.entries@[k]).fingerprint,
                                ) ==> !strict_ancestor(
                                    *b,
                                    r as int,
                                    idx.entries@[k].revision as int,
                                ),
                            forall|q: int, fp: u64|
                                0 <= q < r && reaches(*b, start as int, q)
                                    && #[trigger] b.rev_lists_fp(q, path@, fp)
                                    ==> idx.contains_fp(fp),
                            forall|i: int|
                                0 <= i < e && indexable_spec(
                                    (#[trigger] entries_seq[i]).mode,
                                ) ==> idx.contains_fp(entries_seq[i].fingerprint),
                        decreases m - e,
                    {
                        let ghost old_idx = idx;
                        let fp = b.trees[t].entries[e].fingerprint;
                        let entry_mode = b.trees[t].entries[e].mode;
                        if indexable(entry_mode) {
                            assert(b.rev_lists_fp(r as int, path@, fp));
                            match idx.lookup(fp) {
                                None => {
                                    proof {
                                        assert forall|q: int|
                                            0 <= q < r as int && reaches(*b, start as int, q)
                                                && strict_ancestor(*b, q, r as int) implies !b
                                            .rev_lists_fp(q, path@, fp) by {
                                            if b.rev_lists_fp(q, path@, fp) {
                                                assert(idx.contains_fp(fp));
                                            }
                                        }
                                    }
                                    idx.entries.push(
                                        IndexEntry { fingerprint: fp, revision: r },
                                    );
                                    proof {
                                        let len = idx.entries@.len();
                                        assert(idx.entries@[len - 1].fingerprint == fp);
                                        assert(forall|k: int|
                                            0 <= k < len - 1 ==> idx.entries@[k]
                                                == old_idx.entries@[k]);
                                        assert forall|x: u64| old_idx.contains_fp(x) implies idx
                                            .contains_fp(x) by {
                                            let i = choose|i: int|
                                                0 <= i < old_idx.entries@.len()
                                                    && old_idx.entries@[i].fingerprint == x;
                                            assert(idx.entries@[i].fingerprint == x);
                                        }
                                    }
                                },
                                Some(_) => {
                                    let k = idx_position(&idx, fp);
                                    if is_strict_ancestor(b, r, idx.entries[k].revision) {
                                        let ghost s_old = idx.entries@[k as int].revision as int;
                                        idx.entries.set(
                                            k,
                                            IndexEntry { fingerprint: fp, revision: r },
                                        );
                                        proof {
                                            assert(forall|j: int|
                                                0 <= j < idx.entries@.len() && j != k as int
                                                    ==> idx.entries@[j] == old_idx.entries@[j]);
                                            assert(idx.entries@[k as int].fingerprint
                                                == old_idx.entries@[k as int].fingerprint);
                                            assert(old_idx.entries@[k as int].revision as int
                                                == s_old);
                                            assert(attributed_upto(
                                                *b,
                                                start as int,
                                                path@,
                                                fp,
                                                s_old,
                                                r as int,
                                            ));
                                            assert forall|q: int|
                                                0 <= q < r as int && reaches(*b, start as int, q)
                                                    && strict_ancestor(*b, q, r as int) implies !b
                                                .rev_lists_fp(q, path@, fp) by {
                                                if b.rev_lists_fp(q, path@, fp) {
                                                    lemma_reaches_trans(*b, s_old, r as int, q);
                                                    if q == s_old {
                                                        assert(reaches(*b, r as int, s_old));
                                                        assert(reaches(*b, s_old, r as int));
                                                        assert(false);
                                                    }
                                                    assert(strict_ancestor(*b, q, s_old));
                                                }
                                            }
                                            assert forall|x: u64|
                                                old_idx.contains_fp(x) implies idx.contains_fp(
                                                x,
                                            ) by {
                                                let i = choose|i: int|
                                                    0 <= i < old_idx.entries@.len()
                                                        && old_idx.entries@[i].fingerprint == x;
                                                if i == k as int {
                                                    assert(idx.entries@[i].fingerprint == x);
                                                } else {
                                                    assert(idx.entries@[i].fingerprint == x);
                                                }
                                            }
                                        }
                                    } else {
                                        proof {
                                            assert(idx.entries@[k as int].fingerprint == fp);
                                        }
                                    }
                                },
                            }
                        }
                        proof {
                            assert(entries_seq[e as int].fingerprint == fp);
                            assert forall|k2: int|
                                0 <= k2 < idx.entries@.len() && prefix_lists(
                                    entries_seq,
                                    e as int + 1,
                                    (#[trigger] idx.entries@[k2]).fingerprint,
                                ) implies !strict_ancestor(
                                *b,
                                r as int,
                                idx.entries@[k2].revision as int,
                            ) by {
                                let key = idx.entries@[k2].fingerprint;
                                if key != fp || !indexable_spec(entries_seq[e as int].mode) {
                                    assert(prefix_lists(entries_seq, e as int, key));
                                }
                            }
                        }
                        e = e + 1;
                    }
                    proof {
                        assert forall|k: int|
                            0 <= k < idx.entries@.len() implies attributed_upto(
                            *b,
                            start as int,
                            path@,
                            (#[trigger] idx.entries@[k]).fingerprint,
                            idx.entries@[k].revision as int,
                            r as int + 1,
                        ) by {
                            let key = idx.entries@[k].fingerprint;
                            let s = idx.entries@[k].revision as int;
                            assert forall|q: int|
                                0 <= q < r as int + 1 && reaches(*b, start as int, q)
                                    && strict_ancestor(*b, q, s) implies !b.rev_lists_fp(
                                q,
                                path@,
                                key,
                            ) by {
                                if q == r as int && b.rev_lists_fp(q, path@, key) {
                                    assert(prefix_lists(entries_seq, m as int, key));
                                }
                            }
                        }
                        assert forall|q: int, fp: u64|
                            0 <= q < r as int + 1 && reaches(*b, start as int, q)
                                && #[trigger] b.rev_lists_fp(q, path@, fp) implies idx.contains_fp(
                            fp,
                        ) by {
                            if q == r as int {
                                let i = choose|i: int|
                                    0 <= i < entries_seq.len() && (#[trigger] entries_seq[
                                    i]).fingerprint == fp && indexable_spec(entries_seq[i].mode);
                                assert(idx.contains_fp(fp));
                            }
                        }
                    }
                },
                None => {
                    proof {
                        assert(b.rev_target_tree(r as int, path@) is None);
                        assert(forall|fp: u64| !b.rev_lists_fp(r as int, path@, fp));
                    }
                },
            }
        }
        r = r + 1;
    }
    proof {
        crate::reach::lemma_reaches_self(*b, start as int);
        assert forall|k: int| 0 <= k < idx.entries@.len() implies is_oldest_for(
            *b,
            start as int,
            path@,
            (#[trigger] idx.entries@[k]).fingerprint,
            idx.entries@[k].revision as int,
        ) by {
            lemma_attributed_full(
                *b,
                start as int,
                path@,
                idx.entries@[k].fingerprint,
                idx.entries@[k].revision as int,
            );
        }
    }
    idx
}

/// The position of the entry keyed `fp`, which must be present.
fn idx_position(idx: &ProvenanceIndex, fp: u64) -> (k: usize)
    requires
        idx.find(fp) >= 0,
    ensures
        k == idx.find(fp),
        k < idx.entries@.len(),
        idx.entries@[k as int].fingerprint == fp,
{
    proof {
        lemma_index_find_at(idx.entries@, fp, 0);
    }
    let n = idx.entries.len();
    let mut i: usize = 0;
    while i < n
        invariant
            n == idx.entries@.len(),
            0 <= i <= n,
            idx.find(fp) >= 0,
            forall|j: int| 0 <= j < i ==> (#[trigger] idx.entries@[j]).fingerprint != fp,
            index_find_at(idx.entries@, fp, 0) == index_find_at(idx.entries@, fp, i as int),
        decreases n - i,
    {
        if idx.entries[i].fingerprint == fp {
            return i;
        }
        i = i + 1;
    }
    proof {
        assert(false);
    }
    0
}

} // verus!
