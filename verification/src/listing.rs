//! The listing assembler: the engine's single entry point.
//!
//! It resolves the target directory at the starting revision, builds the
//! provenance index over the starting revision's full ancestry, and joins
//! each immediate child entry against the index to produce one annotated
//! row per entry, in the order the directory object reports its entries.

use vstd::prelude::*;

verus! {

use crate::backend::Backend;
use crate::backend::TreeEntryRecord;
use crate::error::ListingError;
use crate::index::build_index;
use crate::index::is_oldest_for;
use crate::mode::EntryKind;
use crate::mode::classify;
use crate::mode::classify_spec;
use crate::mode::indexable_spec;
use crate::paths::PathComponent;
use crate::paths::normalize;
use crate::paths::normalize_spec;
use crate::reach::acyclic;
use crate::reach::lemma_reaches_self;

/// One row of the annotated listing: a directory entry joined with the
/// oldest ancestor revision observed to contain its content, and that
/// revision's summary message.
#[derive(Clone, Debug)]
pub struct AnnotatedEntry {
    pub name: String,
    pub kind: EntryKind,
    pub fingerprint: u64,
    pub attributed_revision: usize,
    pub attributed_message: String,
}

/// The entries of a directory that appear in the listing: those whose mode
/// takes part in indexing, in reported order.
pub open spec fn kept_entries(s: Seq<TreeEntryRecord>) -> Seq<TreeEntryRecord>
    decreases s.len(),
{
    if s.len() == 0 {
        Seq::empty()
    } else if indexable_spec(s.last().mode) {
        kept_entries(s.drop_last()).push(s.last())
    } else {
        kept_entries(s.drop_last())
    }
}

/// What one annotated row says about the directory entry it was produced
/// from: the same name and fingerprint, the entry's classification, and an
/// attribution satisfying the oldest-revision contract, together with that
/// revision's summary message.
pub open spec fn row_matches(
    b: Backend,
    start: int,
    names: Seq<String>,
    ent: TreeEntryRecord,
    row: AnnotatedEntry,
) -> bool {
    &&& row.name == ent.name
    &&& classify_spec(ent.mode) == Some(row.kind)
    &&& row.fingerprint == ent.fingerprint
    &&& row.attributed_revision < b.revisions@.len()
    &&& is_oldest_for(b, start, names, ent.fingerprint, row.attributed_revision as int)
    &&& row.attributed_message == b.revisions@[row.attributed_revision as int].message
}

/// Whether every entry of the directory at the resolved target carries a
/// recognized mode.
pub open spec fn all_modes_recognized(b: Backend, t: int) -> bool {
    forall|e: int|
        0 <= e < b.trees@[t].entries@.len() ==> classify_spec(
            (#[trigger] b.trees@[t].entries@[e]).mode,
        ) is Some
}

/// Build the annotated listing for `path` at `start`.
///
/// The user-supplied path is normalized, the directory at the normalized
/// path is resolved at the starting revision, the provenance index is
/// built over the starting revision's full ancestry, and every immediate
/// child entry other than submodule links becomes one row. `PathNotFound`
/// reports a path that cannot be normalized (with an empty path) or that
/// does not resolve to a directory at the starting revision (with the
/// normalized path); `UnrecognizedMode` reports the mode of an entry
/// outside the five known kinds. `BackendReadFailure` concerns only the
/// layer that snapshots the backend, and a completed index covers every
/// listed fingerprint, so neither `BackendReadFailure` nor
/// `InternalConsistency` is ever returned.
pub fn build_listing(b: &Backend, start: usize, path: &Vec<PathComponent>) -> (r: Result<
    Vec<AnnotatedEntry>,
    ListingError,
>)
    requires
        b.wf(),
        acyclic(*b),
        start < b.revisions@.len(),
    ensures
        !(r matches Err(ListingError::BackendReadFailure { .. })),
        !(r matches Err(ListingError::InternalConsistency)),
        r matches Err(ListingError::PathNotFound { .. }) <==> (normalize_spec(path@) is None
            || b.rev_target_tree(start as int, normalize_spec(path@)->0) is None),
        (r matches Err(ListingError::PathNotFound { path: p }) ==> {
            ||| (normalize_spec(path@) is None && p@ == Seq::<String>::empty())
            ||| (normalize_spec(path@) is Some && p@ == normalize_spec(path@)->0)
        }),
        (r matches Err(ListingError::UnrecognizedMode { mode }) ==> {
            &&& normalize_spec(path@) is Some
            &&& b.rev_target_tree(start as int, normalize_spec(path@)->0) is Some
            &&& classify_spec(mode) is None
            &&& exists|e: int|
                0 <= e < b.trees@[b.tree_index_of(
                    b.rev_target_tree(start as int, normalize_spec(path@)->0)->0,
                )].entries@.len() && (#[trigger] b.trees@[b.tree_index_of(
                    b.rev_target_tree(start as int, normalize_spec(path@)->0)->0,
                )].entries@[e]).mode == mode
        }),
        (r matches Ok(rows) ==> {
            let names = normalize_spec(path@)->0;
            let t = b.tree_index_of(b.rev_target_tree(start as int, names)->0);
            let kept = kept_entries(b.trees@[t].entries@);
            &&& normalize_spec(path@) is Some
            &&& b.rev_target_tree(start as int, names) is Some
            &&& all_modes_recognized(*b, t)
            &&& rows@.len() == kept.len()
            &&& forall|i: int|
                0 <= i < kept.len() ==> row_matches(
                    *b,
                    start as int,
                    names,
                    kept[i],
                    #[trigger] rows@[i],
                )
        }),
        (normalize_spec(path@) is Some && b.rev_target_tree(
            start as int,
            normalize_spec(path@)->0,
        ) is Some && all_modes_recognized(
            *b,
            b.tree_index_of(b.rev_target_tree(start as int, normalize_spec(path@)->0)->0),
        )) ==> r is Ok,
{
    let names = match normalize(path) {
        Some(names) => names,
        None => {
            return Err(ListingError::PathNotFound { path: Vec::new() });
        },
    };
    let idx = build_index(b, start, &names);
    let root_fp = b.revisions[start].root_tree;
    let t = match b.resolve_dir(root_fp, &names) {
        Some(t) => t,
        None => {
            return Err(ListingError::PathNotFound { path: names });
        },
    };
    let ghost entries_seq = b.trees@[t as int].entries@;
    let ghost gt = b.tree_index_of(b.rev_target_tree(start as int, names@)->0);
    proof {
        assert(gt == t as int);
        lemma_reaches_self(*b, start as int);
    }
    let m = b.trees[t].entries.len();
    let mut rows: Vec<AnnotatedEntry> = Vec::new();
    let mut e: usize = 0;
    while e < m
        invariant
            b.wf(),
            acyclic(*b),
            start < b.revisions@.len(),
            t < b.trees@.len(),
            entries_seq == b.trees@[t as int].entries@,
            m == entries_seq.len(),
            0 <= e <= m,
            b.rev_target_tree(start as int, names@) == Some(b.trees@[t as int].fingerprint),
            b.tree_index_of(b.trees@[t as int].fingerprint) == t,
            normalize_spec(path@) == Some(names@),
            crate::reach::reaches(*b, start as int, start as int),
            idx.keys_unique(),
            forall|k: int|
                0 <= k < idx.entries@.len() ==> is_oldest_for(
                    *b,
                    start as int,
                    names@,
                    (#[trigger] idx.entries@[k]).fingerprint,
                    idx.entries@[k].revision as int,
                ),
            forall|rr: int, fp: u64|
                crate::reach::reaches(*b, start as int, rr) && #[trigger] b.rev_lists_fp(
                    rr,
                    names@,
                    fp,
                ) ==> idx.contains_fp(fp),
            forall|i: int|
                0 <= i < e ==> classify_spec((#[trigger] entries_seq[i]).mode) is Some,
            rows@.len() == kept_entries(entries_seq.take(e as int)).len(),
            forall|i: int|
                0 <= i < rows@.len() ==> row_matches(
                    *b,
                    start as int,
                    names@,
                    kept_entries(entries_seq.take(e as int))[i],
                    #[trigger] rows@[i],
                ),
        decreases m - e,
    {
        let entry_mode = b.trees[t].entries[e].mode;
        let fp = b.trees[t].entries[e].fingerprint;
        let kind = match classify(entry_mode) {
            Ok(kind) => kind,
            Err(err) => {
                proof {
                    assert(b.tree_index_of(b.rev_target_tree(start as int, names@)->0) == t
                        as int);
                    assert(b.trees@[t as int].entries@[e as int].mode == entry_mode);
                    assert(classify_spec(entry_mode) is None);
                }
                return Err(err);
            },
        };
        proof {
            assert(entries_seq.take(e as int + 1).drop_last() =~= entries_seq.take(e as int));
            assert(entries_seq.take(e as int + 1).last() == entries_seq[e as int]);
        }
        match kind {
            EntryKind::SubmoduleLink => {
                proof {
                    assert(!indexable_spec(entries_seq[e as int].mode));
                    assert(kept_entries(entries_seq.take(e as int + 1)) =~= kept_entries(
                        entries_seq.take(e as int),
                    ));
                }
            },
            _ => {
                proof {
                    assert(indexable_spec(entries_seq[e as int].mode));
                    let tfp = b.rev_target_tree(start as int, names@)->0;
                    assert(b.tree_index_of(tfp) == t as int);
                    assert(b.trees@[b.tree_index_of(tfp)].entries@[e as int].fingerprint == fp);
                    assert(indexable_spec(b.trees@[b.tree_index_of(tfp)].entries@[e as int].mode));
                    assert(b.rev_lists_fp(start as int, names@, fp));
                }
                match idx.lookup(fp) {
                    Some(rev) => {
                        proof {
                            let k = idx.find(fp);
                            assert(is_oldest_for(
                                *b,
                                start as int,
                                names@,
                                idx.entries@[k].fingerprint,
                                idx.entries@[k].revision as int,
                            ));
                        }
                        let row = AnnotatedEntry {
                            name: b.trees[t].entries[e].name.clone(),
                            kind,
                            fingerprint: fp,
                            attributed_revision: rev,
                            attributed_message: b.revisions[rev].message.clone(),
                        };
                        rows.push(row);
                        proof {
                            assert(kept_entries(entries_seq.take(e as int + 1))
                                =~= kept_entries(entries_seq.take(e as int)).push(
                                entries_seq[e as int],
                            ));
                        }
                    },
                    None => {
                        proof {
                            assert(idx.contains_fp(fp));
                            assert(false);
                        }
                        return Err(ListingError::InternalConsistency);
                    },
                }
            },
        }
        e = e + 1;
    }
    proof {
        assert(entries_seq.take(m as int) =~= entries_seq);
    }
    Ok(rows)
}

} // verus!
