//! An in-memory snapshot of the version-history backend.
//!
//! The engine consumes a read-only backend: revisions with parent links,
//! content-addressed directory objects, and a summary message per revision.
//! A presentation layer reads those out of the real object store and hands
//! them over as the plain values below; the engine itself never performs
//! I/O. Directory objects are content-addressed: two objects with the same
//! fingerprint are the same object, so fingerprints are unique across the
//! tree store.

use vstd::prelude::*;

verus! {

use crate::mode::EntryKind;
use crate::mode::classify_spec;
use crate::mode::indexable_spec;

/// One child of a directory object, as reported by the backend: a name, a
/// numeric mode, and the content fingerprint of the child's blob or
/// subtree.
#[derive(Clone, Debug)]
pub struct TreeEntryRecord {
    pub name: String,
    pub mode: i32,
    pub fingerprint: u64,
}

/// A directory object: its own content fingerprint and its immediate
/// children, in the order the backend reports them.
#[derive(Clone, Debug)]
pub struct TreeRecord {
    pub fingerprint: u64,
    pub entries: Vec<TreeEntryRecord>,
}

/// One immutable point in history: its parent revisions (empty for a
/// root), the fingerprint of its root directory object, and its summary
/// message.
#[derive(Clone, Debug)]
pub struct RevisionRecord {
    pub parents: Vec<usize>,
    pub root_tree: u64,
    pub message: String,
}

/// The read-only history snapshot the engine works on. Revisions are
/// identified by their index in `revisions`; directory objects live in
/// `trees` and are looked up by fingerprint.
#[derive(Clone, Debug)]
pub struct Backend {
    pub revisions: Vec<RevisionRecord>,
    pub trees: Vec<TreeRecord>,
}

/// The first index at or after `i` of a tree whose fingerprint is `fp`, or
/// `-1` if there is none.
pub open spec fn find_tree_at(trees: Seq<TreeRecord>, fp: u64, i: int) -> int
    decreases trees.len() - i,
{
    if i < 0 || i >= trees.len() {
        -1
    } else if trees[i].fingerprint == fp {
        i
    } else {
        find_tree_at(trees, fp, i + 1)
    }
}

/// The first index at or after `i` of an entry named `name`, or `-1` if
/// there is none.
pub open spec fn find_entry_at(entries: Seq<TreeEntryRecord>, name: Seq<char>, i: int) -> int
    decreases entries.len() - i,
{
    if i < 0 || i >= entries.len() {
        -1
    } else if entries[i].name@ == name {
        i
    } else {
        find_entry_at(entries, name, i + 1)
    }
}

pub proof fn lemma_find_tree_at(trees: Seq<TreeRecord>, fp: u64, i: int)
    requires
        0 <= i <= trees.len(),
    ensures
        find_tree_at(trees, fp, i) == -1 || (i <= find_tree_at(trees, fp, i) < trees.len()
            && trees[find_tree_at(trees, fp, i)].fingerprint == fp),
        find_tree_at(trees, fp, i) == -1 ==> forall|j: int|
            i <= j < trees.len() ==> (#[trigger] trees[j]).fingerprint != fp,
        forall|j: int| i <= j < find_tree_at(trees, fp, i) ==> (#[trigger] trees[j]).fingerprint
            != fp,
    decreases trees.len() - i,
{
    if i < trees.len() && trees[i].fingerprint != fp {
        lemma_find_tree_at(trees, fp, i + 1);
    }
}

pub proof fn lemma_find_entry_at(entries: Seq<TreeEntryRecord>, name: Seq<char>, i: int)
    requires
        0 <= i <= entries.len(),
    ensures
        find_entry_at(entries, name, i) == -1 || (i <= find_entry_at(entries, name, i)
            < entries.len() && entries[find_entry_at(entries, name, i)].name@ == name),
        find_entry_at(entries, name, i) == -1 ==> forall|j: int|
            i <= j < entries.len() ==> (#[trigger] entries[j]).name@ != name,
        forall|j: int| i <= j < find_entry_at(entries, name, i) ==> (#[trigger] entries[j]).name@
            != name,
    decreases entries.len() - i,
{
    if i < entries.len() && entries[i].name@ != name {
        lemma_find_entry_at(entries, name, i + 1);
    }
}

impl Backend {
    /// The index of the tree whose fingerprint is `fp`, or `-1`.
    pub open spec fn tree_index_of(self, fp: u64) -> int {
        find_tree_at(self.trees@, fp, 0)
    }

    /// Whether the tree store holds an object with fingerprint `fp`.
    pub open spec fn has_tree(self, fp: u64) -> bool {
        self.tree_index_of(fp) >= 0
    }

    /// Structural well-formedness of the snapshot: parent links and root
    /// trees resolve, tree fingerprints are unique (content addressing),
    /// and every subdirectory entry's fingerprint resolves to a tree.
    pub open spec fn wf(self) -> bool {
        &&& forall|r: int, j: int|
            0 <= r < self.revisions@.len() && 0 <= j < self.revisions@[r].parents@.len()
                ==> (#[trigger] self.revisions@[r].parents@[j]) < self.revisions@.len()
        &&& forall|r: int|
            0 <= r < self.revisions@.len() ==> self.has_tree(
                (#[trigger] self.revisions@[r]).root_tree,
            )
        &&& forall|i: int, j: int|
            0 <= i < j < self.trees@.len() ==> (#[trigger] self.trees@[i]).fingerprint != (
            #[trigger] self.trees@[j]).fingerprint
        &&& forall|t: int, e: int|
            0 <= t < self.trees@.len() && 0 <= e < self.trees@[t].entries@.len()
                && classify_spec((#[trigger] self.trees@[t].entries@[e]).mode) == Some(
                EntryKind::Directory,
            ) ==> self.has_tree(self.trees@[t].entries@[e].fingerprint)
    }

    /// The directory object reached by descending from the tree with
    /// fingerprint `tree_fp` along the child names of `path`: each step
    /// requires the current object to hold the named child and that child
    /// to classify as a directory. `None` when a step fails.
    pub open spec fn resolve_spec(self, tree_fp: u64, path: Seq<String>) -> Option<u64>
        decreases path.len(),
    {
        if path.len() == 0 {
            Some(tree_fp)
        } else {
            let t = self.tree_index_of(tree_fp);
            if t < 0 {
                None
            } else {
                let e = find_entry_at(self.trees@[t].entries@, path[0]@, 0);
                if e < 0 {
                    None
                } else if classify_spec(self.trees@[t].entries@[e].mode) == Some(
                    EntryKind::Directory,
                ) {
                    self.resolve_spec(self.trees@[t].entries@[e].fingerprint, path.drop_first())
                } else {
                    None
                }
            }
        }
    }

    /// The directory object at `path` below the root of revision `r`, or
    /// `None` when the path does not exist at that revision.
    pub open spec fn rev_target_tree(self, r: int, path: Seq<String>) -> Option<u64> {
        self.resolve_spec(self.revisions@[r].root_tree, path)
    }

    /// Whether revision `r` lists fingerprint `fp`: the path resolves at
    /// `r` and the resolved directory holds an immediate child with that
    /// fingerprint whose mode takes part in indexing.
    pub open spec fn rev_lists_fp(self, r: int, path: Seq<String>, fp: u64) -> bool {
        &&& 0 <= r < self.revisions@.len()
        &&& match self.rev_target_tree(r, path) {
            Some(tfp) => {
                let t = self.tree_index_of(tfp);
                &&& t >= 0
                &&& exists|e: int|
                    0 <= e < self.trees@[t].entries@.len() && (#[trigger] self.trees@[
                    t].entries@[e]).fingerprint == fp && indexable_spec(
                        self.trees@[t].entries@[e].mode,
                    )
            },
            None => false,
        }
    }

    /// Look up the tree whose fingerprint is `fp`.
    pub fn find_tree(&self, fp: u64) -> (r: Option<usize>)
        ensures
            match r {
                Some(t) => self.tree_index_of(fp) == t && t < self.trees@.len()
                    && self.trees@[t as int].fingerprint == fp,
                None => self.tree_index_of(fp) == -1,
            },
    {
        proof {
            lemma_find_tree_at(self.trees@, fp, 0);
        }
        let n = self.trees.len();
        let mut i: usize = 0;
        while i < n
            invariant
                n == self.trees@.len(),
                0 <= i <= n,
                forall|j: int| 0 <= j < i ==> (#[trigger] self.trees@[j]).fingerprint != fp,
                find_tree_at(self.trees@, fp, 0) == find_tree_at(self.trees@, fp, i as int),
            decreases n - i,
        {
            if self.trees[i].fingerprint == fp {
                return Some(i);
            }
            i = i + 1;
        }
        None
    }

    /// Find the first entry of `entries` named `name`.
    pub fn find_entry(entries: &Vec<TreeEntryRecord>, name: &String) -> (r: Option<usize>)
        ensures
            match r {
                Some(e) => find_entry_at(entries@, name@, 0) == e && e < entries@.len()
                    && entries@[e as int].name@ == name@,
                None => find_entry_at(entries@, name@, 0) == -1,
            },
    {
        proof {
            lemma_find_entry_at(entries@, name@, 0);
        }
        let n = entries.len();
        let mut i: usize = 0;
        while i < n
            invariant
                n == entries@.len(),
                0 <= i <= n,
                forall|j: int| 0 <= j < i ==> (#[trigger] entries@[j]).name@ != name@,
                find_entry_at(entries@, name@, 0) == find_entry_at(entries@, name@, i as int),
            decreases n - i,
        {
            if entries[i].name == *name {
                return Some(i);
            }
            i = i + 1;
        }
        None
    }

    /// Descend from the tree with fingerprint `root_fp` along the child
    /// names of `path`, returning the index of the resolved tree.
    pub fn resolve_dir(&self, root_fp: u64, path: &Vec<String>) -> (r: Option<usize>)
        requires
            self.wf(),
            self.has_tree(root_fp),
        ensures
            match r {
                Some(t) => {
                    &&& self.resolve_spec(root_fp, path@) == Some(self.trees@[t as int].fingerprint)
                    &&& t < self.trees@.len()
                    &&& self.tree_index_of(self.trees@[t as int].fingerprint) == t
                },
                None => self.resolve_spec(root_fp, path@) is None,
            },
    {
        let mut cur_fp = root_fp;
        let n = path.len();
        let mut i: usize = 0;
        assert(path@.skip(0) =~= path@);
        while i < n
            invariant
                self.wf(),
                n == path@.len(),
                0 <= i <= n,
                self.has_tree(cur_fp),
                self.resolve_spec(root_fp, path@) == self.resolve_spec(
                    cur_fp,
                    path@.skip(i as int),
                ),
            decreases n - i,
        {
            let ghost rest = path@.skip(i as int);
            assert(rest.len() > 0 && rest[0] == path@[i as int]);
            let t = match self.find_tree(cur_fp) {
                Some(t) => t,
                None => {
                    proof {
                        assert(false);
                    }
                    return None;
                },
            };
            let e = match Self::find_entry(&self.trees[t].entries, &path[i]) {
                Some(e) => e,
                None => {
                    assert(self.resolve_spec(cur_fp, rest) is None);
                    return None;
                },
            };
            let entry_mode = self.trees[t].entries[e].mode;
            if !(entry_mode == crate::mode::MODE_DIRECTORY) {
                assert(classify_spec(self.trees@[t as int].entries@[e as int].mode) != Some(
                    EntryKind::Directory,
                ));
                assert(self.resolve_spec(cur_fp, rest) is None);
                return None;
            }
            let next_fp = self.trees[t].entries[e].fingerprint;
            assert(self.resolve_spec(cur_fp, rest) == self.resolve_spec(
                next_fp,
                rest.drop_first(),
            ));
            assert(rest.drop_first() =~= path@.skip(i as int + 1));
            cur_fp = next_fp;
            i = i + 1;
        }
        assert(path@.skip(n as int) =~= Seq::<String>::empty());
        assert(self.resolve_spec(cur_fp, path@.skip(n as int)) == Some(cur_fp));
        let t = match self.find_tree(cur_fp) {
            Some(t) => t,
            None => {
                proof {
                    assert(false);
                }
                return None;
            },
        };
        Some(t)
    }
}

} // verus!
