//! The path resolver's normalization step.
//!
//! A user-supplied path may begin with components that carry no meaning
//! relative to the repository root: a drive prefix, a root marker, or a
//! relative-dot marker. Normalization finds the first such marker, discards
//! everything up to and including it, and keeps the remainder as a pure
//! sequence of child names. A remainder that still holds a marker cannot
//! denote a repository-relative name sequence, and normalization rejects it.

use vstd::prelude::*;

verus! {

/// One component of a user-supplied filesystem path.
#[derive(Clone, Debug, PartialEq, Eq)]
pub enum PathComponent {
    /// A drive or volume prefix.
    Prefix,
    /// The filesystem root.
    RootDir,
    /// The current directory, `.`.
    CurDir,
    /// The parent directory, `..`.
    ParentDir,
    /// An ordinary child name.
    Normal { name: String },
}

/// Whether `c` is a non-semantic marker rather than a child name.
pub open spec fn is_marker(c: PathComponent) -> bool {
    !(c is Normal)
}

/// Whether every component of `s` is an ordinary child name.
pub open spec fn all_normal(s: Seq<PathComponent>) -> bool {
    forall|i: int| 0 <= i < s.len() ==> !is_marker(#[trigger] s[i])
}

/// The child names of a path whose components are all ordinary names.
pub open spec fn names_of(s: Seq<PathComponent>) -> Seq<String> {
    s.map_values(|c: PathComponent| c->name)
}

/// The index of the first marker component of `s` at or after `i`, or `-1`
/// if there is none.
pub open spec fn first_marker_at(s: Seq<PathComponent>, i: int) -> int
    decreases s.len() - i,
{
    if i < 0 || i >= s.len() {
        -1
    } else if is_marker(s[i]) {
        i
    } else {
        first_marker_at(s, i + 1)
    }
}

/// The normalized form of `s`: the child names that remain after the first
/// marker component and everything before it are discarded, or `None` when
/// a marker remains among them.
pub open spec fn normalize_spec(s: Seq<PathComponent>) -> Option<Seq<String>> {
    let m = first_marker_at(s, 0);
    let rest = if m < 0 {
        s
    } else {
        s.skip(m + 1)
    };
    if all_normal(rest) {
        Some(names_of(rest))
    } else {
        None
    }
}

proof fn lemma_first_marker_at_bounds(s: Seq<PathComponent>, i: int)
    requires
        0 <= i <= s.len(),
    ensures
        first_marker_at(s, i) == -1 || (i <= first_marker_at(s, i) < s.len()
            && is_marker(s[first_marker_at(s, i)])),
        first_marker_at(s, i) == -1 ==> forall|j: int|
            i <= j < s.len() ==> !is_marker(#[trigger] s[j]),
        forall|j: int| i <= j < first_marker_at(s, i) ==> !is_marker(#[trigger] s[j]),
    decreases s.len() - i,
{
    if 0 <= i < s.len() && !is_marker(s[i]) {
        lemma_first_marker_at_bounds(s, i + 1);
    }
}

/// Normalize a user-supplied path into a repository-relative sequence of
/// child names.
///
/// The components up to and including the first marker are discarded; if no
/// marker occurs, the path is used unchanged. `None` is returned exactly
/// when a marker remains after that point.
pub fn normalize(path: &Vec<PathComponent>) -> (r: Option<Vec<String>>)
    ensures
        match r {
            Some(names) => normalize_spec(path@) == Some(names@),
            None => normalize_spec(path@) is None,
        },
{
    let n = path.len();
    let mut i: usize = 0;
    let mut marker: Option<usize> = None;
    while i < n && marker.is_none()
        invariant
            n == path@.len(),
            0 <= i <= n,
            match marker {
                Some(m) => 0 <= m < n && is_marker(path@[m as int]) && forall|j: int|
                    0 <= j < m ==> !is_marker(#[trigger] path@[j]),
                None => forall|j: int| 0 <= j < i ==> !is_marker(#[trigger] path@[j]),
            },
        decreases n - i,
    {
        match path[i] {
            PathComponent::Normal { .. } => {},
            _ => {
                marker = Some(i);
            },
        }
        i = i + 1;
    }
    proof {
        lemma_first_marker_at_bounds(path@, 0);
    }
    let start: usize = match marker {
        Some(m) => m + 1,
        None => 0,
    };
    assert(match marker {
        Some(m) => first_marker_at(path@, 0) == m,
        None => first_marker_at(path@, 0) == -1,
    });
    let ghost rest = if first_marker_at(path@, 0) < 0 {
        path@
    } else {
        path@.skip(first_marker_at(path@, 0) + 1)
    };
    assert(rest =~= path@.skip(start as int));
    let mut names: Vec<String> = Vec::new();
    let mut j: usize = start;
    while j < n
        invariant
            n == path@.len(),
            start <= j <= n,
            rest =~= path@.skip(start as int),
            normalize_spec(path@) == (if all_normal(rest) {
                Some(names_of(rest))
            } else {
                Option::<Seq<String>>::None
            }),
            all_normal(path@.subrange(start as int, j as int)),
            names@ =~= names_of(path@.subrange(start as int, j as int)),
        decreases n - j,
    {
        match &path[j] {
            PathComponent::Normal { name } => {
                names.push(name.clone());
            },
            _ => {
                proof {
                    assert(is_marker(rest[j - start]));
                    assert(!all_normal(rest));
                }
                return None;
            },
        }
        assert(path@.subrange(start as int, j as int + 1) =~= path@.subrange(
            start as int,
            j as int,
        ).push(path@[j as int]));
        assert(names@ =~= names_of(path@.subrange(start as int, j as int + 1)));
        j = j + 1;
    }
    assert(path@.subrange(start as int, n as int) =~= rest);
    assert(all_normal(rest));
    Some(names)
}

/// Normalizing a path that is already a pure sequence of child names
/// returns those names unchanged.
pub proof fn lemma_normalize_preserves_normalized(path: Seq<PathComponent>)
    requires
        all_normal(path),
    ensures
        normalize_spec(path) == Some(names_of(path)),
{
    lemma_first_marker_at_bounds(path, 0);
    if first_marker_at(path, 0) >= 0 {
        assert(is_marker(path[first_marker_at(path, 0)]));
    }
}

/// Normalization is idempotent: wrapping the names produced by one
/// normalization back into path components and normalizing again returns
/// the same names.
pub proof fn lemma_normalize_idempotent(path: Seq<PathComponent>, names: Seq<String>)
    requires
        normalize_spec(path) == Some(names),
    ensures
        normalize_spec(names.map_values(|n: String| PathComponent::Normal { name: n })) == Some(
            names,
        ),
{
    let wrapped = names.map_values(|n: String| PathComponent::Normal { name: n });
    assert(all_normal(wrapped));
    lemma_normalize_preserves_normalized(wrapped);
    assert(names_of(wrapped) =~= names);
}

} // verus!
