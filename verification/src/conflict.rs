//! The path-conflict checker: rejects a path set in which two paths are
//! equal or one nests inside the other.

use vstd::prelude::*;

use crate::path::{is_prefix, paths_conflict, FieldPath};

verus! {

/// Why a path set was rejected.  The indices point into the checked list,
/// so the error names the exact conflicting pair.
#[derive(Clone, Copy, Debug, PartialEq, Eq, Structural)]
pub enum ConflictError {
    /// The same path occurs twice: positions `first` and `second`.
    DuplicateField { first: usize, second: usize },
    /// The path at `ancestor` is a proper prefix of the path at
    /// `descendant`: a parent and one of its own fields cannot be borrowed
    /// exclusively at the same time.
    NestedFieldConflict { ancestor: usize, descendant: usize },
}

/// The token sequences of a list of paths.
pub open spec fn path_models(paths: Seq<FieldPath>) -> Seq<Seq<Seq<char>>> {
    paths.map_values(|p: FieldPath| p@)
}

/// The exclusivity invariant of a path set: no two member paths are equal
/// or nested one inside the other.
pub open spec fn conflict_free(ps: Seq<Seq<Seq<char>>>) -> bool {
    forall|i: int, j: int| 0 <= i < j < ps.len() ==> !paths_conflict(ps[i], ps[j])
}

/// Every unordered pair scanned before the pair `(i, j)` under the fixed
/// left-to-right, top-to-bottom scan is free of conflict.
pub open spec fn clear_before(ps: Seq<Seq<Seq<char>>>, i: int, j: int) -> bool {
    forall|i2: int, j2: int|
        0 <= i2 < j2 < ps.len() && (i2 < i || (i2 == i && j2 < j)) ==> !paths_conflict(
            ps[i2],
            ps[j2],
        )
}

/// `e` names the first conflicting pair of `ps` under the fixed
/// left-to-right, top-to-bottom scan, with the right relation: a duplicate
/// for two equal paths, a nesting — ancestor the shorter path — for a
/// proper prefix pair.
pub open spec fn describes_first_conflict(ps: Seq<Seq<Seq<char>>>, e: ConflictError) -> bool {
    match e {
        ConflictError::DuplicateField { first, second } => {
            &&& first < second < ps.len()
            &&& ps[first as int] == ps[second as int]
            &&& clear_before(ps, first as int, second as int)
        },
        ConflictError::NestedFieldConflict { ancestor, descendant } => {
            &&& ancestor < ps.len()
            &&& descendant < ps.len()
            &&& ancestor != descendant
            &&& is_prefix(ps[ancestor as int], ps[descendant as int])
            &&& ps[ancestor as int].len() < ps[descendant as int].len()
            &&& ({
                let lo = if ancestor < descendant {
                    ancestor as int
                } else {
                    descendant as int
                };
                let hi = if ancestor < descendant {
                    descendant as int
                } else {
                    ancestor as int
                };
                clear_before(ps, lo, hi)
            })
        },
    }
}

/// Decide whether a path set meets the exclusivity invariant.
///
/// Pairs are scanned left to right, then top to bottom, and the first
/// conflicting pair found is reported: as a duplicate when the two token
/// sequences are equal, otherwise as a nesting with the shorter path named
/// as the ancestor.  A set with no conflicting pair — in particular any
/// empty or single-path set — is accepted.
pub fn check_paths(paths: &Vec<FieldPath>) -> (r: Result<(), ConflictError>)
    ensures
        r is Ok <==> conflict_free(path_models(paths@)),
        r matches Err(e) ==> describes_first_conflict(path_models(paths@), e),
{
    let ghost ps = path_models(paths@);
    let n = paths.len();
    let mut i: usize = 0;
    while i < n
        invariant
            0 <= i <= n,
            n == paths@.len(),
            ps == path_models(paths@),
            clear_before(ps, i as int, i as int + 1),
        decreases n - i,
    {
        let mut j: usize = i + 1;
        while j < n
            invariant
                0 <= i < j <= n,
                i + 1 <= j,
                n == paths@.len(),
                ps == path_models(paths@),
                clear_before(ps, i as int, j as int),
            decreases n - j,
        {
            if paths[i].conflicts_with(&paths[j]) {
                assert(paths_conflict(ps[i as int], ps[j as int]));
                assert(!conflict_free(ps));
                let li = paths[i].len();
                let lj = paths[j].len();
                if li == lj {
                    assert(ps[i as int] =~= ps[j as int]);
                    return Err(ConflictError::DuplicateField { first: i, second: j });
                } else if li < lj {
                    return Err(ConflictError::NestedFieldConflict { ancestor: i, descendant: j });
                } else {
                    return Err(ConflictError::NestedFieldConflict { ancestor: j, descendant: i });
                }
            }
            j += 1;
        }
        i += 1;
    }
    Ok(())
}

/// A set holding the same path twice is never conflict-free, wherever the
/// two occurrences stand in the list.
pub proof fn lemma_duplicate_conflicts(ps: Seq<Seq<Seq<char>>>, i: int, j: int)
    requires
        0 <= i < ps.len(),
        0 <= j < ps.len(),
        i != j,
        ps[i] == ps[j],
    ensures
        !conflict_free(ps),
{
    if i < j {
        assert(paths_conflict(ps[i], ps[j]));
    } else {
        assert(paths_conflict(ps[j], ps[i]));
    }
}

/// A set holding a path together with one of its extensions is never
/// conflict-free, wherever the two stand in the list.
pub proof fn lemma_nested_conflicts(ps: Seq<Seq<Seq<char>>>, i: int, j: int)
    requires
        0 <= i < ps.len(),
        0 <= j < ps.len(),
        i != j,
        is_prefix(ps[i], ps[j]),
    ensures
        !conflict_free(ps),
{
    if i < j {
        assert(paths_conflict(ps[i], ps[j]));
    } else {
        assert(paths_conflict(ps[j], ps[i]));
    }
}

} // verus!
