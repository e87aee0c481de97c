//! Symbolic field-access paths and the prefix/conflict relations on them.

use vstd::prelude::*;

verus! {

/// A symbolic field-access path: an ordered sequence of accessor tokens
/// (field names, or tuple/array positions written as digit tokens) that
/// identifies a nested location reachable from a root aggregate by repeated
/// field access.  Paths are purely syntactic: two paths denote the same
/// location exactly when their token sequences are equal.
pub struct FieldPath {
    segs: Vec<String>,
}

impl View for FieldPath {
    type V = Seq<Seq<char>>;

    closed spec fn view(&self) -> Seq<Seq<char>> {
        self.segs@.map_values(|s: String| s@)
    }
}

impl Clone for FieldPath {
    /// An equal path: the same token sequence.
    fn clone(&self) -> (r: FieldPath)
        ensures
            r@ == self@,
    {
        let n = self.segs.len();
        let mut segs: Vec<String> = Vec::new();
        let mut i: usize = 0;
        while i < n
            invariant
                i <= n,
                n == self.segs@.len(),
                segs@.len() == i as int,
                forall|j: int| 0 <= j < i ==> segs@[j]@ == self.segs@[j]@,
            decreases n - i,
        {
            segs.push(self.segs[i].clone());
            i += 1;
        }
        let r = FieldPath { segs };
        proof {
            assert(r@ =~= self@);
        }
        r
    }
}

/// `a` is an initial subsequence of `b` (equality included): the location
/// named by `b` lies inside the storage of the location named by `a`.
pub open spec fn is_prefix(a: Seq<Seq<char>>, b: Seq<Seq<char>>) -> bool {
    a.len() <= b.len() && forall|i: int| 0 <= i < a.len() ==> a[i] == b[i]
}

/// Two paths conflict when one equals or is a prefix of the other, which
/// means their storage regions overlap.
pub open spec fn paths_conflict(a: Seq<Seq<char>>, b: Seq<Seq<char>>) -> bool {
    is_prefix(a, b) || is_prefix(b, a)
}

impl FieldPath {
    /// Build a path from its accessor tokens, in root-to-leaf order.
    pub fn new(segs: Vec<String>) -> (r: FieldPath)
        ensures
            r@ == segs@.map_values(|s: String| s@),
    {
        FieldPath { segs }
    }

    /// Number of accessor tokens.
    pub fn len(&self) -> (r: usize)
        ensures
            r == self@.len(),
    {
        self.segs.len()
    }

    /// The `i`-th accessor token, counted from the root.
    pub fn seg(&self, i: usize) -> (r: &String)
        requires
            i < self@.len(),
        ensures
            r@ == self@[i as int],
    {
        &self.segs[i]
    }

    /// Whether every token of `self` matches the corresponding initial token
    /// of `other` (so `other` names a location inside `self`'s storage, or
    /// the very same location).
    pub fn is_prefix_of(&self, other: &FieldPath) -> (r: bool)
        ensures
            r == is_prefix(self@, other@),
    {
        let n = self.segs.len();
        if n > other.segs.len() {
            return false;
        }
        let mut i: usize = 0;
        while i < n
            invariant
                0 <= i <= n,
                n == self@.len(),
                n <= other@.len(),
                forall|j: int| 0 <= j < i ==> self@[j] == other@[j],
            decreases n - i,
        {
            if !(*self.seg(i) == *other.seg(i)) {
                assert(self@[i as int] != other@[i as int]);
                return false;
            }
            i += 1;
        }
        true
    }

    /// Whether the two paths conflict: one equals or is a prefix of the
    /// other.
    pub fn conflicts_with(&self, other: &FieldPath) -> (r: bool)
        ensures
            r == paths_conflict(self@, other@),
    {
        if self.segs.len() <= other.segs.len() {
            self.is_prefix_of(other)
        } else {
            other.is_prefix_of(self)
        }
    }
}

} // verus!
