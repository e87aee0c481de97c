//! Byte layouts of aggregates, resolution of a field path to its byte
//! range, and the theorem that unrelated paths resolve to disjoint ranges.

use vstd::prelude::*;

use crate::path::{is_prefix, FieldPath};

verus! {

/// One named field of a record layout: its accessor token, its byte offset
/// within the record's storage, and the layout of its own storage.
pub struct Field {
    pub name: String,
    pub offset: usize,
    pub layout: Layout,
}

/// The shape of an aggregate's storage.  A leaf is storage that is read and
/// written as a whole; a record gives each field a byte range of its own
/// inside the record's `size` bytes.
pub enum Layout {
    Leaf { size: usize },
    Record { size: usize, fields: Vec<Field> },
}

/// A resolved location: a byte offset and a byte length, relative to the
/// storage of the layout the path was resolved against.
pub struct Chunk {
    pub off: int,
    pub len: int,
}

/// Two byte ranges share no position.
pub open spec fn disjoint_ranges(o1: int, l1: int, o2: int, l2: int) -> bool {
    o1 + l1 <= o2 || o2 + l2 <= o1
}

/// A field's byte range lies inside a record of `size` bytes.
pub open spec fn field_fits(f: Field, size: int) -> bool {
    f.offset + f.layout.spec_size() <= size
}

/// Two fields of one record may coexist: distinct names, disjoint ranges.
pub open spec fn fields_separate(a: Field, b: Field) -> bool {
    &&& disjoint_ranges(
        a.offset as int,
        a.layout.spec_size(),
        b.offset as int,
        b.layout.spec_size(),
    )
    &&& a.name@ != b.name@
}

/// Index of the first field called `name`, or `-1` when there is none.
pub open spec fn field_index(fs: Seq<Field>, name: Seq<char>) -> int
    decreases fs.len(),
{
    if fs.len() == 0 {
        -1
    } else if fs[0].name@ == name {
        0
    } else {
        let r = field_index(fs.drop_first(), name);
        if r < 0 {
            -1
        } else {
            r + 1
        }
    }
}

impl Layout {
    /// Total storage size in bytes.
    pub open spec fn spec_size(self) -> int {
        match self {
            Layout::Leaf { size } => size as int,
            Layout::Record { size, .. } => size as int,
        }
    }

    /// Well-formedness of a layout: every field's byte range lies inside
    /// its record, the ranges of two distinct fields of one record are
    /// disjoint, field names within one record are unique, and the same
    /// holds all the way down.
    pub open spec fn wf(self) -> bool
        decreases self,
    {
        match self {
            Layout::Leaf { .. } => true,
            Layout::Record { size, fields } => {
                &&& forall|i: int|
                    0 <= i < fields@.len() ==> (#[trigger] fields@[i]).layout.wf()
                &&& forall|i: int|
                    0 <= i < fields@.len() ==> field_fits(#[trigger] fields@[i], size as int)
                &&& forall|i: int, j: int|
                    0 <= i < j < fields@.len() ==> fields_separate(
                        #[trigger] fields@[i],
                        #[trigger] fields@[j],
                    )
            },
        }
    }
}

impl Layout {
    /// Total storage size in bytes.
    pub fn size(&self) -> (r: usize)
        ensures
            r as int == self.spec_size(),
    {
        match self {
            Layout::Leaf { size } => *size,
            Layout::Record { size, .. } => *size,
        }
    }

    /// A leaf layout of `size` bytes.
    pub fn leaf(size: usize) -> (r: Layout)
        ensures
            r == (Layout::Leaf { size }),
            r.wf(),
    {
        Layout::Leaf { size }
    }

    /// Build a record layout of `size` bytes over the given fields,
    /// validating it: every field must fit inside the record, and the byte
    /// ranges and names of distinct fields must not collide.  Returns
    /// `None` exactly when the description violates one of those rules.
    pub fn record(size: usize, fields: Vec<Field>) -> (r: Option<Layout>)
        requires
            forall|i: int| 0 <= i < fields@.len() ==> (#[trigger] fields@[i]).layout.wf(),
        ensures
            match r {
                Some(l) => l == (Layout::Record { size, fields }) && l.wf(),
                None => !(Layout::Record { size, fields }).wf(),
            },
    {
        let ghost l = Layout::Record { size, fields };
        let n = fields.len();
        let mut i: usize = 0;
        while i < n
            invariant
                i <= n,
                n == fields@.len(),
                l == (Layout::Record { size, fields }),
                forall|k: int| 0 <= k < n ==> (#[trigger] fields@[k]).layout.wf(),
                forall|k: int| 0 <= k < i ==> field_fits(#[trigger] fields@[k], size as int),
                forall|a: int, b: int|
                    0 <= a < b < i ==> fields_separate(
                        #[trigger] fields@[a],
                        #[trigger] fields@[b],
                    ),
            decreases n - i,
        {
            let oi = fields[i].offset;
            let si = fields[i].layout.size();
            if oi > size || si > size - oi {
                assert(!field_fits(fields@[i as int], size as int));
                assert(!l.wf());
                return None;
            }
            let mut j: usize = 0;
            while j < i
                invariant
                    j <= i < n,
                    n == fields@.len(),
                    l == (Layout::Record { size, fields }),
                    oi == fields@[i as int].offset,
                    si as int == fields@[i as int].layout.spec_size(),
                    forall|k: int| 0 <= k < n ==> (#[trigger] fields@[k]).layout.wf(),
                    forall|k: int| 0 <= k <= i ==> field_fits(#[trigger] fields@[k], size as int),
                    forall|a: int, b: int|
                        0 <= a < b < i ==> fields_separate(
                            #[trigger] fields@[a],
                            #[trigger] fields@[b],
                        ),
                    forall|k: int|
                        0 <= k < j ==> fields_separate(
                            #[trigger] fields@[k],
                            fields@[i as int],
                        ),
                decreases i - j,
            {
                let oj = fields[j].offset;
                let sj = fields[j].layout.size();
                if !(oj + sj <= oi || oi + si <= oj) {
                    assert(!fields_separate(fields@[j as int], fields@[i as int]));
                    assert(!l.wf());
                    return None;
                }
                if fields[j].name == fields[i].name {
                    assert(!fields_separate(fields@[j as int], fields@[i as int]));
                    assert(!l.wf());
                    return None;
                }
                j += 1;
            }
            i += 1;
        }
        Some(Layout::Record { size, fields })
    }
}

/// The byte range a field path names inside a layout: `None` when the path
/// does not correspond to a field of the layout's shape.  The empty path
/// names the whole storage.  The range is computed from the layout alone;
/// no byte held in the storage enters into it.
pub open spec fn resolve(l: Layout, path: Seq<Seq<char>>) -> Option<Chunk>
    decreases path.len(),
{
    if path.len() == 0 {
        Some(Chunk { off: 0, len: l.spec_size() })
    } else {
        match l {
            Layout::Leaf { .. } => None,
            Layout::Record { size, fields } => {
                let idx = field_index(fields@, path[0]);
                if idx < 0 {
                    None
                } else {
                    match resolve(fields@[idx].layout, path.drop_first()) {
                        Some(c) => Some(
                            Chunk { off: fields@[idx].offset + c.off, len: c.len },
                        ),
                        None => None,
                    }
                }
            },
        }
    }
}

impl Layout {
    /// Resolution from token `from` on: the executable mirror of
    /// [`resolve`] on the path's suffix.
    fn resolve_from(&self, path: &FieldPath, from: usize) -> (r: Option<(usize, usize)>)
        requires
            self.wf(),
            from <= path@.len(),
        ensures
            ({
                let m = resolve(*self, path@.skip(from as int));
                match r {
                    Some(p) => m is Some && p.0 as int == m->Some_0.off && p.1 as int
                        == m->Some_0.len,
                    None => m is None,
                }
            }),
        decreases path@.len() - from,
    {
        let plen = path.len();
        if from == plen {
            proof {
                assert(path@.skip(from as int) =~= Seq::<Seq<char>>::empty());
            }
            return Some((0, self.size()));
        }
        match self {
            Layout::Leaf { .. } => None,
            Layout::Record { size, fields } => {
                let target = path.seg(from);
                let n = fields.len();
                let mut k: usize = 0;
                while k < n
                    invariant
                        k <= n,
                        n == fields@.len(),
                        plen == path@.len(),
                        from < plen,
                        *self == (Layout::Record { size: *size, fields: *fields }),
                        target@ == path@[from as int],
                        forall|t: int| 0 <= t < k ==> (#[trigger] fields@[t]).name@ != target@,
                        forall|t: int| 0 <= t < n ==> (#[trigger] fields@[t]).layout.wf(),
                        forall|t: int|
                            0 <= t < n ==> field_fits(#[trigger] fields@[t], *size as int),
                    decreases n - k,
                {
                    if fields[k].name == *target {
                        proof {
                            lemma_field_index_first(fields@, target@, k as int);
                            assert(path@.skip(from as int).drop_first() =~= path@.skip(
                                from as int + 1,
                            ));
                            assert(path@.skip(from as int)[0] == path@[from as int]);
                        }
                        let sub = fields[k].layout.resolve_from(path, from + 1);
                        match sub {
                            Some(pr) => {
                                proof {
                                    lemma_resolve_in_bounds(
                                        fields@[k as int].layout,
                                        path@.skip(from as int + 1),
                                    );
                                }
                                return Some((fields[k].offset + pr.0, pr.1));
                            },
                            None => {
                                return None;
                            },
                        }
                    }
                    k += 1;
                }
                proof {
                    lemma_field_index(fields@, target@);
                    assert(path@.skip(from as int)[0] == path@[from as int]);
                }
                None
            },
        }
    }

    /// The byte offset and byte length of the location `path` names inside
    /// this layout, or `None` when the path does not fit the layout's
    /// shape.  The range is computed from the layout alone: no byte of any
    /// aggregate enters into it.
    pub fn resolve_range(&self, path: &FieldPath) -> (r: Option<(usize, usize)>)
        requires
            self.wf(),
        ensures
            ({
                let m = resolve(*self, path@);
                match r {
                    Some(p) => m is Some && p.0 as int == m->Some_0.off && p.1 as int
                        == m->Some_0.len,
                    None => m is None,
                }
            }),
    {
        proof {
            assert(path@.skip(0) =~= path@);
        }
        self.resolve_from(path, 0)
    }
}

/// What `field_index` finds: a valid index bears the name searched for, and
/// a negative answer means no field bears it.
pub proof fn lemma_field_index(fs: Seq<Field>, name: Seq<char>)
    ensures
        field_index(fs, name) >= 0 ==> 0 <= field_index(fs, name) < fs.len() && fs[field_index(
            fs,
            name,
        )].name@ == name,
        field_index(fs, name) < 0 ==> forall|i: int| 0 <= i < fs.len() ==> fs[i].name@ != name,
    decreases fs.len(),
{
    if fs.len() > 0 {
        lemma_field_index(fs.drop_first(), name);
        if fs[0].name@ != name {
            let r = field_index(fs.drop_first(), name);
            if r < 0 {
                assert forall|i: int| 0 <= i < fs.len() implies fs[i].name@ != name by {
                    if i > 0 {
                        assert(fs.drop_first()[i - 1] == fs[i]);
                    }
                }
            } else {
                assert(fs.drop_first()[r] == fs[r + 1]);
            }
        }
    }
}

/// `field_index` finds the first match: if `i` bears the name and no field
/// before `i` does, the answer is `i`.
pub proof fn lemma_field_index_first(fs: Seq<Field>, name: Seq<char>, i: int)
    requires
        0 <= i < fs.len(),
        fs[i].name@ == name,
        forall|k: int| 0 <= k < i ==> fs[k].name@ != name,
    ensures
        field_index(fs, name) == i,
    decreases i,
{
    if i == 0 {
    } else {
        assert(fs[0].name@ != name);
        assert forall|k: int| 0 <= k < i - 1 implies fs.drop_first()[k].name@ != name by {
            assert(fs.drop_first()[k] == fs[k + 1]);
        }
        assert(fs.drop_first()[i - 1] == fs[i]);
        lemma_field_index_first(fs.drop_first(), name, i - 1);
    }
}

/// A resolved range lies inside the layout's storage.
pub proof fn lemma_resolve_in_bounds(l: Layout, path: Seq<Seq<char>>)
    requires
        l.wf(),
        resolve(l, path) is Some,
    ensures
        ({
            let c = resolve(l, path)->Some_0;
            0 <= c.off && 0 <= c.len && c.off + c.len <= l.spec_size()
        }),
    decreases path.len(),
{
    if path.len() > 0 {
        match l {
            Layout::Leaf { .. } => {},
            Layout::Record { size, fields } => {
                let idx = field_index(fields@, path[0]);
                lemma_field_index(fields@, path[0]);
                lemma_resolve_in_bounds(fields@[idx].layout, path.drop_first());
            },
        }
    }
}

/// The aliasing-safety theorem: inside a well-formed layout, two resolving
/// paths of which neither is a prefix of the other name disjoint byte
/// ranges.  This is what lets exclusive handles to the fields of one
/// aggregate coexist.
pub proof fn lemma_unrelated_paths_disjoint(l: Layout, p: Seq<Seq<char>>, q: Seq<Seq<char>>)
    requires
        l.wf(),
        !is_prefix(p, q),
        !is_prefix(q, p),
        resolve(l, p) is Some,
        resolve(l, q) is Some,
    ensures
        ({
            let cp = resolve(l, p)->Some_0;
            let cq = resolve(l, q)->Some_0;
            disjoint_ranges(cp.off, cp.len, cq.off, cq.len)
        }),
    decreases p.len(),
{
    assert(p.len() > 0);
    assert(q.len() > 0);
    match l {
        Layout::Leaf { .. } => {},
        Layout::Record { size, fields } => {
            let pi = field_index(fields@, p[0]);
            let qi = field_index(fields@, q[0]);
            lemma_field_index(fields@, p[0]);
            lemma_field_index(fields@, q[0]);
            if p[0] == q[0] {
                assert(pi == qi);
                let f = fields@[pi];
                assert(!is_prefix(p.drop_first(), q.drop_first())) by {
                    if is_prefix(p.drop_first(), q.drop_first()) {
                        assert forall|i: int| 0 <= i < p.len() implies p[i] == q[i] by {
                            if i > 0 {
                                assert(p.drop_first()[i - 1] == q.drop_first()[i - 1]);
                            }
                        }
                        assert(is_prefix(p, q));
                    }
                }
                assert(!is_prefix(q.drop_first(), p.drop_first())) by {
                    if is_prefix(q.drop_first(), p.drop_first()) {
                        assert forall|i: int| 0 <= i < q.len() implies q[i] == p[i] by {
                            if i > 0 {
                                assert(q.drop_first()[i - 1] == p.drop_first()[i - 1]);
                            }
                        }
                        assert(is_prefix(q, p));
                    }
                }
                lemma_unrelated_paths_disjoint(f.layout, p.drop_first(), q.drop_first());
            } else {
                assert(fields@[pi].name@ != fields@[qi].name@);
                assert(pi != qi);
                lemma_resolve_in_bounds(fields@[pi].layout, p.drop_first());
                lemma_resolve_in_bounds(fields@[qi].layout, q.drop_first());
            }
        },
    }
}

} // verus!
