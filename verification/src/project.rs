//! Projection of field paths into an aggregate's possibly-uninitialized
//! storage, and partial initialization of that storage.

use vstd::prelude::*;

use crate::conflict::{
    check_paths, conflict_free, describes_first_conflict, path_models, ConflictError,
};
use crate::layout::{
    disjoint_ranges, lemma_resolve_in_bounds, lemma_unrelated_paths_disjoint, resolve, Layout,
};
use crate::path::{paths_conflict, FieldPath};

verus! {

/// A handle to one field's storage inside an aggregate: the byte range the
/// field occupies.  The bytes it points at may be uninitialized; holding or
/// obtaining a handle never reads them.
#[derive(Clone, Copy, Debug, PartialEq, Eq, Structural)]
pub struct FieldHandle {
    pub offset: usize,
    pub size: usize,
}

/// One step of a partial initialization: the field to write and the raw
/// bytes of the value it receives.  The write is unconditional; whatever
/// the destination held before is overwritten without being read.
pub struct Assignment {
    pub path: FieldPath,
    pub value: Vec<u8>,
}

/// Why a projection or initialization call was rejected.  Every rejection
/// is decided before any byte of the aggregate is touched.
#[derive(Clone, Copy, Debug, PartialEq, Eq, Structural)]
pub enum ProjectError {
    /// The path set violates the exclusivity invariant.
    Conflict { err: ConflictError },
    /// The path at `index` names no field of the aggregate's layout.
    UnknownField { index: usize },
    /// The value at `index` does not have its field's byte length.
    WrongSize { index: usize },
}

/// An aggregate's storage: a layout and the raw bytes behind it.  No
/// record is kept of which fields have been initialized; that remains the
/// caller's obligation, as does treating the whole as valid only once every
/// field has in fact been written.
pub struct Aggregate {
    shape: Layout,
    data: Vec<u8>,
}

/// `h` is the byte range that `p` names inside `l`.
pub open spec fn handle_resolves(l: Layout, p: Seq<Seq<char>>, h: FieldHandle) -> bool {
    &&& resolve(l, p) is Some
    &&& h.offset as int == resolve(l, p)->Some_0.off
    &&& h.size as int == resolve(l, p)->Some_0.len
}

/// Byte position `i` lies inside the range of `h`.
pub open spec fn in_handle(h: FieldHandle, i: int) -> bool {
    h.offset <= i < h.offset + h.size
}

/// Byte position `i` lies inside the range of some handle of `hs`.
pub open spec fn covered(hs: Seq<FieldHandle>, i: int) -> bool {
    exists|k: int| 0 <= k < hs.len() && in_handle(#[trigger] hs[k], i)
}

impl Aggregate {
    /// The layout the storage is laid out by.
    pub closed spec fn lay(self) -> Layout {
        self.shape
    }

    /// The bytes the storage currently holds.
    pub closed spec fn mem(self) -> Seq<u8> {
        self.data@
    }

    /// A valid aggregate: a well-formed layout, and exactly as many bytes
    /// as the layout spans.
    pub open spec fn wf(self) -> bool {
        self.lay().wf() && self.mem().len() == self.lay().spec_size()
    }

    /// Fresh storage for `layout` with every byte holding `fill`.  The
    /// fill models whatever garbage uninitialized memory happens to hold:
    /// nothing in this crate ever depends on it.
    pub fn new_filled(layout: Layout, fill: u8) -> (r: Aggregate)
        requires
            layout.wf(),
        ensures
            r.wf(),
            r.lay() == layout,
            r.mem().len() == layout.spec_size(),
            forall|i: int| 0 <= i < r.mem().len() ==> r.mem()[i] == fill,
    {
        let n = layout.size();
        let data = vec![fill; n];
        Aggregate { shape: layout, data }
    }

    /// Adopt caller-provided storage as an aggregate laid out by
    /// `layout`: the value-level counterpart of reinterpreting an existing
    /// allocation — initialized or not — as possibly-uninitialized
    /// storage.  `None` exactly when the byte count does not match the
    /// layout's span.  The bytes are taken as they are, never read.
    pub fn from_bytes(layout: Layout, data: Vec<u8>) -> (r: Option<Aggregate>)
        requires
            layout.wf(),
        ensures
            match r {
                Some(a) => {
                    &&& a.wf()
                    &&& a.lay() == layout
                    &&& a.mem() == data@
                },
                None => data@.len() != layout.spec_size(),
            },
    {
        let sz = layout.size();
        if data.len() == sz {
            Some(Aggregate { shape: layout, data })
        } else {
            None
        }
    }

    /// The aggregate's layout.
    pub fn layout(&self) -> (r: &Layout)
        ensures
            *r == self.lay(),
    {
        &self.shape
    }

    /// The aggregate's raw bytes, for inspection.  Reading them as a value
    /// of the aggregate's nominal type is the caller's unchecked final
    /// step, once every field has been initialized.
    pub fn bytes(&self) -> (r: &Vec<u8>)
        ensures
            r@ == self.mem(),
    {
        &self.data
    }
}

/// Copy `val` into `data` at offset `off`, leaving every byte outside the
/// written range as it was.
fn write_bytes(data: &mut Vec<u8>, off: usize, val: &Vec<u8>)
    requires
        off + val@.len() <= old(data)@.len(),
    ensures
        final(data)@.len() == old(data)@.len(),
        forall|i: int|
            0 <= i < final(data)@.len() ==> final(data)@[i] == (if off <= i < off + val@.len() {
                val@[i - off]
            } else {
                old(data)@[i]
            }),
{
    let n = val.len();
    let total = data.len();
    let mut t: usize = 0;
    while t < n
        invariant
            t <= n,
            n == val@.len(),
            off + n <= total,
            total == data@.len(),
            data@.len() == old(data)@.len(),
            forall|i: int|
                0 <= i < data@.len() ==> data@[i] == (if off <= i < off + t {
                    val@[i - off]
                } else {
                    old(data)@[i]
                }),
        decreases n - t,
    {
        data.set(off + t, val[t]);
        t += 1;
    }
}

/// Shared projection: resolve every path of the set to a handle.  Shared
/// access may overlap, so no exclusivity check is made: a field, its
/// parent and the whole aggregate may all be projected in one call.  No
/// byte of the aggregate is read.
pub fn project_shared(agg: &Aggregate, paths: &Vec<FieldPath>) -> (r: Result<
    Vec<FieldHandle>,
    ProjectError,
>)
    requires
        agg.wf(),
    ensures
        r is Ok <==> (forall|i: int|
            0 <= i < paths@.len() ==> resolve(agg.lay(), #[trigger] paths@[i]@) is Some),
        match r {
            Ok(hs) => {
                &&& hs@.len() == paths@.len()
                &&& forall|i: int|
                    0 <= i < paths@.len() ==> handle_resolves(
                        agg.lay(),
                        paths@[i]@,
                        #[trigger] hs@[i],
                    )
            },
            Err(ProjectError::UnknownField { index }) => {
                &&& index < paths@.len()
                &&& resolve(agg.lay(), paths@[index as int]@) is None
                &&& forall|i: int|
                    0 <= i < index ==> resolve(agg.lay(), #[trigger] paths@[i]@) is Some
            },
            Err(_) => false,
        },
{
    resolve_all(&agg.shape, paths)
}

/// Resolve every path of a set against a layout, reporting the first path
/// that does not fit the layout's shape.
fn resolve_all(layout: &Layout, paths: &Vec<FieldPath>) -> (r: Result<
    Vec<FieldHandle>,
    ProjectError,
>)
    requires
        layout.wf(),
    ensures
        r is Ok <==> (forall|i: int|
            0 <= i < paths@.len() ==> resolve(*layout, #[trigger] paths@[i]@) is Some),
        match r {
            Ok(hs) => {
                &&& hs@.len() == paths@.len()
                &&& forall|i: int|
                    0 <= i < paths@.len() ==> handle_resolves(
                        *layout,
                        paths@[i]@,
                        #[trigger] hs@[i],
                    )
            },
            Err(ProjectError::UnknownField { index }) => {
                &&& index < paths@.len()
                &&& resolve(*layout, paths@[index as int]@) is None
                &&& forall|i: int|
                    0 <= i < index ==> resolve(*layout, #[trigger] paths@[i]@) is Some
            },
            Err(_) => false,
        },
{
    let n = paths.len();
    let mut hs: Vec<FieldHandle> = Vec::new();
    let mut i: usize = 0;
    while i < n
        invariant
            i <= n,
            n == paths@.len(),
            layout.wf(),
            hs@.len() == i as int,
            forall|j: int|
                0 <= j < i ==> handle_resolves(*layout, paths@[j]@, #[trigger] hs@[j]),
        decreases n - i,
    {
        match layout.resolve_range(&paths[i]) {
            Some(range) => {
                hs.push(FieldHandle { offset: range.0, size: range.1 });
            },
            None => {
                proof {
                    assert forall|j: int| 0 <= j < i implies resolve(
                        *layout,
                        #[trigger] paths@[j]@,
                    ) is Some by {
                        assert(handle_resolves(*layout, paths@[j]@, hs@[j]));
                    }
                }
                return Err(ProjectError::UnknownField { index: i });
            },
        }
        i += 1;
    }
    proof {
        assert forall|j: int| 0 <= j < paths@.len() implies resolve(
            *layout,
            #[trigger] paths@[j]@,
        ) is Some by {
            assert(handle_resolves(*layout, paths@[j]@, hs@[j]));
        }
    }
    Ok(hs)
}

/// Handles resolved from a conflict-free path set occupy pairwise disjoint
/// byte ranges: the reason the handles of one exclusive call may all be
/// held and written through at the same time.
pub proof fn lemma_handles_disjoint(l: Layout, ps: Seq<Seq<Seq<char>>>, hs: Seq<FieldHandle>)
    requires
        l.wf(),
        conflict_free(ps),
        hs.len() == ps.len(),
        forall|k: int| 0 <= k < ps.len() ==> handle_resolves(l, #[trigger] ps[k], hs[k]),
    ensures
        forall|i: int, j: int|
            0 <= i < j < hs.len() ==> disjoint_ranges(
                (#[trigger] hs[i]).offset as int,
                hs[i].size as int,
                (#[trigger] hs[j]).offset as int,
                hs[j].size as int,
            ),
{
    assert forall|i: int, j: int| 0 <= i < j < hs.len() implies disjoint_ranges(
        (#[trigger] hs[i]).offset as int,
        hs[i].size as int,
        (#[trigger] hs[j]).offset as int,
        hs[j].size as int,
    ) by {
        assert(!paths_conflict(ps[i], ps[j]));
        assert(handle_resolves(l, ps[i], hs[i]));
        assert(handle_resolves(l, ps[j], hs[j]));
        lemma_unrelated_paths_disjoint(l, ps[i], ps[j]);
    }
}

/// Exclusive projection: run the conflict check over the whole path set,
/// then resolve every path.  On success the handles' byte ranges are
/// pairwise disjoint, so all of them may be held and mutated through at
/// once.  The aggregate itself is not changed, and none of its bytes is
/// read.
pub fn project_exclusive(agg: &mut Aggregate, paths: &Vec<FieldPath>) -> (r: Result<
    Vec<FieldHandle>,
    ProjectError,
>)
    requires
        old(agg).wf(),
    ensures
        *final(agg) == *old(agg),
        r is Ok <==> conflict_free(path_models(paths@)) && (forall|i: int|
            0 <= i < paths@.len() ==> resolve(old(agg).lay(), #[trigger] paths@[i]@) is Some),
        match r {
            Ok(hs) => {
                &&& hs@.len() == paths@.len()
                &&& forall|i: int|
                    0 <= i < paths@.len() ==> handle_resolves(
                        old(agg).lay(),
                        paths@[i]@,
                        #[trigger] hs@[i],
                    )
                &&& forall|i: int, j: int|
                    0 <= i < j < hs@.len() ==> disjoint_ranges(
                        (#[trigger] hs@[i]).offset as int,
                        hs@[i].size as int,
                        (#[trigger] hs@[j]).offset as int,
                        hs@[j].size as int,
                    )
            },
            Err(ProjectError::Conflict { err }) => {
                &&& !conflict_free(path_models(paths@))
                &&& describes_first_conflict(path_models(paths@), err)
            },
            Err(ProjectError::UnknownField { index }) => {
                &&& conflict_free(path_models(paths@))
                &&& index < paths@.len()
                &&& resolve(old(agg).lay(), paths@[index as int]@) is None
                &&& forall|i: int|
                    0 <= i < index ==> resolve(old(agg).lay(), #[trigger] paths@[i]@) is Some
            },
            Err(_) => false,
        },
{
    match check_paths(paths) {
        Err(e) => Err(ProjectError::Conflict { err: e }),
        Ok(()) => {
            match resolve_all(&agg.shape, paths) {
                Ok(hs) => {
                    proof {
                        let ps = path_models(paths@);
                        assert forall|k: int| 0 <= k < ps.len() implies handle_resolves(
                            old(agg).lay(),
                            #[trigger] ps[k],
                            hs@[k],
                        ) by {
                            assert(ps[k] == paths@[k]@);
                            assert(handle_resolves(old(agg).lay(), paths@[k]@, hs@[k]));
                        }
                        lemma_handles_disjoint(old(agg).lay(), ps, hs@);
                    }
                    Ok(hs)
                },
                Err(e) => Err(e),
            }
        },
    }
}

/// Raw address projection: compute, from a base address, the absolute
/// address of every field a path set names.  No exclusivity check and no
/// handle lifetime: the caller alone answers for how the addresses are
/// used.
pub fn raw_project(base: usize, layout: &Layout, paths: &Vec<FieldPath>) -> (r: Result<
    Vec<usize>,
    ProjectError,
>)
    requires
        layout.wf(),
        base + layout.spec_size() <= usize::MAX,
    ensures
        r is Ok <==> (forall|i: int|
            0 <= i < paths@.len() ==> resolve(*layout, #[trigger] paths@[i]@) is Some),
        match r {
            Ok(addrs) => {
                &&& addrs@.len() == paths@.len()
                &&& forall|i: int|
                    0 <= i < paths@.len() ==> resolve(*layout, #[trigger] paths@[i]@) is Some
                        && addrs@[i] as int == base + resolve(*layout, paths@[i]@)->Some_0.off
            },
            Err(ProjectError::UnknownField { index }) => {
                &&& index < paths@.len()
                &&& resolve(*layout, paths@[index as int]@) is None
                &&& forall|i: int|
                    0 <= i < index ==> resolve(*layout, #[trigger] paths@[i]@) is Some
            },
            Err(_) => false,
        },
{
    let n = paths.len();
    let mut addrs: Vec<usize> = Vec::new();
    let mut i: usize = 0;
    while i < n
        invariant
            i <= n,
            n == paths@.len(),
            layout.wf(),
            base + layout.spec_size() <= usize::MAX,
            addrs@.len() == i as int,
            forall|j: int|
                0 <= j < i ==> resolve(*layout, #[trigger] paths@[j]@) is Some && addrs@[j] as int
                    == base + resolve(*layout, paths@[j]@)->Some_0.off,
        decreases n - i,
    {
        match layout.resolve_range(&paths[i]) {
            Some(range) => {
                proof {
                    lemma_resolve_in_bounds(*layout, paths@[i as int]@);
                }
                addrs.push(base + range.0);
            },
            None => {
                return Err(ProjectError::UnknownField { index: i });
            },
        }
        i += 1;
    }
    Ok(addrs)
}

/// The token sequences of an assignment list's paths.
pub open spec fn assignment_models(asgs: Seq<Assignment>) -> Seq<Seq<Seq<char>>> {
    asgs.map_values(|a: Assignment| a.path@)
}

/// Every assignment's path names a field of `l`, and its value has exactly
/// that field's byte length.
pub open spec fn assignments_fit(l: Layout, asgs: Seq<Assignment>) -> bool {
    forall|k: int|
        0 <= k < asgs.len() ==> {
            &&& resolve(l, (#[trigger] asgs[k]).path@) is Some
            &&& asgs[k].value@.len() == resolve(l, asgs[k].path@)->Some_0.len
        }
}

/// Partial initialization: check the assignment paths for conflicts,
/// resolve each path, check each value's length, and only then write every
/// value into its field's byte range.  A rejected call leaves the
/// aggregate untouched.  Each write is raw: the destination's previous
/// bytes are overwritten without being read or destructed, so garbage
/// there is harmless — and writing over a field that owns a resource is a
/// caller obligation this call does not police, any more than the
/// conflict check spans separate calls.
pub fn initialize(agg: &mut Aggregate, assignments: &Vec<Assignment>) -> (r: Result<
    Vec<FieldHandle>,
    ProjectError,
>)
    requires
        old(agg).wf(),
    ensures
        final(agg).wf(),
        final(agg).lay() == old(agg).lay(),
        final(agg).mem().len() == old(agg).mem().len(),
        r is Err ==> *final(agg) == *old(agg),
        r is Ok <==> conflict_free(assignment_models(assignments@)) && assignments_fit(
            old(agg).lay(),
            assignments@,
        ),
        match r {
            Ok(hs) => {
                &&& hs@.len() == assignments@.len()
                &&& forall|k: int|
                    0 <= k < assignments@.len() ==> handle_resolves(
                        old(agg).lay(),
                        assignments@[k].path@,
                        #[trigger] hs@[k],
                    )
                &&& forall|i: int, j: int|
                    0 <= i < j < hs@.len() ==> disjoint_ranges(
                        (#[trigger] hs@[i]).offset as int,
                        hs@[i].size as int,
                        (#[trigger] hs@[j]).offset as int,
                        hs@[j].size as int,
                    )
                &&& forall|k: int|
                    0 <= k < hs@.len() ==> final(agg).mem().subrange(
                        (#[trigger] hs@[k]).offset as int,
                        hs@[k].offset as int + hs@[k].size as int,
                    ) == assignments@[k].value@
                &&& forall|i: int|
                    0 <= i < final(agg).mem().len() && !covered(hs@, i) ==> final(agg).mem()[i]
                        == old(agg).mem()[i]
            },
            Err(ProjectError::Conflict { err }) => {
                &&& !conflict_free(assignment_models(assignments@))
                &&& describes_first_conflict(assignment_models(assignments@), err)
            },
            Err(ProjectError::UnknownField { index }) => {
                &&& conflict_free(assignment_models(assignments@))
                &&& index < assignments@.len()
                &&& resolve(old(agg).lay(), assignments@[index as int].path@) is None
                &&& forall|k: int|
                    0 <= k < index ==> resolve(
                        old(agg).lay(),
                        (#[trigger] assignments@[k]).path@,
                    ) is Some
            },
            Err(ProjectError::WrongSize { index }) => {
                &&& conflict_free(assignment_models(assignments@))
                &&& index < assignments@.len()
                &&& resolve(old(agg).lay(), assignments@[index as int].path@) is Some
                &&& assignments@[index as int].value@.len() != resolve(
                    old(agg).lay(),
                    assignments@[index as int].path@,
                )->Some_0.len
                &&& forall|k: int|
                    0 <= k < assignments@.len() ==> resolve(
                        old(agg).lay(),
                        (#[trigger] assignments@[k]).path@,
                    ) is Some
                &&& forall|k: int|
                    0 <= k < index ==> assignments@[k].value@.len() == resolve(
                        old(agg).lay(),
                        (#[trigger] assignments@[k]).path@,
                    )->Some_0.len
            },
        },
{
    let ghost l = old(agg).lay();
    let n = assignments.len();

    // the checker works on the bare path set
    let mut just_paths: Vec<FieldPath> = Vec::new();
    let mut i: usize = 0;
    while i < n
        invariant
            i <= n,
            n == assignments@.len(),
            just_paths@.len() == i as int,
            forall|j: int| 0 <= j < i ==> (#[trigger] just_paths@[j])@ == assignments@[j].path@,
        decreases n - i,
    {
        just_paths.push(assignments[i].path.clone());
        i += 1;
    }
    proof {
        assert(path_models(just_paths@) =~= assignment_models(assignments@));
    }

    match check_paths(&just_paths) {
        Err(e) => {
            return Err(ProjectError::Conflict { err: e });
        },
        Ok(()) => {},
    }

    let hs = match resolve_all(&agg.shape, &just_paths) {
        Ok(hs) => hs,
        Err(e) => {
            proof {
                if let ProjectError::UnknownField { index } = e {
                    assert(just_paths@[index as int]@ == assignments@[index as int].path@);
                    assert forall|k: int| 0 <= k < index implies resolve(
                        l,
                        (#[trigger] assignments@[k]).path@,
                    ) is Some by {
                        assert(resolve(l, just_paths@[k]@) is Some);
                    }
                }
            }
            return Err(e);
        },
    };
    proof {
        assert forall|k: int| 0 <= k < n implies handle_resolves(
            l,
            (#[trigger] assignments@[k]).path@,
            hs@[k],
        ) by {
            assert(handle_resolves(l, just_paths@[k]@, hs@[k]));
        }
    }

    let mut k: usize = 0;
    while k < n
        invariant
            k <= n,
            n == assignments@.len(),
            n == hs@.len(),
            l.wf(),
            l == old(agg).lay(),
            old(agg).wf(),
            *agg == *old(agg),
            conflict_free(assignment_models(assignments@)),
            forall|t: int|
                0 <= t < n ==> handle_resolves(l, (#[trigger] assignments@[t]).path@, hs@[t]),
            forall|t: int|
                0 <= t < k ==> (#[trigger] assignments@[t]).value@.len() == hs@[t].size as int,
        decreases n - k,
    {
        if assignments[k].value.len() != hs[k].size {
            return Err(ProjectError::WrongSize { index: k });
        }
        k += 1;
    }

    proof {
        let ps = assignment_models(assignments@);
        assert forall|t: int| 0 <= t < ps.len() implies handle_resolves(
            l,
            #[trigger] ps[t],
            hs@[t],
        ) by {
            assert(ps[t] == assignments@[t].path@);
            assert(handle_resolves(l, assignments@[t].path@, hs@[t]));
        }
        lemma_handles_disjoint(l, ps, hs@);
        assert forall|t: int| 0 <= t < n implies (#[trigger] hs@[t]).offset + hs@[t].size <= old(
            agg,
        ).mem().len() by {
            assert(handle_resolves(l, assignments@[t].path@, hs@[t]));
            lemma_resolve_in_bounds(l, assignments@[t].path@);
        }
    }

    let mut k: usize = 0;
    while k < n
        invariant
            k <= n,
            n == assignments@.len(),
            n == hs@.len(),
            agg.lay() == l,
            agg.lay().wf(),
            agg.mem().len() == old(agg).mem().len(),
            old(agg).wf(),
            agg.mem() == agg.data@,
            forall|t: int|
                0 <= t < n ==> handle_resolves(l, (#[trigger] assignments@[t]).path@, hs@[t]),
            forall|t: int|
                0 <= t < n ==> (#[trigger] assignments@[t]).value@.len() == hs@[t].size as int,
            forall|t: int|
                0 <= t < n ==> (#[trigger] hs@[t]).offset + hs@[t].size <= old(agg).mem().len(),
            forall|i: int, j: int|
                0 <= i < j < n ==> disjoint_ranges(
                    (#[trigger] hs@[i]).offset as int,
                    hs@[i].size as int,
                    (#[trigger] hs@[j]).offset as int,
                    hs@[j].size as int,
                ),
            forall|t: int|
                0 <= t < k ==> agg.mem().subrange(
                    (#[trigger] hs@[t]).offset as int,
                    hs@[t].offset as int + hs@[t].size as int,
                ) == assignments@[t].value@,
            forall|i: int|
                0 <= i < agg.mem().len() && !covered(hs@.take(k as int), i) ==> agg.mem()[i]
                    == old(agg).mem()[i],
        decreases n - k,
    {
        let ghost before = agg.data@;
        write_bytes(&mut agg.data, hs[k].offset, &assignments[k].value);
        proof {
            let hk = hs@[k as int];
            assert forall|t: int| 0 <= t < k + 1 implies agg.mem().subrange(
                (#[trigger] hs@[t]).offset as int,
                hs@[t].offset as int + hs@[t].size as int,
            ) == assignments@[t].value@ by {
                let ht = hs@[t];
                if t < k {
                    assert(disjoint_ranges(
                        ht.offset as int,
                        ht.size as int,
                        hk.offset as int,
                        hk.size as int,
                    ));
                    assert(agg.mem().subrange(
                        ht.offset as int,
                        ht.offset as int + ht.size as int,
                    ) =~= before.subrange(ht.offset as int, ht.offset as int + ht.size as int));
                } else {
                    assert(agg.mem().subrange(
                        ht.offset as int,
                        ht.offset as int + ht.size as int,
                    ) =~= assignments@[t].value@);
                }
            }
            assert forall|i: int|
                0 <= i < agg.mem().len() && !covered(hs@.take(k as int + 1), i) implies agg.mem()[i]
                == old(agg).mem()[i] by {
                assert(!in_handle(hs@.take(k as int + 1)[k as int], i));
                assert(!in_handle(hk, i));
                assert(!covered(hs@.take(k as int), i)) by {
                    if covered(hs@.take(k as int), i) {
                        let w = choose|w: int|
                            0 <= w < hs@.take(k as int).len() && in_handle(
                                #[trigger] hs@.take(k as int)[w],
                                i,
                            );
                        assert(in_handle(hs@.take(k as int + 1)[w], i));
                    }
                }
            }
        }
        k += 1;
    }
    proof {
        assert(hs@.take(n as int) =~= hs@);
        assert(conflict_free(assignment_models(assignments@)));
        assert(assignments_fit(l, assignments@)) by {
            assert forall|t: int| 0 <= t < n implies resolve(
                l,
                (#[trigger] assignments@[t]).path@,
            ) is Some && assignments@[t].value@.len() == resolve(
                l,
                assignments@[t].path@,
            )->Some_0.len by {
                assert(handle_resolves(l, assignments@[t].path@, hs@[t]));
            }
        }
    }
    Ok(hs)
}

/// Read the bytes a handle points at.  Only the handle's own range is
/// read: the result does not depend on any other byte of the aggregate.
pub fn read_through(agg: &Aggregate, h: &FieldHandle) -> (r: Vec<u8>)
    requires
        agg.wf(),
        h.offset + h.size <= agg.mem().len(),
    ensures
        r@ == agg.mem().subrange(h.offset as int, h.offset as int + h.size as int),
{
    let mut out: Vec<u8> = Vec::new();
    let total = agg.data.len();
    let mut t: usize = 0;
    while t < h.size
        invariant
            t <= h.size,
            h.offset + h.size <= total,
            total == agg.data@.len(),
            agg.mem() == agg.data@,
            out@.len() == t as int,
            forall|i: int| 0 <= i < t ==> out@[i] == agg.mem()[h.offset + i],
        decreases h.size - t,
    {
        out.push(agg.data[h.offset + t]);
        t += 1;
    }
    proof {
        assert(out@ =~= agg.mem().subrange(h.offset as int, h.offset as int + h.size as int));
    }
    out
}

/// Write `value` through a handle obtained from an earlier projection or
/// initialization.  Only the handle's range changes.
pub fn write_through(agg: &mut Aggregate, h: &FieldHandle, value: &Vec<u8>)
    requires
        old(agg).wf(),
        h.offset + h.size <= old(agg).mem().len(),
        value@.len() == h.size as int,
    ensures
        final(agg).wf(),
        final(agg).lay() == old(agg).lay(),
        final(agg).mem().len() == old(agg).mem().len(),
        final(agg).mem().subrange(h.offset as int, h.offset as int + h.size as int) == value@,
        forall|i: int|
            0 <= i < final(agg).mem().len() && !in_handle(*h, i) ==> final(agg).mem()[i] == old(
                agg,
            ).mem()[i],
{
    write_bytes(&mut agg.data, h.offset, value);
    proof {
        assert(final(agg).mem().subrange(h.offset as int, h.offset as int + h.size as int)
            =~= value@);
    }
}

/// Resolve a path and read the bytes of the field it names: `None` exactly
/// when the path does not fit the aggregate's layout.
pub fn read_field(agg: &Aggregate, path: &FieldPath) -> (r: Option<Vec<u8>>)
    requires
        agg.wf(),
    ensures
        r is Some <==> resolve(agg.lay(), path@) is Some,
        r matches Some(v) ==> {
            let c = resolve(agg.lay(), path@)->Some_0;
            v@ == agg.mem().subrange(c.off, c.off + c.len)
        },
{
    match agg.shape.resolve_range(path) {
        Some(range) => {
            proof {
                lemma_resolve_in_bounds(agg.lay(), path@);
            }
            let h = FieldHandle { offset: range.0, size: range.1 };
            Some(read_through(agg, &h))
        },
        None => None,
    }
}

} // verus!
