//! Field-by-field access to aggregates that may be only partially
//! initialized, with the safety argument carried by proofs.
//!
//! The crate models an aggregate's storage as a byte region described by a
//! layout tree, and a nested field as a symbolic path of accessor tokens.
//! Projection resolves a path to the byte range of the named field without
//! reading any of the aggregate's bytes; exclusive projection and partial
//! initialization first run a conflict check over the whole path set, so
//! that the ranges handed out are provably pairwise disjoint and may be
//! written through simultaneously.
//!
//! The conflict check guards one call at a time: it rejects the whole call
//! before any byte is written, but handles obtained from two separate
//! calls are never checked against each other.  Nor is any record kept of
//! which fields have been initialized.  Both remain the caller's
//! obligations, as does treating the aggregate as a complete value only
//! once every field has in fact been written.

pub mod conflict;
pub mod layout;
pub mod path;
pub mod project;
pub mod utils;

pub use conflict::{check_paths, ConflictError};
pub use layout::{Field, Layout};
pub use path::FieldPath;
pub use project::{
    initialize, project_exclusive, project_shared, raw_project, read_field, read_through,
    write_through, Aggregate, Assignment, FieldHandle, ProjectError,
};
pub use utils::{bind_mut_lt, bind_ref_lt, Lifetime};
