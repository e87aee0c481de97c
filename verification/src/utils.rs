//! Lifetime-binding utilities: tokens that tie the validity of derived
//! references to the borrow of the value they were derived from.

use core::marker::PhantomData;
use vstd::prelude::*;

verus! {

/// A lifetime token.  Holding a `Lifetime<'a>` stands for holding a borrow
/// of the aggregate for `'a`, so anything tagged with it cannot outlive
/// the aggregate handle it was derived from.
#[derive(Clone, Copy)]
pub struct Lifetime<'a>(PhantomData<&'a ()>);

/// Bind a lifetime token to a shared borrow.
pub fn bind_ref_lt<'a, T>(x: &'a T) -> Lifetime<'a> {
    Lifetime(PhantomData)
}

/// Bind a lifetime token to an exclusive borrow.  The borrowed value is
/// only tagged, never changed.
pub fn bind_mut_lt<'a, T>(x: &'a mut T) -> (r: Lifetime<'a>)
    ensures
        *final(x) == *old(x),
{
    Lifetime(PhantomData)
}

} // verus!
