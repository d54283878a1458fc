//! Contracts for functions of the standard library that the verifier has no
//! specification for. They are stated as the documentation of each function
//! gives them and are taken on trust.

use vstd::prelude::*;

verus! {

/// `<[T]>::swap`: exchanges the elements at positions `a` and `b` and leaves
/// every other element in place. The standard library panics when either
/// index is out of bounds, so both must be within the slice.
pub assume_specification<T>[ <[T]>::swap ](s: &mut [T], a: usize, b: usize)
    requires
        a < old(s)@.len(),
        b < old(s)@.len(),
    ensures
        final(s)@ == old(s)@.update(a as int, old(s)@[b as int]).update(b as int, old(s)@[a as int]),
;

} // verus!
