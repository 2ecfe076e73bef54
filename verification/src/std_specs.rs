//! What this library takes on trust of the standard library: the functions
//! that it calls and that come without a specification.

use vstd::prelude::*;

verus! {

/// `core::slice::from_ref`: the slice of length 1 that holds the value
/// behind the reference.
pub assume_specification<T>[ core::slice::from_ref::<T> ](s: &T) -> (r: &[T])
    ensures
        r@ == seq![*s],
;

/// `core::slice::from_mut`: the slice of length 1 that holds the value
/// behind the reference; what is written to the slice is written to the
/// value.
pub assume_specification<T>[ core::slice::from_mut::<T> ](s: &mut T) -> (r: &mut [T])
    ensures
        r@ == seq![*old(s)],
        final(r)@.len() == 1,
        *final(s) == final(r)@[0],
;

/// `String::push`: appends the character to the end of the string.
pub assume_specification[ String::push ](s: &mut String, ch: char)
    ensures
        final(s)@ == old(s)@.push(ch),
;

} // verus!
