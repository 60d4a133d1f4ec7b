//! What the conversions into a `String` give that the devices are built
//! with.

use vstd::prelude::*;

verus! {

/// `String::from` on a string slice, from the standard library: the new
/// string holds the characters of the slice. Taken from its
/// documentation, not proved.
pub assume_specification<'_0>[ <String as From<&'_0 str>>::from ](s: &str) -> (res: String)
    ensures
        res@ == s@,
;

/// The conversion of a value into its own type, from the standard
/// library: it returns its argument unchanged. Taken from its
/// documentation, not proved.
pub assume_specification<T>[ <T as From<T>>::from ](t: T) -> (res: T)
    ensures
        res == t,
;

} // verus!
