//! The operating system's random source, from which a filter takes a seed when it is given
//! none.

use vstd::prelude::*;

verus! {

/// The error of the `getrandom` crate: a code that the library does not look into.
#[verifier::external_type_specification]
#[verifier::external_body]
pub struct ExEntropyError(getrandom::Error);

/// `getrandom::getrandom` fills `dest` with random bytes or fails. The bytes differ from call
/// to call, so nothing is claimed of them, nor of when the call fails.
pub assume_specification[ getrandom::getrandom ](dest: &mut [u8]) -> (res: Result<
    (),
    getrandom::Error,
>)
;

} // verus!
