//! Calls into outside crates.

use vstd::prelude::*;

verus! {

/// What `dunce::simplified` makes of a path. The crate rewrites Windows
/// verbatim paths (`\\?\C:\...`) into their plain form where that is safe;
/// its result depends on the path alone.
pub uninterp spec fn dunce_simplified(path: Seq<char>) -> Seq<char>;

/// `dunce::simplified`: the most widely understood form of `path`. The
/// contract only names the result as a function of the path; on non-Windows
/// targets the crate returns the path unchanged, which is not stated here.
#[verifier::external_body]
pub(crate) fn simplified(path: &str) -> (r: String)
    ensures
        r@ == dunce_simplified(path@),
{
    dunce::simplified(std::path::Path::new(path)).to_string_lossy().into_owned()
}

/// `dirs::home_dir`: the current user's home directory, taken from the
/// environment or the user database, or `None` when it cannot be found. The
/// answer depends on the process environment, so nothing is stated of it. A
/// home path that is not valid Unicode is converted lossily.
#[verifier::external_body]
pub(crate) fn home_dir() -> Option<String> {
    match dirs::home_dir() {
        Some(p) => Some(p.to_string_lossy().into_owned()),
        None => None,
    }
}

} // verus!
