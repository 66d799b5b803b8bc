//! Names of the places the engine reads from.

use vstd::prelude::*;
use vstd::string::StringExecFns;

verus! {

/// The name of the directory, under the working directory, where downloaded
/// dataset archives are kept.
pub fn cache() -> (r: String)
    ensures
        r@ == "cache"@,
{
    String::from_str("cache")
}

} // verus!
