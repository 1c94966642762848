//! Small helpers shared by the commands.

use vstd::prelude::*;
use vstd::string::StringSliceAdditionalSpecFns;

verus! {

/// Turns a literal payload argument into its bytes. It never fails; the
/// `Result` is the shape argument parsers are expected to have.
pub fn parse_to_vec(v: &str) -> (r: Result<Vec<u8>, String>)
    ensures
        r is Ok,
        r.unwrap()@ == v.spec_bytes(),
{
    Ok(v.as_bytes_vec())
}

} // verus!
