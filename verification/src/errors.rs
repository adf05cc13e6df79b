//! Turning failure values into log-ready strings.

use vstd::prelude::*;
use vstd::string::StringExecFns;

verus! {

/// Extends result-like values with a conversion of the error side into
/// a single descriptive string.
pub trait ErrorStringExt<S>: Sized {
    fn err_to_string(self, base_message: &str) -> Result<S, String>;
}

impl<S> ErrorStringExt<S> for Result<S, String> {
    /// Prefixes the error text with `base_message` and a separator; the
    /// success side passes through unchanged.
    fn err_to_string(self, base_message: &str) -> (r: Result<S, String>)
        ensures
            self is Ok <==> r is Ok,
            self matches Ok(v) ==> r matches Ok(w) && w == v,
            self matches Err(e) ==> r matches Err(m) && m@ == base_message@ + ": "@ + e@,
    {
        match self {
            Ok(v) => Ok(v),
            Err(e) => {
                let mut m = String::from_str(base_message);
                m.append(": ");
                m.append(e.as_str());
                Err(m)
            },
        }
    }
}

} // verus!
