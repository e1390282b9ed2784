//! Configuration value types of the service.

use vstd::prelude::*;
use vstd::string::*;

verus! {

/// The server's public base path, kept without a trailing slash so URLs
/// can be built by plain concatenation.
pub struct PublicUrl(pub String);

impl PublicUrl {
    /// Normalizes a configured public path: one trailing slash is
    /// dropped, anything else is kept as given. Never fails.
    pub fn from_str(s: &str) -> (r: PublicUrl)
        ensures
            s@.len() > 0 && s@.last() == '/' ==> r.0@ == s@.drop_last(),
            !(s@.len() > 0 && s@.last() == '/') ==> r.0@ == s@,
    {
        let n = s.unicode_len();
        if n > 0 && s.get_char(n - 1) == '/' {
            let trimmed = s.substring_char(0, n - 1);
            proof {
                assert(trimmed@ =~= s@.drop_last());
            }
            PublicUrl(trimmed.to_owned())
        } else {
            PublicUrl(s.to_owned())
        }
    }
}

} // verus!
