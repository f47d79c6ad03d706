//! The user and host names.

use vstd::prelude::*;

verus! {

/// Relies on whoami's `username`: the name of the user running the
/// process; an empty string where the platform cannot say.
#[verifier::external_body]
fn username() -> String {
    whoami::username().unwrap_or_default()
}

/// Relies on whoami's `hostname`: the machine's host name; an empty
/// string where the platform cannot say.
#[verifier::external_body]
fn hostname() -> String {
    whoami::hostname().unwrap_or_default()
}

/// The user name and the host name, in that order.
pub fn fetch() -> (r: Vec<String>)
    ensures
        r@.len() == 2,
{
    let mut r: Vec<String> = Vec::new();
    r.push(username());
    r.push(hostname());
    r
}

} // verus!
