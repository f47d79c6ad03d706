//! The operating system's name.

use vstd::prelude::*;

verus! {

/// Relies on whoami's `distro`: the name of the OS distribution; an empty
/// string where the platform cannot say.
#[verifier::external_body]
fn distro() -> String {
    whoami::distro().unwrap_or_default()
}

/// The name of the operating system.
pub fn fetch() -> String {
    distro()
}

} // verus!
