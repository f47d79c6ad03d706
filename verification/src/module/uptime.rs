//! Time since boot.

use vstd::prelude::*;
use crate::module::convert_seconds;
use crate::module::dhm_text;

verus! {

/// Time since boot, as days, hours and minutes.
pub fn fetch() -> (r: String)
    ensures
        exists|secs: nat| r@ == dhm_text(secs),
{
    let secs = sysinfo::System::uptime();
    let r = convert_seconds(secs);
    proof {
        assert(r@ == dhm_text(secs as nat));
    }
    r
}

} // verus!
