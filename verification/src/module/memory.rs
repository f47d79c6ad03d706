//! Memory in use and memory in all.

use vstd::prelude::*;
use vstd::string::StringExecFns;
use crate::module::convert_kilobytes;
use crate::module::kb_text;

verus! {

/// Used and total memory as `"used/total"`, both humanized.
pub fn fetch() -> (r: String)
    ensures
        exists|used_kb: nat, total_kb: nat|
            r@ == kb_text(used_kb) + seq!['/'] + kb_text(total_kb),
{
    proof {
        reveal_strlit("/");
    }
    let mut sys = sysinfo::System::new();
    sys.refresh_memory();
    let used = sys.used_memory();
    let total = sys.total_memory();
    let mut r = convert_kilobytes(used / 1000);
    r.append("/");
    r.append(convert_kilobytes(total / 1000).as_str());
    proof {
        assert("/"@ =~= seq!['/']);
        assert(r@ == kb_text((used / 1000) as nat) + seq!['/'] + kb_text((total / 1000) as nat));
    }
    r
}

} // verus!
