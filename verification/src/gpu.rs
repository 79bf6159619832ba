//! Placeholder for the GPU compute kernels (WebGPU / WGSL), kept so the
//! workspace layout is complete.
use vstd::prelude::*;

verus! {

/// Identity of the GPU kernels crate.
pub fn crate_name() -> (s: &'static str)
    ensures
        s@ == "dab-gpu"@,
{
    "dab-gpu"
}

} // verus!
