//! The cache's static capability descriptor.

use vstd::prelude::*;

verus! {

/// The capability descriptor's body text.
pub struct CacheInfoResponse(pub &'static str);

/// The fixed descriptor text: the store root, willingness to answer
/// mass queries, and the cache's priority.
pub open spec fn spec_cache_info() -> Seq<char> {
    "StoreDir: /nix/store\nWantMassQuery: 1\nPriority: 20\n"@
}

/// Serves the capability descriptor.
pub fn get_cache_info() -> (r: CacheInfoResponse)
    ensures
        r.0@ == spec_cache_info(),
{
    CacheInfoResponse("StoreDir: /nix/store\nWantMassQuery: 1\nPriority: 20\n")
}

} // verus!
