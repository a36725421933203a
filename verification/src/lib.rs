//! A content-addressed binary cache service core: store-path modelling,
//! catalog lookup, hash re-encoding, fingerprint signing and narinfo
//! serialization.

pub mod base32;
pub mod cache_info;
pub mod database;
pub mod nar_info;
pub mod signature;
pub mod strutil;

use vstd::prelude::*;

verus! {

/// The store root every prefixed path begins with.
pub open spec fn spec_store_dir() -> Seq<char> {
    seq!['/', 'n', 'i', 'x', '/', 's', 't', 'o', 'r', 'e', '/']
}

/// The store root as a string.
pub fn store_dir_str() -> (r: &'static str)
    ensures
        r@ == spec_store_dir(),
{
    let s = "/nix/store/";
    proof {
        reveal_strlit("/nix/store/");
        assert(s@ =~= spec_store_dir());
    }
    s
}

} // verus!
