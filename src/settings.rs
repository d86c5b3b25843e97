use vstd::prelude::*;

verus! {

/// Where the store is and how to authenticate to it.
pub struct Vault {
    pub token: String,
    pub address: String,
}

pub struct Settings {
    pub vault: Vault,
}

} // verus!
