//! Connection settings of the TiKV backend crate.
use vstd::prelude::*;

verus! {

/// Configuration for connecting to a TiKV cluster.
#[derive(Clone, Debug)]
pub struct TiKvConfig {
    /// PD (Placement Driver) endpoints, e.g. `["127.0.0.1:2379"]`.
    pub pd_endpoints: Vec<String>,
}

impl TiKvConfig {
    /// A config with the given PD endpoints.
    pub fn new(pd_endpoints: Vec<String>) -> (r: Self)
        ensures
            r.pd_endpoints@ == pd_endpoints@,
    {
        TiKvConfig { pd_endpoints }
    }
}

} // verus!
