//! Process configuration read from the environment.

use vstd::prelude::*;

verus! {

/// Settings a master or worker process starts with.  The bootstrap code
/// deserializes its own copy from the environment and hands the values over
/// as plain strings.
pub struct EnvVar {
    /// Address of the key-value store backing the shared-queue variant.
    pub redis_url: String,
}

} // verus!
