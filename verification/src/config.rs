//! Default settings of the tracker.

use vstd::prelude::*;

verus! {

/// Seconds a peer is asked to wait between two announces.
pub const ANNOUNCE_INTERVAL: i64 = 60;

/// Seconds after which a peer that has not announced again is dropped.
pub const DROP_THRESHOLD: i64 = 3 * ANNOUNCE_INTERVAL;

/// Where the store listens.
pub const REDIS_URL: &'static str = "redis://127.0.0.1:56002/";

/// Where the tracker listens.
pub const LISTEN_ADDR: &'static str = "0.0.0.0:9001";

/// Number of threads that serve requests.
pub const NUM_THREADS: usize = 10;

/// The defaults are consistent: peers are asked to come back after a positive
/// interval, and are dropped only after more than one interval has passed.
pub proof fn lemma_defaults_consistent()
    ensures
        ANNOUNCE_INTERVAL > 0,
        DROP_THRESHOLD > ANNOUNCE_INTERVAL,
{
}

} // verus!
