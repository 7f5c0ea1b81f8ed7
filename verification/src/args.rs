//! Settings given on the command line.
use vstd::prelude::*;

verus! {

/// How the service was started.
#[derive(Clone, Copy, Debug, PartialEq, Eq, Structural)]
pub struct Args {
    /// Whether the service runs as one replica of a cluster, so that each
    /// maintenance job needs its lease.
    pub cluster: bool,
}

} // verus!
