//! What the host's network reports.

use vstd::prelude::*;

verus! {

/// A failure of the host's network, with details for the host's own use.
#[derive(Clone, Debug, Eq, PartialEq)]
pub enum Error {
    Denied(String),
    Limit(String),
    Unavailable(String),
    Timeout(String),
    Tls(String),
    Io(String),
}

} // verus!
