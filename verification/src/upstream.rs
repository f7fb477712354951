//! The settings of the client that talks to the backends.

use vstd::prelude::*;

verus! {

/// Seconds that in-flight requests get to finish when the process is
/// asked to stop.
pub const SHUTDOWN_GRACE_SECS: u64 = 10;

/// How the pooled upstream client is set up.
#[derive(Clone, Copy, Debug, PartialEq, Eq, Structural)]
pub struct ClientSettings {
    /// Seconds to wait for a connection.
    pub connect_timeout_secs: u64,
    /// Seconds that a whole request may take. This bound is apart from
    /// the backend timeout, which covers the wait for response headers.
    pub request_timeout_secs: u64,
    /// Idle connections kept for each backend host.
    pub pool_max_idle_per_host: usize,
    /// Whether redirects are followed. When they are not, a redirect is
    /// passed on to the client like any other response.
    pub follow_redirects: bool,
}

/// The settings in force unless they are tuned: five seconds to connect,
/// thirty for a request, thirty-two idle connections per host, and no
/// following of redirects.
pub open spec fn default_settings() -> ClientSettings {
    ClientSettings {
        connect_timeout_secs: 5,
        request_timeout_secs: 30,
        pool_max_idle_per_host: 32,
        follow_redirects: false,
    }
}

impl Default for ClientSettings {
    fn default() -> (r: ClientSettings)
        ensures
            r == default_settings(),
    {
        ClientSettings {
            connect_timeout_secs: 5,
            request_timeout_secs: 30,
            pool_max_idle_per_host: 32,
            follow_redirects: false,
        }
    }
}

} // verus!
