//! Connection configuration for the graph store.
//!
//! The values come from the environment; reading them is the binary's job.
//! This type carries them with the documented defaults and decides whether
//! they are complete enough to attempt a connection.

use vstd::prelude::*;

verus! {

/// The default page size for result streaming.
pub const DEFAULT_FETCH_SIZE: u32 = 500;

/// The default cap on concurrent pooled connections.
pub const DEFAULT_MAX_CONNECTIONS: u32 = 10;

/// What is needed to connect to the graph store.
pub struct ConnectionConfig {
    pub url: String,
    pub user: String,
    pub password: String,
    pub db: String,
    pub fetch_size: u32,
    pub max_connections: u32,
}

impl ConnectionConfig {
    /// Every credential field is present.
    pub open spec fn is_complete_spec(&self) -> bool {
        self.url@.len() > 0 && self.user@.len() > 0 && self.password@.len() > 0 && self.db@.len()
            > 0
    }

    /// A configuration from the four credential values, with the documented
    /// defaults for pool and fetch sizes.
    pub fn new(url: String, user: String, password: String, db: String) -> (r: ConnectionConfig)
        ensures
            r.url@ == url@,
            r.user@ == user@,
            r.password@ == password@,
            r.db@ == db@,
            r.fetch_size == DEFAULT_FETCH_SIZE,
            r.max_connections == DEFAULT_MAX_CONNECTIONS,
    {
        ConnectionConfig {
            url,
            user,
            password,
            db,
            fetch_size: DEFAULT_FETCH_SIZE,
            max_connections: DEFAULT_MAX_CONNECTIONS,
        }
    }

    /// Decides whether a connection may be attempted: every credential field
    /// must be non-empty.
    pub fn is_complete(&self) -> (r: bool)
        ensures
            r == self.is_complete_spec(),
    {
        !self.url.as_str().is_empty() && !self.user.as_str().is_empty()
            && !self.password.as_str().is_empty() && !self.db.as_str().is_empty()
    }
}

} // verus!
