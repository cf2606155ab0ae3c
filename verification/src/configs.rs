use vstd::prelude::*;

verus! {

/// The process-wide configuration: a shared secret for the authorization
/// gate, the backing store's address, and the bind address of the HTTP
/// server. Loaded once at startup by the surrounding program and passed
/// in as an immutable value.
#[derive(Debug)]
pub struct Configs {
    /// The shared secret an authorized request must present.
    pub sst: String,
    /// Where the backing store lives.
    pub database_url: String,
    /// The address the server binds.
    pub bind_url: String,
}

} // verus!
