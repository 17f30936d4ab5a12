//! Runtime configuration and the error body returned to callers. Reading
//! the environment happens outside the library; the values arrive here as
//! plain fields.

use vstd::prelude::*;

verus! {

/// Configuration of the service. `post_request_delay_ms` is the cooldown
/// slept after every successful provider call.
pub struct Config {
    pub database_url: String,
    pub jwt_secret: String,
    pub storage_path: String,
    pub groq_api_key: String,
    pub server_port: u16,
    pub upload_dir: String,
    pub post_request_delay_ms: u64,
}

/// The body of an error reply.
pub struct ErrorResponse {
    pub error: String,
}

impl ErrorResponse {
    pub fn new(error: String) -> (r: Self)
        ensures
            r.error@ == error@,
    {
        Self { error }
    }
}

} // verus!
