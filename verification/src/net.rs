//! The record the network collaborator hands back across the fetch
//! interface: plain status, header, body and URL values. The fetch itself
//! (HTTP, timeouts, background-task lifecycle) is an external collaborator
//! and lives outside the verified core.
use vstd::prelude::*;

verus! {

/// One HTTP response, as plain values; headers are held as ordered
/// key/value pairs.
pub struct HttpResponse {
    pub status: u16,
    pub headers: Vec<(String, String)>,
    pub body: String,
    pub url: String,
}

} // verus!
