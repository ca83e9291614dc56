//! Queries over HTTP: addresses of requests, and responses that come in pieces.

use crate::persist::push_bytes;
use crate::text::{decimal, decimal_text};
use vstd::prelude::*;
use vstd::string::StringExecFns;

verus! {

/// Longest response.
pub const MAX_HTTP_BODY: usize = 65535;

/// The status of a response that is taken.
pub const STATUS_OK: u16 = 200;

/// Address of requests over HTTP/2.
pub fn https_url(server_name: &str, path: &str) -> (r: String)
    ensures
        r@ == "https://"@ + server_name@ + path@,
{
    let mut out = "https://".to_owned();
    out.append(server_name);
    out.append(path);
    out
}

/// Address of requests over HTTP/3.
pub fn h3_url(server_name: &str, port: u16, path: &str) -> (r: String)
    ensures
        r@ == "https://"@ + server_name@ + ":"@ + decimal_text(port as nat) + path@,
{
    let mut out = "https://".to_owned();
    out.append(server_name);
    out.append(":");
    out.append(decimal(port as u64).as_str());
    out.append(path);
    out
}

/// Whether the body of a response with this status is taken.
pub fn status_ok(status: u16) -> (r: bool)
    ensures
        r == (status == STATUS_OK),
{
    status == STATUS_OK
}

/// Appends a piece of a response; false when the response has become too long.
pub fn take_chunk(body: &mut Vec<u8>, chunk: &[u8]) -> (r: bool)
    ensures
        final(body)@ == old(body)@ + chunk@,
        r == (final(body)@.len() <= MAX_HTTP_BODY),
{
    push_bytes(body, chunk);
    body.len() <= MAX_HTTP_BODY
}

} // verus!
