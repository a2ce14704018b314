//! Range-addressable streaming ZIP archives: a byte-range model, a ZIP layout
//! builder whose bytes can be produced from any offset, and the HTTP range
//! rules that bind them to a request.
use vstd::prelude::*;

pub mod stream_range;
pub mod text;
pub mod serve_range;
pub mod zip;
pub mod s3url;
pub mod upstream;
pub mod error;

verus! {

/// Settings of the gateway, fixed at startup.
#[derive(Clone)]
pub struct Config {
    /// Base URL of the server that provides archive manifests.
    pub upstream: String,
    /// Prefix removed from the request path before it is appended to `upstream`.
    pub strip_prefix: String,
    /// Value of the `X-Via-Zip-Stream` header sent upstream.
    pub via_zip_stream_header_value: String,
}

} // verus!
