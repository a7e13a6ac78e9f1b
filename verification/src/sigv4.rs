//! What the host's signer takes and reports.

use vstd::prelude::*;
use vstd::utf8::*;

verus! {

/// A failure of the host's signer.
#[derive(Clone, Copy, Debug, Eq, PartialEq, Structural)]
pub enum Error {
    Denied,
    InvalidRequest,
    Limit,
    Unavailable,
    Timeout,
    Tls,
    Io,
    Expired,
    Internal,
}

/// The methods that a host signs for.
#[derive(Clone, Copy, Debug, Eq, PartialEq, Structural)]
pub enum Method {
    Get,
    Head,
}

/// A request that a host signs and sends under a grant of its own.
#[derive(Clone, Debug, Eq, PartialEq)]
pub struct Request {
    pub signing_grant: String,
    pub method: Method,
    pub canonical_uri: String,
    pub canonical_query: String,
    pub headers: Vec<(String, String)>,
    pub max_response_bytes: u64,
}

/// The model of [`Request`], with texts as their UTF-8 bytes.
#[verifier::ext_equal]
pub struct RequestModel {
    pub signing_grant: Seq<u8>,
    pub method: Method,
    pub canonical_uri: Seq<u8>,
    pub canonical_query: Seq<u8>,
    pub headers: Seq<(String, String)>,
    pub max_response_bytes: u64,
}

impl View for Request {
    type V = RequestModel;

    open spec fn view(&self) -> RequestModel {
        RequestModel {
            signing_grant: encode_utf8(self.signing_grant@),
            method: self.method,
            canonical_uri: encode_utf8(self.canonical_uri@),
            canonical_query: encode_utf8(self.canonical_query@),
            headers: self.headers@,
            max_response_bytes: self.max_response_bytes,
        }
    }
}

} // verus!
