//! The computing side of a GET exchange: the request text that is sent and
//! the response read from the bytes that come back. The socket work is the
//! caller's.

use vstd::prelude::*;
use vstd::utf8::{decode_utf8, valid_utf8};
use crate::error::Error;
use crate::http::{is_outcome_of, HttpResponse};

verus! {

/// Relies on `std::str::from_utf8`: it accepts exactly the valid UTF-8 byte
/// sequences and yields the characters they encode.
#[verifier::external_body]
fn utf8_text(b: &[u8]) -> (r: Option<String>)
    ensures
        match r {
            Some(s) => valid_utf8(b@) && s@ == decode_utf8(b@),
            None => !valid_utf8(b@),
        },
{
    match std::str::from_utf8(b) {
        Ok(s) => Some(String::from(s)),
        Err(_) => None,
    }
}

/// The request text for `GET /{path}` on `host`, lines ended by `\n`.
pub open spec fn get_request_text(host: Seq<char>, path: Seq<char>) -> Seq<char> {
    "GET /"@ + path + " HTTP/1.1\n"@ + "Host: "@ + host + "\n"@ + "Accept: text/html\n"@
        + "Connection: close\n"@ + "\n"@
}

/// Fetches pages over plain HTTP; holds no state of its own.
pub struct HttpClient {}

impl HttpClient {
    pub fn new() -> Self {
        Self {  }
    }

    pub fn build_get_request(host: &str, path: &str) -> (r: String)
        ensures
            r@ == get_request_text(host@, path@),
    {
        let mut request = String::from_str("GET /");
        request.append(path);
        request.append(" HTTP/1.1\n");
        request.append("Host: ");
        request.append(host);
        request.append("\n");
        request.append("Accept: text/html\n");
        request.append("Connection: close\n");
        request.append("\n");
        request
    }

    /// Reads a response from the bytes received: they must be UTF-8, and the
    /// text they encode is parsed as `HttpResponse::new` does.
    pub fn response_from_bytes(received: &[u8]) -> (r: Result<HttpResponse, Error>)
        ensures
            !valid_utf8(received@) ==> r is Err && r->Err_0 is Decoding,
            valid_utf8(received@) ==> is_outcome_of(decode_utf8(received@), r),
    {
        match utf8_text(received) {
            Some(text) => HttpResponse::new(text),
            None => Err(Error::Decoding(String::from_str("invalid received response"))),
        }
    }
}

} // verus!
