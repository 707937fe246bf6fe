//! The HTTP method of a request.

use vstd::prelude::*;
use crate::ascii::ascii_of;
use crate::ascii::is_lit;

verus! {

/// The HTTP methods the server distinguishes. An unrecognized method token
/// is read as `GET`: the parser is deliberately lenient here.
#[derive(Clone, Copy, Debug, PartialEq, Eq, Structural)]
pub enum HttpVerb {
    GET,
    POST,
    PUT,
    DELETE,
    HEAD,
    OPTIONS,
    TRACE,
    CONNECT,
}

impl Default for HttpVerb {
    /// The default method is `GET`.
    fn default() -> (r: HttpVerb)
        ensures
            r == HttpVerb::GET,
    {
        HttpVerb::GET
    }
}

/// The method denoted by a request-line token: the eight known method names
/// map to themselves, every other token degrades to `GET`.
pub open spec fn spec_verb_of(t: Seq<u8>) -> HttpVerb {
    if t == ascii_of("POST"@) {
        HttpVerb::POST
    } else if t == ascii_of("PUT"@) {
        HttpVerb::PUT
    } else if t == ascii_of("DELETE"@) {
        HttpVerb::DELETE
    } else if t == ascii_of("HEAD"@) {
        HttpVerb::HEAD
    } else if t == ascii_of("OPTIONS"@) {
        HttpVerb::OPTIONS
    } else if t == ascii_of("TRACE"@) {
        HttpVerb::TRACE
    } else if t == ascii_of("CONNECT"@) {
        HttpVerb::CONNECT
    } else {
        HttpVerb::GET
    }
}

/// Maps a method token to its verb.
pub fn verb_of_token(t: &[u8]) -> (r: HttpVerb)
    ensures
        r == spec_verb_of(t@),
{
    proof {
        reveal_strlit("POST");
        reveal_strlit("PUT");
        reveal_strlit("DELETE");
        reveal_strlit("HEAD");
        reveal_strlit("OPTIONS");
        reveal_strlit("TRACE");
        reveal_strlit("CONNECT");
    }
    if is_lit(t, "POST") {
        HttpVerb::POST
    } else if is_lit(t, "PUT") {
        HttpVerb::PUT
    } else if is_lit(t, "DELETE") {
        HttpVerb::DELETE
    } else if is_lit(t, "HEAD") {
        HttpVerb::HEAD
    } else if is_lit(t, "OPTIONS") {
        HttpVerb::OPTIONS
    } else if is_lit(t, "TRACE") {
        HttpVerb::TRACE
    } else if is_lit(t, "CONNECT") {
        HttpVerb::CONNECT
    } else {
        HttpVerb::GET
    }
}

} // verus!
