//! The parsed form of one HTTP request.

use vstd::prelude::*;
use crate::verb::HttpVerb;
use crate::headers::HeaderMap;

verus! {

/// The mathematical shape of a parsed request.
pub struct RequestView {
    pub verb: HttpVerb,
    pub path: Seq<u8>,
    pub headers: Seq<(Seq<u8>, Seq<u8>)>,
    pub body: Seq<u8>,
}

/// One parsed request: the method, the raw requested path (beginning with
/// `/`), the headers with lowercased names, and the raw body bytes.
pub struct Request {
    pub verb: HttpVerb,
    pub path: Vec<u8>,
    pub headers: HeaderMap,
    pub body: Vec<u8>,
}

impl View for Request {
    type V = RequestView;

    open spec fn view(&self) -> RequestView {
        RequestView {
            verb: self.verb,
            path: self.path@,
            headers: self.headers@,
            body: self.body@,
        }
    }
}

/// What best-effort UTF-8 decoding makes of a byte sequence: invalid
/// sequences become replacement characters.
pub uninterp spec fn lossy_utf8(b: Seq<u8>) -> Seq<char>;

/// Relies on `String::from_utf8_lossy`: the decoding is a function of the
/// bytes alone, and an empty input decodes to the empty string.
#[verifier::external_body]
fn utf8_lossy(b: &[u8]) -> (r: String)
    ensures
        r@ == lossy_utf8(b@),
        b@.len() == 0 ==> r@.len() == 0,
{
    String::from_utf8_lossy(b).into_owned()
}

impl Request {
    /// The body as best-effort text, for handlers that expect text.
    pub fn body_text(&self) -> (r: String)
        ensures
            r@ == lossy_utf8(self.body@),
            self.body@.len() == 0 ==> r@.len() == 0,
    {
        utf8_lossy(self.body.as_slice())
    }

    /// The requested path as best-effort text.
    pub fn path_text(&self) -> (r: String)
        ensures
            r@ == lossy_utf8(self.path@),
            self.path@.len() == 0 ==> r@.len() == 0,
    {
        utf8_lossy(self.path.as_slice())
    }
}

} // verus!
