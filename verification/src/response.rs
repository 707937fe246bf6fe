//! Rendering a status, headers, and body into response bytes.
//!
//! The wire form is `HTTP/1.1 {code} {reason}\r\n{header lines joined by
//! \r\n}\r\n\r\n{body}`. The reason phrase comes from a fixed table, with
//! `Unknown` for any other code. When the body is non-empty and the caller
//! gave no `Content-Type` or `Content-Length`, defaults are appended without
//! overwriting caller-supplied values.

use vstd::prelude::*;
use crate::ascii::ascii_of;
use crate::ascii::dec_of;
use crate::ascii::lit_vec;
use crate::ascii::push_dec;
use crate::headers::HeaderMap;
use crate::headers::has_key;
use crate::parse::crlf;

verus! {

/// The reason phrase of a status code.
pub open spec fn spec_reason(code: u16) -> Seq<char> {
    if code == 200 {
        "OK"@
    } else if code == 201 {
        "Created"@
    } else if code == 400 {
        "Bad Request"@
    } else if code == 401 {
        "Unauthorized"@
    } else if code == 403 {
        "Forbidden"@
    } else if code == 404 {
        "Not Found"@
    } else {
        "Unknown"@
    }
}

/// One rendered header line, without its terminator.
pub open spec fn header_line(kv: (Seq<u8>, Seq<u8>)) -> Seq<u8> {
    kv.0 + ascii_of(": "@) + kv.1
}

/// The header lines joined by CR-LF, with no terminator after the last.
pub open spec fn header_block(hs: Seq<(Seq<u8>, Seq<u8>)>) -> Seq<u8>
    decreases hs.len(),
{
    if hs.len() == 0 {
        Seq::empty()
    } else if hs.len() == 1 {
        header_line(hs[0])
    } else {
        header_block(hs.drop_last()) + crlf() + header_line(hs.last())
    }
}

/// The headers with the defaults a non-empty body earns: `Content-Type:
/// text/plain` and `Content-Length` are appended when absent, never
/// overwriting what the caller supplied.
pub open spec fn with_default_headers(
    hs: Seq<(Seq<u8>, Seq<u8>)>,
    body: Seq<u8>,
) -> Seq<(Seq<u8>, Seq<u8>)> {
    if body.len() == 0 {
        hs
    } else {
        let h1 = if has_key(hs, ascii_of("Content-Type"@)) {
            hs
        } else {
            hs.push((ascii_of("Content-Type"@), ascii_of("text/plain"@)))
        };
        if has_key(h1, ascii_of("Content-Length"@)) {
            h1
        } else {
            h1.push((ascii_of("Content-Length"@), dec_of(body.len())))
        }
    }
}

/// The rendered response bytes for a status, body, and headers, each
/// optional: the status defaults to 200, the body to empty, the headers to
/// none.
pub open spec fn render_spec(
    status: Option<u16>,
    body: Option<Seq<u8>>,
    headers: Option<Seq<(Seq<u8>, Seq<u8>)>>,
) -> Seq<u8> {
    let code = match status {
        Option::Some(c) => c,
        Option::None => 200,
    };
    let b = match body {
        Option::Some(b) => b,
        Option::None => Seq::empty(),
    };
    let hs0 = match headers {
        Option::Some(h) => h,
        Option::None => Seq::empty(),
    };
    let hs = with_default_headers(hs0, b);
    ascii_of("HTTP/1.1 "@) + dec_of(code as nat) + seq![32u8] + ascii_of(spec_reason(code))
        + crlf() + header_block(hs) + crlf() + crlf() + b
}

/// Rendering is a function of its inputs: two renderings of the same
/// status, body, and headers are byte-identical.
pub proof fn lemma_render_deterministic(
    status: Option<u16>,
    body: Option<Seq<u8>>,
    headers: Option<Seq<(Seq<u8>, Seq<u8>)>>,
    r1: Seq<u8>,
    r2: Seq<u8>,
)
    requires
        r1 == render_spec(status, body, headers),
        r2 == render_spec(status, body, headers),
    ensures
        r1 == r2,
{
}

/// The view of an optional byte vector.
pub open spec fn opt_bytes_view(b: Option<Vec<u8>>) -> Option<Seq<u8>> {
    match b {
        Option::Some(v) => Option::Some(v@),
        Option::None => Option::None,
    }
}

/// The view of an optional header map.
pub open spec fn opt_headers_view(h: Option<HeaderMap>) -> Option<Seq<(Seq<u8>, Seq<u8>)>> {
    match h {
        Option::Some(m) => Option::Some(m@),
        Option::None => Option::None,
    }
}

fn reason_vec(code: u16) -> (r: Vec<u8>)
    ensures
        r@ == ascii_of(spec_reason(code)),
{
    proof {
        reveal_strlit("OK");
        reveal_strlit("Created");
        reveal_strlit("Bad Request");
        reveal_strlit("Unauthorized");
        reveal_strlit("Forbidden");
        reveal_strlit("Not Found");
        reveal_strlit("Unknown");
    }
    if code == 200 {
        lit_vec("OK")
    } else if code == 201 {
        lit_vec("Created")
    } else if code == 400 {
        lit_vec("Bad Request")
    } else if code == 401 {
        lit_vec("Unauthorized")
    } else if code == 403 {
        lit_vec("Forbidden")
    } else if code == 404 {
        lit_vec("Not Found")
    } else {
        lit_vec("Unknown")
    }
}

pub(crate) fn content_type_key() -> (r: Vec<u8>)
    ensures
        r@ == ascii_of("Content-Type"@),
{
    proof {
        reveal_strlit("Content-Type");
    }
    lit_vec("Content-Type")
}

pub(crate) fn content_length_key() -> (r: Vec<u8>)
    ensures
        r@ == ascii_of("Content-Length"@),
{
    proof {
        reveal_strlit("Content-Length");
    }
    lit_vec("Content-Length")
}

fn text_plain_vec() -> (r: Vec<u8>)
    ensures
        r@ == ascii_of("text/plain"@),
{
    proof {
        reveal_strlit("text/plain");
    }
    lit_vec("text/plain")
}

fn http11_vec() -> (r: Vec<u8>)
    ensures
        r@ == ascii_of("HTTP/1.1 "@),
{
    proof {
        reveal_strlit("HTTP/1.1 ");
    }
    lit_vec("HTTP/1.1 ")
}

fn colon_space_vec() -> (r: Vec<u8>)
    ensures
        r@ == ascii_of(": "@),
{
    proof {
        reveal_strlit(": ");
    }
    lit_vec(": ")
}

/// Renders a response onto the wire format.
#[verifier::rlimit(50)]
pub fn render(status: Option<u16>, body: Option<Vec<u8>>, headers: Option<HeaderMap>) -> (r: Vec<
    u8,
>)
    ensures
        r@ == render_spec(status, opt_bytes_view(body), opt_headers_view(headers)),
{
    let ghost gb = opt_bytes_view(body);
    let ghost gh = opt_headers_view(headers);
    let code: u16 = match status {
        Some(c) => c,
        None => 200,
    };
    let body_v: Vec<u8> = match body {
        Some(b) => b,
        None => Vec::new(),
    };
    let mut hm: HeaderMap = match headers {
        Some(h) => h,
        None => HeaderMap::new(),
    };
    let ghost hs0 = hm@;
    if body_v.len() > 0 {
        let ct = content_type_key();
        if !hm.contains_key(ct.as_slice()) {
            hm.insert(ct, text_plain_vec());
        }
        let cl = content_length_key();
        if !hm.contains_key(cl.as_slice()) {
            let mut lv: Vec<u8> = Vec::new();
            push_dec(&mut lv, body_v.len());
            hm.insert(cl, lv);
        }
    }
    proof {
        assert(hm@ == with_default_headers(hs0, body_v@));
    }

    let mut out: Vec<u8> = Vec::new();
    let head = http11_vec();
    out.extend_from_slice(head.as_slice());
    push_dec(&mut out, code as usize);
    out.push(32);
    let reason = reason_vec(code);
    out.extend_from_slice(reason.as_slice());
    let crlf_v = crate::parse::crlf_vec();
    out.extend_from_slice(crlf_v.as_slice());
    let ghost base = out@;

    let sep = colon_space_vec();
    let m = hm.len();
    let mut i: usize = 0;
    while i < m
        invariant
            m == hm@.len(),
            i <= m,
            crlf_v@ == crlf(),
            sep@ == ascii_of(": "@),
            out@ == base + header_block(hm@.take(i as int)),
        decreases m - i,
    {
        if i > 0 {
            out.extend_from_slice(crlf_v.as_slice());
        }
        let (k, v) = hm.entry_at(i);
        out.extend_from_slice(k.as_slice());
        out.extend_from_slice(sep.as_slice());
        out.extend_from_slice(v.as_slice());
        proof {
            let pre = hm@.take(i as int);
            let post = hm@.take(i + 1);
            assert(post.drop_last() =~= pre);
            assert(post.last() == hm@[i as int]);
            if i == 0 {
                assert(out@ =~= base + header_block(post));
            } else {
                assert(out@ =~= base + header_block(pre) + crlf() + header_line(hm@[i as int]));
                assert(header_block(post) == header_block(pre) + crlf() + header_line(
                    hm@[i as int],
                ));
                assert(out@ =~= base + header_block(post));
            }
        }
        i += 1;
    }
    proof {
        assert(hm@.take(m as int) =~= hm@);
    }
    out.extend_from_slice(crlf_v.as_slice());
    out.extend_from_slice(crlf_v.as_slice());
    out.extend_from_slice(body_v.as_slice());
    proof {
        assert(out@ =~= render_spec(status, gb, gh));
    }
    out
}

} // verus!
