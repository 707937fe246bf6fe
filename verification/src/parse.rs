//! Parsing one HTTP/1.1 request out of a raw byte buffer.
//!
//! The buffer is split on CR-LF into lines. The first line must hold exactly
//! three space-separated tokens (method, path, protocol version); anything
//! else is malformed and answered with 400. A path that does not begin with
//! `/`, or consists of slashes only, short-circuits to an empty 200 answer.
//! Header lines run up to the first empty line; each is split on its first
//! colon, names are trimmed and lowercased, values trimmed, and a repeated
//! name overwrites the earlier value. The body is the byte range that
//! follows the first CR-LF-CR-LF, bounded by the `content-length` header and
//! clamped to the received buffer.

use vstd::prelude::*;
use crate::ascii::ascii_of;
use crate::ascii::content_length_of;
use crate::ascii::find_from;
use crate::ascii::first_match;
use crate::ascii::lit_vec;
use crate::ascii::lower_of;
use crate::ascii::parse_dec;
use crate::ascii::to_lower;
use crate::ascii::trim;
use crate::ascii::trimmed;
use crate::headers::HeaderMap;
use crate::headers::upsert;
use crate::headers::value_of;
use crate::request::Request;
use crate::request::RequestView;
use crate::verb::HttpVerb;
use crate::verb::spec_verb_of;
use crate::verb::verb_of_token;
use vstd::slice::slice_subrange;
use vstd::slice::slice_to_vec;

verus! {

pub open spec fn crlf() -> Seq<u8> {
    seq![13u8, 10u8]
}

pub open spec fn crlfcrlf() -> Seq<u8> {
    seq![13u8, 10u8, 13u8, 10u8]
}

pub open spec fn space() -> Seq<u8> {
    seq![32u8]
}

pub open spec fn colon() -> Seq<u8> {
    seq![58u8]
}

pub fn crlf_vec() -> (r: Vec<u8>)
    ensures
        r@ == crlf(),
{
    let mut v: Vec<u8> = Vec::new();
    v.push(13);
    v.push(10);
    proof {
        assert(v@ =~= crlf());
    }
    v
}

fn crlfcrlf_vec() -> (r: Vec<u8>)
    ensures
        r@ == crlfcrlf(),
{
    let mut v: Vec<u8> = Vec::new();
    v.push(13);
    v.push(10);
    v.push(13);
    v.push(10);
    proof {
        assert(v@ =~= crlfcrlf());
    }
    v
}

fn byte_vec(b: u8) -> (r: Vec<u8>)
    ensures
        r@ == seq![b],
{
    let mut v: Vec<u8> = Vec::new();
    v.push(b);
    proof {
        assert(v@ =~= seq![b]);
    }
    v
}

/// The request line: the bytes before the first CR-LF, or the whole buffer
/// when there is none.
pub open spec fn spec_first_line(b: Seq<u8>) -> Seq<u8> {
    let e = first_match(b, crlf());
    if e == -1 {
        b
    } else {
        b.take(e)
    }
}

/// The three space-separated tokens of a request line, or nothing when the
/// line does not hold exactly three.
pub open spec fn line_tokens(line: Seq<u8>) -> Option<(Seq<u8>, Seq<u8>, Seq<u8>)> {
    let i1 = first_match(line, space());
    if i1 == -1 {
        Option::None
    } else {
        let rest1 = line.skip(i1 + 1);
        let i2 = first_match(rest1, space());
        if i2 == -1 {
            Option::None
        } else {
            let rest2 = rest1.skip(i2 + 1);
            if first_match(rest2, space()) != -1 {
                Option::None
            } else {
                Option::Some((line.take(i1), rest1.take(i2), rest2))
            }
        }
    }
}

/// A path of slashes only (or empty): it has no non-empty segment.
pub open spec fn all_slashes(p: Seq<u8>) -> bool {
    forall|i: int| 0 <= i < p.len() ==> p[i] == 47
}

/// Folds one header line into the collected headers: the line is split on
/// its first colon; without a colon it is skipped; the name is trimmed and
/// lowercased, the value trimmed, and the pair inserted with overwrite.
pub open spec fn insert_header_line(
    acc: Seq<(Seq<u8>, Seq<u8>)>,
    line: Seq<u8>,
) -> Seq<(Seq<u8>, Seq<u8>)> {
    let c = first_match(line, colon());
    if c == -1 {
        acc
    } else {
        upsert(acc, lower_of(trimmed(line.take(c))), trimmed(line.skip(c + 1)))
    }
}

/// Folds the header lines found in `rest` (the bytes after the request
/// line), stopping at the first empty line or at the end of the buffer.
pub open spec fn headers_from(rest: Seq<u8>, acc: Seq<(Seq<u8>, Seq<u8>)>) -> Seq<
    (Seq<u8>, Seq<u8>),
>
    decreases rest.len(),
    via headers_from_decreases
{
    let e = first_match(rest, crlf());
    let line = if e == -1 {
        rest
    } else {
        rest.take(e)
    };
    if line.len() == 0 {
        acc
    } else if e == -1 {
        insert_header_line(acc, line)
    } else {
        headers_from(rest.skip(e + 2), insert_header_line(acc, line))
    }
}

#[via_fn]
proof fn headers_from_decreases(rest: Seq<u8>, acc: Seq<(Seq<u8>, Seq<u8>)>) {
    crate::ascii::lemma_first_match(rest, crlf());
}

/// All headers of the buffer: the lines after the request line.
pub open spec fn spec_headers_of(b: Seq<u8>) -> Seq<(Seq<u8>, Seq<u8>)> {
    let e = first_match(b, crlf());
    if e == -1 {
        Seq::empty()
    } else {
        headers_from(b.skip(e + 2), Seq::empty())
    }
}

/// The declared body length: the `content-length` header value read as a
/// decimal numeral, 0 when absent or unreadable.
pub open spec fn spec_content_length(hs: Seq<(Seq<u8>, Seq<u8>)>) -> nat {
    content_length_of(value_of(hs, ascii_of("content-length"@)))
}

/// The body: the bytes after the first CR-LF-CR-LF, up to the declared
/// length, clamped to what the buffer holds.
pub open spec fn spec_body_of(b: Seq<u8>, hs: Seq<(Seq<u8>, Seq<u8>)>) -> Seq<u8> {
    let j = first_match(b, crlfcrlf());
    if j == -1 {
        Seq::empty()
    } else {
        let start = j + 4;
        let cl = spec_content_length(hs) as int;
        let end = if start + cl <= b.len() {
            start + cl
        } else {
            b.len() as int
        };
        b.subrange(start, end)
    }
}

/// What parsing a buffer yields.
pub enum SpecParse {
    /// A structured request.
    Req(RequestView),
    /// A request line without exactly three tokens: answered with 400.
    Malformed,
    /// A request target that is not an absolute path with a non-empty
    /// segment: answered with an empty 200.
    ShortCircuit,
}

/// The parse of a raw buffer.
pub open spec fn spec_parse(b: Seq<u8>) -> SpecParse {
    match line_tokens(spec_first_line(b)) {
        Option::None => SpecParse::Malformed,
        Option::Some(t) => {
            let path = t.1;
            if path.len() == 0 || path[0] != 47 || all_slashes(path) {
                SpecParse::ShortCircuit
            } else {
                let hs = spec_headers_of(b);
                SpecParse::Req(
                    RequestView {
                        verb: spec_verb_of(t.0),
                        path: path,
                        headers: hs,
                        body: spec_body_of(b, hs),
                    },
                )
            }
        },
    }
}

/// The outcome of parsing a buffer.
pub enum ParseResult {
    Req(Request),
    Malformed,
    ShortCircuit,
}

impl View for ParseResult {
    type V = SpecParse;

    open spec fn view(&self) -> SpecParse {
        match self {
            ParseResult::Req(r) => SpecParse::Req(r@),
            ParseResult::Malformed => SpecParse::Malformed,
            ParseResult::ShortCircuit => SpecParse::ShortCircuit,
        }
    }
}

/// Parses one request out of a raw buffer.
pub fn parse(buf: &[u8]) -> (r: ParseResult)
    ensures
        r@ == spec_parse(buf@),
{
    let crlf_pat = crlf_vec();
    let space_pat = byte_vec(32);
    let n = buf.len();

    // The request line.
    let e1 = find_from(buf, 0, crlf_pat.as_slice());
    proof {
        assert(buf@.skip(0) =~= buf@);
    }
    let line_end: usize = match e1 {
        Some(i) => i,
        None => buf.len(),
    };
    let line = slice_subrange(buf, 0, line_end);
    proof {
        assert(line@ =~= spec_first_line(buf@));
    }

    // Exactly three space-separated tokens.
    let s1 = match find_from(line, 0, space_pat.as_slice()) {
        None => {
            proof {
                assert(line@.skip(0) =~= line@);
            }
            return ParseResult::Malformed;
        },
        Some(i) => {
            proof {
                assert(line@.skip(0) =~= line@);
            }
            i
        },
    };
    let s2 = match find_from(line, s1 + 1, space_pat.as_slice()) {
        None => {
            return ParseResult::Malformed;
        },
        Some(i) => i,
    };
    if find_from(line, s2 + 1, space_pat.as_slice()).is_some() {
        proof {
            let rest1 = line@.skip(s1 + 1);
            let rest2 = rest1.skip(first_match(rest1, space()) + 1);
            assert(rest2 =~= line@.skip(s2 + 1));
        }
        return ParseResult::Malformed;
    }
    let token0 = slice_subrange(line, 0, s1);
    let token1 = slice_subrange(line, s1 + 1, s2);
    proof {
        let rest1 = line@.skip(s1 + 1);
        let rest2 = rest1.skip(first_match(rest1, space()) + 1);
        assert(rest2 =~= line@.skip(s2 + 1));
        assert(token0@ =~= line@.take(s1 as int));
        assert(token1@ =~= rest1.take(first_match(rest1, space())));
        assert(line_tokens(line@) == Option::Some(
            (line@.take(s1 as int), rest1.take(first_match(rest1, space())), rest2),
        ));
    }

    let verb = verb_of_token(token0);

    // The path must be absolute and have a non-empty segment.
    if token1.len() == 0 {
        return ParseResult::ShortCircuit;
    }
    if token1[0] != 47 {
        return ParseResult::ShortCircuit;
    }
    let mut all_sl = true;
    let mut i: usize = 0;
    while i < token1.len()
        invariant
            i <= token1@.len(),
            all_sl == (forall|j: int| 0 <= j < i ==> token1@[j] == 47),
        decreases token1@.len() - i,
    {
        if token1[i] != 47 {
            all_sl = false;
        }
        i += 1;
    }
    if all_sl {
        return ParseResult::ShortCircuit;
    }

    // Headers.
    let mut hm = HeaderMap::new();
    if let Some(first_end) = e1 {
        let colon_pat = byte_vec(58);
        let ghost rest0 = buf@.skip(first_end + 2);
        let mut p: usize = first_end + 2;
        loop
            invariant_except_break
                n == buf@.len(),
                first_end + 2 <= p <= buf@.len(),
                colon_pat@ == colon(),
                crlf_pat@ == crlf(),
                headers_from(rest0, Seq::empty()) == headers_from(buf@.skip(p as int), hm@),
            ensures
                headers_from(rest0, Seq::empty()) == hm@,
            decreases buf@.len() - p,
        {
            let ghost rest = buf@.skip(p as int);
            let ghost acc0 = hm@;
            let e = find_from(buf, p, crlf_pat.as_slice());
            let lend: usize = match e {
                Some(i) => i,
                None => buf.len(),
            };
            let hline = slice_subrange(buf, p, lend);
            proof {
                let fm = first_match(rest, crlf());
                if e is Some {
                    assert(hline@ =~= rest.take(fm));
                } else {
                    assert(hline@ =~= rest);
                }
            }
            if hline.len() == 0 {
                proof {
                    assert(headers_from(rest, acc0) == acc0);
                }
                break;
            }
            // Split the line on its first colon; skip it when there is none.
            match find_from(hline, 0, colon_pat.as_slice()) {
                Some(ci) => {
                    proof {
                        assert(hline@.skip(0) =~= hline@);
                    }
                    let key_raw = slice_subrange(hline, 0, ci);
                    let val_raw = slice_subrange(hline, ci + 1, hline.len());
                    let key = to_lower(trim(key_raw));
                    let value = slice_to_vec(trim(val_raw));
                    proof {
                        assert(key_raw@ =~= hline@.take(ci as int));
                        assert(val_raw@ =~= hline@.skip(ci + 1));
                    }
                    hm.insert(key, value);
                    proof {
                        assert(hm@ == insert_header_line(acc0, hline@));
                    }
                },
                None => {
                    proof {
                        assert(hline@.skip(0) =~= hline@);
                        assert(hm@ == insert_header_line(acc0, hline@));
                    }
                },
            }
            match e {
                Some(i) => {
                    proof {
                        assert(rest.skip(first_match(rest, crlf()) + 2) =~= buf@.skip(i + 2));
                        assert(headers_from(rest, acc0) == headers_from(
                            buf@.skip(i + 2),
                            hm@,
                        ));
                    }
                    p = i + 2;
                },
                None => {
                    proof {
                        assert(headers_from(rest, acc0) == insert_header_line(acc0, hline@));
                    }
                    break;
                },
            }
        }
        proof {
            assert(hm@ == spec_headers_of(buf@));
        }
    }
    proof {
        assert(hm@ == spec_headers_of(buf@));
    }
    finish_parse(buf, verb, token1, hm)
}

/// Builds the parsed request once the verb, path, and headers are known:
/// extracts the body and assembles the result.
fn finish_parse(buf: &[u8], verb: HttpVerb, path: &[u8], hm: HeaderMap) -> (r: ParseResult)
    requires
        hm@ == spec_headers_of(buf@),
        ({
            match line_tokens(spec_first_line(buf@)) {
                Option::Some(t) => {
                    &&& verb == spec_verb_of(t.0)
                    &&& path@ == t.1
                    &&& t.1.len() > 0
                    &&& t.1[0] == 47
                    &&& !all_slashes(t.1)
                },
                Option::None => false,
            }
        }),
    ensures
        r@ == spec_parse(buf@),
{
    let crlfcrlf_pat = crlfcrlf_vec();
    let n = buf.len();
    let j = find_from(buf, 0, crlfcrlf_pat.as_slice());
    proof {
        assert(buf@.skip(0) =~= buf@);
    }
    let body: Vec<u8> = match j {
        None => Vec::new(),
        Some(jj) => {
            let start = jj + 4;
            let key = lit_vec_content_length();
            let cl: usize = match hm.get(key.as_slice()) {
                Some(v) => parse_dec(v.as_slice()),
                None => 0,
            };
            let end: usize = if cl <= buf.len() - start {
                start + cl
            } else {
                buf.len()
            };
            slice_to_vec(slice_subrange(buf, start, end))
        },
    };
    proof {
        assert(body@ =~= spec_body_of(buf@, hm@));
    }
    let req = Request { verb, path: slice_to_vec(path), headers: hm, body };
    ParseResult::Req(req)
}

/// A request line without exactly three space-separated tokens is the one
/// and only way parsing rejects a buffer as malformed.
pub proof fn lemma_malformed_request_line(b: Seq<u8>)
    ensures
        (spec_parse(b) is Malformed) <==> (line_tokens(spec_first_line(b)) is None),
{
}

/// A well-formed request line is reflected token for token: assembling a
/// method, a path, and a version — none holding a space or a CR — with
/// single spaces and a CR-LF gives a buffer whose request line splits back
/// into exactly those three tokens.
pub proof fn lemma_request_line_reflected(m: Seq<u8>, p: Seq<u8>, v: Seq<u8>, tail: Seq<u8>)
    requires
        forall|i: int| 0 <= i < m.len() ==> m[i] != 32 && m[i] != 13,
        forall|i: int| 0 <= i < p.len() ==> p[i] != 32 && p[i] != 13,
        forall|i: int| 0 <= i < v.len() ==> v[i] != 32 && v[i] != 13,
    ensures
        ({
            let line = m + space() + p + space() + v;
            let b = line + crlf() + tail;
            &&& spec_first_line(b) == line
            &&& line_tokens(line) == Option::Some((m, p, v))
        }),
{
    let line = m + space() + p + space() + v;
    let b = line + crlf() + tail;
    crate::ascii::lemma_first_match_append(line, crlf(), tail);
    assert(b =~= line + crlf() + tail);
    assert(b.take(line.len() as int) =~= line);
    assert(spec_first_line(b) == line);

    let rest1t = p + space() + v;
    assert(line =~= m + space() + rest1t);
    crate::ascii::lemma_first_match_append(m, space(), rest1t);
    assert(first_match(line, space()) == m.len());
    let rest1 = line.skip(m.len() + 1 as int);
    assert(rest1 =~= rest1t);
    crate::ascii::lemma_first_match_append(p, space(), v);
    assert(rest1t =~= p + space() + v);
    assert(first_match(rest1, space()) == p.len());
    let rest2 = rest1.skip(p.len() + 1 as int);
    assert(rest2 =~= v);
    crate::ascii::lemma_first_match_absent(v, space());
    assert(line.take(m.len() as int) =~= m);
    assert(rest1.take(p.len() as int) =~= p);
}

/// A well-formed request whose path is absolute with a non-empty segment
/// parses to a request with exactly that method's verb and that path.
pub proof fn lemma_parse_reflects_request_line(
    m: Seq<u8>,
    p: Seq<u8>,
    v: Seq<u8>,
    tail: Seq<u8>,
    rv: RequestView,
)
    requires
        forall|i: int| 0 <= i < m.len() ==> m[i] != 32 && m[i] != 13,
        forall|i: int| 0 <= i < p.len() ==> p[i] != 32 && p[i] != 13,
        forall|i: int| 0 <= i < v.len() ==> v[i] != 32 && v[i] != 13,
        p.len() > 0,
        p[0] == 47,
        !all_slashes(p),
        spec_parse(m + space() + p + space() + v + crlf() + tail) == SpecParse::Req(rv),
    ensures
        rv.verb == spec_verb_of(m),
        rv.path == p,
{
    let line = m + space() + p + space() + v;
    let b0 = m + space() + p + space() + v + crlf() + tail;
    assert(b0 =~= line + crlf() + tail);
    lemma_request_line_reflected(m, p, v, tail);
}

/// A well-formed header line is reflected too: a request whose header
/// section is one line `name:value` yields exactly the header whose name is
/// `name` trimmed and lowercased and whose value is `value` trimmed.
pub proof fn lemma_single_header_reflected(line: Seq<u8>, name: Seq<u8>, value: Seq<u8>)
    requires
        forall|i: int| 0 <= i < line.len() ==> line[i] != 13,
        forall|i: int| 0 <= i < name.len() ==> name[i] != 13 && name[i] != 58,
        forall|i: int| 0 <= i < value.len() ==> value[i] != 13,
        line.len() > 0,
    ensures
        spec_headers_of(line + crlf() + name + colon() + value + crlf() + crlf()) == seq![
            (lower_of(trimmed(name)), trimmed(value)),
        ],
{
    let hline = name + colon() + value;
    let b = line + crlf() + (hline + crlf() + crlf());
    assert(b =~= (line + crlf() + name + colon() + value + crlf() + crlf()));
    crate::ascii::lemma_first_match_append(line, crlf(), hline + crlf() + crlf());
    assert((line + crlf() + (hline + crlf() + crlf())) =~= (line + crlf()) + (hline + crlf()
        + crlf()));
    assert(first_match(b, crlf()) == line.len());
    let rest0 = b.skip(line.len() + 2 as int);
    assert(rest0 =~= hline + crlf() + crlf());

    // The header line runs to the next CR-LF.
    crate::ascii::lemma_first_match_append(hline, crlf(), crlf());
    assert(rest0 =~= hline + crlf() + crlf());
    assert(first_match(rest0, crlf()) == hline.len());
    assert(rest0.take(hline.len() as int) =~= hline);

    // It splits on its first colon into the name and the value.
    crate::ascii::lemma_first_match_append(name, colon(), value);
    assert(hline =~= name + colon() + value);
    assert(first_match(hline, colon()) == name.len());
    assert(hline.take(name.len() as int) =~= name);
    assert(hline.skip(name.len() + 1 as int) =~= value);

    // After it only the blank line is left, which ends the header section.
    let rest1 = rest0.skip(hline.len() + 2 as int);
    assert(rest1 =~= crlf());
    assert(first_match(rest1, crlf()) == 0) by {
        assert(rest1.subrange(0, 2) =~= crlf());
        crate::ascii::lemma_first_match_unique(rest1, crlf(), 0);
    }
    let acc1 = insert_header_line(Seq::empty(), hline);
    crate::headers::lemma_key_index(Seq::empty(), lower_of(trimmed(name)));
    assert(acc1 =~= seq![(lower_of(trimmed(name)), trimmed(value))]);
    assert(headers_from(rest1, acc1) == acc1);
    assert(headers_from(rest0, Seq::empty()) == acc1);
}

/// Every header name a parse collects is free of capital letters.
proof fn lemma_headers_from_lower(rest: Seq<u8>, acc: Seq<(Seq<u8>, Seq<u8>)>)
    requires
        forall|i: int|
            0 <= i < acc.len() ==> crate::ascii::is_lower_seq((#[trigger] acc[i]).0),
    ensures
        forall|i: int|
            0 <= i < headers_from(rest, acc).len() ==> crate::ascii::is_lower_seq(
                (#[trigger] headers_from(rest, acc)[i]).0,
            ),
    decreases rest.len(),
{
    let e = first_match(rest, crlf());
    let line = if e == -1 {
        rest
    } else {
        rest.take(e)
    };
    if line.len() == 0 {
    } else {
        lemma_insert_header_line_lower(acc, line);
        if e != -1 {
            crate::ascii::lemma_first_match(rest, crlf());
            lemma_headers_from_lower(rest.skip(e + 2), insert_header_line(acc, line));
            assert(headers_from(rest, acc) == headers_from(
                rest.skip(e + 2),
                insert_header_line(acc, line),
            ));
        }
    }
}

proof fn lemma_insert_header_line_lower(acc: Seq<(Seq<u8>, Seq<u8>)>, line: Seq<u8>)
    requires
        forall|i: int|
            0 <= i < acc.len() ==> crate::ascii::is_lower_seq((#[trigger] acc[i]).0),
    ensures
        forall|i: int|
            0 <= i < insert_header_line(acc, line).len() ==> crate::ascii::is_lower_seq(
                (#[trigger] insert_header_line(acc, line)[i]).0,
            ),
{
    let c = first_match(line, colon());
    if c != -1 {
        let k = lower_of(trimmed(line.take(c)));
        crate::ascii::lemma_lower_of_is_lower(trimmed(line.take(c)));
        crate::headers::lemma_key_index(acc, k);
    }
}

/// Header names are lowercase in every parsed request, whatever the casing
/// of the input.
pub proof fn lemma_header_keys_lowercase(b: Seq<u8>, rv: RequestView)
    requires
        spec_parse(b) == SpecParse::Req(rv),
    ensures
        forall|i: int|
            0 <= i < rv.headers.len() ==> crate::ascii::is_lower_seq(
                (#[trigger] rv.headers[i]).0,
            ),
{
    let e = first_match(b, crlf());
    if e != -1 {
        lemma_headers_from_lower(b.skip(e + 2), Seq::empty());
    }
}

/// Collected headers keep their names unique.
proof fn lemma_headers_from_unique(rest: Seq<u8>, acc: Seq<(Seq<u8>, Seq<u8>)>)
    requires
        crate::headers::unique_keys(acc),
    ensures
        crate::headers::unique_keys(headers_from(rest, acc)),
    decreases rest.len(),
{
    let e = first_match(rest, crlf());
    let line = if e == -1 {
        rest
    } else {
        rest.take(e)
    };
    if line.len() == 0 {
    } else {
        let c = first_match(line, colon());
        if c != -1 {
            crate::headers::lemma_upsert_unique(
                acc,
                lower_of(trimmed(line.take(c))),
                trimmed(line.skip(c + 1)),
            );
        }
        if e != -1 {
            crate::ascii::lemma_first_match(rest, crlf());
            lemma_headers_from_unique(rest.skip(e + 2), insert_header_line(acc, line));
            assert(headers_from(rest, acc) == headers_from(
                rest.skip(e + 2),
                insert_header_line(acc, line),
            ));
        }
    }
}

/// Header names are unique in every parsed request: a repeated name
/// overwrote the earlier value instead of adding an entry.
pub proof fn lemma_header_keys_unique(b: Seq<u8>, rv: RequestView)
    requires
        spec_parse(b) == SpecParse::Req(rv),
    ensures
        crate::headers::unique_keys(rv.headers),
{
    let e = first_match(b, crlf());
    if e != -1 {
        lemma_headers_from_unique(b.skip(e + 2), Seq::empty());
    }
}

/// The body never reaches past the supplied buffer: it is the byte range
/// that follows the first CR-LF-CR-LF, its length the declared content
/// length clamped to what the buffer still holds, and empty when the
/// boundary is absent.
pub proof fn lemma_body_bounded(b: Seq<u8>, rv: RequestView)
    requires
        spec_parse(b) == SpecParse::Req(rv),
    ensures
        ({
            let j = first_match(b, crlfcrlf());
            &&& j == -1 ==> rv.body.len() == 0
            &&& j != -1 ==> {
                let cl = spec_content_length(rv.headers) as int;
                let avail = b.len() - (j + 4);
                &&& rv.body.len() == (if cl <= avail {
                    cl
                } else {
                    avail
                })
                &&& rv.body == b.subrange(j + 4, j + 4 + rv.body.len())
            }
        }),
{
    crate::ascii::lemma_first_match(b, crlfcrlf());
}

/// The lowercase name under which the declared body length is looked up.
fn lit_vec_content_length() -> (r: Vec<u8>)
    ensures
        r@ == ascii_of("content-length"@),
{
    proof {
        reveal_strlit("content-length");
    }
    lit_vec("content-length")
}

} // verus!
