//! Routing one parsed request to what must happen next.
//!
//! The router itself performs no I/O: it answers with an `HttpAction` that
//! tells the surrounding program what to do — write response bytes, call a
//! registered handler, or try a file read or write for a static binding.
//! After a failed read the caller comes back with `next_static_action` and
//! the next binding index, mirroring the fall-through over bindings.

use vstd::prelude::*;
use crate::ascii::ascii_of;
use crate::ascii::dec_of;
use crate::ascii::is_lit;
use crate::ascii::is_prefix_of;
use crate::ascii::lit_vec;
use crate::ascii::starts_with;
use crate::headers::HeaderMap;
use crate::parse::ParseResult;
use crate::parse::SpecParse;
use crate::parse::parse;
use crate::parse::spec_parse;
use crate::registry::RegistryView;
use crate::registry::ServerRegistry;
use crate::registry::first_endpoint;
use crate::registry::endpoint_matches;
use crate::request::Request;
use crate::request::RequestView;
use crate::response::render;
use crate::response::render_spec;
use crate::verb::HttpVerb;
use vstd::slice::slice_subrange;
use vstd::slice::slice_to_vec;

verus! {

/// What the caller must do next for one request.
pub enum HttpAction {
    /// Write these response bytes back.
    Respond(Vec<u8>),
    /// Call the handler registered under the endpoint key at this index,
    /// with this request, and write the handler's response bytes back.
    CallHandler(usize, Request),
    /// Try to read the file at this path for the static binding at this
    /// index; on success answer with `static_get_response`, on failure hand
    /// the request back to `next_static_action` with the following index.
    TryRead(usize, Vec<u8>, Request),
    /// Write the request body to the file at this path for the static
    /// binding at this index; answer 201 on success, a 500 on failure.
    TryWrite(usize, Vec<u8>, Vec<u8>),
}

pub enum ActionView {
    Respond(Seq<u8>),
    CallHandler(int, RequestView),
    TryRead(int, Seq<u8>, RequestView),
    TryWrite(int, Seq<u8>, Seq<u8>),
}

impl View for HttpAction {
    type V = ActionView;

    open spec fn view(&self) -> ActionView {
        match self {
            HttpAction::Respond(b) => ActionView::Respond(b@),
            HttpAction::CallHandler(i, r) => ActionView::CallHandler(*i as int, r@),
            HttpAction::TryRead(i, p, r) => ActionView::TryRead(*i as int, p@, r@),
            HttpAction::TryWrite(i, p, b) => ActionView::TryWrite(*i as int, p@, b@),
        }
    }
}

/// The filesystem path a static binding maps a requested path to: the
/// binding's directory followed by the requested path minus the prefix.
pub open spec fn spec_file_path(directory: Seq<u8>, prefix: Seq<u8>, path: Seq<u8>) -> Seq<u8> {
    directory + path.skip(prefix.len() as int)
}

/// An empty response with the given status.
pub open spec fn plain_status(code: u16) -> Seq<u8> {
    render_spec(Option::Some(code), Option::None, Option::None)
}

/// The action for the first static binding at or after `start` that matches
/// the request, falling through over bindings that match but apply to
/// neither a GET nor an upload-enabled POST; 404 when none is left.
pub open spec fn spec_next_static(reg: RegistryView, req: RequestView, start: int) -> ActionView
    decreases reg.static_directories.len() - start,
{
    let sd = reg.static_directories;
    if start < 0 || start >= sd.len() {
        ActionView::Respond(plain_status(404))
    } else {
        let prefix = sd[start].0;
        let entry = sd[start].1;
        if is_prefix_of(prefix, req.path) {
            if req.verb == HttpVerb::GET {
                ActionView::TryRead(start, spec_file_path(entry.directory, prefix, req.path), req)
            } else if req.verb == HttpVerb::POST && entry.allow_upload {
                ActionView::TryWrite(
                    start,
                    spec_file_path(entry.directory, prefix, req.path),
                    req.body,
                )
            } else {
                spec_next_static(reg, req, start + 1)
            }
        } else {
            spec_next_static(reg, req, start + 1)
        }
    }
}

/// The action for a raw buffer: parse failures answer 400, short-circuits
/// answer an empty 200, the first matching endpoint key wins, and otherwise
/// the static bindings are tried in order.
pub open spec fn spec_handle(reg: RegistryView, b: Seq<u8>) -> ActionView {
    match spec_parse(b) {
        SpecParse::Malformed => ActionView::Respond(plain_status(400)),
        SpecParse::ShortCircuit => ActionView::Respond(plain_status(200)),
        SpecParse::Req(rv) => {
            let fe = first_endpoint(reg.endpoints, rv.verb, rv.path);
            if fe != -1 {
                ActionView::CallHandler(fe, rv)
            } else {
                spec_next_static(reg, rv, 0)
            }
        },
    }
}

/// Copies a byte vector.
fn copy_bytes(v: &Vec<u8>) -> (r: Vec<u8>)
    ensures
        r@ == v@,
{
    slice_to_vec(v.as_slice())
}

impl ServerRegistry {
    /// The filesystem path for the static binding at `i` and this request
    /// path.
    fn file_path_at(&self, i: usize, path: &[u8]) -> (r: Vec<u8>)
        requires
            i < self@.static_directories.len(),
            is_prefix_of(self@.static_directories[i as int].0, path@),
        ensures
            r@ == spec_file_path(
                self@.static_directories[i as int].1.directory,
                self@.static_directories[i as int].0,
                path@,
            ),
    {
        let entry = &self.static_directories[i];
        let mut out = copy_bytes(&entry.1.directory);
        let rest = slice_subrange(path, entry.0.len(), path.len());
        out.extend_from_slice(rest);
        proof {
            assert(out@ =~= spec_file_path(
                self@.static_directories[i as int].1.directory,
                self@.static_directories[i as int].0,
                path@,
            ));
        }
        out
    }

    /// The action for the first static binding at or after `start` that
    /// matches the request; 404 when none is left.
    pub fn next_static_action(&self, req: Request, start: usize) -> (a: HttpAction)
        ensures
            a@ == spec_next_static(self@, req@, start as int),
    {
        let n = self.static_directories.len();
        let mut i: usize = if start > n {
            n
        } else {
            start
        };
        while i < n
            invariant
                n == self@.static_directories.len(),
                i <= n,
                spec_next_static(self@, req@, start as int) == spec_next_static(
                    self@,
                    req@,
                    i as int,
                ),
            decreases n - i,
        {
            let entry = &self.static_directories[i];
            if starts_with(req.path.as_slice(), entry.0.as_slice()) {
                if req.verb == HttpVerb::GET {
                    let fp = self.file_path_at(i, req.path.as_slice());
                    return HttpAction::TryRead(i, fp, req);
                }
                if req.verb == HttpVerb::POST && entry.1.allow_upload {
                    return HttpAction::TryWrite(
                        i,
                        self.file_path_at(i, req.path.as_slice()),
                        copy_bytes(&req.body),
                    );
                }
            }
            i += 1;
        }
        HttpAction::Respond(render(Some(404), None, None))
    }

    /// The action for one received buffer.
    pub fn handle_request(&self, buf: &[u8]) -> (a: HttpAction)
        ensures
            a@ == spec_handle(self@, buf@),
    {
        match parse(buf) {
            ParseResult::Malformed => HttpAction::Respond(render(Some(400), None, None)),
            ParseResult::ShortCircuit => HttpAction::Respond(render(Some(200), None, None)),
            ParseResult::Req(req) => {
                match self.find_endpoint(req.verb, req.path.as_slice()) {
                    Some(i) => HttpAction::CallHandler(i, req),
                    None => self.next_static_action(req, 0),
                }
            },
        }
    }
}

/// Index of the last `.` in a path, or -1 when it has none.
pub open spec fn last_dot(p: Seq<u8>) -> int
    decreases p.len(),
{
    if p.len() == 0 {
        -1
    } else if p.last() == 46 {
        p.len() - 1
    } else {
        last_dot(p.drop_last())
    }
}

/// The extension a content type is chosen by: the bytes after the last `.`,
/// or the whole path when it has no dot.
pub open spec fn spec_extension(p: Seq<u8>) -> Seq<u8> {
    if last_dot(p) == -1 {
        p
    } else {
        p.skip(last_dot(p) + 1)
    }
}

/// The content type for a served file, from a fixed extension table.
pub open spec fn spec_content_type(p: Seq<u8>) -> Seq<char> {
    let e = spec_extension(p);
    if e == ascii_of("html"@) {
        "text/html"@
    } else if e == ascii_of("css"@) {
        "text/css"@
    } else if e == ascii_of("js"@) {
        "text/javascript"@
    } else if e == ascii_of("png"@) {
        "image/png"@
    } else {
        "application/octet-stream"@
    }
}

pub proof fn lemma_last_dot(p: Seq<u8>)
    ensures
        last_dot(p) == -1 ==> forall|j: int| 0 <= j < p.len() ==> p[j] != 46,
        last_dot(p) != -1 ==> {
            &&& 0 <= last_dot(p) < p.len()
            &&& p[last_dot(p)] == 46
            &&& forall|j: int| last_dot(p) < j < p.len() ==> p[j] != 46
        },
    decreases p.len(),
{
    if p.len() > 0 && p.last() != 46 {
        lemma_last_dot(p.drop_last());
        assert forall|j: int| 0 <= j < p.len() - 1 implies p[j] == p.drop_last()[j] by {}
    }
}

/// The file extension of a path.
fn extension_of(p: &[u8]) -> (r: &[u8])
    ensures
        r@ == spec_extension(p@),
{
    let n = p.len();
    let mut i: usize = n;
    while i > 0
        invariant
            n == p@.len(),
            i <= n,
            forall|j: int| i <= j < n ==> p@[j] != 46,
        decreases i,
    {
        if p[i - 1] == 46 {
            proof {
                lemma_last_dot(p@);
                if last_dot(p@) < i - 1 {
                    assert(p@[i - 1] != 46);
                }
                if last_dot(p@) > i - 1 {
                    assert(p@[last_dot(p@)] == 46);
                }
                assert(last_dot(p@) == i - 1);
            }
            let r = slice_subrange(p, i, n);
            proof {
                assert(r@ =~= spec_extension(p@));
            }
            return r;
        }
        i -= 1;
    }
    proof {
        lemma_last_dot(p@);
        if last_dot(p@) != -1 {
            assert(p@[last_dot(p@)] == 46);
        }
    }
    let r = slice_subrange(p, 0, n);
    proof {
        assert(r@ =~= p@);
    }
    r
}

/// The content type for a served file path.
pub fn content_type_for(p: &[u8]) -> (r: Vec<u8>)
    ensures
        r@ == ascii_of(spec_content_type(p@)),
{
    let e = extension_of(p);
    proof {
        reveal_strlit("html");
        reveal_strlit("css");
        reveal_strlit("js");
        reveal_strlit("png");
        reveal_strlit("text/html");
        reveal_strlit("text/css");
        reveal_strlit("text/javascript");
        reveal_strlit("image/png");
        reveal_strlit("application/octet-stream");
    }
    if is_lit(e, "html") {
        lit_vec("text/html")
    } else if is_lit(e, "css") {
        lit_vec("text/css")
    } else if is_lit(e, "js") {
        lit_vec("text/javascript")
    } else if is_lit(e, "png") {
        lit_vec("image/png")
    } else {
        lit_vec("application/octet-stream")
    }
}

/// The response for a successfully read static file: 200, the file bytes as
/// body, the content type from the extension table, and the byte length.
pub open spec fn spec_static_response(file_path: Seq<u8>, contents: Seq<u8>) -> Seq<u8> {
    render_spec(
        Option::Some(200),
        Option::Some(contents),
        Option::Some(
            seq![
                (ascii_of("Content-Type"@), ascii_of(spec_content_type(file_path))),
                (ascii_of("Content-Length"@), dec_of(contents.len())),
            ],
        ),
    )
}

/// Renders the response for a static file read at `file_path` that yielded
/// `contents`.
pub fn static_get_response(file_path: &[u8], contents: Vec<u8>) -> (r: Vec<u8>)
    ensures
        r@ == spec_static_response(file_path@, contents@),
{
    let mut hm = HeaderMap::new();
    let ct_key = crate::response::content_type_key();
    let cl_key = crate::response::content_length_key();
    let ghost k1 = ct_key@;
    let ghost k2 = cl_key@;
    proof {
        reveal_strlit("Content-Type");
        reveal_strlit("Content-Length");
        assert(k1.len() != k2.len());
    }
    let ctype = content_type_for(file_path);
    hm.insert(ct_key, ctype);
    let mut lv: Vec<u8> = Vec::new();
    crate::ascii::push_dec(&mut lv, contents.len());
    hm.insert(cl_key, lv);
    proof {
        crate::headers::lemma_upsert_value(Seq::empty(), k1, ascii_of(spec_content_type(file_path@)));
        crate::headers::lemma_upsert_value(
            crate::headers::upsert(Seq::empty(), k1, ascii_of(spec_content_type(file_path@))),
            k2,
            dec_of(contents@.len()),
        );
        assert(hm@ =~= seq![
            (ascii_of("Content-Type"@), ascii_of(spec_content_type(file_path@))),
            (ascii_of("Content-Length"@), dec_of(contents@.len())),
        ]);
    }
    render(Some(200), Some(contents), Some(hm))
}

/// When no static binding at or after `start` has a prefix of the request
/// path, the fall-through ends in a 404 with empty body.
pub proof fn lemma_static_unmatched_is_404(reg: RegistryView, req: RequestView, start: int)
    requires
        forall|i: int|
            start <= i < reg.static_directories.len() ==> !is_prefix_of(
                (#[trigger] reg.static_directories[i]).0,
                req.path,
            ),
    ensures
        spec_next_static(reg, req, start) == ActionView::Respond(plain_status(404)),
    decreases reg.static_directories.len() - start,
{
    if 0 <= start && start < reg.static_directories.len() {
        lemma_static_unmatched_is_404(reg, req, start + 1);
    }
}

/// A request to an unregistered path: when no endpoint key matches and no
/// static binding's prefix matches, the route is a 404 with empty body.
pub proof fn lemma_unmatched_is_404(reg: RegistryView, b: Seq<u8>, rv: RequestView)
    requires
        spec_parse(b) == SpecParse::Req(rv),
        forall|i: int|
            0 <= i < reg.endpoints.len() ==> !endpoint_matches(
                #[trigger] reg.endpoints[i],
                rv.verb,
                rv.path,
            ),
        forall|i: int|
            0 <= i < reg.static_directories.len() ==> !is_prefix_of(
                (#[trigger] reg.static_directories[i]).0,
                rv.path,
            ),
    ensures
        spec_handle(reg, b) == ActionView::Respond(plain_status(404)),
{
    crate::registry::lemma_first_endpoint_unique(reg.endpoints, rv.verb, rv.path, -1);
    lemma_static_unmatched_is_404(reg, rv, 0);
}

/// A POST with upload disabled everywhere: when no endpoint key matches and
/// no matching static binding allows upload, nothing is written — the route
/// is again a 404 with empty body.
pub proof fn lemma_post_without_upload_is_404(reg: RegistryView, b: Seq<u8>, rv: RequestView)
    requires
        spec_parse(b) == SpecParse::Req(rv),
        rv.verb == HttpVerb::POST,
        forall|i: int|
            0 <= i < reg.endpoints.len() ==> !endpoint_matches(
                #[trigger] reg.endpoints[i],
                rv.verb,
                rv.path,
            ),
        forall|i: int|
            0 <= i < reg.static_directories.len() ==> !(#[trigger] reg.static_directories[i]).1.allow_upload,
    ensures
        spec_handle(reg, b) == ActionView::Respond(plain_status(404)),
{
    crate::registry::lemma_first_endpoint_unique(reg.endpoints, rv.verb, rv.path, -1);
    lemma_post_upload_disabled(reg, rv, 0);
}

proof fn lemma_post_upload_disabled(reg: RegistryView, req: RequestView, start: int)
    requires
        req.verb == HttpVerb::POST,
        forall|i: int|
            0 <= i < reg.static_directories.len() ==> !(#[trigger] reg.static_directories[i]).1.allow_upload,
    ensures
        spec_next_static(reg, req, start) == ActionView::Respond(plain_status(404)),
    decreases reg.static_directories.len() - start,
{
    if 0 <= start && start < reg.static_directories.len() {
        lemma_post_upload_disabled(reg, req, start + 1);
    }
}

} // verus!
