//! The server configuration: a port and a registry, built once at startup.
//!
//! Handlers themselves are arbitrary code with I/O of their own, so they
//! live with the surrounding program: registration here records the
//! endpoint key and answers with the slot index under which the program
//! keeps the matching handler. `HttpAction::CallHandler` later names that
//! same index.

use vstd::prelude::*;
use crate::ascii::bytes_eq;
use crate::headers::HeaderMap;
use crate::registry::EndpointKey;
use crate::registry::EndpointKeyView;
use crate::registry::RegistryView;
use crate::registry::ServerRegistry;
use crate::registry::StaticDirectoryEntry;
use crate::registry::StaticDirectoryEntryView;
use crate::registry::endpoint_index;
use crate::registry::lemma_endpoint_index_unique;
use crate::registry::lemma_static_index_unique;
use crate::registry::static_index;
use crate::response::opt_bytes_view;
use crate::response::opt_headers_view;
use crate::response::render;
use crate::response::render_spec;
use crate::verb::HttpVerb;

verus! {

/// A path pattern normalized to begin with `/`.
pub open spec fn normalize_path(p: Seq<u8>) -> Seq<u8> {
    if p.len() > 0 && p[0] == 47 {
        p
    } else {
        seq![47u8] + p
    }
}

/// Prepends `/` to a path that does not begin with one.
fn normalize(path: Vec<u8>) -> (r: Vec<u8>)
    ensures
        r@ == normalize_path(path@),
{
    if path.len() > 0 && path[0] == 47 {
        path
    } else {
        let mut out: Vec<u8> = Vec::new();
        out.push(47);
        out.extend_from_slice(path.as_slice());
        proof {
            assert(out@ =~= seq![47u8] + path@);
        }
        out
    }
}

pub struct ServerView {
    pub port: u16,
    pub registry: RegistryView,
}

/// A server: the port to listen on and the frozen route registry.
pub struct Server {
    port: u16,
    registry: ServerRegistry,
}

impl View for Server {
    type V = ServerView;

    closed spec fn view(&self) -> ServerView {
        ServerView { port: self.port, registry: self.registry@ }
    }
}

impl Server {
    /// A server on the given port with an empty registry.
    pub fn new(port: u16) -> (r: Server)
        ensures
            r@.port == port,
            r@.registry.endpoints.len() == 0,
            r@.registry.static_directories.len() == 0,
    {
        Server { port, registry: ServerRegistry::new() }
    }

    /// The configured port.
    pub fn port(&self) -> (r: u16)
        ensures
            r == self@.port,
    {
        self.port
    }

    /// The registry, for routing received requests.
    pub fn registry(&self) -> (r: &ServerRegistry)
        ensures
            r@ == self@.registry,
    {
        &self.registry
    }

    /// Registers an endpoint key and answers with its handler slot: the
    /// pattern is normalized to begin with `/`; registering an existing
    /// (verb, pattern) key again answers the old slot, whose handler the
    /// caller replaces — last registration wins.
    pub fn register_endpoint(&mut self, verb: HttpVerb, path: Vec<u8>) -> (idx: usize)
        ensures
            final(self)@.port == old(self)@.port,
            final(self)@.registry.static_directories == old(self)@.registry.static_directories,
            ({
                let k = EndpointKeyView { verb, path: normalize_path(path@) };
                let eps = old(self)@.registry.endpoints;
                let ei = endpoint_index(eps, k);
                &&& (ei == -1 ==> idx == eps.len() && final(self)@.registry.endpoints == eps.push(
                    k,
                ))
                &&& (ei != -1 ==> idx == ei && final(self)@.registry.endpoints == eps)
            }),
    {
        let normalized = normalize(path);
        let ghost k = EndpointKeyView { verb, path: normalized@ };
        let ghost eps = self@.registry.endpoints;
        let n = self.registry.endpoints.len();
        let mut i: usize = 0;
        while i < n
            invariant
                n == eps.len(),
                self@ == old(self)@,
                eps == self@.registry.endpoints,
                i <= n,
                k == (EndpointKeyView { verb, path: normalized@ }),
                k == (EndpointKeyView { verb, path: normalize_path(path@) }),
                forall|j: int| 0 <= j < i ==> eps[j] != k,
            decreases n - i,
        {
            let e = &self.registry.endpoints[i];
            if e.verb == verb && bytes_eq(e.path.as_slice(), normalized.as_slice()) {
                proof {
                    lemma_endpoint_index_unique(eps, k, i as int);
                }
                return i;
            }
            i += 1;
        }
        proof {
            lemma_endpoint_index_unique(eps, k, -1);
        }
        self.registry.endpoints.push(EndpointKey { verb, path: normalized });
        proof {
            assert(self@.registry.endpoints =~= eps.push(k));
        }
        n
    }

    /// Registers a GET endpoint; see `register_endpoint`.
    pub fn get(&mut self, path: Vec<u8>) -> (idx: usize)
        ensures
            final(self)@.port == old(self)@.port,
            final(self)@.registry.static_directories == old(self)@.registry.static_directories,
            ({
                let k = EndpointKeyView { verb: HttpVerb::GET, path: normalize_path(path@) };
                let eps = old(self)@.registry.endpoints;
                let ei = endpoint_index(eps, k);
                &&& (ei == -1 ==> idx == eps.len() && final(self)@.registry.endpoints == eps.push(
                    k,
                ))
                &&& (ei != -1 ==> idx == ei && final(self)@.registry.endpoints == eps)
            }),
    {
        self.register_endpoint(HttpVerb::GET, path)
    }

    /// Registers a POST endpoint; see `register_endpoint`.
    pub fn post(&mut self, path: Vec<u8>) -> (idx: usize)
        ensures
            final(self)@.port == old(self)@.port,
            final(self)@.registry.static_directories == old(self)@.registry.static_directories,
            ({
                let k = EndpointKeyView { verb: HttpVerb::POST, path: normalize_path(path@) };
                let eps = old(self)@.registry.endpoints;
                let ei = endpoint_index(eps, k);
                &&& (ei == -1 ==> idx == eps.len() && final(self)@.registry.endpoints == eps.push(
                    k,
                ))
                &&& (ei != -1 ==> idx == ei && final(self)@.registry.endpoints == eps)
            }),
    {
        self.register_endpoint(HttpVerb::POST, path)
    }

    /// Serves a directory of static files under a path prefix, optionally
    /// accepting uploads. The prefix is normalized to begin with `/`; an
    /// empty directory is rejected as a no-op; serving an existing prefix
    /// again replaces its binding.
    pub fn serve(&mut self, path: Vec<u8>, directory: Vec<u8>, allow_upload: bool)
        ensures
            final(self)@.port == old(self)@.port,
            final(self)@.registry.endpoints == old(self)@.registry.endpoints,
            directory@.len() == 0 ==> final(self)@ == old(self)@,
            directory@.len() > 0 ==> ({
                let k = normalize_path(path@);
                let e = StaticDirectoryEntryView { directory: directory@, allow_upload };
                let sds = old(self)@.registry.static_directories;
                let si = static_index(sds, k);
                &&& (si == -1 ==> final(self)@.registry.static_directories == sds.push((k, e)))
                &&& (si != -1 ==> final(self)@.registry.static_directories == sds.update(
                    si,
                    (k, e),
                ))
            }),
    {
        if directory.len() == 0 {
            return;
        }
        let normalized = normalize(path);
        let ghost k = normalized@;
        let ghost e = StaticDirectoryEntryView { directory: directory@, allow_upload };
        let ghost sds = self@.registry.static_directories;
        let n = self.registry.static_directories.len();
        let mut i: usize = 0;
        while i < n
            invariant
                n == sds.len(),
                self@ == old(self)@,
                sds == self@.registry.static_directories,
                i <= n,
                k == normalized@,
                k == normalize_path(path@),
                directory@.len() > 0,
                e == (StaticDirectoryEntryView { directory: directory@, allow_upload }),
                forall|j: int| 0 <= j < i ==> (#[trigger] sds[j]).0 != k,
            decreases n - i,
        {
            if bytes_eq(self.registry.static_directories[i].0.as_slice(), normalized.as_slice()) {
                proof {
                    lemma_static_index_unique(sds, k, i as int);
                }
                self.registry.static_directories[i] = (
                    normalized,
                    StaticDirectoryEntry { directory, allow_upload },
                );
                proof {
                    assert(self@.registry.static_directories =~= sds.update(i as int, (k, e)));
                }
                return;
            }
            i += 1;
        }
        proof {
            lemma_static_index_unique(sds, k, -1);
        }
        self.registry.static_directories.push(
            (normalized, StaticDirectoryEntry { directory, allow_upload }),
        );
        proof {
            assert(self@.registry.static_directories =~= sds.push((k, e)));
        }
    }

    /// Renders a response; see `render`.
    pub fn respond(status: Option<u16>, body: Option<Vec<u8>>, headers: Option<HeaderMap>) -> (r:
        Vec<u8>)
        ensures
            r@ == render_spec(status, opt_bytes_view(body), opt_headers_view(headers)),
    {
        render(status, body, headers)
    }
}

} // verus!
