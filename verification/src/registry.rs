//! The route registry: registered (verb, path pattern) endpoint keys and
//! static directory bindings, with the matching rules the router applies.
//!
//! Endpoint patterns ending in `*` match any requested path that begins
//! with the pattern minus its star. Any other pattern matches when the
//! pattern itself begins with the requested path — the historical direction
//! of this comparison, kept as observable behavior. Static bindings match
//! when the requested path begins with the binding's prefix.

use vstd::prelude::*;
use crate::ascii::is_prefix_of;
use crate::ascii::starts_with;
use crate::verb::HttpVerb;

verus! {

/// The identity of a registered handler: a verb and a path pattern.
pub struct EndpointKey {
    pub verb: HttpVerb,
    pub path: Vec<u8>,
}

pub struct EndpointKeyView {
    pub verb: HttpVerb,
    pub path: Seq<u8>,
}

impl View for EndpointKey {
    type V = EndpointKeyView;

    open spec fn view(&self) -> EndpointKeyView {
        EndpointKeyView { verb: self.verb, path: self.path@ }
    }
}

/// A directory served under a path prefix, optionally accepting uploads.
pub struct StaticDirectoryEntry {
    pub directory: Vec<u8>,
    pub allow_upload: bool,
}

pub struct StaticDirectoryEntryView {
    pub directory: Seq<u8>,
    pub allow_upload: bool,
}

impl View for StaticDirectoryEntry {
    type V = StaticDirectoryEntryView;

    open spec fn view(&self) -> StaticDirectoryEntryView {
        StaticDirectoryEntryView { directory: self.directory@, allow_upload: self.allow_upload }
    }
}

/// The registered endpoint keys and static bindings, in registration order.
pub struct ServerRegistry {
    pub endpoints: Vec<EndpointKey>,
    pub static_directories: Vec<(Vec<u8>, StaticDirectoryEntry)>,
}

pub struct RegistryView {
    pub endpoints: Seq<EndpointKeyView>,
    pub static_directories: Seq<(Seq<u8>, StaticDirectoryEntryView)>,
}

impl View for ServerRegistry {
    type V = RegistryView;

    open spec fn view(&self) -> RegistryView {
        RegistryView {
            endpoints: self.endpoints@.map_values(|k: EndpointKey| k@),
            static_directories: self.static_directories@.map_values(
                |e: (Vec<u8>, StaticDirectoryEntry)| (e.0@, e.1@),
            ),
        }
    }
}

/// Whether a registered key matches a request's verb and path: the verb must
/// be equal, and either the pattern begins with the requested path, or the
/// pattern ends in `*` and the requested path begins with the pattern minus
/// its star.
pub open spec fn endpoint_matches(k: EndpointKeyView, verb: HttpVerb, path: Seq<u8>) -> bool {
    k.verb == verb && (is_prefix_of(path, k.path) || (k.path.len() > 0 && k.path.last() == 42
        && is_prefix_of(k.path.drop_last(), path)))
}

/// Index of the first registered key that matches, or -1 when none does.
pub open spec fn first_endpoint(eps: Seq<EndpointKeyView>, verb: HttpVerb, path: Seq<u8>) -> int
    decreases eps.len(),
{
    if eps.len() == 0 {
        -1
    } else if endpoint_matches(eps[0], verb, path) {
        0
    } else {
        let r = first_endpoint(eps.drop_first(), verb, path);
        if r == -1 {
            -1
        } else {
            r + 1
        }
    }
}

pub proof fn lemma_first_endpoint(eps: Seq<EndpointKeyView>, verb: HttpVerb, path: Seq<u8>)
    ensures
        first_endpoint(eps, verb, path) == -1 ==> forall|i: int|
            0 <= i < eps.len() ==> !endpoint_matches(#[trigger] eps[i], verb, path),
        first_endpoint(eps, verb, path) != -1 ==> {
            &&& 0 <= first_endpoint(eps, verb, path) < eps.len()
            &&& endpoint_matches(eps[first_endpoint(eps, verb, path)], verb, path)
            &&& forall|i: int|
                0 <= i < first_endpoint(eps, verb, path) ==> !endpoint_matches(
                    #[trigger] eps[i],
                    verb,
                    path,
                )
        },
    decreases eps.len(),
{
    if eps.len() > 0 && !endpoint_matches(eps[0], verb, path) {
        lemma_first_endpoint(eps.drop_first(), verb, path);
        assert forall|i: int| 1 <= i < eps.len() implies eps[i] == eps.drop_first()[i - 1] by {}
    }
}

pub proof fn lemma_first_endpoint_unique(
    eps: Seq<EndpointKeyView>,
    verb: HttpVerb,
    path: Seq<u8>,
    r: int,
)
    requires
        r == -1 ==> forall|i: int|
            0 <= i < eps.len() ==> !endpoint_matches(#[trigger] eps[i], verb, path),
        r != -1 ==> 0 <= r < eps.len() && endpoint_matches(eps[r], verb, path) && forall|i: int|
            0 <= i < r ==> !endpoint_matches(#[trigger] eps[i], verb, path),
    ensures
        first_endpoint(eps, verb, path) == r,
{
    lemma_first_endpoint(eps, verb, path);
}

/// Index of the first registered key equal to `k`, or -1 when there is
/// none.
pub open spec fn endpoint_index(eps: Seq<EndpointKeyView>, k: EndpointKeyView) -> int
    decreases eps.len(),
{
    if eps.len() == 0 {
        -1
    } else if eps[0] == k {
        0
    } else {
        let r = endpoint_index(eps.drop_first(), k);
        if r == -1 {
            -1
        } else {
            r + 1
        }
    }
}

pub proof fn lemma_endpoint_index(eps: Seq<EndpointKeyView>, k: EndpointKeyView)
    ensures
        endpoint_index(eps, k) == -1 ==> forall|i: int| 0 <= i < eps.len() ==> eps[i] != k,
        endpoint_index(eps, k) != -1 ==> {
            &&& 0 <= endpoint_index(eps, k) < eps.len()
            &&& eps[endpoint_index(eps, k)] == k
            &&& forall|i: int| 0 <= i < endpoint_index(eps, k) ==> eps[i] != k
        },
    decreases eps.len(),
{
    if eps.len() > 0 && eps[0] != k {
        lemma_endpoint_index(eps.drop_first(), k);
        assert forall|i: int| 1 <= i < eps.len() implies eps[i] == eps.drop_first()[i - 1] by {}
    }
}

pub proof fn lemma_endpoint_index_unique(eps: Seq<EndpointKeyView>, k: EndpointKeyView, r: int)
    requires
        r == -1 ==> forall|i: int| 0 <= i < eps.len() ==> eps[i] != k,
        r != -1 ==> 0 <= r < eps.len() && eps[r] == k && forall|i: int| 0 <= i < r ==> eps[i] != k,
    ensures
        endpoint_index(eps, k) == r,
{
    lemma_endpoint_index(eps, k);
}

/// Index of the first static binding under prefix `k`, or -1 when there is
/// none.
pub open spec fn static_index(sds: Seq<(Seq<u8>, StaticDirectoryEntryView)>, k: Seq<u8>) -> int
    decreases sds.len(),
{
    if sds.len() == 0 {
        -1
    } else if sds[0].0 == k {
        0
    } else {
        let r = static_index(sds.drop_first(), k);
        if r == -1 {
            -1
        } else {
            r + 1
        }
    }
}

pub proof fn lemma_static_index(sds: Seq<(Seq<u8>, StaticDirectoryEntryView)>, k: Seq<u8>)
    ensures
        static_index(sds, k) == -1 ==> forall|i: int|
            0 <= i < sds.len() ==> (#[trigger] sds[i]).0 != k,
        static_index(sds, k) != -1 ==> {
            &&& 0 <= static_index(sds, k) < sds.len()
            &&& sds[static_index(sds, k)].0 == k
            &&& forall|i: int| 0 <= i < static_index(sds, k) ==> (#[trigger] sds[i]).0 != k
        },
    decreases sds.len(),
{
    if sds.len() > 0 && sds[0].0 != k {
        lemma_static_index(sds.drop_first(), k);
        assert forall|i: int| 1 <= i < sds.len() implies sds[i] == sds.drop_first()[i - 1] by {}
    }
}

pub proof fn lemma_static_index_unique(
    sds: Seq<(Seq<u8>, StaticDirectoryEntryView)>,
    k: Seq<u8>,
    r: int,
)
    requires
        r == -1 ==> forall|i: int| 0 <= i < sds.len() ==> (#[trigger] sds[i]).0 != k,
        r != -1 ==> 0 <= r < sds.len() && sds[r].0 == k && forall|i: int|
            0 <= i < r ==> (#[trigger] sds[i]).0 != k,
    ensures
        static_index(sds, k) == r,
{
    lemma_static_index(sds, k);
}

impl ServerRegistry {
    /// An empty registry.
    pub fn new() -> (r: ServerRegistry)
        ensures
            r@.endpoints.len() == 0,
            r@.static_directories.len() == 0,
    {
        let r = ServerRegistry { endpoints: Vec::new(), static_directories: Vec::new() };
        proof {
            assert(r@.endpoints =~= Seq::<EndpointKeyView>::empty());
            assert(r@.static_directories =~= Seq::<(Seq<u8>, StaticDirectoryEntryView)>::empty());
        }
        r
    }

    /// Whether the key at `i` matches the request's verb and path.
    fn endpoint_matches_at(&self, i: usize, verb: HttpVerb, path: &[u8]) -> (r: bool)
        requires
            i < self@.endpoints.len(),
        ensures
            r == endpoint_matches(self@.endpoints[i as int], verb, path@),
    {
        let k = &self.endpoints[i];
        if !(k.verb == verb) {
            return false;
        }
        if starts_with(k.path.as_slice(), path) {
            return true;
        }
        let n = k.path.len();
        if n > 0 && k.path[n - 1] == 42 {
            let stem = vstd::slice::slice_subrange(k.path.as_slice(), 0, n - 1);
            proof {
                assert(stem@ =~= self@.endpoints[i as int].path.drop_last());
            }
            starts_with(path, stem)
        } else {
            false
        }
    }

    /// The first registered key matching the request, in registration order.
    pub fn find_endpoint(&self, verb: HttpVerb, path: &[u8]) -> (r: Option<usize>)
        ensures
            match r {
                Option::Some(i) => i == first_endpoint(self@.endpoints, verb, path@) && i
                    < self@.endpoints.len(),
                Option::None => first_endpoint(self@.endpoints, verb, path@) == -1,
            },
    {
        let n = self.endpoints.len();
        let mut i: usize = 0;
        while i < n
            invariant
                n == self@.endpoints.len(),
                i <= n,
                forall|j: int|
                    0 <= j < i ==> !endpoint_matches(#[trigger] self@.endpoints[j], verb, path@),
            decreases n - i,
        {
            if self.endpoint_matches_at(i, verb, path) {
                proof {
                    lemma_first_endpoint_unique(self@.endpoints, verb, path@, i as int);
                }
                return Some(i);
            }
            i += 1;
        }
        proof {
            lemma_first_endpoint_unique(self@.endpoints, verb, path@, -1);
        }
        None
    }
}

} // verus!
