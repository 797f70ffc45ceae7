use vstd::prelude::*;
use vstd::string::StrSliceExecFns;
use vstd::string::StringExecFns;

use crate::error::InternalError;
use crate::method::Method;
use crate::route::Route;
use crate::route::RouteValueResult;
use crate::segment::split_path;
use crate::segment::split_segments;
use crate::trie::search_model;
use crate::trie::spec_insert_middleware;
use crate::trie::spec_insert_route;
use crate::trie::spec_insert_sub_route;
use crate::trie::apply_op;
use crate::trie::RouteTrie;
use crate::trie::SpecNode;
use crate::trie::SpecOp;

verus! {

/// The routing façade: verb-named registration over one routing trie.
///
/// Handlers are identifiers into the host application's handler table, so
/// a registration binds a method and a path to such an identifier.
#[derive(Debug)]
pub struct Router {
    pub routes: RouteTrie,
}

impl Router {
    /// A router with no routes and no middleware.
    pub fn new() -> (r: Self)
        ensures
            r.routes.head@.value is None,
            r.routes.head@.children == Seq::<SpecNode>::empty(),
    {
        Router { routes: RouteTrie::new() }
    }

    /// Register a handler for GET requests at `path`.
    pub fn get(&mut self, path: &str, handler: u64) -> (r: Result<(), InternalError>)
        ensures
            ({
                let (m, ok) = spec_insert_route(
                    old(self).routes.head@,
                    path@,
                    Route { method: Method::Get, handler },
                );
                final(self).routes.head@ == m && (r is Ok <==> ok)
            }),
    {
        self.insert_route(Method::Get, path, handler)
    }

    /// Register a handler for POST requests at `path`.
    pub fn post(&mut self, path: &str, handler: u64) -> (r: Result<(), InternalError>)
        ensures
            ({
                let (m, ok) = spec_insert_route(
                    old(self).routes.head@,
                    path@,
                    Route { method: Method::Post, handler },
                );
                final(self).routes.head@ == m && (r is Ok <==> ok)
            }),
    {
        self.insert_route(Method::Post, path, handler)
    }

    /// Register a handler for PUT requests at `path`.
    pub fn put(&mut self, path: &str, handler: u64) -> (r: Result<(), InternalError>)
        ensures
            ({
                let (m, ok) = spec_insert_route(
                    old(self).routes.head@,
                    path@,
                    Route { method: Method::Put, handler },
                );
                final(self).routes.head@ == m && (r is Ok <==> ok)
            }),
    {
        self.insert_route(Method::Put, path, handler)
    }

    /// Register a handler for DELETE requests at `path`.
    pub fn delete(&mut self, path: &str, handler: u64) -> (r: Result<(), InternalError>)
        ensures
            ({
                let (m, ok) = spec_insert_route(
                    old(self).routes.head@,
                    path@,
                    Route { method: Method::Delete, handler },
                );
                final(self).routes.head@ == m && (r is Ok <==> ok)
            }),
    {
        self.insert_route(Method::Delete, path, handler)
    }

    /// Apply a middleware along the given route.
    pub fn use_service_to(&mut self, path: &str, middleware: u64) -> (r: Result<
        (),
        InternalError,
    >)
        ensures
            ({
                let (m, ok) = spec_insert_middleware(old(self).routes.head@, path@, middleware);
                final(self).routes.head@ == m && (r is Ok <==> ok)
            }),
    {
        self.routes.insert_middleware(path, middleware)
    }

    /// Apply a middleware to every request this router resolves.
    pub fn use_service(&mut self, middleware: u64)
        ensures
            final(self).routes.head@ == apply_op(
                old(self).routes.head@,
                SpecOp::AddMiddleware(middleware),
            ).0,
    {
        self.routes.insert_default_middleware(middleware)
    }

    /// Mount another router's routes under `path`.
    pub fn use_router(&mut self, path: &str, other: Router) -> (r: Result<(), InternalError>)
        ensures
            ({
                let (m, ok) = spec_insert_sub_route(
                    old(self).routes.head@,
                    path@,
                    other.routes.head@,
                );
                final(self).routes.head@ == m && (r is Ok <==> ok)
            }),
    {
        RouteTrie::insert_sub_route(&mut self.routes, path, other.routes)
    }

    /// Register a GET handler for everything under `virtual_path`: the
    /// registered path is `virtual_path` with a trailing wildcard. The
    /// handler is expected to serve files, mapping the request path
    /// through `static_file_path`.
    pub fn use_static_to(&mut self, virtual_path: &str, handler: u64) -> (r: Result<
        (),
        InternalError,
    >)
        ensures
            ({
                let (m, ok) = spec_insert_route(
                    old(self).routes.head@,
                    virtual_path@ + "/*"@,
                    Route { method: Method::Get, handler },
                );
                final(self).routes.head@ == m && (r is Ok <==> ok)
            }),
    {
        let mut path = virtual_path.to_owned();
        path.append("/*");
        self.get(path.as_str(), handler)
    }

    /// Register a GET handler for everything under `dir_path`: the served
    /// directory is also the route.
    pub fn use_static(&mut self, dir_path: &str, handler: u64) -> (r: Result<(), InternalError>)
        ensures
            ({
                let (m, ok) = spec_insert_route(
                    old(self).routes.head@,
                    dir_path@ + "/*"@,
                    Route { method: Method::Get, handler },
                );
                final(self).routes.head@ == m && (r is Ok <==> ok)
            }),
    {
        let mut path = dir_path.to_owned();
        path.append("/*");
        self.get(path.as_str(), handler)
    }

    /// Search the routing table; see `RouteTrie::search_route`.
    pub fn search_route(&self, path: &str) -> (r: Option<RouteValueResult>)
        ensures
            match (r, search_model(self.routes.head@, split_segments(path@))) {
                (Some(rvr), Some(m)) => rvr.route_value@.routes == m.routes
                    && rvr.route_value@.middlewares == m.mws && rvr.params@ == m.params,
                (None, None) => true,
                _ => false,
            },
    {
        self.routes.search_route(path)
    }

    fn insert_route(&mut self, method: Method, path: &str, handler: u64) -> (r: Result<
        (),
        InternalError,
    >)
        ensures
            ({
                let (m, ok) = spec_insert_route(
                    old(self).routes.head@,
                    path@,
                    Route { method, handler },
                );
                final(self).routes.head@ == m && (r is Ok <==> ok)
            }),
    {
        let route = Route::new(method, handler);
        self.routes.insert_route(path, route)
    }
}

/// The segments of `segs[from..]`, joined with single slashes: the
/// relative file path a static-file handler reads.
pub open spec fn join_slash(segs: Seq<Seq<char>>) -> Seq<char>
    decreases segs.len(),
{
    if segs.len() == 0 {
        Seq::empty()
    } else if segs.len() == 1 {
        segs[0]
    } else {
        join_slash(segs.drop_last()) + seq!['/'] + segs.last()
    }
}

/// `s` without its first `k` elements; all of them gone when `k` reaches
/// past the end.
pub open spec fn skip_upto(s: Seq<Seq<char>>, k: int) -> Seq<Seq<char>> {
    if 0 <= k <= s.len() {
        s.skip(k)
    } else {
        Seq::empty()
    }
}

/// The file path that a static-file handler serves for `request_path`
/// under the mount `virtual_path`: the directory's segments, then the
/// request's segments beyond the mount, joined with slashes.
pub fn static_file_path(virtual_path: &str, dir_path: &str, request_path: &str) -> (r: String)
    ensures
        r@ == join_slash(
            split_segments(dir_path@) + skip_upto(
                split_segments(request_path@),
                split_segments(virtual_path@).len() as int,
            ),
        ),
{
    let vsegs = split_path(virtual_path);
    let dsegs = split_path(dir_path);
    let rsegs = split_path(request_path);
    let vlen = vsegs.len();
    let mut all = dsegs;
    let mut i: usize = vlen;
    while i < rsegs.len()
        invariant
            vlen <= i,
            i <= rsegs@.len() || i == vlen,
            all.deep_view() =~= split_segments(dir_path@) + skip_upto(
                rsegs.deep_view(),
                vlen as int,
            ).take(i - vlen),
            rsegs.deep_view() == split_segments(request_path@),
            forall|j: int| 0 <= j < rsegs@.len() ==> rsegs.deep_view()[j] == rsegs@[j]@,
        decreases rsegs@.len() - i,
    {
        let ghost before = all.deep_view();
        let seg = rsegs[i].clone();
        all.push(seg);
        proof {
            assert(all.deep_view() =~= before.push(rsegs@[i as int]@));
            assert(all.deep_view() =~= split_segments(dir_path@) + skip_upto(
                rsegs.deep_view(),
                vlen as int,
            ).take(i + 1 - vlen));
        }
        i = i + 1;
    }
    proof {
        assert(skip_upto(rsegs.deep_view(), vlen as int).take(i - vlen) =~= skip_upto(
            rsegs.deep_view(),
            vlen as int,
        ));
    }
    join_with_slashes(&all)
}

/// Join segments with single slashes.
fn join_with_slashes(segs: &Vec<String>) -> (r: String)
    ensures
        r@ == join_slash(segs.deep_view()),
{
    let mut out = String::new();
    let n = segs.len();
    let mut i: usize = 0;
    while i < n
        invariant
            n == segs.len(),
            i <= n,
            segs.deep_view().len() == n,
            forall|j: int| 0 <= j < n ==> segs.deep_view()[j] == segs@[j]@,
            out@ == join_slash(segs.deep_view().take(i as int)),
        decreases n - i,
    {
        if i > 0 {
            out.append("/");
        }
        out.append(segs[i].as_str());
        proof {
            reveal_strlit("/");
            assert("/"@ =~= seq!['/']);
            let t = segs.deep_view().take(i as int + 1);
            assert(t.drop_last() =~= segs.deep_view().take(i as int));
            assert(t.last() == segs.deep_view()[i as int]);
            if i == 0 {
                assert(out@ =~= join_slash(t));
            }
        }
        i = i + 1;
    }
    proof {
        assert(segs.deep_view().take(n as int) =~= segs.deep_view());
    }
    out
}

} // verus!
