use vstd::prelude::*;

use crate::method::Method;
use crate::params::Params;

verus! {

/// One registered handler: an HTTP method bound to a handler identifier.
///
/// The routing core stores only the identifier; the host application owns
/// the table from identifiers to the actual callable handlers.
#[derive(Clone, Copy, PartialEq, Eq, Structural, Debug)]
pub struct Route {
    pub method: Method,
    pub handler: u64,
}

impl Route {
    pub fn new(method: Method, handler: u64) -> (r: Self)
        ensures
            r == (Route { method, handler }),
    {
        Route { method, handler }
    }
}

/// The route registered for `m` in a method table: the first entry whose
/// method is `m`. Tables built through `Resource` hold at most one entry
/// per method, so "first" is "the" entry.
pub open spec fn find_route(routes: Seq<Route>, m: Method) -> Option<Route>
    decreases routes.len(),
{
    if routes.len() == 0 {
        None
    } else if routes.first().method == m {
        Some(routes.first())
    } else {
        find_route(routes.drop_first(), m)
    }
}

/// A method table after registering `route` under `m`: the first entry for
/// `m` is replaced, or the entry is appended when `m` was absent.
pub open spec fn insert_route_seq(routes: Seq<Route>, m: Method, route: Route) -> Seq<Route>
    decreases routes.len(),
{
    if routes.len() == 0 {
        seq![route]
    } else if routes.first().method == m {
        routes.update(0, route)
    } else {
        seq![routes.first()] + insert_route_seq(routes.drop_first(), m, route)
    }
}

/// A forward scan that has passed `i` entries without finding `m` has the
/// same outcome as scanning the rest, for both lookup and registration.
proof fn lemma_route_scan(routes: Seq<Route>, m: Method, route: Route, i: int)
    requires
        0 <= i <= routes.len(),
        forall|j: int| 0 <= j < i ==> routes[j].method != m,
    ensures
        find_route(routes, m) == find_route(routes.skip(i), m),
        insert_route_seq(routes, m, route) =~= routes.take(i) + insert_route_seq(
            routes.skip(i),
            m,
            route,
        ),
    decreases i,
{
    if i > 0 {
        assert(routes[0].method != m);
        lemma_route_scan(routes.drop_first(), m, route, i - 1);
        assert(routes.drop_first().skip(i - 1) =~= routes.skip(i));
        assert(insert_route_seq(routes, m, route) == seq![routes.first()] + insert_route_seq(
            routes.drop_first(),
            m,
            route,
        ));
        assert(seq![routes.first()] + (routes.drop_first().take(i - 1) + insert_route_seq(
            routes.skip(i),
            m,
            route,
        )) =~= routes.take(i) + insert_route_seq(routes.skip(i), m, route));
    } else {
        assert(routes.skip(0) =~= routes);
        assert(routes.take(0) + insert_route_seq(routes, m, route) =~= insert_route_seq(
            routes,
            m,
            route,
        ));
    }
}

/// The per-path method table: every method registered at one path, each
/// with its handler.
#[derive(Debug)]
pub struct Resource {
    pub route_map: Vec<Route>,
}

impl View for Resource {
    type V = Seq<Route>;

    open spec fn view(&self) -> Seq<Route> {
        self.route_map@
    }
}

impl Default for Resource {
    fn default() -> (r: Self)
        ensures
            r@ == Seq::<Route>::empty(),
    {
        Resource { route_map: Vec::new() }
    }
}

impl Resource {
    /// Register `route` under `method`, handing back whatever was
    /// registered under that method before.
    pub fn add_route(&mut self, method: Method, route: Route) -> (r: Option<Route>)
        ensures
            final(self)@ == insert_route_seq(old(self)@, method, route),
            r == find_route(old(self)@, method),
    {
        let mut i: usize = 0;
        while i < self.route_map.len()
            invariant
                self.route_map@ == old(self)@,
                i <= self.route_map.len(),
                forall|j: int| 0 <= j < i ==> self.route_map@[j].method != method,
            decreases self.route_map.len() - i,
        {
            if self.route_map[i].method == method {
                let previous = self.route_map[i];
                self.route_map.set(i, route);
                proof {
                    lemma_route_scan(old(self)@, method, route, i as int);
                    assert(old(self)@.skip(i as int).first() == old(self)@[i as int]);
                    assert(old(self)@.skip(i as int).update(0, route) =~= old(self)@.skip(
                        i as int,
                    ).update(0, route));
                    assert(final(self)@ =~= old(self)@.take(i as int) + old(self)@.skip(
                        i as int,
                    ).update(0, route));
                }
                return Some(previous);
            }
            i = i + 1;
        }
        let ghost len = self.route_map@.len() as int;
        self.route_map.push(route);
        proof {
            lemma_route_scan(old(self)@, method, route, len);
            assert(old(self)@.skip(len) =~= Seq::<Route>::empty());
            assert(old(self)@.take(len) == old(self)@);
            assert(final(self)@ =~= old(self)@ + seq![route]);
        }
        None
    }

    /// The route registered under `method` at this path, if any.
    pub fn get_route(&self, method: &Method) -> (r: Option<&Route>)
        ensures
            match r {
                Some(route) => find_route(self@, *method) == Some(*route),
                None => find_route(self@, *method) is None,
            },
    {
        let mut i: usize = 0;
        while i < self.route_map.len()
            invariant
                i <= self.route_map.len(),
                forall|j: int| 0 <= j < i ==> self.route_map@[j].method != *method,
            decreases self.route_map.len() - i,
        {
            if self.route_map[i].method == *method {
                proof {
                    lemma_route_scan(self@, *method, arbitrary(), i as int);
                    assert(self@.skip(i as int).first() == self@[i as int]);
                }
                return Some(&self.route_map[i]);
            }
            i = i + 1;
        }
        proof {
            lemma_route_scan(self@, *method, arbitrary(), i as int);
        }
        None
    }
}

/// An element-wise copy of a vector of plain values.
pub fn copy_vec<T: Copy>(v: &Vec<T>) -> (r: Vec<T>)
    ensures
        r@ == v@,
{
    let mut r: Vec<T> = Vec::new();
    let mut i: usize = 0;
    while i < v.len()
        invariant
            i <= v@.len(),
            r@ == v@.take(i as int),
        decreases v@.len() - i,
    {
        r.push(v[i]);
        proof {
            assert(r@ =~= v@.take(i as int + 1));
        }
        i = i + 1;
    }
    proof {
        assert(v@.take(v@.len() as int) =~= v@);
    }
    r
}

/// The routes, paired with the middleware identifiers, that one trie node
/// carries when at least one path terminates at it.
#[derive(Debug)]
pub struct RouteValue {
    pub middlewares: Vec<u64>,
    pub route: Resource,
}

/// The mathematical content of a node value: the middleware identifiers in
/// registration order, and the method table.
#[verifier::ext_equal]
pub ghost struct SpecValue {
    pub middlewares: Seq<u64>,
    pub routes: Seq<Route>,
}

impl View for RouteValue {
    type V = SpecValue;

    open spec fn view(&self) -> SpecValue {
        SpecValue { middlewares: self.middlewares@, routes: self.route@ }
    }
}

impl Default for RouteValue {
    fn default() -> (r: Self)
        ensures
            r@.middlewares == Seq::<u64>::empty(),
            r@.routes == Seq::<Route>::empty(),
    {
        RouteValue { middlewares: Vec::new(), route: Resource::default() }
    }
}

impl RouteValue {
    pub fn new(middlewares: Vec<u64>, route: Resource) -> (r: Self)
        ensures
            r@.middlewares == middlewares@,
            r@.routes == route@,
    {
        RouteValue { middlewares, route }
    }
}

/// What one successful search hands back: the matched path's method table,
/// the accumulated middleware, and the captured parameters.
pub struct RouteValueResult {
    pub route_value: RouteValue,
    pub params: Params,
}

impl RouteValueResult {
    pub fn new(route_value: RouteValue, params: Params) -> (r: Self)
        ensures
            r.route_value@ == route_value@,
            r.params@ == params@,
    {
        RouteValueResult { route_value, params }
    }

    /// The route registered for `method` at the matched path.
    pub fn get_route(&self, method: &Method) -> (r: Option<&Route>)
        ensures
            match r {
                Some(route) => find_route(self.route_value@.routes, *method) == Some(*route),
                None => find_route(self.route_value@.routes, *method) is None,
            },
    {
        self.route_value.route.get_route(method)
    }

    /// The middleware identifiers accumulated from the root to the match,
    /// in registration order.
    pub fn get_middlewares(&self) -> (r: &Vec<u64>)
        ensures
            r@ == self.route_value@.middlewares,
    {
        &self.route_value.middlewares
    }

    /// The captured path parameters.
    pub fn get_params(&self) -> (r: &Params)
        ensures
            r@ == self.params@,
    {
        &self.params
    }
}

} // verus!
