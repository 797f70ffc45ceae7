use vstd::prelude::*;

use crate::method::Method;
use crate::params::Params;
use crate::route::find_route;
use crate::route::RouteValueResult;

verus! {

/// The state of one request's middleware chain: the terminal handler and
/// the middleware identifiers not yet entered, in execution order.
///
/// The chain does not run anything itself: each call to `next` hands the
/// host the next identifier to invoke, so that a middleware which never
/// asks for the rest of the chain silently ends the request.
#[derive(Debug)]
pub struct EndpointExecutor {
    pub route_endpoint: u64,
    pub middleware: Vec<u64>,
}

/// What the host must invoke next: one middleware, handed the rest of the
/// chain, or the terminal handler.
#[derive(Debug)]
pub enum ExecutorStep {
    Middleware(u64, EndpointExecutor),
    Handler(u64),
}

impl EndpointExecutor {
    pub fn new(route_endpoint: u64, middleware: Vec<u64>) -> (r: Self)
        ensures
            r.route_endpoint == route_endpoint,
            r.middleware@ == middleware@,
    {
        EndpointExecutor { route_endpoint, middleware }
    }

    /// The next link of the chain: the first remaining middleware together
    /// with the chain after it, or the terminal handler when none remains.
    pub fn next(self) -> (r: ExecutorStep)
        ensures
            match r {
                ExecutorStep::Middleware(m, rest) => self.middleware@.len() > 0 && m
                    == self.middleware@[0] && rest.route_endpoint == self.route_endpoint
                    && rest.middleware@ == self.middleware@.drop_first(),
                ExecutorStep::Handler(h) => self.middleware@.len() == 0 && h
                    == self.route_endpoint,
            },
    {
        if self.middleware.len() > 0 {
            let mut rest = self.middleware;
            let first = rest.remove(0);
            proof {
                assert(rest@ =~= self.middleware@.drop_first());
            }
            ExecutorStep::Middleware(
                first,
                EndpointExecutor { route_endpoint: self.route_endpoint, middleware: rest },
            )
        } else {
            ExecutorStep::Handler(self.route_endpoint)
        }
    }
}

/// What serving one request does with a search outcome: not found, or a
/// dispatch of the handler registered for the request's method, with the
/// accumulated middleware and the captured parameters.
#[derive(Debug)]
pub enum Resolution {
    Dispatch { handler: u64, middlewares: Vec<u64>, params: Params },
    NotFound,
}

/// Decide how to serve a request: a missing route, like a matched path
/// with no route for the request's method, is not found; anything else
/// dispatches the matched handler behind its middleware chain.
pub fn resolve_endpoint(route_value: Option<RouteValueResult>, method: &Method) -> (r: Resolution)
    ensures
        match route_value {
            None => r is NotFound,
            Some(rvr) => match find_route(rvr.route_value@.routes, *method) {
                Some(rt) => match r {
                    Resolution::Dispatch { handler, middlewares, params } => handler == rt.handler
                        && middlewares@ == rvr.route_value@.middlewares && params@ == rvr.params@,
                    Resolution::NotFound => false,
                },
                None => r is NotFound,
            },
        },
{
    match route_value {
        Some(rvr) => {
            let handler = match rvr.get_route(method) {
                Some(route) => route.handler,
                None => {
                    return Resolution::NotFound;
                },
            };
            let RouteValueResult { route_value, params } = rvr;
            Resolution::Dispatch { handler, middlewares: route_value.middlewares, params }
        },
        None => Resolution::NotFound,
    }
}

} // verus!
