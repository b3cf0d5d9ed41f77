//! The route registry and the resolution of requests against it.
//!
//! A registry is an ordered sequence of routes. Registration never changes a
//! registry: it hands back a new one with one more route at the end.
//! Resolution scans the routes in registration order and takes the first one
//! whose method is the request's and whose pattern accepts the request's
//! normalized path.

use vstd::prelude::*;
use crate::error::RouterError;
use crate::method::{parse_method, Method};
use crate::path::{
    is_normalized, lemma_match_needs_equal_counts, lemma_normalize_gives_normal_form,
    lemma_normalize_is_idempotent, lemma_separator_count_is_irrelevant,
    lemma_trailing_separators_are_ignored, normalize, normalize_path, parts_accept,
    pattern_matches, segment_views, segments, separator_count, separators, split_path, SEPARATOR,
};

verus! {

/// The plain kind of handler: a function without captured state.
pub type Handler = fn() -> String;

/// A registered route as a plain value: the model of a [`Node`].
pub struct Route<H> {
    pub method: Method,
    pub pattern: Seq<char>,
    pub handler: H,
}

/// The route that registering `pattern` under `method` with `handler`
/// creates: the pattern is kept in canonical form.
pub open spec fn registered<H>(method: Method, pattern: Seq<char>, handler: H) -> Route<H> {
    Route { method, pattern: normalize_path(pattern), handler }
}

/// Whether `route` serves requests of `method` for the normalized `path`.
pub open spec fn route_accepts<H>(route: Route<H>, method: Method, path: Seq<char>) -> bool {
    route.method == method && pattern_matches(route.pattern, path)
}

/// Whether `routes[i]` accepts the request and no earlier route does.
pub open spec fn is_first_match<H>(
    routes: Seq<Route<H>>,
    method: Method,
    path: Seq<char>,
    i: int,
) -> bool {
    &&& 0 <= i < routes.len()
    &&& route_accepts(routes[i], method, path)
    &&& forall|j: int| 0 <= j < i ==> !route_accepts(#[trigger] routes[j], method, path)
}

/// The position of the earliest route that accepts the request, if any
/// route does.
pub open spec fn first_match<H>(routes: Seq<Route<H>>, method: Method, path: Seq<char>) -> Option<
    int,
> {
    if exists|i: int| is_first_match(routes, method, path, i) {
        Some(choose|i: int| is_first_match(routes, method, path, i))
    } else {
        None
    }
}

/// What resolving the request (`method`, `path`), both as given by the
/// caller, decides: the position of the route whose handler answers, or the
/// reason why none does.
pub open spec fn resolution<H>(routes: Seq<Route<H>>, method: Seq<char>, path: Seq<char>) -> Result<
    int,
    RouterError,
> {
    match parse_method(method) {
        None => Err(RouterError::InvalidMethod),
        Some(verb) => match first_match(routes, verb, normalize_path(path)) {
            Some(i) => Ok(i),
            None => Err(RouterError::NoMatch),
        },
    }
}

/// One entry of the registry: a method, a pattern in canonical form and the
/// handler that answers for them. The handler can be called at any time.
#[derive(Debug)]
pub struct Node<H: Fn() -> String> {
    method: Method,
    pattern: String,
    handler: H,
}

impl<H: Fn() -> String> View for Node<H> {
    type V = Route<H>;

    closed spec fn view(&self) -> Route<H> {
        Route { method: self.method, pattern: self.pattern@, handler: self.handler }
    }
}

impl<H: Fn() -> String> Node<H> {
    #[verifier::type_invariant]
    spec fn well_formed(self) -> bool {
        is_normalized(self.pattern@) && call_requires(self.handler, ())
    }

    /// A route for `method` and `pattern`, answered by `handler`. The
    /// pattern is put into canonical form.
    pub fn new(method: Method, pattern: String, handler: H) -> (node: Self)
        requires
            call_requires(handler, ()),
        ensures
            node@ == registered(method, pattern@, handler),
    {
        let pattern = normalize(pattern.as_str());
        Node { method, pattern, handler }
    }

    /// The method that the route serves.
    pub fn method(&self) -> (method: Method)
        ensures
            method == self@.method,
    {
        self.method
    }

    /// The route's pattern, in canonical form.
    pub fn pattern(&self) -> (pattern: &str)
        ensures
            pattern@ == self@.pattern,
            is_normalized(pattern@),
    {
        proof {
            use_type_invariant(self);
        }
        self.pattern.as_str()
    }
}

impl<H: Fn() -> String + Copy> Clone for Node<H> {
    fn clone(&self) -> (copy: Self)
        ensures
            copy@ == self@,
    {
        proof {
            use_type_invariant(self);
        }
        Node { method: self.method, pattern: self.pattern.clone(), handler: self.handler }
    }
}

/// An ordered registry of routes.
#[derive(Debug)]
pub struct Router<H: Fn() -> String> {
    nodes: Vec<Node<H>>,
}

impl<H: Fn() -> String> View for Router<H> {
    type V = Seq<Route<H>>;

    closed spec fn view(&self) -> Seq<Route<H>> {
        Seq::new(self.nodes@.len(), |i: int| self.nodes@[i]@)
    }
}

impl<H: Fn() -> String> Default for Router<H> {
    /// The registry without routes.
    fn default() -> (router: Self)
        ensures
            router@ == Seq::<Route<H>>::empty(),
    {
        Router { nodes: Vec::new() }
    }
}

impl<H: Fn() -> String + Copy> Router<H> {
    /// The number of registered routes.
    pub fn len(&self) -> (count: usize)
        ensures
            count == self@.len(),
    {
        self.nodes.len()
    }

    /// A registry with the routes of this one, in their order, followed by
    /// a new route for `method` and the normalized `pattern`. This registry
    /// stays as it is.
    pub fn route(&self, method: Method, pattern: &str, handler: H) -> (grown: Self)
        requires
            call_requires(handler, ()),
        ensures
            grown@ == self@.push(registered(method, pattern@, handler)),
    {
        let mut nodes: Vec<Node<H>> = Vec::new();
        let mut i: usize = 0;
        while i < self.nodes.len()
            invariant
                i <= self.nodes.len(),
                nodes.len() == i,
                forall|j: int| 0 <= j < i ==> (#[trigger] nodes@[j])@ == self.nodes@[j]@,
            decreases self.nodes.len() - i,
        {
            nodes.push(self.nodes[i].clone());
            i += 1;
        }
        nodes.push(Node::new(method, pattern.to_string(), handler));
        let grown = Router { nodes };
        assert(grown@ =~= self@.push(registered(method, pattern@, handler)));
        grown
    }

    /// Registers `pattern` under GET.
    pub fn get(&self, pattern: &str, handler: H) -> (grown: Self)
        requires
            call_requires(handler, ()),
        ensures
            grown@ == self@.push(registered(Method::GET, pattern@, handler)),
    {
        self.route(Method::GET, pattern, handler)
    }

    /// Registers `pattern` under POST.
    pub fn post(&self, pattern: &str, handler: H) -> (grown: Self)
        requires
            call_requires(handler, ()),
        ensures
            grown@ == self@.push(registered(Method::POST, pattern@, handler)),
    {
        self.route(Method::POST, pattern, handler)
    }

    /// Registers `pattern` under PUT.
    pub fn put(&self, pattern: &str, handler: H) -> (grown: Self)
        requires
            call_requires(handler, ()),
        ensures
            grown@ == self@.push(registered(Method::PUT, pattern@, handler)),
    {
        self.route(Method::PUT, pattern, handler)
    }

    /// Registers `pattern` under DELETE.
    pub fn delete(&self, pattern: &str, handler: H) -> (grown: Self)
        requires
            call_requires(handler, ()),
        ensures
            grown@ == self@.push(registered(Method::DELETE, pattern@, handler)),
    {
        self.route(Method::DELETE, pattern, handler)
    }

    /// Resolves the request (`method`, `path`): calls the handler of the
    /// earliest route that accepts it and hands back what the handler
    /// returned. Fails with `InvalidMethod` where `method` names no verb,
    /// whatever the routes are, and with `NoMatch` where no route accepts
    /// the request.
    pub fn resolve(&self, method: &str, path: &str) -> (resolved: Result<String, RouterError>)
        ensures
            match resolution(self@, method@, path@) {
                Ok(i) => {
                    &&& 0 <= i < self@.len()
                    &&& resolved is Ok
                    &&& call_ensures(self@[i].handler, (), resolved->Ok_0)
                },
                Err(reason) => resolved == Err::<String, RouterError>(reason),
            },
    {
        let verb = match Method::try_from(method) {
            Ok(verb) => verb,
            Err(reason) => {
                return Err(reason);
            },
        };
        let normal = normalize(path);
        let path_parts = split_path(normal.as_str());
        let mut i: usize = 0;
        while i < self.nodes.len()
            invariant
                i <= self.nodes.len(),
                parse_method(method@) == Some(verb),
                normal@ == normalize_path(path@),
                segment_views(path_parts@) == segments(normal@),
                forall|j: int| 0 <= j < i ==> !route_accepts(#[trigger] self@[j], verb, normal@),
            decreases self.nodes.len() - i,
        {
            let node = &self.nodes[i];
            if node.method == verb {
                let pattern_parts = split_path(node.pattern.as_str());
                if parts_accept(&pattern_parts, &path_parts) {
                    proof {
                        use_type_invariant(node);
                        assert(is_first_match(self@, verb, normal@, i as int));
                        lemma_first_match_is(self@, verb, normal@, i as int);
                    }
                    let answer = (node.handler)();
                    return Ok(answer);
                }
            }
            i += 1;
        }
        proof {
            assert forall|k: int| !is_first_match(self@, verb, normal@, k) by {
                if 0 <= k < self@.len() {
                    assert(!route_accepts(self@[k], verb, normal@));
                }
            }
        }
        Err(RouterError::NoMatch)
    }
}

/// At most one position is that of the first match, so `first_match` names
/// it.
pub proof fn lemma_first_match_is<H>(
    routes: Seq<Route<H>>,
    method: Method,
    path: Seq<char>,
    i: int,
)
    requires
        is_first_match(routes, method, path, i),
    ensures
        first_match(routes, method, path) == Some(i),
{
    let k = choose|k: int| is_first_match(routes, method, path, k);
    if k < i {
        assert(!route_accepts(routes[k], method, path));
    } else if i < k {
        assert(!route_accepts(routes[i], method, path));
    }
}

/// Where some route accepts a request, there is a first one that does, at
/// that route's position or before it.
pub proof fn lemma_some_route_is_first<H>(
    routes: Seq<Route<H>>,
    method: Method,
    path: Seq<char>,
    i: int,
)
    requires
        0 <= i < routes.len(),
        route_accepts(routes[i], method, path),
    ensures
        first_match(routes, method, path) is Some,
        0 <= first_match(routes, method, path)->0 <= i,
    decreases i,
{
    if exists|j: int| 0 <= j < i && route_accepts(#[trigger] routes[j], method, path) {
        let j = choose|j: int| 0 <= j < i && route_accepts(#[trigger] routes[j], method, path);
        lemma_some_route_is_first(routes, method, path, j);
    } else {
        lemma_first_match_is(routes, method, path, i);
    }
}

/// The route that `first_match` names accepts the request, and no route
/// before it does; where it names none, no route accepts the request.
pub proof fn lemma_first_match_accepts<H>(routes: Seq<Route<H>>, method: Method, path: Seq<char>)
    ensures
        match first_match(routes, method, path) {
            Some(i) => is_first_match(routes, method, path, i),
            None => forall|i: int|
                0 <= i < routes.len() ==> !route_accepts(#[trigger] routes[i], method, path),
        },
{
    if first_match(routes, method, path) is None {
        assert forall|i: int| 0 <= i < routes.len() implies !route_accepts(
            #[trigger] routes[i],
            method,
            path,
        ) by {
            if route_accepts(routes[i], method, path) {
                lemma_some_route_is_first(routes, method, path, i);
            }
        }
    }
}

/// First match wins: where two routes both accept a request, it is never
/// the one registered later that answers, however specific its pattern is;
/// the earlier one answers unless a route before it accepts the request
/// too.
pub proof fn lemma_earlier_route_wins<H>(
    routes: Seq<Route<H>>,
    method: Seq<char>,
    path: Seq<char>,
    earlier: int,
    later: int,
)
    requires
        0 <= earlier < later < routes.len(),
        parse_method(method) is Some,
        route_accepts(routes[earlier], parse_method(method)->0, normalize_path(path)),
        route_accepts(routes[later], parse_method(method)->0, normalize_path(path)),
    ensures
        resolution(routes, method, path) is Ok,
        0 <= resolution(routes, method, path)->Ok_0 <= earlier,
        resolution(routes, method, path) != Ok::<int, RouterError>(later),
        (forall|j: int|
            0 <= j < earlier ==> !route_accepts(
                #[trigger] routes[j],
                parse_method(method)->0,
                normalize_path(path),
            )) ==> resolution(routes, method, path) == Ok::<int, RouterError>(earlier),
{
    let verb = parse_method(method)->0;
    let normal = normalize_path(path);
    lemma_some_route_is_first(routes, verb, normal, earlier);
    if forall|j: int| 0 <= j < earlier ==> !route_accepts(#[trigger] routes[j], verb, normal) {
        lemma_first_match_is(routes, verb, normal, earlier);
    }
}

/// Registration leaves earlier answers alone: a request that some route
/// answers is answered by the same route after any further registration.
pub proof fn lemma_registration_keeps_answers<H>(
    routes: Seq<Route<H>>,
    added: Route<H>,
    method: Method,
    path: Seq<char>,
)
    requires
        first_match(routes, method, path) is Some,
    ensures
        first_match(routes.push(added), method, path) == first_match(routes, method, path),
{
    lemma_first_match_accepts(routes, method, path);
    let i = first_match(routes, method, path)->0;
    let grown = routes.push(added);
    assert(grown[i] == routes[i]);
    assert forall|j: int| 0 <= j < i implies !route_accepts(#[trigger] grown[j], method, path) by {
        assert(grown[j] == routes[j]);
    }
    lemma_first_match_is(grown, method, path, i);
}

/// Method isolation: the route that answers a request was registered
/// under the request's method, so a registry without a route for that
/// method has no answer, whatever the path is.
pub proof fn lemma_methods_are_isolated<H>(
    routes: Seq<Route<H>>,
    method: Seq<char>,
    path: Seq<char>,
)
    ensures
        resolution(routes, method, path) matches Ok(i) ==> parse_method(method) == Some(
            routes[i].method,
        ),
        parse_method(method) matches Some(verb) && (forall|i: int|
            0 <= i < routes.len() ==> (#[trigger] routes[i]).method != verb) ==> resolution(
            routes,
            method,
            path,
        ) == Err::<int, RouterError>(RouterError::NoMatch),
{
    if let Some(verb) = parse_method(method) {
        let normal = normalize_path(path);
        lemma_first_match_accepts(routes, verb, normal);
        if let Some(i) = first_match(routes, verb, normal) {
            assert(route_accepts(routes[i], verb, normal));
        }
    }
}

/// Segment counts are exact: a route whose pattern has more or fewer
/// separators than the normalized path of a request never answers it.
pub proof fn lemma_segment_counts_are_exact<H>(
    routes: Seq<Route<H>>,
    method: Seq<char>,
    path: Seq<char>,
    i: int,
)
    requires
        0 <= i < routes.len(),
        separator_count(routes[i].pattern) != separator_count(normalize_path(path)),
    ensures
        resolution(routes, method, path) != Ok::<int, RouterError>(i),
{
    lemma_match_needs_equal_counts(routes[i].pattern, normalize_path(path));
    if let Some(verb) = parse_method(method) {
        lemma_first_match_accepts(routes, verb, normalize_path(path));
    }
}

/// Trailing-separator equivalence: a request for a non-empty path resolves
/// in the same way with one or two separators appended to the path.
pub proof fn lemma_resolution_ignores_trailing_separators<H>(
    routes: Seq<Route<H>>,
    method: Seq<char>,
    path: Seq<char>,
)
    requires
        path.len() > 0,
    ensures
        resolution(routes, method, path.push(SEPARATOR)) == resolution(routes, method, path),
        resolution(routes, method, path.push(SEPARATOR).push(SEPARATOR)) == resolution(
            routes,
            method,
            path,
        ),
{
    lemma_trailing_separators_are_ignored(path);
}

/// A request resolves in the same way whether a place in its path holds
/// one separator or a run of several.
pub proof fn lemma_resolution_ignores_separator_runs<H>(
    routes: Seq<Route<H>>,
    method: Seq<char>,
    before: Seq<char>,
    count: nat,
    after: Seq<char>,
)
    requires
        count >= 1,
    ensures
        resolution(routes, method, before + separators(count) + after) == resolution(
            routes,
            method,
            before + separators(1) + after,
        ),
{
    lemma_separator_count_is_irrelevant(before, count, after);
}

/// A pattern registers as the same route whether it is given as written or
/// already in canonical form, with or without a trailing separator.
pub proof fn lemma_registration_normalizes<H>(method: Method, pattern: Seq<char>, handler: H)
    ensures
        is_normalized(registered(method, pattern, handler).pattern),
        registered(method, normalize_path(pattern), handler) == registered(
            method,
            pattern,
            handler,
        ),
        pattern.len() > 0 ==> registered(method, pattern.push(SEPARATOR), handler) == registered(
            method,
            pattern,
            handler,
        ),
{
    lemma_normalize_gives_normal_form(pattern);
    lemma_normalize_is_idempotent(pattern);
    if pattern.len() > 0 {
        lemma_trailing_separators_are_ignored(pattern);
    }
}

} // verus!
