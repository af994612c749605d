//! Routing: path patterns with `{name}` parameters, per-method handlers, and route lookup.
use vstd::prelude::*;
use super::http_method::HttpMethod;
use crate::str_map::StrMap;
use crate::text_ops::{chars_of, split_tokens, string_from, string_views, tokens, Delim};
use crate::unicode::str_eq;

verus! {

/// One `/`-separated piece of a route pattern.
#[derive(Debug)]
pub enum Segment {
    /// Matches exactly this text.
    Literal(String),
    /// `{name}`: matches any piece and binds it to `name`.
    Param(String),
}

/// The abstract form of a [`Segment`].
pub enum SegmentSpec {
    Literal(Seq<char>),
    Param(Seq<char>),
}

pub open spec fn segment_view(s: Segment) -> SegmentSpec {
    match s {
        Segment::Literal(x) => SegmentSpec::Literal(x@),
        Segment::Param(x) => SegmentSpec::Param(x@),
    }
}

pub open spec fn segments_view(v: Seq<Segment>) -> Seq<SegmentSpec> {
    v.map_values(|s: Segment| segment_view(s))
}

/// The segment a piece of a pattern stands for: `{name}` is a parameter, anything else a literal.
pub open spec fn segment_of(piece: Seq<char>) -> SegmentSpec {
    if piece.len() >= 2 && piece[0] == '{' && piece.last() == '}' {
        SegmentSpec::Param(piece.subrange(1, piece.len() - 1))
    } else {
        SegmentSpec::Literal(piece)
    }
}

/// The segments of a route pattern: its non-empty `/`-separated pieces.
pub open spec fn segments_of(pattern: Seq<char>) -> Seq<SegmentSpec> {
    tokens(pattern, Delim::Char('/')).map_values(|p: Seq<char>| segment_of(p))
}

/// The parameters bound by the first `n` segments against `parts`, later bindings of the same
/// name replacing earlier ones.
pub open spec fn bind_params(segs: Seq<SegmentSpec>, parts: Seq<Seq<char>>, n: nat) -> Map<Seq<char>, Seq<char>>
    decreases n,
{
    if n == 0 {
        Map::empty()
    } else {
        let prev = bind_params(segs, parts, (n - 1) as nat);
        match segs[n - 1] {
            SegmentSpec::Param(name) => prev.insert(name, parts[n - 1]),
            SegmentSpec::Literal(_) => prev,
        }
    }
}

/// Whether every literal segment equals the piece of the path at its position.
pub open spec fn literals_agree(segs: Seq<SegmentSpec>, parts: Seq<Seq<char>>) -> bool {
    forall|i: int|
        0 <= i < segs.len() ==> match #[trigger] segs[i] {
            SegmentSpec::Literal(l) => l == parts[i],
            SegmentSpec::Param(_) => true,
        }
}

/// The parameters of `path` under the pattern `segs`, or `None` when the path does not fit it.
pub open spec fn match_spec(segs: Seq<SegmentSpec>, path: Seq<char>) -> Option<Map<Seq<char>, Seq<char>>> {
    let parts = tokens(path, Delim::Char('/'));
    if parts.len() == segs.len() && literals_agree(segs, parts) {
        Some(bind_params(segs, parts, segs.len()))
    } else {
        None
    }
}

/// Whether no segment after the `i`-th, among the first `n`, equals it.
pub open spec fn last_of_its_kind(segs: Seq<SegmentSpec>, i: int, n: int) -> bool {
    forall|j: int| i < j < n ==> #[trigger] segs[j] != segs[i]
}

proof fn lemma_bind_params(segs: Seq<SegmentSpec>, parts: Seq<Seq<char>>, n: nat)
    requires
        n <= segs.len(),
    ensures
        forall|name: Seq<char>|
            #[trigger] bind_params(segs, parts, n).contains_key(name) <==> exists|i: int|
                0 <= i < n && #[trigger] segs[i] == SegmentSpec::Param(name),
        forall|i: int|
            0 <= i < n && (#[trigger] segs[i]) is Param && last_of_its_kind(segs, i, n as int)
                ==> bind_params(segs, parts, n)[segs[i]->Param_0] == parts[i],
    decreases n,
{
    if n > 0 {
        lemma_bind_params(segs, parts, (n - 1) as nat);
        let prev = bind_params(segs, parts, (n - 1) as nat);
        let m = bind_params(segs, parts, n);
        assert forall|name: Seq<char>|
            #[trigger] m.contains_key(name) <==> exists|i: int|
                0 <= i < n && #[trigger] segs[i] == SegmentSpec::Param(name) by {
            if m.contains_key(name) {
                if !prev.contains_key(name) {
                    assert(segs[n - 1] == SegmentSpec::Param(name));
                }
            }
            if exists|i: int| 0 <= i < n && #[trigger] segs[i] == SegmentSpec::Param(name) {
                let i = choose|i: int| 0 <= i < n && #[trigger] segs[i] == SegmentSpec::Param(name);
                if i < n - 1 {
                    assert(prev.contains_key(name));
                }
            }
        }
        assert forall|i: int|
            0 <= i < n && (#[trigger] segs[i]) is Param && last_of_its_kind(segs, i, n as int)
                implies m[segs[i]->Param_0] == parts[i] by {
            if i < n - 1 {
                assert(segs[n - 1] != segs[i]);
                assert(last_of_its_kind(segs, i, n - 1));
            }
        }
    }
}

/// A pattern fits a path exactly when the path has as many non-empty `/`-separated pieces as
/// the pattern has segments and each literal segment equals the piece at its place. Then the
/// parameters bound are exactly the names of the pattern's parameters, each bound to the piece
/// at the place of its last occurrence.
pub proof fn law_pattern_fits(segs: Seq<SegmentSpec>, path: Seq<char>)
    ensures
        match_spec(segs, path) is Some <==> (tokens(path, Delim::Char('/')).len() == segs.len()
            && forall|i: int|
            0 <= i < segs.len() && (#[trigger] segs[i]) is Literal ==> segs[i]->Literal_0 == tokens(
                path,
                Delim::Char('/'),
            )[i]),
        match_spec(segs, path) is Some ==> forall|name: Seq<char>|
            #[trigger] match_spec(segs, path)->0.contains_key(name) <==> exists|i: int|
                0 <= i < segs.len() && #[trigger] segs[i] == SegmentSpec::Param(name),
        match_spec(segs, path) is Some ==> forall|i: int|
            0 <= i < segs.len() && (#[trigger] segs[i]) is Param && last_of_its_kind(segs, i, segs.len() as int)
                ==> match_spec(segs, path)->0[segs[i]->Param_0] == tokens(path, Delim::Char('/'))[i],
{
    let parts = tokens(path, Delim::Char('/'));
    lemma_bind_params(segs, parts, segs.len());
    if parts.len() == segs.len() {
        if forall|i: int|
            0 <= i < segs.len() && (#[trigger] segs[i]) is Literal ==> segs[i]->Literal_0 == parts[i] {
            assert forall|i: int| 0 <= i < segs.len() implies match #[trigger] segs[i] {
                SegmentSpec::Literal(l) => l == parts[i],
                SegmentSpec::Param(_) => true,
            } by {
                if segs[i] is Literal {
                }
            }
            assert(literals_agree(segs, parts));
        }
    }
}

/// Splits a route pattern into segments.
pub fn parse_segments(path: &str) -> (r: Vec<Segment>)
    ensures
        segments_view(r@) == segments_of(path@),
{
    let pieces = split_tokens(path, Delim::Char('/'));
    let ghost ps = string_views(pieces@);
    let mut r: Vec<Segment> = Vec::new();
    let mut i: usize = 0;
    while i < pieces.len()
        invariant
            ps == string_views(pieces@),
            ps == tokens(path@, Delim::Char('/')),
            i <= pieces@.len(),
            segments_view(r@) == ps.take(i as int).map_values(|p: Seq<char>| segment_of(p)),
        decreases pieces@.len() - i,
    {
        let cs = chars_of(pieces[i].as_str());
        let n = cs.len();
        let seg = if n >= 2 && cs[0] == '{' && cs[n - 1] == '}' {
            Segment::Param(string_from(&cs, 1, n - 1))
        } else {
            Segment::Literal(string_from(&cs, 0, n))
        };
        proof {
            assert(cs@.subrange(0, n as int) =~= cs@);
            assert(ps[i as int] == pieces@[i as int]@);
        }
        let ghost before = r@;
        r.push(seg);
        i = i + 1;
        proof {
            assert(segments_view(r@) =~= segments_view(before).push(segment_view(seg)));
            assert(ps.take(i as int).map_values(|p: Seq<char>| segment_of(p)) =~= ps.take(
                (i - 1) as int,
            ).map_values(|p: Seq<char>| segment_of(p)).push(segment_of(ps[i - 1])));
        }
    }
    assert(ps.take(ps.len() as int) =~= ps);
    r
}

/// Matches `path` against the pattern `segments`, returning the bound parameters.
pub fn match_segments(segments: &Vec<Segment>, path: &str) -> (r: Option<StrMap>)
    ensures
        match r {
            Some(m) => m.wf() && match_spec(segments_view(segments@), path@) == Some(m@),
            None => match_spec(segments_view(segments@), path@) is None,
        },
{
    let parts = split_tokens(path, Delim::Char('/'));
    let ghost ps = string_views(parts@);
    let ghost segs = segments_view(segments@);
    if parts.len() != segments.len() {
        return None;
    }
    let mut params = StrMap::new();
    let mut i: usize = 0;
    while i < segments.len()
        invariant
            ps == string_views(parts@),
            ps == tokens(path@, Delim::Char('/')),
            segs == segments_view(segments@),
            parts@.len() == segments@.len(),
            i <= segments@.len(),
            params.wf(),
            params@ == bind_params(segs, ps, i as nat),
            forall|j: int|
                0 <= j < i ==> match #[trigger] segs[j] {
                    SegmentSpec::Literal(l) => l == ps[j],
                    SegmentSpec::Param(_) => true,
                },
        decreases segments@.len() - i,
    {
        assert(segs[i as int] == segment_view(segments@[i as int]));
        assert(ps[i as int] == parts@[i as int]@);
        match &segments[i] {
            Segment::Literal(literal) => {
                if !str_eq(literal.as_str(), parts[i].as_str()) {
                    return None;
                }
            },
            Segment::Param(name) => {
                params.insert(name.clone(), parts[i].clone());
            },
        }
        i = i + 1;
    }
    Some(params)
}

/// The handlers registered for one path, at most one per method.
pub struct MethodRouter<H> {
    get: Option<H>,
    put: Option<H>,
    post: Option<H>,
}

impl<H> MethodRouter<H> {
    /// The handler registered for `m`.
    pub closed spec fn handler_for(&self, m: HttpMethod) -> Option<H> {
        match m {
            HttpMethod::GET => self.get,
            HttpMethod::PUT => self.put,
            HttpMethod::POST => self.post,
        }
    }

    /// No handler for any method.
    pub fn new() -> (r: Self)
        ensures
            forall|m: HttpMethod| r.handler_for(m) is None,
    {
        MethodRouter { get: None, put: None, post: None }
    }

    /// Registers `handler` for GET, replacing any earlier one.
    pub fn get(self, handler: H) -> (r: Self)
        ensures
            r.handler_for(HttpMethod::GET) == Some(handler),
            forall|m: HttpMethod| m != HttpMethod::GET ==> r.handler_for(m) == self.handler_for(m),
    {
        MethodRouter { get: Some(handler), ..self }
    }

    /// Registers `handler` for PUT, replacing any earlier one.
    pub fn put(self, handler: H) -> (r: Self)
        ensures
            r.handler_for(HttpMethod::PUT) == Some(handler),
            forall|m: HttpMethod| m != HttpMethod::PUT ==> r.handler_for(m) == self.handler_for(m),
    {
        MethodRouter { put: Some(handler), ..self }
    }

    /// Registers `handler` for POST, replacing any earlier one.
    pub fn post(self, handler: H) -> (r: Self)
        ensures
            r.handler_for(HttpMethod::POST) == Some(handler),
            forall|m: HttpMethod| m != HttpMethod::POST ==> r.handler_for(m) == self.handler_for(m),
    {
        MethodRouter { post: Some(handler), ..self }
    }
}

/// A method router with only a GET handler.
pub fn get<H>(handler: H) -> (r: MethodRouter<H>)
    ensures
        r.handler_for(HttpMethod::GET) == Some(handler),
        r.handler_for(HttpMethod::PUT) is None,
        r.handler_for(HttpMethod::POST) is None,
{
    MethodRouter::new().get(handler)
}

/// A method router with only a POST handler.
pub fn post<H>(handler: H) -> (r: MethodRouter<H>)
    ensures
        r.handler_for(HttpMethod::POST) == Some(handler),
        r.handler_for(HttpMethod::GET) is None,
        r.handler_for(HttpMethod::PUT) is None,
{
    MethodRouter::new().post(handler)
}

/// One registered route: a method, a path pattern and its handler.
pub struct Route<H> {
    method: HttpMethod,
    segments: Vec<Segment>,
    handler: H,
}

/// The abstract form of a [`Route`].
pub struct RouteView<H> {
    pub method: HttpMethod,
    pub segments: Seq<SegmentSpec>,
    pub handler: H,
}

spec fn route_view<H>(r: Route<H>) -> RouteView<H> {
    RouteView { method: r.method, segments: segments_view(r.segments@), handler: r.handler }
}

/// Whether `path` fits the pattern of `r`.
pub open spec fn path_fits<H>(r: RouteView<H>, path: Seq<char>) -> bool {
    match_spec(r.segments, path) is Some
}

/// The routes that `mr` adds for `pattern`: one per registered method, GET, PUT, POST in turn.
pub open spec fn routes_for<H>(pattern: Seq<char>, mr: MethodRouter<H>) -> Seq<RouteView<H>> {
    let segs = segments_of(pattern);
    let one = |m: HttpMethod| match mr.handler_for(m) {
        Some(h) => seq![RouteView { method: m, segments: segs, handler: h }],
        None => Seq::<RouteView<H>>::empty(),
    };
    one(HttpMethod::GET) + one(HttpMethod::PUT) + one(HttpMethod::POST)
}

/// The outcome of looking a request up in the route table.
pub enum RouteMatch<'a, H> {
    /// The first route whose method and pattern fit, with the parameters it binds.
    Matched(&'a H, StrMap),
    /// Some route's pattern fits the path, but none for this method.
    MethodNotAllowed,
    /// No route's pattern fits the path.
    NotFound,
}

/// A route table with an optional fallback handler.
pub struct Router<H> {
    routes: Vec<Route<H>>,
    fallback_handler: Option<H>,
}

impl<H> Router<H> {
    /// The routes, in registration order.
    pub closed spec fn routes(&self) -> Seq<RouteView<H>> {
        self.routes@.map_values(|r: Route<H>| route_view(r))
    }

    /// The fallback handler, if set.
    pub closed spec fn fallback_of(&self) -> Option<H> {
        self.fallback_handler
    }

    /// The fallback handler, if set.
    pub fn fallback_handler(&self) -> (r: Option<&H>)
        ensures
            match r {
                Some(h) => self.fallback_of() == Some(*h),
                None => self.fallback_of() is None,
            },
    {
        match &self.fallback_handler {
            Some(h) => Some(h),
            None => None,
        }
    }

    /// An empty table without fallback.
    pub fn new() -> (r: Self)
        ensures
            r.routes() == Seq::<RouteView<H>>::empty(),
            r.fallback_of() is None,
    {
        Router { routes: Vec::new(), fallback_handler: None }
    }

    fn add(&mut self, method: HttpMethod, path: &str, handler: H)
        ensures
            final(self).routes() == old(self).routes().push(
                RouteView { method, segments: segments_of(path@), handler },
            ),
            final(self).fallback_of() == old(self).fallback_of(),
    {
        let segments = parse_segments(path);
        let ghost before = self.routes();
        let route = Route { method, segments, handler };
        self.routes.push(route);
        assert(self.routes() =~= before.push(route_view(route)));
    }

    /// Adds one route for each method `method_router` has a handler for, all with pattern `path`.
    pub fn route(self, path: &str, method_router: MethodRouter<H>) -> (r: Self)
        ensures
            r.routes() == self.routes() + routes_for(path@, method_router),
            r.fallback_of() == self.fallback_of(),
    {
        let mut r = self;
        let ghost start = r.routes();
        let MethodRouter { get, put, post } = method_router;
        match get {
            Some(h) => r.add(HttpMethod::GET, path, h),
            None => {},
        }
        match put {
            Some(h) => r.add(HttpMethod::PUT, path, h),
            None => {},
        }
        match post {
            Some(h) => r.add(HttpMethod::POST, path, h),
            None => {},
        }
        assert(r.routes() =~= start + routes_for(path@, method_router));
        r
    }

    /// Sets the handler for requests that no route's pattern fits.
    pub fn fallback(self, handler: H) -> (r: Self)
        ensures
            r.routes() == self.routes(),
            r.fallback_of() == Some(handler),
    {
        Router { fallback_handler: Some(handler), ..self }
    }

    /// Looks up the route for `method` and `path`.
    pub fn find(&self, method: HttpMethod, path: &str) -> (r: RouteMatch<'_, H>)
        ensures
            match r {
                RouteMatch::Matched(h, params) => exists|i: int|
                    0 <= i < self.routes().len() && self.routes()[i].method == method && path_fits(
                        self.routes()[i],
                        path@,
                    ) && *h == self.routes()[i].handler && params.wf() && Some(params@)
                        == match_spec(self.routes()[i].segments, path@) && forall|j: int|
                        0 <= j < i ==> !(self.routes()[j].method == method && path_fits(
                            #[trigger] self.routes()[j],
                            path@,
                        )),
                RouteMatch::MethodNotAllowed => (forall|j: int|
                    0 <= j < self.routes().len() ==> !(self.routes()[j].method == method
                        && path_fits(#[trigger] self.routes()[j], path@))) && exists|j: int|
                    0 <= j < self.routes().len() && path_fits(#[trigger] self.routes()[j], path@),
                RouteMatch::NotFound => forall|j: int|
                    0 <= j < self.routes().len() ==> !path_fits(#[trigger] self.routes()[j], path@),
            },
    {
        let ghost rs = self.routes();
        let mut path_shape_matches = false;
        let mut i: usize = 0;
        while i < self.routes.len()
            invariant
                rs == self.routes(),
                rs.len() == self.routes@.len(),
                i <= rs.len(),
                forall|j: int|
                    0 <= j < i ==> !(rs[j].method == method && path_fits(#[trigger] rs[j], path@)),
                path_shape_matches <==> exists|j: int| 0 <= j < i && path_fits(#[trigger] rs[j], path@),
            decreases rs.len() - i,
        {
            let route = &self.routes[i];
            assert(rs[i as int] == route_view(*route));
            match match_segments(&route.segments, path) {
                Some(params) => {
                    if route.method == method {
                        return RouteMatch::Matched(&route.handler, params);
                    }
                    path_shape_matches = true;
                },
                None => {},
            }
            i = i + 1;
        }
        if path_shape_matches {
            RouteMatch::MethodNotAllowed
        } else {
            RouteMatch::NotFound
        }
    }
}

} // verus!
