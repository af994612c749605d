//! Routes keyed by method and exact path, and the handler a request goes to.
use vstd::prelude::*;
use crate::assoc::{assoc_to_map, keys_distinct, lemma_assoc, lemma_assoc_push, lemma_assoc_update};
use crate::own_axum::http_method::HttpMethod;
use crate::unicode::str_eq;

verus! {

/// Where a request goes.
pub enum Resolution<'a, H> {
    /// The route registered for its method and path.
    Handler(&'a H),
    /// Its path has routes, none for its method.
    MethodNotAllowed,
    /// No route has its path: the fallback handler.
    Fallback(&'a H),
    /// No route has its path and there is no fallback.
    NotFound,
}

/// A route entry as a key and its handler.
pub open spec fn entry_view<H>(e: (HttpMethod, String, H)) -> ((HttpMethod, Seq<char>), H) {
    ((e.0, e.1@), e.2)
}

/// A table of handlers keyed by method and exact path, with an optional fallback handler.
pub struct Router<H> {
    routes: Vec<(HttpMethod, String, H)>,
    fallback_handler: Option<H>,
}

impl<H> Router<H> {
    spec fn entries(&self) -> Seq<((HttpMethod, Seq<char>), H)> {
        self.routes@.map_values(|e: (HttpMethod, String, H)| entry_view(e))
    }

    /// The handler of each method and path.
    pub closed spec fn routes_of(&self) -> Map<(HttpMethod, Seq<char>), H> {
        assoc_to_map(self.entries())
    }

    /// The fallback handler, if set.
    pub closed spec fn fallback_of(&self) -> Option<H> {
        self.fallback_handler
    }

    /// Each method and path has one entry.
    pub closed spec fn wf(&self) -> bool {
        keys_distinct(self.entries())
    }

    /// Whether some route has path `path`, whatever its method.
    pub open spec fn has_path(&self, path: Seq<char>) -> bool {
        exists|m: HttpMethod| #[trigger] self.routes_of().contains_key((m, path))
    }

    /// An empty table without fallback.
    pub fn new() -> (r: Self)
        ensures
            r.wf(),
            r.routes_of() == Map::<(HttpMethod, Seq<char>), H>::empty(),
            r.fallback_of() is None,
    {
        Router { routes: Vec::new(), fallback_handler: None }
    }

    fn find(&self, method: HttpMethod, path: &str) -> (r: Option<usize>)
        ensures
            match r {
                Some(i) => i < self.routes@.len() && self.routes@[i as int].0 == method && self.routes@[i as int].1@ == path@,
                None => forall|i: int| 0 <= i < self.routes@.len() ==> !((#[trigger] self.routes@[i]).0 == method && self.routes@[i].1@ == path@),
            },
    {
        let mut i: usize = 0;
        while i < self.routes.len()
            invariant
                i <= self.routes@.len(),
                forall|j: int| 0 <= j < i ==> !((#[trigger] self.routes@[j]).0 == method && self.routes@[j].1@ == path@),
            decreases self.routes@.len() - i,
        {
            if self.routes[i].0 == method && str_eq(self.routes[i].1.as_str(), path) {
                return Some(i);
            }
            i = i + 1;
        }
        None
    }

    fn add(&mut self, method: HttpMethod, path: &str, handler: H)
        requires
            old(self).wf(),
        ensures
            final(self).wf(),
            final(self).routes_of() == old(self).routes_of().insert((method, path@), handler),
            final(self).fallback_of() == old(self).fallback_of(),
    {
        let ghost es = self.entries();
        proof {
            lemma_assoc(es);
        }
        match self.find(method, path) {
            Some(i) => {
                let e = (method, String::from_str(path), handler);
                self.routes.set(i, e);
                proof {
                    assert(es[i as int].0 == (method, path@));
                    lemma_assoc_update(es, i as int, handler);
                    assert(self.entries() =~= es.update(i as int, (es[i as int].0, handler)));
                }
            },
            None => {
                proof {
                    if assoc_to_map(es).contains_key((method, path@)) {
                        let j = choose|j: int| 0 <= j < es.len() && (#[trigger] es[j]).0 == (method, path@);
                        assert(self.routes@[j].0 == method && self.routes@[j].1@ == path@);
                    }
                    lemma_assoc_push(es, (method, path@), handler);
                }
                self.routes.push((method, String::from_str(path), handler));
                proof {
                    assert(self.entries() =~= es.push(((method, path@), handler)));
                }
            },
        }
    }

    /// The same as [`Self::get`].
    pub fn route(self, path: &str, handler: H) -> (r: Self)
        requires
            self.wf(),
        ensures
            r.wf(),
            r.routes_of() == self.routes_of().insert((HttpMethod::GET, path@), handler),
            r.fallback_of() == self.fallback_of(),
    {
        self.get(path, handler)
    }

    /// Routes `GET path` to `handler`, replacing an earlier handler.
    pub fn get(self, path: &str, handler: H) -> (r: Self)
        requires
            self.wf(),
        ensures
            r.wf(),
            r.routes_of() == self.routes_of().insert((HttpMethod::GET, path@), handler),
            r.fallback_of() == self.fallback_of(),
    {
        let mut r = self;
        r.add(HttpMethod::GET, path, handler);
        r
    }

    /// Routes `POST path` to `handler`, replacing an earlier handler.
    pub fn post(self, path: &str, handler: H) -> (r: Self)
        requires
            self.wf(),
        ensures
            r.wf(),
            r.routes_of() == self.routes_of().insert((HttpMethod::POST, path@), handler),
            r.fallback_of() == self.fallback_of(),
    {
        let mut r = self;
        r.add(HttpMethod::POST, path, handler);
        r
    }

    /// Sets the handler for requests whose path no route has.
    pub fn fallback(self, handler: H) -> (r: Self)
        requires
            self.wf(),
        ensures
            r.wf(),
            r.routes_of() == self.routes_of(),
            r.fallback_of() == Some(handler),
    {
        Router { fallback_handler: Some(handler), ..self }
    }

    /// Where a request with this method and path goes.
    pub fn resolve(&self, method: HttpMethod, path: &str) -> (r: Resolution<'_, H>)
        requires
            self.wf(),
        ensures
            match r {
                Resolution::Handler(h) => self.routes_of().contains_key((method, path@)) && *h == self.routes_of()[(method, path@)],
                Resolution::MethodNotAllowed => !self.routes_of().contains_key((method, path@)) && self.has_path(path@),
                Resolution::Fallback(h) => !self.has_path(path@) && self.fallback_of() == Some(*h),
                Resolution::NotFound => !self.has_path(path@) && self.fallback_of() is None,
            },
    {
        let ghost es = self.entries();
        proof {
            lemma_assoc(es);
        }
        let mut path_known = false;
        let mut i: usize = 0;
        while i < self.routes.len()
            invariant
                es == self.entries(),
                keys_distinct(es),
                i <= self.routes@.len(),
                forall|j: int| 0 <= j < i ==> !((#[trigger] self.routes@[j]).0 == method && self.routes@[j].1@ == path@),
                path_known <==> exists|j: int| 0 <= j < i && (#[trigger] self.routes@[j]).1@ == path@,
            decreases self.routes@.len() - i,
        {
            if str_eq(self.routes[i].1.as_str(), path) {
                if self.routes[i].0 == method {
                    let h = &self.routes[i].2;
                    proof {
                        lemma_assoc(es);
                        assert(es[i as int].0 == (method, path@));
                    }
                    return Resolution::Handler(h);
                }
                path_known = true;
            }
            i = i + 1;
        }
        proof {
            if self.routes_of().contains_key((method, path@)) {
                let j = choose|j: int| 0 <= j < es.len() && (#[trigger] es[j]).0 == (method, path@);
                assert(self.routes@[j].0 == method && self.routes@[j].1@ == path@);
            }
        }
        if path_known {
            proof {
                let j = choose|j: int| 0 <= j < i && (#[trigger] self.routes@[j]).1@ == path@;
                assert(es[j].0 == (self.routes@[j].0, path@));
                assert(self.routes_of().contains_key((self.routes@[j].0, path@)));
            }
            return Resolution::MethodNotAllowed;
        }
        proof {
            assert forall|m: HttpMethod| !#[trigger] self.routes_of().contains_key((m, path@)) by {
                if self.routes_of().contains_key((m, path@)) {
                    let j = choose|j: int| 0 <= j < es.len() && (#[trigger] es[j]).0 == (m, path@);
                    assert(self.routes@[j].1@ == path@);
                }
            }
        }
        match &self.fallback_handler {
            Some(h) => Resolution::Fallback(h),
            None => Resolution::NotFound,
        }
    }
}

/// A route registered for a method and path is where a request with that method and path goes,
/// whatever else the table holds; other methods on that path get `405` unless they have a
/// route of their own.
pub proof fn law_route_then_resolve<H>(before: Router<H>, after: Router<H>, method: HttpMethod, path: Seq<char>, handler: H, other: HttpMethod)
    requires
        after.routes_of() == before.routes_of().insert((method, path), handler),
    ensures
        after.routes_of().contains_key((method, path)),
        after.routes_of()[(method, path)] == handler,
        after.has_path(path),
        other != method && !before.routes_of().contains_key((other, path)) ==> !after.routes_of().contains_key((other, path)),
{
    assert(after.routes_of().contains_key((method, path)));
}

} // verus!
