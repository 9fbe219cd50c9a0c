use vstd::prelude::*;

use crate::method::HttpMethod;
use crate::path::{path_eq, path_of, Path, PathError, PathView};
use crate::request::{Request, RequestView};

verus! {

/// Why a route could not be added.
#[derive(Debug, Clone, Copy, PartialEq, Eq, Structural)]
pub enum RouteError {
    /// The pattern is refused.
    Pattern(PathError),
    /// A route with the same method and an equal pattern is already there.
    Conflict,
}

/// Position of the first route for `m` whose pattern equals `p`, or -1.
pub open spec fn first_match(s: Seq<(HttpMethod, PathView)>, m: HttpMethod, p: PathView) -> int
    decreases s.len(),
{
    if s.len() == 0 {
        -1
    } else if first_match(s.drop_last(), m, p) >= 0 {
        first_match(s.drop_last(), m, p)
    } else if s.last().0 == m && path_eq(s.last().1, p) {
        s.len() - 1
    } else {
        -1
    }
}

/// A route: a method and a pattern.
pub struct Route {
    pub method: HttpMethod,
    pub path: Path,
}

/// The routes of a server, in the order they were added.
pub struct Endpoints {
    routes: Vec<Route>,
}

impl View for Endpoints {
    type V = Seq<(HttpMethod, PathView)>;

    closed spec fn view(&self) -> Seq<(HttpMethod, PathView)> {
        Seq::new(self.routes@.len(), |i: int| (self.routes@[i].method, self.routes@[i].path@))
    }
}

impl Endpoints {
    /// No routes.
    pub fn new() -> (r: Endpoints)
        ensures
            r@ == Seq::<(HttpMethod, PathView)>::empty(),
    {
        let r = Endpoints { routes: Vec::new() };
        proof {
            assert(r@ =~= Seq::<(HttpMethod, PathView)>::empty());
        }
        r
    }

    /// Number of routes.
    pub fn len(&self) -> (r: usize)
        ensures
            r == self@.len(),
    {
        self.routes.len()
    }

    /// The pattern of route `i`.
    pub fn path(&self, i: usize) -> (r: &Path)
        requires
            i < self@.len(),
        ensures
            r@ == self@[i as int].1,
    {
        &self.routes[i].path
    }

    /// The first route for `method` whose pattern equals `p`.
    pub fn find_endpoint(&self, method: HttpMethod, p: &Path) -> (r: Option<usize>)
        ensures
            match r {
                Some(i) => i as int == first_match(self@, method, p@),
                None => first_match(self@, method, p@) == -1,
            },
    {
        let mut i: usize = 0;
        while i < self.routes.len()
            invariant
                i <= self@.len(),
                first_match(self@.take(i as int), method, p@) == -1,
            decreases self@.len() - i,
        {
            proof {
                assert(self@.take(i + 1).drop_last() =~= self@.take(i as int));
            }
            let route = &self.routes[i];
            if route.method == method && route.path.eq(p) {
                proof {
                    lemma_first_match_prefix(self@, method, p@, i + 1);
                }
                return Some(i);
            }
            i = i + 1;
        }
        proof {
            assert(self@.take(i as int) =~= self@);
        }
        None
    }

    /// The route for a request: the first one for `method` whose pattern
    /// equals the request target; none when the target is no valid pattern.
    pub fn find_target(&self, method: HttpMethod, target: &str) -> (r: Option<usize>)
        ensures
            match path_of(target@) {
                Ok(pv) => match r {
                    Some(i) => i as int == first_match(self@, method, pv),
                    None => first_match(self@, method, pv) == -1,
                },
                Err(_) => r is None,
            },
    {
        match Path::try_from(target) {
            Ok(p) => self.find_endpoint(method, &p),
            Err(_) => None,
        }
    }

    /// Finds the route for a request, by its method and target, and binds
    /// the request to the route's pattern so that label values can be read.
    pub fn dispatch(&self, req: &mut Request) -> (r: Option<usize>)
        ensures
            match path_of(old(req)@.line.target) {
                Ok(pv) => match r {
                    Some(i) => i as int == first_match(self@, old(req)@.line.method, pv),
                    None => first_match(self@, old(req)@.line.method, pv) == -1,
                },
                Err(_) => r is None,
            },
            match r {
                Some(i) => final(req)@ == (RequestView {
                    matched: match (self@[i as int].1.segments, self@[i as int].1.labels) {
                        (Some(s), Some(l)) => Some((s, l)),
                        _ => None,
                    },
                    ..old(req)@
                }),
                None => final(req)@ == old(req)@,
            },
            final(req).wf() == old(req).wf(),
    {
        let found = self.find_target(req.line().method, req.line().request_target.as_str());
        proof {
            match path_of(old(req)@.line.target) {
                Ok(pv) => lemma_first_match_bounds(self@, old(req)@.line.method, pv),
                Err(_) => {},
            }
        }
        match found {
            Some(i) => {
                assert(i < self.routes@.len());
                req.set_matched_path(&self.routes[i].path);
                Some(i)
            },
            None => None,
        }
    }

    /// Adds a route for `method` and the pattern `path`, unless the pattern
    /// is refused or equals the pattern of a route for the same method; gives
    /// the new route's position.
    pub fn insert_endpoint(&mut self, method: HttpMethod, path: &str) -> (r: Result<usize, RouteError>)
        ensures
            match path_of(path@) {
                Err(e) => r == Err::<usize, RouteError>(RouteError::Pattern(e))
                    && final(self)@ == old(self)@,
                Ok(pv) => if first_match(old(self)@, method, pv) >= 0 {
                    r == Err::<usize, RouteError>(RouteError::Conflict) && final(self)@ == old(self)@
                } else {
                    r == Ok::<usize, RouteError>(old(self)@.len() as usize) && final(self)@
                        == old(self)@.push((method, pv))
                },
            },
    {
        let p = match Path::try_from(path) {
            Err(e) => {
                return Err(RouteError::Pattern(e));
            },
            Ok(p) => p,
        };
        if self.find_endpoint(method, &p).is_some() {
            return Err(RouteError::Conflict);
        }
        let n = self.routes.len();
        self.routes.push(Route { method, path: p });
        proof {
            assert(final(self)@ =~= old(self)@.push((method, path_of(path@).unwrap())));
        }
        Ok(n)
    }
}

proof fn lemma_first_match_bounds(s: Seq<(HttpMethod, PathView)>, m: HttpMethod, p: PathView)
    ensures
        -1 <= first_match(s, m, p) < s.len(),
    decreases s.len(),
{
    if s.len() > 0 {
        lemma_first_match_bounds(s.drop_last(), m, p);
    }
}

proof fn lemma_first_match_prefix(s: Seq<(HttpMethod, PathView)>, m: HttpMethod, p: PathView, n: int)
    requires
        0 <= n <= s.len(),
        first_match(s.take(n), m, p) >= 0,
    ensures
        first_match(s, m, p) == first_match(s.take(n), m, p),
    decreases s.len() - n,
{
    if n < s.len() {
        assert(s.take(n + 1).drop_last() =~= s.take(n));
        lemma_first_match_prefix(s, m, p, n + 1);
    } else {
        assert(s.take(n) =~= s);
    }
}

} // verus!
