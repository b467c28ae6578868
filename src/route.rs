use vstd::prelude::*;

verus! {

/// The request methods a route can be registered for.
#[derive(Clone, Copy, PartialEq, Eq, Structural, Debug)]
pub enum Method {
    Get,
    Head,
    Post,
    Put,
    Patch,
    Delete,
    Options,
}

/// A route stored at a tree node: the method it answers, the dispatcher it hands the
/// request to (an index chosen by the caller), and whether it takes over the rest of the
/// path for a mounted sub-router.
#[derive(Clone, Copy, PartialEq, Eq, Structural, Debug)]
pub struct Route {
    pub method: Method,
    pub dispatcher: usize,
    pub delegated: bool,
}

/// A route can serve a match that consumed the whole path, and a delegated route can also
/// serve one that stopped early with a suffix left over.
pub open spec fn eligible(r: Route, whole: bool) -> bool {
    whole || r.delegated
}

/// The first route, in registration order, that is eligible and answers `m`.
pub open spec fn select(routes: Seq<Route>, m: Method, whole: bool) -> Option<Route>
    decreases routes.len(),
{
    if routes.len() == 0 {
        None
    } else if routes[0].method == m && eligible(routes[0], whole) {
        Some(routes[0])
    } else {
        select(routes.drop_first(), m, whole)
    }
}

/// The methods of the eligible routes, each once, in the order they were first
/// registered.
pub open spec fn allowed(routes: Seq<Route>, whole: bool) -> Seq<Method>
    decreases routes.len(),
{
    if routes.len() == 0 {
        seq![]
    } else {
        let a = allowed(routes.drop_last(), whole);
        if eligible(routes.last(), whole) && !a.contains(routes.last().method) {
            a.push(routes.last().method)
        } else {
            a
        }
    }
}

/// Picks the route that answers `m`: the first eligible one registered for it.
pub fn select_route(routes: &Vec<Route>, m: Method, whole: bool) -> (r: Option<Route>)
    ensures
        r == select(routes@, m, whole),
{
    let mut i: usize = 0;
    assert(routes@.subrange(0, routes@.len() as int) =~= routes@);
    while i < routes.len()
        invariant
            i <= routes@.len(),
            select(routes@, m, whole) == select(routes@.subrange(i as int, routes@.len() as int), m, whole),
        decreases routes@.len() - i,
    {
        let r = routes[i];
        assert(routes@.subrange(i as int, routes@.len() as int).drop_first()
            =~= routes@.subrange(i + 1, routes@.len() as int));
        if r.method == m && (whole || r.delegated) {
            return Some(r);
        }
        i = i + 1;
    }
    None
}

/// The methods that some eligible route answers, in registration order.
pub fn allowed_methods(routes: &Vec<Route>, whole: bool) -> (r: Vec<Method>)
    ensures
        r@ == allowed(routes@, whole),
{
    let mut out: Vec<Method> = Vec::new();
    let mut i: usize = 0;
    assert(routes@.subrange(0, 0) =~= Seq::<Route>::empty());
    while i < routes.len()
        invariant
            i <= routes@.len(),
            out@ == allowed(routes@.subrange(0, i as int), whole),
        decreases routes@.len() - i,
    {
        let r = routes[i];
        assert(routes@.subrange(0, i + 1).drop_last() =~= routes@.subrange(0, i as int));
        assert(routes@.subrange(0, i + 1).last() == r);
        if whole || r.delegated {
            let mut seen = false;
            let mut k: usize = 0;
            while k < out.len()
                invariant
                    k <= out@.len(),
                    seen == exists|x: int| 0 <= x < k && out@[x] == r.method,
                decreases out@.len() - k,
            {
                if out[k] == r.method {
                    seen = true;
                }
                k = k + 1;
            }
            if !seen {
                out.push(r.method);
            }
        }
        i = i + 1;
    }
    assert(routes@.subrange(0, i as int) =~= routes@);
    out
}

/// Whether some route here is delegated.
pub open spec fn has_delegated(routes: Seq<Route>) -> bool {
    exists|k: int| 0 <= k < routes.len() && routes[k].delegated
}

/// Tells whether some route in `routes` is delegated.
pub fn any_delegated(routes: &Vec<Route>) -> (r: bool)
    ensures
        r == has_delegated(routes@),
{
    let mut i: usize = 0;
    while i < routes.len()
        invariant
            i <= routes@.len(),
            forall|k: int| 0 <= k < i ==> !routes@[k].delegated,
        decreases routes@.len() - i,
    {
        if routes[i].delegated {
            return true;
        }
        i = i + 1;
    }
    false
}

/// What `select` picks is one of the routes given, and answers the method.
pub proof fn lemma_select_member(routes: Seq<Route>, m: Method, whole: bool)
    requires
        select(routes, m, whole) is Some,
    ensures
        routes.contains(select(routes, m, whole).unwrap()),
        select(routes, m, whole).unwrap().method == m,
    decreases routes.len(),
{
    if routes.len() > 0 && !(routes[0].method == m && eligible(routes[0], whole)) {
        lemma_select_member(routes.drop_first(), m, whole);
        let r = select(routes, m, whole).unwrap();
        let k = choose|k: int| 0 <= k < routes.drop_first().len() && routes.drop_first()[k] == r;
        assert(routes[k + 1] == r);
    } else if routes.len() > 0 {
        assert(routes[0] == select(routes, m, whole).unwrap());
    }
}

/// When no route at a node answers `m`, none is selected, and the methods offered
/// instead are exactly those registered there, each once.
pub proof fn lemma_unanswered_method(routes: Seq<Route>, m: Method)
    requires
        forall|k: int| 0 <= k < routes.len() ==> #[trigger] routes[k].method != m,
    ensures
        select(routes, m, true) is None,
        forall|x: Method| allowed(routes, true).contains(x)
            <==> exists|k: int| 0 <= k < routes.len() && #[trigger] routes[k].method == x,
        forall|a: int, b: int| 0 <= a < b < allowed(routes, true).len()
            ==> allowed(routes, true)[a] != allowed(routes, true)[b],
    decreases routes.len(),
{
    lemma_select_none(routes, m);
    lemma_allowed_set(routes);
}

proof fn lemma_select_none(routes: Seq<Route>, m: Method)
    requires
        forall|k: int| 0 <= k < routes.len() ==> #[trigger] routes[k].method != m,
    ensures
        select(routes, m, true) is None,
    decreases routes.len(),
{
    if routes.len() > 0 {
        assert forall|k: int| 0 <= k < routes.drop_first().len() implies #[trigger] routes.drop_first()[k].method != m by {
            assert(routes.drop_first()[k] == routes[k + 1]);
        }
        lemma_select_none(routes.drop_first(), m);
    }
}

proof fn lemma_allowed_set(routes: Seq<Route>)
    ensures
        forall|x: Method| allowed(routes, true).contains(x)
            <==> exists|k: int| 0 <= k < routes.len() && #[trigger] routes[k].method == x,
        forall|a: int, b: int| 0 <= a < b < allowed(routes, true).len()
            ==> allowed(routes, true)[a] != allowed(routes, true)[b],
    decreases routes.len(),
{
    if routes.len() > 0 {
        let init = routes.drop_last();
        lemma_allowed_set(init);
        let a = allowed(init, true);
        let l = routes.last();
        assert forall|x: Method| allowed(routes, true).contains(x)
            <==> exists|k: int| 0 <= k < routes.len() && #[trigger] routes[k].method == x by {
            if allowed(routes, true).contains(x) {
                if a.contains(x) {
                    let k = choose|k: int| 0 <= k < init.len() && #[trigger] init[k].method == x;
                    assert(routes[k] == init[k]);
                } else {
                    let i = choose|i: int| 0 <= i < allowed(routes, true).len() && allowed(routes, true)[i] == x;
                    assert(routes[routes.len() - 1] == l);
                    if i < a.len() {
                        assert(a[i] == x);
                    }
                }
            }
            if exists|k: int| 0 <= k < routes.len() && #[trigger] routes[k].method == x {
                let k = choose|k: int| 0 <= k < routes.len() && #[trigger] routes[k].method == x;
                if k < routes.len() - 1 {
                    assert(init[k] == routes[k]);
                    assert(a.contains(x));
                    if !a.contains(l.method) {
                        let i = choose|i: int| 0 <= i < a.len() && a[i] == x;
                        assert(a.push(l.method)[i] == x);
                    }
                } else {
                    if !a.contains(l.method) {
                        assert(a.push(l.method)[a.len() as int] == x);
                    }
                }
            }
        }
    }
}

/// The route at position `k` is selected when it answers `m` and none before it does.
pub proof fn lemma_select_first(routes: Seq<Route>, m: Method, k: int)
    requires
        0 <= k < routes.len(),
        routes[k].method == m,
        forall|j: int| 0 <= j < k ==> #[trigger] routes[j].method != m,
    ensures
        select(routes, m, true) == Some(routes[k]),
    decreases k,
{
    if k > 0 {
        assert forall|j: int| 0 <= j < k - 1 implies #[trigger] routes.drop_first()[j].method != m by {
            assert(routes.drop_first()[j] == routes[j + 1]);
        }
        lemma_select_first(routes.drop_first(), m, k - 1);
    }
}

} // verus!
