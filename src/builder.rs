use vstd::prelude::*;
use vstd::string::StringSliceAdditionalSpecFns;
use crate::path::{bytes_seqs, path_segments, split_path};
use crate::finalizer::{extenders_for, ResponseFinalizer};
use crate::pipeline::{resolve_spec, PipelineSet};
use crate::query::{extract_all, extract_path_fields, extract_query_fields, path_reader, query_pairs, query_reader, ExtractionError};
use crate::route::{allowed, lemma_select_first, lemma_select_member, select, Method, Route};
use crate::tree::{
    all_literal, captures_view, tree_shaped, edges_from_pattern, no_capture_edges, check_pattern, clashes, copy_bytes, keeps_edges, match_from, path_to, pattern_ok, tree_wf, BuildError, Capture,
    Node, Outcome, Tree, routes_to,
};

verus! {

/// What a route dispatches to: the pipeline chain that runs first, the handler, and the
/// `u64` fields its extractors read from the path captures and from the query.
pub struct Dispatcher {
    pub chain: Vec<usize>,
    pub handler: usize,
    pub path_fields: Vec<Vec<u8>>,
    pub query_fields: Vec<Vec<u8>>,
    pub extenders: Vec<usize>,
}

/// Every route in the tree names a dispatcher below `bound`.
pub open spec fn routes_bound(nodes: Seq<Node>, bound: nat) -> bool {
    forall|m: int, k: int| 0 <= m < nodes.len() && 0 <= k < nodes[m].routes@.len()
        ==> #[trigger] nodes[m].routes@[k].dispatcher < bound
}

/// A copy of a list of indices.
fn copy_indices(v: &Vec<usize>) -> (r: Vec<usize>)
    ensures
        r@ == v@,
{
    let mut r: Vec<usize> = Vec::new();
    let mut i: usize = 0;
    while i < v.len()
        invariant
            i <= v@.len(),
            r@ == v@.subrange(0, i as int),
        decreases v@.len() - i,
    {
        r.push(v[i]);
        i = i + 1;
        assert(r@ =~= v@.subrange(0, i as int));
    }
    assert(v@.subrange(0, v@.len() as int) =~= v@);
    r
}

/// The indices of `a` followed by those of `b`.
fn concat_indices(a: &Vec<usize>, b: &Vec<usize>) -> (r: Vec<usize>)
    ensures
        r@ == a@ + b@,
{
    let mut r = copy_indices(a);
    let mut k: usize = 0;
    while k < b.len()
        invariant
            k <= b@.len(),
            r@ == a@ + b@.subrange(0, k as int),
        decreases b@.len() - k,
    {
        r.push(b[k]);
        k = k + 1;
        assert(r@ =~= a@ + b@.subrange(0, k as int));
    }
    assert(b@.subrange(0, k as int) =~= b@);
    r
}

/// A route being declared: its method, its pattern segments, whether it delegates the
/// rest of the path, the `u64` fields its extractors read, and the response extenders
/// that belong to its extractors (applied when they fail).
pub struct SingleRouteBuilder {
    pub method: Method,
    pub segments: Vec<Vec<u8>>,
    pub delegated: bool,
    pub path_fields: Vec<Vec<u8>>,
    pub query_fields: Vec<Vec<u8>>,
    pub extenders: Vec<usize>,
}

impl SingleRouteBuilder {
    /// The same route, taking over every path below its pattern.
    pub fn delegate(self) -> (r: SingleRouteBuilder)
        ensures
            r.method == self.method,
            r.segments@ == self.segments@,
            r.delegated,
            r.path_fields@ == self.path_fields@,
            r.query_fields@ == self.query_fields@,
            r.extenders@ == self.extenders@,
    {
        SingleRouteBuilder { delegated: true, ..self }
    }

    /// The same route, reading the `u64` fields `fields` from its path captures.
    pub fn with_path_extractor(self, fields: Vec<Vec<u8>>) -> (r: SingleRouteBuilder)
        ensures
            r.method == self.method,
            r.segments@ == self.segments@,
            r.delegated == self.delegated,
            r.path_fields@ == fields@,
            r.query_fields@ == self.query_fields@,
            r.extenders@ == self.extenders@,
    {
        SingleRouteBuilder { path_fields: fields, ..self }
    }

    /// The same route, reading the `u64` fields `fields` from the query string.
    pub fn with_query_string_extractor(self, fields: Vec<Vec<u8>>) -> (r: SingleRouteBuilder)
        ensures
            r.method == self.method,
            r.segments@ == self.segments@,
            r.delegated == self.delegated,
            r.path_fields@ == self.path_fields@,
            r.query_fields@ == fields@,
            r.extenders@ == self.extenders@,
    {
        SingleRouteBuilder { query_fields: fields, ..self }
    }

    /// The same route, with `extender` applied to its response when its extractors fail,
    /// after the extenders added before it.
    pub fn with_extender(self, extender: usize) -> (r: SingleRouteBuilder)
        ensures
            r.method == self.method,
            r.segments@ == self.segments@,
            r.delegated == self.delegated,
            r.path_fields@ == self.path_fields@,
            r.query_fields@ == self.query_fields@,
            r.extenders@ == self.extenders@.push(extender),
    {
        let mut r = self;
        r.extenders.push(extender);
        r
    }
}

/// Routes declared under a common path prefix.
pub struct ScopeBuilder {
    pub prefix: Vec<Vec<u8>>,
}

impl ScopeBuilder {
    /// Declares a route for `method` at `path` below the prefix.
    pub fn request(&self, method: Method, path: &str) -> (r: SingleRouteBuilder)
        ensures
            r.method == method,
            bytes_seqs(r.segments@) == bytes_seqs(self.prefix@) + path_segments(path.spec_bytes()),
            !r.delegated,
            r.path_fields@.len() == 0,
            r.query_fields@.len() == 0,
            r.extenders@.len() == 0,
    {
        let tail = split_path(path);
        let mut segments: Vec<Vec<u8>> = Vec::new();
        let mut i: usize = 0;
        while i < self.prefix.len()
            invariant
                i <= self.prefix@.len(),
                bytes_seqs(segments@) == bytes_seqs(self.prefix@).subrange(0, i as int),
            decreases self.prefix@.len() - i,
        {
            let ghost before = segments@;
            segments.push(copy_bytes(self.prefix[i].as_slice()));
            assert(bytes_seqs(segments@) =~= bytes_seqs(before).push(self.prefix@[i as int]@));
            i = i + 1;
            assert(bytes_seqs(segments@) =~= bytes_seqs(self.prefix@).subrange(0, i as int));
        }
        let mut k: usize = 0;
        assert(bytes_seqs(self.prefix@).subrange(0, i as int) =~= bytes_seqs(self.prefix@));
        assert(bytes_seqs(tail@).subrange(0, 0) =~= Seq::<Seq<u8>>::empty());
        while k < tail.len()
            invariant
                k <= tail@.len(),
                bytes_seqs(segments@) == bytes_seqs(self.prefix@) + bytes_seqs(tail@).subrange(0, k as int),
            decreases tail@.len() - k,
        {
            let ghost before = segments@;
            segments.push(copy_bytes(tail[k].as_slice()));
            assert(bytes_seqs(segments@) =~= bytes_seqs(before).push(tail@[k as int]@));
            k = k + 1;
            assert(bytes_seqs(segments@) =~= bytes_seqs(self.prefix@) + bytes_seqs(tail@).subrange(0, k as int));
        }
        assert(bytes_seqs(tail@).subrange(0, k as int) =~= bytes_seqs(tail@));
        SingleRouteBuilder {
            method,
            segments,
            delegated: false,
            path_fields: Vec::new(),
            query_fields: Vec::new(),
            extenders: Vec::new(),
        }
    }

    /// Declares a `GET` route below the prefix.
    pub fn get(&self, path: &str) -> (r: SingleRouteBuilder)
        ensures
            r.method == Method::Get,
            bytes_seqs(r.segments@) == bytes_seqs(self.prefix@) + path_segments(path.spec_bytes()),
            !r.delegated,
            r.path_fields@.len() == 0,
            r.query_fields@.len() == 0,
            r.extenders@.len() == 0,
    {
        self.request(Method::Get, path)
    }

    /// Declares a `POST` route below the prefix.
    pub fn post(&self, path: &str) -> (r: SingleRouteBuilder)
        ensures
            r.method == Method::Post,
            bytes_seqs(r.segments@) == bytes_seqs(self.prefix@) + path_segments(path.spec_bytes()),
            !r.delegated,
            r.path_fields@.len() == 0,
            r.query_fields@.len() == 0,
            r.extenders@.len() == 0,
    {
        self.request(Method::Post, path)
    }
}

/// A router under construction: the tree, the dispatchers its routes name, and the
/// pipeline chain that new routes get.
pub struct RouterBuilder {
    tree: Tree,
    dispatchers: Vec<Dispatcher>,
    chain: Vec<usize>,
    finalizer: ResponseFinalizer,
}

/// The status of the response to a request that its route's extractors cannot read.
pub const BAD_REQUEST: u16 = 400;

/// A finished router: the tree, the dispatchers its routes name, and the response
/// extenders registered per status.
pub struct Router {
    pub tree: Tree,
    pub dispatchers: Vec<Dispatcher>,
    pub finalizer: ResponseFinalizer,
}

impl Router {
    /// The extenders to apply to a response with `status`, in registration order.
    pub fn finalize(&self, status: u16) -> (r: Vec<usize>)
        ensures
            r@ == extenders_for(self.finalizer@, status),
    {
        self.finalizer.finalize(status)
    }

    /// The tree is well formed and every route names one of the dispatchers.
    pub open spec fn wf(&self) -> bool {
        tree_wf(self.tree@) && tree_shaped(self.tree@) && routes_bound(self.tree@, self.dispatchers@.len())
    }
}

impl RouterBuilder {
    /// The tree is well formed and every route names one of the dispatchers.
    pub closed spec fn wf(&self) -> bool {
        tree_wf(self.tree@) && tree_shaped(self.tree@) && routes_bound(self.tree@, self.dispatchers@.len())
    }

    /// The tree built so far.
    pub closed spec fn nodes(&self) -> Seq<Node> {
        self.tree@
    }

    /// The pipeline chain that routes declared here get.
    pub closed spec fn chain_view(&self) -> Seq<usize> {
        self.chain@
    }

    /// The response extenders registered so far.
    pub closed spec fn extenders(&self) -> Seq<(u16, usize)> {
        self.finalizer@
    }

    /// Registers response extender `extender` for responses with `status`.
    pub fn add_extender(&mut self, status: u16, extender: usize)
        ensures
            final(self).extenders() == old(self).extenders().push((status, extender)),
            final(self).nodes() == old(self).nodes(),
            final(self).count() == old(self).count(),
            final(self).chain_view() == old(self).chain_view(),
            forall|i: int| 0 <= i < old(self).count() ==> #[trigger] final(self).dispatcher(i) == old(self).dispatcher(i),
            forall|i: int| 0 <= i < old(self).count() ==> #[trigger] final(self).fields(i) == old(self).fields(i),
            old(self).wf() ==> final(self).wf(),
    {
        self.finalizer.add(status, extender);
    }

    /// How many dispatchers there are.
    pub closed spec fn count(&self) -> nat {
        self.dispatchers@.len()
    }

    /// Dispatcher `i`: its chain and its handler.
    pub closed spec fn dispatcher(&self, i: int) -> (Seq<usize>, usize) {
        (self.dispatchers@[i].chain@, self.dispatchers@[i].handler)
    }

    /// The path and query fields that dispatcher `i` extracts, and the extenders for when
    /// that fails.
    pub closed spec fn fields(&self, i: int) -> (Seq<Seq<u8>>, Seq<Seq<u8>>, Seq<usize>) {
        (
            bytes_seqs(self.dispatchers@[i].path_fields@),
            bytes_seqs(self.dispatchers@[i].query_fields@),
            self.dispatchers@[i].extenders@,
        )
    }

    /// A builder whose routes run `chain` before their handler.
    pub fn new(chain: Vec<usize>) -> (b: RouterBuilder)
        ensures
            b.wf(),
            b.chain_view() == chain@,
            b.count() == 0,
            b.nodes().len() == 1,
            b.nodes()[0].routes@.len() == 0,
            b.extenders() == Seq::<(u16, usize)>::empty(),
            no_capture_edges(b.nodes()),
    {
        RouterBuilder { tree: Tree::new(), dispatchers: Vec::new(), chain, finalizer: ResponseFinalizer::new() }
    }

    /// Declares a route for `method` at `path`.
    pub fn request(&self, method: Method, path: &str) -> (r: SingleRouteBuilder)
        ensures
            r.method == method,
            bytes_seqs(r.segments@) == path_segments(path.spec_bytes()),
            !r.delegated,
            r.path_fields@.len() == 0,
            r.query_fields@.len() == 0,
            r.extenders@.len() == 0,
    {
        SingleRouteBuilder {
            method,
            segments: split_path(path),
            delegated: false,
            path_fields: Vec::new(),
            query_fields: Vec::new(),
            extenders: Vec::new(),
        }
    }

    /// Declares a `GET` route.
    pub fn get(&self, path: &str) -> (r: SingleRouteBuilder)
        ensures
            r.method == Method::Get,
            bytes_seqs(r.segments@) == path_segments(path.spec_bytes()),
            !r.delegated,
            r.path_fields@.len() == 0,
            r.query_fields@.len() == 0,
            r.extenders@.len() == 0,
    {
        self.request(Method::Get, path)
    }

    /// Declares a `POST` route.
    pub fn post(&self, path: &str) -> (r: SingleRouteBuilder)
        ensures
            r.method == Method::Post,
            bytes_seqs(r.segments@) == path_segments(path.spec_bytes()),
            !r.delegated,
            r.path_fields@.len() == 0,
            r.query_fields@.len() == 0,
            r.extenders@.len() == 0,
    {
        self.request(Method::Post, path)
    }

    /// Opens a scope: routes declared in it sit below `prefix`.
    pub fn scope(&self, prefix: &str) -> (s: ScopeBuilder)
        ensures
            bytes_seqs(s.prefix@) == path_segments(prefix.spec_bytes()),
    {
        ScopeBuilder { prefix: split_path(prefix) }
    }

    /// Binds a declared route to `handler`, behind this builder's pipeline chain. On
    /// success a new dispatcher holds the chain and the handler, and the route that names
    /// it is the last one at the node its pattern leads to. On error nothing changes.
    pub fn to(&mut self, route: SingleRouteBuilder, handler: usize) -> (r: Result<(), BuildError>)
        requires
            old(self).wf(),
            old(self).count() < usize::MAX,
        ensures
            final(self).wf(),
            final(self).chain_view() == old(self).chain_view(),
            final(self).extenders() == old(self).extenders(),
            forall|i: int| 0 <= i < old(self).count() ==> #[trigger] final(self).dispatcher(i) == old(self).dispatcher(i),
            forall|i: int| 0 <= i < old(self).count() ==> #[trigger] final(self).fields(i) == old(self).fields(i),
            r is Err ==> final(self).nodes() == old(self).nodes() && final(self).count() == old(self).count(),
            r is Ok ==> final(self).count() == old(self).count() + 1,
            r is Ok ==> final(self).dispatcher(old(self).count() as int) == (old(self).chain_view(), handler),
            r is Ok ==> final(self).fields(old(self).count() as int) == (bytes_seqs(route.path_fields@), bytes_seqs(route.query_fields@), route.extenders@),
            r is Ok ==> keeps_edges(old(self).nodes(), final(self).nodes()),
            r is Ok ==> edges_from_pattern(old(self).nodes(), final(self).nodes(), bytes_seqs(route.segments@),
                bytes_seqs(route.segments@).len() as int),
            final(self).nodes().len() <= old(self).nodes().len() + bytes_seqs(route.segments@).len(),
            r is Ok ==> exists|n: int| #[trigger] path_to(final(self).nodes(), 0, bytes_seqs(route.segments@)) == Some(n)
                && 0 <= n < final(self).nodes().len()
                && final(self).nodes()[n].routes@ == (if n < old(self).nodes().len() {
                    old(self).nodes()[n].routes@
                } else {
                    Seq::<Route>::empty()
                }).push(Route { method: route.method, dispatcher: old(self).count() as usize, delegated: route.delegated })
                && forall|m: int| 0 <= m < final(self).nodes().len() && m != n
                    ==> #[trigger] final(self).nodes()[m].routes@ == (if m < old(self).nodes().len() {
                        old(self).nodes()[m].routes@
                    } else {
                        Seq::<Route>::empty()
                    }),
            r == Err::<(), BuildError>(BuildError::InvalidPattern) <==> !pattern_ok(bytes_seqs(route.segments@)),
            r == Err::<(), BuildError>(BuildError::Conflict) ==> clashes(old(self).nodes(), 0, bytes_seqs(route.segments@)),
            r == Err::<(), BuildError>(BuildError::TooLarge)
                ==> old(self).nodes().len() + bytes_seqs(route.segments@).len() + 2 >= usize::MAX,
            pattern_ok(bytes_seqs(route.segments@)) && !clashes(old(self).nodes(), 0, bytes_seqs(route.segments@))
                && old(self).nodes().len() + bytes_seqs(route.segments@).len() + 2 < usize::MAX ==> r is Ok,
    {
        let index = self.dispatchers.len();
        let entry = Route { method: route.method, dispatcher: index, delegated: route.delegated };
        let ghost before = self.tree@;
        let added = self.tree.add_segments(&route.segments, entry);
        match added {
            Err(e) => Err(e),
            Ok(()) => {
                let chain = copy_indices(&self.chain);
                self.dispatchers.push(Dispatcher {
                    chain,
                    handler,
                    path_fields: route.path_fields,
                    query_fields: route.query_fields,
                    extenders: route.extenders,
                });
                proof {
                    let nodes = self.tree@;
                    let n = choose|n: int| #[trigger] self.tree.reaches(bytes_seqs(route.segments@)) == Some(n)
                        && 0 <= n < nodes.len()
                        && nodes[n].routes@ == (if n < before.len() { before[n].routes@ } else { Seq::<Route>::empty() }).push(entry)
                        && forall|m: int| 0 <= m < nodes.len() && m != n
                            ==> #[trigger] nodes[m].routes@ == (if m < before.len() { before[m].routes@ } else { Seq::<Route>::empty() });
                    assert forall|m: int, k: int| 0 <= m < nodes.len() && 0 <= k < nodes[m].routes@.len()
                        implies #[trigger] nodes[m].routes@[k].dispatcher < self.dispatchers@.len() by {
                        if m == n && k == nodes[m].routes@.len() - 1 {
                        } else if m < before.len() {
                            if m == n {
                                assert(nodes[m].routes@[k] == before[m].routes@[k]);
                            }
                        }
                    }
                    assert(self.dispatcher(index as int).0 == old(self).chain_view());
                    assert(self.fields(index as int) == (bytes_seqs(route.path_fields@), bytes_seqs(route.query_fields@), route.extenders@));
                    assert(path_to(self.nodes(), 0, bytes_seqs(route.segments@)) == Some(n));
                    assert(self.nodes()[n].routes@.last() == entry);
                    assert forall|i: int| 0 <= i < old(self).count() implies #[trigger] self.dispatcher(i) == old(self).dispatcher(i) by {
                        assert(self.dispatchers@[i] == old(self).dispatchers@[i]);
                    }
                    assert forall|i: int| 0 <= i < old(self).count() implies #[trigger] self.fields(i) == old(self).fields(i) by {
                        assert(self.dispatchers@[i] == old(self).dispatchers@[i]);
                    }
                }
                Ok(())
            },
        }
    }

    /// The finished router.
    pub fn finish(self) -> (r: Router)
        requires
            self.wf(),
        ensures
            r.wf(),
            r.tree@ == self.nodes(),
            r.finalizer@ == self.extenders(),
            r.dispatchers@.len() == self.count(),
            forall|i: int| 0 <= i < self.count()
                ==> (#[trigger] r.dispatchers@[i].chain@, r.dispatchers@[i].handler) == self.dispatcher(i),
            forall|i: int| 0 <= i < self.count()
                ==> (bytes_seqs((#[trigger] r.dispatchers@[i]).path_fields@), bytes_seqs(r.dispatchers@[i].query_fields@),
                    r.dispatchers@[i].extenders@) == self.fields(i),
    {
        Router { tree: self.tree, dispatchers: self.dispatchers, finalizer: self.finalizer }
    }
}

/// The pattern segments of a declaration.
pub open spec fn decl_segs(d: (SingleRouteBuilder, usize)) -> Seq<Seq<u8>> {
    bytes_seqs(d.0.segments@)
}

/// The route that declaration `i` registers.
pub open spec fn decl_route(d: (SingleRouteBuilder, usize), i: int) -> Route {
    Route { method: d.0.method, dispatcher: i as usize, delegated: d.0.delegated }
}

/// At most one declaration has a `:name` or `*name` segment.
pub open spec fn captures_in_one(decls: Seq<(SingleRouteBuilder, usize)>) -> bool {
    forall|i: int, j: int| 0 <= i < decls.len() && 0 <= j < decls.len() && i != j
        && !all_literal(#[trigger] decl_segs(decls[i])) ==> all_literal(#[trigger] decl_segs(decls[j]))
}

/// How many pattern segments the declarations hold in all.
pub open spec fn total_segments(decls: Seq<(SingleRouteBuilder, usize)>) -> nat
    decreases decls.len(),
{
    if decls.len() == 0 {
        0
    } else {
        total_segments(decls.drop_last()) + decl_segs(decls.last()).len()
    }
}

proof fn lemma_total_grows(decls: Seq<(SingleRouteBuilder, usize)>, i: int, j: int)
    requires
        0 <= i <= j <= decls.len(),
    ensures
        total_segments(decls.subrange(0, i)) <= total_segments(decls.subrange(0, j)),
    decreases j - i,
{
    if i < j {
        lemma_total_grows(decls, i, j - 1);
        assert(decls.subrange(0, j).drop_last() =~= decls.subrange(0, j - 1));
    }
}

/// The routes of the tree `nodes` are those of the first `i` declarations: each
/// declaration's route sits at the node its pattern leads to, every route there is one
/// of theirs, and at each node they come in declaration order.
pub open spec fn holds_declared(nodes: Seq<Node>, decls: Seq<(SingleRouteBuilder, usize)>, i: int) -> bool {
    &&& forall|j: int| 0 <= j < i ==> exists|n: int| #[trigger] path_to(nodes, 0, decl_segs(decls[j])) == Some(n)
        && 0 <= n < nodes.len() && nodes[n].routes@.contains(decl_route(decls[j], j))
    &&& forall|m: int, k: int| 0 <= m < nodes.len() && 0 <= k < nodes[m].routes@.len() ==> {
        let d = (#[trigger] nodes[m].routes@[k]).dispatcher as int;
        &&& d < i
        &&& nodes[m].routes@[k] == decl_route(decls[d], d)
        &&& path_to(nodes, 0, decl_segs(decls[d])) == Some(m)
    }
    &&& forall|m: int, k1: int, k2: int| 0 <= m < nodes.len() && 0 <= k1 < k2 < nodes[m].routes@.len()
        ==> (#[trigger] nodes[m].routes@[k1]).dispatcher < (#[trigger] nodes[m].routes@[k2]).dispatcher
}

proof fn lemma_register_step(before: Seq<Node>, nodes: Seq<Node>, decls: Seq<(SingleRouteBuilder, usize)>, i: int, n: int)
    requires
        0 <= i < decls.len() < usize::MAX,
        holds_declared(before, decls, i),
        keeps_edges(before, nodes),
        0 <= n < nodes.len(),
        path_to(nodes, 0, decl_segs(decls[i])) == Some(n),
        nodes[n].routes@ == (if n < before.len() { before[n].routes@ } else { Seq::<Route>::empty() })
            .push(decl_route(decls[i], i)),
        forall|m: int| 0 <= m < nodes.len() && m != n
            ==> #[trigger] nodes[m].routes@ == (if m < before.len() { before[m].routes@ } else { Seq::<Route>::empty() }),
    ensures
        holds_declared(nodes, decls, i + 1),
{
    let entry = decl_route(decls[i], i);
            assert forall|j: int| 0 <= j < i + 1 implies exists|x: int| #[trigger] path_to(nodes, 0, decl_segs(decls[j])) == Some(x)
                && 0 <= x < nodes.len() && nodes[x].routes@.contains(decl_route(decls[j], j)) by {
                if j == i {
                    assert(nodes[n].routes@.last() == entry);
                    assert(nodes[n].routes@[nodes[n].routes@.len() - 1] == entry);
                } else {
                    let x = choose|x: int| #[trigger] path_to(before, 0, decl_segs(decls[j])) == Some(x)
                        && 0 <= x < before.len() && before[x].routes@.contains(decl_route(decls[j], j));
                    crate::tree::lemma_keeps_path(before, nodes, 0, decl_segs(decls[j]));
                    let k = choose|k: int| 0 <= k < before[x].routes@.len() && before[x].routes@[k] == decl_route(decls[j], j);
                    assert(nodes[x].routes@[k] == decl_route(decls[j], j));
                }
            }
            assert forall|m: int, k: int| 0 <= m < nodes.len() && 0 <= k < nodes[m].routes@.len() implies {
                let d = (#[trigger] nodes[m].routes@[k]).dispatcher as int;
                &&& d < i + 1
                &&& nodes[m].routes@[k] == decl_route(decls[d], d)
                &&& path_to(nodes, 0, decl_segs(decls[d])) == Some(m)
            } by {
                if m == n && k == nodes[m].routes@.len() - 1 {
                    assert(nodes[m].routes@[k] == entry);
                    assert(entry.dispatcher as int == i);
                } else {
                    assert(m < before.len());
                    assert(nodes[m].routes@[k] == before[m].routes@[k]);
                    let d = before[m].routes@[k].dispatcher as int;
                    assert(d < i && before[m].routes@[k] == decl_route(decls[d], d)
                        && path_to(before, 0, decl_segs(decls[d])) == Some(m));
                    crate::tree::lemma_keeps_path(before, nodes, 0, decl_segs(decls[d]));
                }
            }
            assert forall|m: int, k1: int, k2: int| 0 <= m < nodes.len() && 0 <= k1 < k2 < nodes[m].routes@.len()
                implies (#[trigger] nodes[m].routes@[k1]).dispatcher < (#[trigger] nodes[m].routes@[k2]).dispatcher by {
                if m == n && k2 == nodes[m].routes@.len() - 1 {
                    assert(m < before.len());
                    assert(nodes[m].routes@[k1] == before[m].routes@[k1]);
                    assert((before[m].routes@[k1]).dispatcher < i);
                    assert(nodes[m].routes@[k2] == entry);
                    assert(entry.dispatcher as int == i);
                } else {
                    assert(m < before.len());
                    assert(nodes[m].routes@[k1] == before[m].routes@[k1]);
                    assert(nodes[m].routes@[k2] == before[m].routes@[k2]);
                }
            }
}

/// Builds a router from route declarations, each bound to its handler behind `chain`.
/// Every pattern is checked first: a badly formed one gives `InvalidPattern`, and
/// patterns too large for the arena give `TooLarge`. Then the declarations are
/// registered in order; one that clashes with those before it gives `Conflict`.
#[verifier::rlimit(60)]
pub fn build_router(chain: Vec<usize>, routes: Vec<(SingleRouteBuilder, usize)>, extenders: Vec<(u16, usize)>) -> (r: Result<Router, BuildError>)
    requires
        routes@.len() < usize::MAX,
    ensures
        r == Err::<Router, BuildError>(BuildError::InvalidPattern)
            <==> exists|i: int| 0 <= i < routes@.len() && !pattern_ok(#[trigger] decl_segs(routes@[i])),
        r == Err::<Router, BuildError>(BuildError::TooLarge)
            <==> (forall|i: int| 0 <= i < routes@.len() ==> pattern_ok(#[trigger] decl_segs(routes@[i])))
                && total_segments(routes@) + 3 >= usize::MAX,
        r == Err::<Router, BuildError>(BuildError::Conflict)
            ==> total_segments(routes@) + 3 < usize::MAX && !captures_in_one(routes@),
        (forall|i: int| 0 <= i < routes@.len() ==> pattern_ok(#[trigger] decl_segs(routes@[i])))
            && captures_in_one(routes@) && total_segments(routes@) + 3 < usize::MAX ==> r is Ok,
        r matches Ok(router) ==> router.finalizer@ == extenders@,
        r matches Ok(router) ==> router.wf() && router.dispatchers@.len() == routes@.len()
            && holds_declared(router.tree@, routes@, routes@.len() as int)
            && forall|i: int| 0 <= i < routes@.len() ==> (#[trigger] router.dispatchers@[i]).chain@ == chain@
                && router.dispatchers@[i].handler == routes@[i].1
                && bytes_seqs(router.dispatchers@[i].path_fields@) == bytes_seqs(routes@[i].0.path_fields@)
                && bytes_seqs(router.dispatchers@[i].query_fields@) == bytes_seqs(routes@[i].0.query_fields@)
                && router.dispatchers@[i].extenders@ == routes@[i].0.extenders@,
{
    let ghost decls = routes@;
    let mut v: usize = 0;
    while v < routes.len()
        invariant
            v <= decls.len(),
            decls == routes@,
            forall|i: int| 0 <= i < v ==> pattern_ok(#[trigger] decl_segs(decls[i])),
        decreases decls.len() - v,
    {
        if !check_pattern(&routes[v].0.segments) {
            assert(!pattern_ok(decl_segs(decls[v as int])));
            return Err(BuildError::InvalidPattern);
        }
        v = v + 1;
    }
    let mut total: usize = 0;
    let mut t: usize = 0;
    assert(decls.subrange(0, 0) =~= Seq::<(SingleRouteBuilder, usize)>::empty());
    while t < routes.len()
        invariant
            t <= decls.len(),
            decls == routes@,
            total == total_segments(decls.subrange(0, t as int)),
            total + 3 < usize::MAX,
            forall|i: int| 0 <= i < decls.len() ==> pattern_ok(#[trigger] decl_segs(decls[i])),
        decreases decls.len() - t,
    {
        let n = routes[t].0.segments.len();
        assert(decls.subrange(0, t + 1).drop_last() =~= decls.subrange(0, t as int));
        assert(decl_segs(decls[t as int]).len() == n);
        if n >= usize::MAX - 3 - total {
            proof {
                lemma_total_grows(decls, t + 1, decls.len() as int);
                assert(decls.subrange(0, decls.len() as int) =~= decls);
            }
            return Err(BuildError::TooLarge);
        }
        total = total + n;
        t = t + 1;
    }
    assert(decls.subrange(0, decls.len() as int) =~= decls);
    let mut builder = RouterBuilder::new(chain);
    let mut e: usize = 0;
    while e < extenders.len()
        invariant
            e <= extenders@.len(),
            builder.wf(),
            builder.count() == 0,
            builder.chain_view() == chain@,
            builder.nodes().len() == 1,
            builder.nodes()[0].routes@.len() == 0,
            no_capture_edges(builder.nodes()),
            builder.extenders() == extenders@.subrange(0, e as int),
        decreases extenders@.len() - e,
    {
        let (status, extender) = extenders[e];
        builder.add_extender(status, extender);
        e = e + 1;
        assert(builder.extenders() =~= extenders@.subrange(0, e as int));
    }
    assert(extenders@.subrange(0, e as int) =~= extenders@);
    let ghost c = builder.chain_view();
    let mut rest = routes;
    let mut i: usize = 0;
    while rest.len() > 0
        invariant
            builder.wf(),
            builder.chain_view() == c,
            c == chain@,
            decls == routes@,
            i <= decls.len() < usize::MAX,
            total_segments(decls) + 3 < usize::MAX,
            forall|j: int| 0 <= j < decls.len() ==> pattern_ok(#[trigger] decl_segs(decls[j])),
            builder.count() == i,
            builder.nodes().len() <= 1 + total_segments(decls.subrange(0, i as int)),
            rest@ == decls.subrange(i as int, decls.len() as int),
            forall|j: int| 0 <= j < i ==> #[trigger] builder.dispatcher(j) == (c, decls[j].1),
            forall|j: int| 0 <= j < i ==> #[trigger] builder.fields(j)
                == (bytes_seqs(decls[j].0.path_fields@), bytes_seqs(decls[j].0.query_fields@), decls[j].0.extenders@),
            holds_declared(builder.nodes(), decls, i as int),
            builder.extenders() == extenders@,
            (forall|j: int| 0 <= j < i ==> all_literal(#[trigger] decl_segs(decls[j]))) ==> no_capture_edges(builder.nodes()),
        decreases rest@.len(),
    {
        let ghost before = builder.nodes();
        let (decl, handler) = rest.remove(0);
        assert(decls[i as int] == (decl, handler));
        proof {
            lemma_total_grows(decls, i + 1, decls.len() as int);
            assert(decls.subrange(0, i + 1).drop_last() =~= decls.subrange(0, i as int));
            assert(decls.subrange(0, i + 1).last() == decls[i as int]);
            assert(total_segments(decls.subrange(0, i + 1))
                == total_segments(decls.subrange(0, i as int)) + decl_segs(decls[i as int]).len());
            assert(decls.subrange(0, decls.len() as int) =~= decls);
            assert(before.len() + decl_segs(decls[i as int]).len() + 2 < usize::MAX);
            if all_literal(decl_segs(decls[i as int])) {
                crate::tree::lemma_literal_never_clashes(before, 0, decl_segs(decls[i as int]));
            }
            if captures_in_one(decls) && !all_literal(decl_segs(decls[i as int])) {
                assert forall|j: int| 0 <= j < i implies all_literal(#[trigger] decl_segs(decls[j])) by {
                    assert(all_literal(decl_segs(decls[j])));
                }
                crate::tree::lemma_no_capture_edges_never_clash(before, 0, decl_segs(decls[i as int]));
            }
        }
        match builder.to(decl, handler) {
            Err(e) => {
                proof {
                    assert(e == BuildError::Conflict);
                    assert(!all_literal(decl_segs(decls[i as int])));
                    assert(!captures_in_one(decls));
                }
                return Err(e);
            },
            Ok(()) => {},
        }
        proof {
            let nodes = builder.nodes();
            let segs = decl_segs(decls[i as int]);
            let entry = decl_route(decls[i as int], i as int);
            let n = choose|n: int| #[trigger] path_to(nodes, 0, segs) == Some(n)
                && 0 <= n < nodes.len()
                && nodes[n].routes@ == (if n < before.len() { before[n].routes@ } else { Seq::<Route>::empty() }).push(entry)
                && forall|m: int| 0 <= m < nodes.len() && m != n
                    ==> #[trigger] nodes[m].routes@ == (if m < before.len() { before[m].routes@ } else { Seq::<Route>::empty() });
            lemma_register_step(before, nodes, decls, i as int, n);
            if forall|j: int| 0 <= j < i + 1 ==> all_literal(#[trigger] decl_segs(decls[j])) {
                assert(all_literal(decl_segs(decls[i as int])));
                crate::tree::lemma_literal_keeps_no_capture_edges(before, nodes, segs);
            }
        }
        i = i + 1;
        assert(rest@ =~= decls.subrange(i as int, decls.len() as int));
    }
    assert(i == decls.len());
    let ghost ds = Seq::new(decls.len(), |j: int| builder.dispatcher(j));
    let ghost fs = Seq::new(decls.len(), |j: int| builder.fields(j));
    let ghost nodes = builder.nodes();
    let router = builder.finish();
    assert forall|j: int| 0 <= j < decls.len() implies (#[trigger] router.dispatchers@[j]).chain@ == c
        && router.dispatchers@[j].handler == decls[j].1
        && bytes_seqs(router.dispatchers@[j].path_fields@) == bytes_seqs(decls[j].0.path_fields@)
        && bytes_seqs(router.dispatchers@[j].query_fields@) == bytes_seqs(decls[j].0.query_fields@)
        && router.dispatchers@[j].extenders@ == decls[j].0.extenders@ by {
        assert(ds[j] == (c, decls[j].1));
        assert((router.dispatchers@[j].chain@, router.dispatchers@[j].handler) == ds[j]);
        assert(fs[j] == (bytes_seqs(decls[j].0.path_fields@), bytes_seqs(decls[j].0.query_fields@), decls[j].0.extenders@));
    }
    Ok(router)
}

/// A literal declaration finds its own route in the router that `build_router` made:
/// when declaration `i` has a literal pattern and no earlier declaration gives the same
/// pattern for the same method, routing its path with its method gives its route, with
/// no captures and the whole path consumed.
pub proof fn lemma_built_literal_route(router: &Router, decls: Seq<(SingleRouteBuilder, usize)>, i: int, out: Outcome)
    requires
        router.wf(),
        holds_declared(router.tree@, decls, decls.len() as int),
        0 <= i < decls.len(),
        all_literal(decl_segs(decls[i])),
        forall|j: int| 0 <= j < i && #[trigger] decls[j].0.method == decls[i].0.method
            ==> decl_segs(decls[j]) != decl_segs(decls[i]),
        routes_to(router.tree@, decls[i].0.method, decl_segs(decls[i]), out),
    ensures
        match out {
            Outcome::Matched { route, captures, consumed } => route == decl_route(decls[i], i)
                && captures@.len() == 0 && consumed == decl_segs(decls[i]).len(),
            _ => false,
        },
{
    let nodes = router.tree@;
    let segs = decl_segs(decls[i]);
    let m = decls[i].0.method;
    let n = choose|n: int| #[trigger] path_to(nodes, 0, segs) == Some(n)
        && 0 <= n < nodes.len() && nodes[n].routes@.contains(decl_route(decls[i], i));
    let routes = nodes[n].routes@;
    let k = choose|k: int| 0 <= k < routes.len() && routes[k] == decl_route(decls[i], i);
    assert forall|j: int| 0 <= j < k implies #[trigger] routes[j].method != m by {
        let d = routes[j].dispatcher as int;
        assert(routes[j] == decl_route(decls[d], d));
        assert(path_to(nodes, 0, decl_segs(decls[d])) == Some(n));
        assert(routes[j].dispatcher < routes[k].dispatcher);
        assert(d < i);
        if routes[j].method == m {
            crate::tree::lemma_paths_distinct(nodes, decl_segs(decls[d]), segs);
        }
    }
    lemma_select_first(routes, m, k);
    crate::tree::lemma_literal_path_matches(nodes, segs, n, m, decl_route(decls[i], i), out);
}

/// The segments that a match which consumed `consumed` of them leaves over: what a
/// delegated route hands to the router mounted under it.
pub fn suffix(segs: &Vec<Vec<u8>>, consumed: usize) -> (r: Vec<Vec<u8>>)
    requires
        consumed <= segs@.len(),
    ensures
        bytes_seqs(r@) == bytes_seqs(segs@).subrange(consumed as int, segs@.len() as int),
{
    let mut r: Vec<Vec<u8>> = Vec::new();
    let mut k: usize = consumed;
    while k < segs.len()
        invariant
            consumed <= k <= segs@.len(),
            bytes_seqs(r@) == bytes_seqs(segs@).subrange(consumed as int, k as int),
        decreases segs@.len() - k,
    {
        let ghost before = r@;
        r.push(copy_bytes(segs[k].as_slice()));
        assert(bytes_seqs(r@) =~= bytes_seqs(before).push(segs@[k as int]@));
        k = k + 1;
        assert(bytes_seqs(r@) =~= bytes_seqs(segs@).subrange(consumed as int, k as int));
    }
    r
}

/// What dispatching a request comes to.
pub enum Dispatch {
    /// Run these middleware in order, then the handler, with the path's captures and the
    /// values the route's extractors read.
    Run {
        middleware: Vec<usize>,
        handler: usize,
        captures: Vec<Capture>,
        consumed: usize,
        path_values: Vec<u64>,
        query_values: Vec<u64>,
    },
    /// The route's extractors could not read the request; no middleware runs. The
    /// response gets the route's own extenders, then those registered for a bad
    /// request, each list in registration order.
    BadRequest { error: ExtractionError, extenders: Vec<usize> },
    /// No route's path matches.
    NotFound,
    /// A path matches but no route there answers the method; these do.
    MethodNotAllowed { allowed: Vec<Method> },
    /// The chosen route's chain names a pipeline that the set does not hold.
    UnknownPipeline,
}

/// What dispatching method `m` on the path segments `segs`, with the raw query `q`,
/// gives: the matched route's extractors run on the captures and the query (path first;
/// the first failure ends dispatch), then its chain is resolved against `pipelines`.
pub open spec fn dispatches_to(router: &Router, pipelines: Seq<Seq<usize>>, m: Method, segs: Seq<Seq<u8>>, q: Seq<u8>, d: Dispatch) -> bool {
    let nodes = router.tree@;
    match match_from(nodes, 0, segs, 0) {
        None => d is NotFound,
        Some(t) => {
            let whole = t.1 == segs.len();
            match select(nodes[t.0].routes@, m, whole) {
                None => match d {
                    Dispatch::MethodNotAllowed { allowed: a } => a@ == allowed(nodes[t.0].routes@, whole),
                    _ => false,
                },
                Some(rt) => {
                    let disp = router.dispatchers@[rt.dispatcher as int];
                    let pv = extract_all(bytes_seqs(disp.path_fields@), path_reader(t.2));
                    let qv = extract_all(bytes_seqs(disp.query_fields@), query_reader(query_pairs(q)));
                    match (pv, qv) {
                        (Err(e), _) => d matches Dispatch::BadRequest { error, extenders }
                            && error == e && extenders@ == disp.extenders@ + extenders_for(router.finalizer@, BAD_REQUEST),
                        (Ok(_), Err(e)) => d matches Dispatch::BadRequest { error, extenders }
                            && error == e && extenders@ == disp.extenders@ + extenders_for(router.finalizer@, BAD_REQUEST),
                        (Ok(ps), Ok(qs)) => match resolve_spec(pipelines, disp.chain@) {
                            None => d is UnknownPipeline,
                            Some(mws) => match d {
                                Dispatch::Run { middleware, handler, captures, consumed, path_values, query_values } =>
                                    middleware@ == mws && handler == disp.handler && captures_view(captures@) == t.2
                                    && consumed == t.1 && path_values@ == ps && query_values@ == qs,
                                _ => false,
                            },
                        },
                    }
                },
            }
        },
    }
}

impl Router {
    /// Dispatches a request: matches the path, picks the route for the method, and
    /// resolves that route's pipeline chain into the middleware to run before its
    /// handler.
    pub fn dispatch(&self, method: Method, path: &str, query: Option<&str>, pipelines: &PipelineSet) -> (d: Dispatch)
        requires
            self.wf(),
        ensures
            dispatches_to(self, pipelines@, method, path_segments(path.spec_bytes()),
                match query { Some(q) => q.spec_bytes(), None => seq![] }, d),
    {
        let segs = split_path(path);
        self.dispatch_segments(method, &segs, query, pipelines)
    }

    /// Dispatches a request given as path segments. A router mounted under a delegated
    /// route is dispatched this way on `suffix(segs, consumed)`.
    pub fn dispatch_segments(&self, method: Method, segs: &Vec<Vec<u8>>, query: Option<&str>, pipelines: &PipelineSet) -> (d: Dispatch)
        requires
            self.wf(),
        ensures
            dispatches_to(self, pipelines@, method, bytes_seqs(segs@),
                match query { Some(q) => q.spec_bytes(), None => seq![] }, d),
    {
        let ghost ss = bytes_seqs(segs@);
        let ghost nodes = self.tree@;
        match self.tree.route_segments(method, segs) {
            Outcome::NotFound => Dispatch::NotFound,
            Outcome::MethodNotAllowed { allowed } => Dispatch::MethodNotAllowed { allowed },
            Outcome::Matched { route, captures, consumed } => {
                proof {
                    crate::tree::lemma_match_in_range(nodes, 0, ss, 0);
                    let t = match_from(nodes, 0, ss, 0).unwrap();
                    let whole = t.1 == ss.len();
                    lemma_select_member(nodes[t.0].routes@, method, whole);
                    let k = choose|k: int| 0 <= k < nodes[t.0].routes@.len() && nodes[t.0].routes@[k] == route;
                    assert(nodes[t.0].routes@[k].dispatcher < self.dispatchers@.len());
                }
                let disp = &self.dispatchers[route.dispatcher];
                let path_values = match extract_path_fields(&captures, &disp.path_fields) {
                    Ok(v) => v,
                    Err(error) => {
                        let global = self.finalizer.finalize(BAD_REQUEST);
                        return Dispatch::BadRequest { error, extenders: concat_indices(&disp.extenders, &global) };
                    },
                };
                let query_values = match extract_query_fields(query, &disp.query_fields) {
                    Ok(v) => v,
                    Err(error) => {
                        let global = self.finalizer.finalize(BAD_REQUEST);
                        return Dispatch::BadRequest { error, extenders: concat_indices(&disp.extenders, &global) };
                    },
                };
                match pipelines.resolve(&disp.chain) {
                    None => Dispatch::UnknownPipeline,
                    Some(middleware) => Dispatch::Run {
                        middleware,
                        handler: disp.handler,
                        captures,
                        consumed,
                        path_values,
                        query_values,
                    },
                }
            },
        }
    }
}

} // verus!
