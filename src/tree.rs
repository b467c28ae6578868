use vstd::prelude::*;
use vstd::string::StringSliceAdditionalSpecFns;
use crate::path::{bytes_seqs, path_segments, split_path};
use crate::route::{
    allowed, allowed_methods, any_delegated, has_delegated, select, select_route, Method, Route,
};

verus! {

/// The values captured under one name: one segment for `:name`, the rest of the path for
/// `*name`.
pub struct Capture {
    pub name: Vec<u8>,
    pub values: Vec<Vec<u8>>,
}

impl View for Capture {
    type V = (Seq<u8>, Seq<Seq<u8>>);

    open spec fn view(&self) -> (Seq<u8>, Seq<Seq<u8>>) {
        (self.name@, bytes_seqs(self.values@))
    }
}

/// What a list of captures holds.
pub open spec fn captures_view(c: Seq<Capture>) -> Seq<(Seq<u8>, Seq<Seq<u8>>)> {
    c.map_values(|x: Capture| x@)
}

/// One level of the tree: literal children keyed by their text, at most one dynamic
/// child and one glob child (each with its capture name), and the routes ending here.
pub struct Node {
    pub literals: Vec<(Vec<u8>, usize)>,
    pub dynamic: Option<(Vec<u8>, usize)>,
    pub glob: Option<(Vec<u8>, usize)>,
    pub routes: Vec<Route>,
}

/// The segment tree. Nodes live in an arena and refer to children by index; the root is
/// node 0.
pub struct Tree {
    nodes: Vec<Node>,
}

impl View for Tree {
    type V = Seq<Node>;

    closed spec fn view(&self) -> Seq<Node> {
        self.nodes@
    }
}

/// Every child index of `node` names a node of the arena, and literal keys are unique.
pub open spec fn node_wf(nodes: Seq<Node>, node: Node) -> bool {
    &&& forall|k: int| 0 <= k < node.literals@.len() ==> node.literals@[k].1 < nodes.len()
    &&& forall|j: int, k: int|
        0 <= j < node.literals@.len() && 0 <= k < node.literals@.len() && j != k
            ==> node.literals@[j].0@ != node.literals@[k].0@
    &&& (node.dynamic matches Some(d) ==> d.1 < nodes.len())
    &&& (node.glob matches Some(g) ==> g.1 < nodes.len())
}

/// The arena has a root, room for one more node, and no dangling child index.
pub open spec fn tree_wf(nodes: Seq<Node>) -> bool {
    &&& 0 < nodes.len() < usize::MAX
    &&& forall|n: int| 0 <= n < nodes.len() ==> node_wf(nodes, #[trigger] nodes[n])
}

/// The position, from `k` on, of the literal child keyed `seg`.
pub open spec fn find_literal(lits: Seq<(Vec<u8>, usize)>, seg: Seq<u8>, k: int) -> Option<int>
    decreases lits.len() - k,
{
    if k < 0 || k >= lits.len() {
        None
    } else if lits[k].0@ == seg {
        Some(k)
    } else {
        find_literal(lits, seg, k + 1)
    }
}

/// A match found: the node reached, how many segments it consumed, and the captures.
pub type Found = (int, int, Seq<(Seq<u8>, Seq<Seq<u8>>)>);

/// The glob child of node `n`, when it has routes, takes segments `i..` of the path.
pub open spec fn glob_match(nodes: Seq<Node>, n: int, segs: Seq<Seq<u8>>, i: int) -> Option<Found> {
    match nodes[n].glob {
        Some(g) => if g.1 < nodes.len() && nodes[g.1 as int].routes@.len() > 0 {
            Some((g.1 as int, segs.len() as int, seq![(g.0@, segs.subrange(i, segs.len() as int))]))
        } else {
            None
        },
        None => None,
    }
}

/// Depth-first match of segments `i..` from node `n`. A node with routes matches the
/// end of the path. A glob is the last segment of its pattern, so its node has no
/// children and only the whole remaining suffix, possibly empty, can end there: trying
/// shorter consumptions could never match. Otherwise the literal child is tried first, then the dynamic child,
/// then the glob child; a branch that finds nothing gives way to the next. A node with a
/// delegated route, when no child matches, takes the rest of the path as its suffix.
pub open spec fn match_from(nodes: Seq<Node>, n: int, segs: Seq<Seq<u8>>, i: int) -> Option<Found>
    decreases segs.len() - i,
{
    if n < 0 || n >= nodes.len() || i < 0 || i > segs.len() {
        None
    } else if i == segs.len() {
        if nodes[n].routes@.len() > 0 {
            Some((n, i, seq![]))
        } else {
            glob_match(nodes, n, segs, i)
        }
    } else {
        let node = nodes[n];
        let by_literal = match find_literal(node.literals@, segs[i], 0) {
            Some(k) => match_from(nodes, node.literals@[k].1 as int, segs, i + 1),
            None => None,
        };
        let by_dynamic = match node.dynamic {
            Some(d) => match match_from(nodes, d.1 as int, segs, i + 1) {
                Some(t) => Some((t.0, t.1, seq![(d.0@, seq![segs[i]])] + t.2)),
                None => None,
            },
            None => None,
        };
        if by_literal is Some {
            by_literal
        } else if by_dynamic is Some {
            by_dynamic
        } else if glob_match(nodes, n, segs, i) is Some {
            glob_match(nodes, n, segs, i)
        } else if has_delegated(node.routes@) {
            Some((n, i, seq![]))
        } else {
            None
        }
    }
}

/// The result of routing a request.
pub enum Outcome {
    /// A route answers: its captures, and how many segments the tree consumed (fewer than
    /// all when a delegated route took the rest).
    Matched { route: Route, captures: Vec<Capture>, consumed: usize },
    /// No node matches the path.
    NotFound,
    /// A node matches, but no route there answers the method; these do.
    MethodNotAllowed { allowed: Vec<Method> },
}

/// What routing `segs` with method `m` gives on the tree `nodes`.
pub open spec fn routes_to(nodes: Seq<Node>, m: Method, segs: Seq<Seq<u8>>, r: Outcome) -> bool {
    match match_from(nodes, 0, segs, 0) {
        None => r is NotFound,
        Some(t) => {
            let whole = t.1 == segs.len();
            match select(nodes[t.0].routes@, m, whole) {
                Some(rt) => match r {
                    Outcome::Matched { route, captures, consumed } => route == rt
                        && captures_view(captures@) == t.2 && consumed == t.1,
                    _ => false,
                },
                None => match r {
                    Outcome::MethodNotAllowed { allowed: a } => a@ == allowed(nodes[t.0].routes@, whole),
                    _ => false,
                },
            }
        },
    }
}

/// Compares two byte strings.
pub fn bytes_eq(a: &[u8], b: &[u8]) -> (r: bool)
    ensures
        r == (a@ == b@),
{
    if a.len() != b.len() {
        return false;
    }
    let mut i: usize = 0;
    while i < a.len()
        invariant
            i <= a@.len(),
            a@.len() == b@.len(),
            forall|k: int| 0 <= k < i ==> a@[k] == b@[k],
        decreases a@.len() - i,
    {
        if a[i] != b[i] {
            return false;
        }
        i = i + 1;
    }
    assert(a@ =~= b@);
    true
}

/// A fresh copy of a byte string.
pub fn copy_bytes(a: &[u8]) -> (r: Vec<u8>)
    ensures
        r@ == a@,
{
    let mut r: Vec<u8> = Vec::new();
    let mut i: usize = 0;
    while i < a.len()
        invariant
            i <= a@.len(),
            r@ == a@.subrange(0, i as int),
        decreases a@.len() - i,
    {
        r.push(a[i]);
        i = i + 1;
        assert(r@ =~= a@.subrange(0, i as int));
    }
    assert(a@.subrange(0, a@.len() as int) =~= a@);
    r
}

/// Finds the literal child keyed `seg`.
pub fn find_literal_child(lits: &Vec<(Vec<u8>, usize)>, seg: &[u8]) -> (r: Option<usize>)
    ensures
        match r {
            Some(k) => find_literal(lits@, seg@, 0) == Some(k as int) && k < lits@.len(),
            None => find_literal(lits@, seg@, 0) is None,
        },
{
    let mut i: usize = 0;
    while i < lits.len()
        invariant
            i <= lits@.len(),
            find_literal(lits@, seg@, 0) == find_literal(lits@, seg@, i as int),
        decreases lits@.len() - i,
    {
        if bytes_eq(lits[i].0.as_slice(), seg) {
            return Some(i);
        }
        i = i + 1;
    }
    None
}

impl Tree {
    /// A tree with a bare root and no routes.
    pub fn new() -> (t: Tree)
        ensures
            tree_wf(t@),
            tree_shaped(t@),
            t@.len() == 1,
            t@[0].routes@.len() == 0,
            t@[0].literals@.len() == 0,
            t@[0].dynamic is None,
            t@[0].glob is None,
    {
        let mut nodes: Vec<Node> = Vec::new();
        nodes.push(Node { literals: Vec::new(), dynamic: None, glob: None, routes: Vec::new() });
        Tree { nodes }
    }

    /// The capture that a glob child makes of segments `i..`.
    fn glob_capture(name: &Vec<u8>, segs: &Vec<Vec<u8>>, i: usize) -> (c: Capture)
        requires
            i <= segs@.len(),
        ensures
            c@ == (name@, bytes_seqs(segs@).subrange(i as int, segs@.len() as int)),
    {
        let mut values: Vec<Vec<u8>> = Vec::new();
        let mut k: usize = i;
        while k < segs.len()
            invariant
                i <= k <= segs@.len(),
                bytes_seqs(values@) == bytes_seqs(segs@).subrange(i as int, k as int),
            decreases segs@.len() - k,
        {
            let ghost before = values@;
            values.push(copy_bytes(segs[k].as_slice()));
            assert(bytes_seqs(values@) =~= bytes_seqs(before).push(segs@[k as int]@));
            k = k + 1;
            assert(bytes_seqs(values@) =~= bytes_seqs(segs@).subrange(i as int, k as int));
        }
        Capture { name: copy_bytes(name.as_slice()), values }
    }

    /// Tries the glob child of node `n` on segments `i..`.
    fn try_glob(&self, n: usize, segs: &Vec<Vec<u8>>, i: usize) -> (r: Option<(usize, usize, Vec<Capture>)>)
        requires
            tree_wf(self@),
            n < self@.len(),
            i <= segs@.len(),
        ensures
            match r {
                Some(t) => t.0 < self@.len() && glob_match(self@, n as int, bytes_seqs(segs@), i as int)
                    == Some((t.0 as int, t.1 as int, captures_view(t.2@))),
                None => glob_match(self@, n as int, bytes_seqs(segs@), i as int) is None,
            },
    {
        match &self.nodes[n].glob {
            Some(g) => {
                assert(node_wf(self@, self@[n as int]));
                if self.nodes[g.1].routes.len() > 0 {
                    let c = Tree::glob_capture(&g.0, segs, i);
                    let mut caps: Vec<Capture> = Vec::new();
                    caps.push(c);
                    assert(captures_view(caps@) =~= seq![c@]);
                    Some((g.1, segs.len(), caps))
                } else {
                    None
                }
            },
            None => None,
        }
    }

    /// Matches segments `i..` from node `n`, as `match_from` describes.
    fn match_node(&self, n: usize, segs: &Vec<Vec<u8>>, i: usize) -> (r: Option<(usize, usize, Vec<Capture>)>)
        requires
            tree_wf(self@),
            n < self@.len(),
            i <= segs@.len(),
        ensures
            match r {
                Some(t) => t.0 < self@.len() && t.1 <= segs@.len()
                    && match_from(self@, n as int, bytes_seqs(segs@), i as int) == Some((t.0 as int, t.1 as int, captures_view(t.2@))),
                None => match_from(self@, n as int, bytes_seqs(segs@), i as int) is None,
            },
        decreases segs@.len() - i,
    {
        let ghost s = bytes_seqs(segs@);
        let node = &self.nodes[n];
        assert(node_wf(self@, self@[n as int]));
        if i == segs.len() {
            if node.routes.len() > 0 {
                let caps: Vec<Capture> = Vec::new();
                assert(captures_view(caps@) =~= seq![]);
                return Some((n, i, caps));
            }
            return self.try_glob(n, segs, i);
        }
        assert(s[i as int] == segs@[i as int]@);
        match find_literal_child(&node.literals, segs[i].as_slice()) {
            Some(k) => {
                let child = node.literals[k].1;
                let found = self.match_node(child, segs, i + 1);
                if found.is_some() {
                    return found;
                }
            },
            None => {},
        }
        match &node.dynamic {
            Some(d) => {
                match self.match_node(d.1, segs, i + 1) {
                    Some(t) => {
                        let (m, e, mut caps) = t;
                        let ghost before = caps@;
                        let mut values: Vec<Vec<u8>> = Vec::new();
                        values.push(copy_bytes(segs[i].as_slice()));
                        assert(bytes_seqs(values@) =~= seq![s[i as int]]);
                        let c = Capture { name: copy_bytes(d.0.as_slice()), values };
                        caps.insert(0, c);
                        assert(captures_view(caps@) =~= seq![c@] + captures_view(before));
                        return Some((m, e, caps));
                    },
                    None => {},
                }
            },
            None => {},
        }
        let g = self.try_glob(n, segs, i);
        if g.is_some() {
            return g;
        }
        if any_delegated(&node.routes) {
            let caps: Vec<Capture> = Vec::new();
            assert(captures_view(caps@) =~= seq![]);
            return Some((n, i, caps));
        }
        None
    }

    /// Routes a request: matches its path, then picks the first route at the matched
    /// node that answers the method. A node that matches with no such route gives the
    /// methods that do answer there.
    pub fn route(&self, method: Method, path: &str) -> (r: Outcome)
        requires
            tree_wf(self@),
        ensures
            routes_to(self@, method, path_segments(path.spec_bytes()), r),
    {
        let segs = split_path(path);
        self.route_segments(method, &segs)
    }

    /// Routes a request given as path segments; a mounted tree is routed this way on the
    /// segments that a delegated route left over.
    pub fn route_segments(&self, method: Method, segs: &Vec<Vec<u8>>) -> (r: Outcome)
        requires
            tree_wf(self@),
        ensures
            routes_to(self@, method, bytes_seqs(segs@), r),
    {
        match self.match_node(0, segs, 0) {
            None => Outcome::NotFound,
            Some(t) => {
                let (n, e, captures) = t;
                let whole = e == segs.len();
                match select_route(&self.nodes[n].routes, method, whole) {
                    Some(route) => Outcome::Matched { route, captures, consumed: e },
                    None => Outcome::MethodNotAllowed {
                        allowed: allowed_methods(&self.nodes[n].routes, whole),
                    },
                }
            },
        }
    }
}

/// The byte `:` that opens a dynamic segment of a pattern.
pub const COLON: u8 = 0x3a;

/// The byte `*` that opens a glob segment of a pattern.
pub const STAR: u8 = 0x2a;

/// Whether pattern segment `seg` opens with `mark`.
pub open spec fn opens_with(seg: Seq<u8>, mark: u8) -> bool {
    seg.len() > 0 && seg[0] == mark
}

/// The capture name of a `:name` or `*name` segment.
pub open spec fn capture_name(seg: Seq<u8>) -> Seq<u8> {
    seg.subrange(1, seg.len() as int)
}

/// A pattern is well formed when every capture has a name and a glob comes last.
pub open spec fn pattern_ok(pat: Seq<Seq<u8>>) -> bool {
    forall|j: int| 0 <= j < pat.len() ==> {
        &&& (opens_with(pat[j], COLON) || opens_with(pat[j], STAR)) ==> pat[j].len() > 1
        &&& opens_with(pat[j], STAR) ==> j == pat.len() - 1
    }
}

/// The child of node `n` that pattern segment `seg` leads to, if there is one: the
/// literal child with that text, or the dynamic or glob child under that name.
pub open spec fn step(nodes: Seq<Node>, n: int, seg: Seq<u8>) -> Option<int> {
    if opens_with(seg, COLON) {
        match nodes[n].dynamic {
            Some(d) => if d.0@ == capture_name(seg) { Some(d.1 as int) } else { None },
            None => None,
        }
    } else if opens_with(seg, STAR) {
        match nodes[n].glob {
            Some(g) => if g.0@ == capture_name(seg) { Some(g.1 as int) } else { None },
            None => None,
        }
    } else {
        match find_literal(nodes[n].literals@, seg, 0) {
            Some(k) => Some(nodes[n].literals@[k].1 as int),
            None => None,
        }
    }
}

/// The node that the pattern segments `pat` lead to from node `n`.
pub open spec fn path_to(nodes: Seq<Node>, n: int, pat: Seq<Seq<u8>>) -> Option<int>
    decreases pat.len(),
{
    if pat.len() == 0 {
        Some(n)
    } else if 0 <= n < nodes.len() {
        match step(nodes, n, pat[0]) {
            Some(c) => path_to(nodes, c, pat.drop_first()),
            None => None,
        }
    } else {
        None
    }
}

/// `new` keeps every edge of `old`: literal lists only grow at their end, and a dynamic
/// or glob child, once set, stays.
pub open spec fn keeps_edges(old: Seq<Node>, new: Seq<Node>) -> bool {
    &&& old.len() <= new.len()
    &&& forall|m: int| 0 <= m < old.len() ==> {
        &&& old[m].literals@.len() <= new[m].literals@.len()
        &&& forall|k: int| 0 <= k < old[m].literals@.len()
            ==> #[trigger] new[m].literals@[k] == old[m].literals@[k]
        &&& (old[m].dynamic is Some ==> new[m].dynamic == old[m].dynamic)
        &&& (old[m].glob is Some ==> new[m].glob == old[m].glob)
    }
}

proof fn lemma_find_literal_range(a: Seq<(Vec<u8>, usize)>, seg: Seq<u8>, j: int)
    requires
        find_literal(a, seg, j) is Some,
    ensures
        j <= find_literal(a, seg, j).unwrap() < a.len(),
        a[find_literal(a, seg, j).unwrap()].0@ == seg,
    decreases a.len() - j,
{
    if j >= 0 && j < a.len() && a[j].0@ != seg {
        lemma_find_literal_range(a, seg, j + 1);
    }
}

proof fn lemma_step_in_range(nodes: Seq<Node>, n: int, seg: Seq<u8>)
    requires
        tree_wf(nodes),
        0 <= n < nodes.len(),
        step(nodes, n, seg) is Some,
    ensures
        0 <= step(nodes, n, seg).unwrap() < nodes.len(),
{
    assert(node_wf(nodes, nodes[n]));
    if !opens_with(seg, COLON) && !opens_with(seg, STAR) {
        lemma_find_literal_range(nodes[n].literals@, seg, 0);
    }
}

proof fn lemma_find_literal_appended(a: Seq<(Vec<u8>, usize)>, x: (Vec<u8>, usize), seg: Seq<u8>, j: int)
    requires
        0 <= j <= a.len(),
        x.0@ == seg,
        forall|k: int| 0 <= k < a.len() ==> a[k].0@ != seg,
    ensures
        find_literal(a.push(x), seg, j) == Some(a.len() as int),
    decreases a.len() - j,
{
    if j < a.len() {
        assert(a.push(x)[j] == a[j]);
        lemma_find_literal_appended(a, x, seg, j + 1);
    } else {
        assert(a.push(x)[j] == x);
    }
}

proof fn lemma_find_literal_none(a: Seq<(Vec<u8>, usize)>, seg: Seq<u8>, j: int)
    requires
        0 <= j,
        find_literal(a, seg, j) is None,
    ensures
        forall|k: int| j <= k < a.len() ==> a[k].0@ != seg,
    decreases a.len() - j,
{
    if j < a.len() {
        lemma_find_literal_none(a, seg, j + 1);
    }
}

proof fn lemma_find_literal_prefix(a: Seq<(Vec<u8>, usize)>, b: Seq<(Vec<u8>, usize)>, seg: Seq<u8>, k: int)
    requires
        a.len() <= b.len(),
        forall|i: int| 0 <= i < a.len() ==> #[trigger] b[i] == a[i],
        find_literal(a, seg, k) is Some,
    ensures
        find_literal(b, seg, k) == find_literal(a, seg, k),
    decreases a.len() - k,
{
    if k >= 0 && k < a.len() && a[k].0@ != seg {
        lemma_find_literal_prefix(a, b, seg, k + 1);
    }
}

pub proof fn lemma_keeps_path(old: Seq<Node>, new: Seq<Node>, n: int, pat: Seq<Seq<u8>>)
    requires
        keeps_edges(old, new),
        path_to(old, n, pat) is Some,
    ensures
        path_to(new, n, pat) == path_to(old, n, pat),
    decreases pat.len(),
{
    if pat.len() > 0 {
        let seg = pat[0];
        if !opens_with(seg, COLON) && !opens_with(seg, STAR) {
            lemma_find_literal_prefix(old[n].literals@, new[n].literals@, seg, 0);
            lemma_find_literal_range(old[n].literals@, seg, 0);
            let k = find_literal(old[n].literals@, seg, 0).unwrap();
            assert(new[n].literals@[k] == old[n].literals@[k]);
        }
        assert(step(new, n, seg) == step(old, n, seg));
        lemma_keeps_path(old, new, step(old, n, seg).unwrap(), pat.drop_first());
    }
}

proof fn lemma_keeps_trans(a: Seq<Node>, b: Seq<Node>, c: Seq<Node>)
    requires
        keeps_edges(a, b),
        keeps_edges(b, c),
    ensures
        keeps_edges(a, c),
{
    assert forall|m: int, k: int| 0 <= m < a.len() && 0 <= k < a[m].literals@.len()
        implies #[trigger] c[m].literals@[k] == a[m].literals@[k] by {
        assert(b[m].literals@[k] == a[m].literals@[k]);
    }
}

proof fn lemma_path_push(nodes: Seq<Node>, n: int, pat: Seq<Seq<u8>>, seg: Seq<u8>)
    requires
        tree_wf(nodes),
        0 <= n < nodes.len(),
        path_to(nodes, n, pat) is Some,
        0 <= path_to(nodes, n, pat).unwrap() < nodes.len(),
    ensures
        path_to(nodes, n, pat.push(seg)) == step(nodes, path_to(nodes, n, pat).unwrap(), seg),
    decreases pat.len(),
{
    if pat.len() > 0 {
        lemma_step_in_range(nodes, n, pat[0]);
        assert(pat.push(seg)[0] == pat[0]);
        assert(pat.push(seg).drop_first() =~= pat.drop_first().push(seg));
        let c = step(nodes, n, pat[0]).unwrap();
        lemma_path_push(nodes, c, pat.drop_first(), seg);
        assert(path_to(nodes, n, pat) == path_to(nodes, c, pat.drop_first()));
        assert(path_to(nodes, n, pat.push(seg)) == path_to(nodes, c, pat.push(seg).drop_first()));
    } else {
        let q = pat.push(seg);
        assert(q[0] == seg);
        assert(q.drop_first() =~= Seq::<Seq<u8>>::empty());
        assert(path_to(nodes, n, pat) == Some(n));
        match step(nodes, n, seg) {
            Some(c) => {
                assert(path_to(nodes, c, q.drop_first()) == Some(c));
            },
            None => {},
        }
    }
}

/// Walking pattern `pat` from node `n` meets a dynamic or glob child registered under
/// another name before it runs out of existing children.
pub open spec fn clashes(nodes: Seq<Node>, n: int, pat: Seq<Seq<u8>>) -> bool
    decreases pat.len(),
{
    if pat.len() == 0 || n < 0 || n >= nodes.len() {
        false
    } else {
        match step(nodes, n, pat[0]) {
            Some(c) => clashes(nodes, c, pat.drop_first()),
            None => (opens_with(pat[0], COLON) && nodes[n].dynamic is Some)
                || (opens_with(pat[0], STAR) && nodes[n].glob is Some),
        }
    }
}

/// The literal children that node `m` had in `old` (none for a node added since).
pub open spec fn lits_before(old: Seq<Node>, m: int) -> Seq<(Vec<u8>, usize)> {
    if m < old.len() { old[m].literals@ } else { seq![] }
}

/// The dynamic child that node `m` had in `old`.
pub open spec fn dyn_before(old: Seq<Node>, m: int) -> Option<(Vec<u8>, usize)> {
    if m < old.len() { old[m].dynamic } else { None }
}

/// The glob child that node `m` had in `old`.
pub open spec fn glob_before(old: Seq<Node>, m: int) -> Option<(Vec<u8>, usize)> {
    if m < old.len() { old[m].glob } else { None }
}

/// Node `m` is where the first `j` segments of `p` lead in `new`.
pub open spec fn on_path(new: Seq<Node>, p: Seq<Seq<u8>>, m: int, j: int) -> bool {
    0 <= j < p.len() && path_to(new, 0, p.subrange(0, j)) == Some(m)
}

/// Node `m` got, at step `j` of `p`, one literal child for that segment, leading where
/// the first `j + 1` segments lead.
pub open spec fn lit_added_at(old: Seq<Node>, new: Seq<Node>, p: Seq<Seq<u8>>, m: int, j: int) -> bool {
    &&& on_path(new, p, m, j)
    &&& !opens_with(p[j], COLON) && !opens_with(p[j], STAR)
    &&& new[m].literals@.len() > 0
    &&& new[m].literals@ == lits_before(old, m).push(new[m].literals@.last())
    &&& new[m].literals@.last().0@ == p[j]
    &&& path_to(new, 0, p.subrange(0, j + 1)) == Some(new[m].literals@.last().1 as int)
}

/// Node `m` got, at step `j` of `p`, the dynamic child for that `:name` segment.
pub open spec fn dyn_added_at(old: Seq<Node>, new: Seq<Node>, p: Seq<Seq<u8>>, m: int, j: int) -> bool {
    &&& on_path(new, p, m, j)
    &&& opens_with(p[j], COLON)
    &&& dyn_before(old, m) is None
    &&& new[m].dynamic matches Some(d) && d.0@ == capture_name(p[j])
        && path_to(new, 0, p.subrange(0, j + 1)) == Some(d.1 as int)
}

/// Node `m` got, at step `j` of `p`, the glob child for that `*name` segment.
pub open spec fn glob_added_at(old: Seq<Node>, new: Seq<Node>, p: Seq<Seq<u8>>, m: int, j: int) -> bool {
    &&& on_path(new, p, m, j)
    &&& opens_with(p[j], STAR)
    &&& glob_before(old, m) is None
    &&& new[m].glob matches Some(g) && g.0@ == capture_name(p[j])
        && path_to(new, 0, p.subrange(0, j + 1)) == Some(g.1 as int)
}

/// Every child edge of `new` that `old` lacks was added along pattern `p`, at one of its
/// first `upto` steps, for the segment of that step: nothing else changed.
pub open spec fn edges_from_pattern(old: Seq<Node>, new: Seq<Node>, p: Seq<Seq<u8>>, upto: int) -> bool {
    forall|m: int| 0 <= m < new.len() ==> {
        &&& (new[m].literals@ == lits_before(old, m)
            || exists|j: int| 0 <= j < upto && #[trigger] lit_added_at(old, new, p, m, j))
        &&& (new[m].dynamic == dyn_before(old, m)
            || exists|j: int| 0 <= j < upto && #[trigger] dyn_added_at(old, new, p, m, j))
        &&& (new[m].glob == glob_before(old, m)
            || exists|j: int| 0 <= j < upto && #[trigger] glob_added_at(old, new, p, m, j))
    }
}

/// Carries `edges_from_pattern` over one more step: each node's edges are as before, or
/// were added at step `j`.
proof fn lemma_frame_extend(start: Seq<Node>, before: Seq<Node>, after: Seq<Node>, p: Seq<Seq<u8>>, j: int)
    requires
        0 <= j < p.len(),
        edges_from_pattern(start, before, p, j),
        keeps_edges(before, after),
        start.len() <= before.len(),
        forall|m: int| 0 <= m < after.len() ==> {
            &&& (after[m].literals@ == lits_before(before, m) || lit_added_at(start, after, p, m, j))
            &&& (after[m].dynamic == dyn_before(before, m) || dyn_added_at(start, after, p, m, j))
            &&& (after[m].glob == glob_before(before, m) || glob_added_at(start, after, p, m, j))
        },
    ensures
        edges_from_pattern(start, after, p, j + 1),
{
    assert forall|m: int| 0 <= m < after.len() implies {
        &&& (after[m].literals@ == lits_before(start, m)
            || exists|i: int| 0 <= i < j + 1 && #[trigger] lit_added_at(start, after, p, m, i))
        &&& (after[m].dynamic == dyn_before(start, m)
            || exists|i: int| 0 <= i < j + 1 && #[trigger] dyn_added_at(start, after, p, m, i))
        &&& (after[m].glob == glob_before(start, m)
            || exists|i: int| 0 <= i < j + 1 && #[trigger] glob_added_at(start, after, p, m, i))
    } by {
        if m < before.len() {
            if after[m].literals@ == lits_before(before, m) && before[m].literals@ != lits_before(start, m) {
                let i = choose|i: int| 0 <= i < j && #[trigger] lit_added_at(start, before, p, m, i);
                lemma_keeps_path(before, after, 0, p.subrange(0, i));
                lemma_keeps_path(before, after, 0, p.subrange(0, i + 1));
                assert(lit_added_at(start, after, p, m, i));
            }
            if after[m].dynamic == dyn_before(before, m) && before[m].dynamic != dyn_before(start, m) {
                let i = choose|i: int| 0 <= i < j && #[trigger] dyn_added_at(start, before, p, m, i);
                lemma_keeps_path(before, after, 0, p.subrange(0, i));
                lemma_keeps_path(before, after, 0, p.subrange(0, i + 1));
                assert(dyn_added_at(start, after, p, m, i));
            }
            if after[m].glob == glob_before(before, m) && before[m].glob != glob_before(start, m) {
                let i = choose|i: int| 0 <= i < j && #[trigger] glob_added_at(start, before, p, m, i);
                lemma_keeps_path(before, after, 0, p.subrange(0, i));
                lemma_keeps_path(before, after, 0, p.subrange(0, i + 1));
                assert(glob_added_at(start, after, p, m, i));
            }
        }
    }
}

/// `edges_from_pattern` survives a change that leaves every edge as it was.
proof fn lemma_frame_same(start: Seq<Node>, before: Seq<Node>, after: Seq<Node>, p: Seq<Seq<u8>>, j: int)
    requires
        0 <= j <= p.len(),
        edges_from_pattern(start, before, p, j),
        after.len() == before.len(),
        keeps_edges(before, after),
        start.len() <= before.len(),
        forall|m: int| 0 <= m < after.len() ==> {
            &&& after[m].literals@ == before[m].literals@
            &&& after[m].dynamic == before[m].dynamic
            &&& after[m].glob == before[m].glob
        },
    ensures
        edges_from_pattern(start, after, p, j),
{
    assert forall|m: int| 0 <= m < after.len() implies {
        &&& (after[m].literals@ == lits_before(start, m)
            || exists|i: int| 0 <= i < j && #[trigger] lit_added_at(start, after, p, m, i))
        &&& (after[m].dynamic == dyn_before(start, m)
            || exists|i: int| 0 <= i < j && #[trigger] dyn_added_at(start, after, p, m, i))
        &&& (after[m].glob == glob_before(start, m)
            || exists|i: int| 0 <= i < j && #[trigger] glob_added_at(start, after, p, m, i))
    } by {
        if m < before.len() && m < after.len() {
            if after[m].literals@ == lits_before(before, m) && before[m].literals@ != lits_before(start, m) {
                let i = choose|i: int| 0 <= i < j && #[trigger] lit_added_at(start, before, p, m, i);
                lemma_keeps_path(before, after, 0, p.subrange(0, i));
                lemma_keeps_path(before, after, 0, p.subrange(0, i + 1));
                assert(lit_added_at(start, after, p, m, i));
            }
            if after[m].dynamic == dyn_before(before, m) && before[m].dynamic != dyn_before(start, m) {
                let i = choose|i: int| 0 <= i < j && #[trigger] dyn_added_at(start, before, p, m, i);
                lemma_keeps_path(before, after, 0, p.subrange(0, i));
                lemma_keeps_path(before, after, 0, p.subrange(0, i + 1));
                assert(dyn_added_at(start, after, p, m, i));
            }
            if after[m].glob == glob_before(before, m) && before[m].glob != glob_before(start, m) {
                let i = choose|i: int| 0 <= i < j && #[trigger] glob_added_at(start, before, p, m, i);
                lemma_keeps_path(before, after, 0, p.subrange(0, i));
                lemma_keeps_path(before, after, 0, p.subrange(0, i + 1));
                assert(glob_added_at(start, after, p, m, i));
            }
        }
    }
}

/// Why a pattern could not be registered.
#[derive(Clone, Copy, PartialEq, Eq, Structural, Debug)]
pub enum BuildError {
    /// A `:` or `*` segment without a name, or a glob that is not the last segment.
    InvalidPattern,
    /// The node already has a dynamic or glob child under another name.
    Conflict,
    /// The arena cannot hold the nodes the pattern needs.
    TooLarge,
}

/// Checks that every capture has a name and that a glob comes last.
pub fn check_pattern(pat: &Vec<Vec<u8>>) -> (r: bool)
    ensures
        r == pattern_ok(bytes_seqs(pat@)),
{
    let ghost p = bytes_seqs(pat@);
    let mut j: usize = 0;
    while j < pat.len()
        invariant
            j <= pat@.len(),
            p == bytes_seqs(pat@),
            forall|i: int| 0 <= i < j ==> {
                &&& (opens_with(p[i], COLON) || opens_with(p[i], STAR)) ==> p[i].len() > 1
                &&& opens_with(p[i], STAR) ==> i == p.len() - 1
            },
        decreases pat@.len() - j,
    {
        let seg = &pat[j];
        assert(p[j as int] == seg@);
        if seg.len() > 0 && (seg[0] == COLON || seg[0] == STAR) {
            if seg.len() == 1 {
                return false;
            }
            if seg[0] == STAR && j + 1 < pat.len() {
                return false;
            }
        }
        j = j + 1;
    }
    true
}

impl Tree {
    /// The node that the pattern segments lead to from the root, if every step exists.
    pub open spec fn reaches(&self, pat: Seq<Seq<u8>>) -> Option<int> {
        path_to(self@, 0, pat)
    }

    /// Adds an empty node and gives its index.
    fn push_node(&mut self) -> (i: usize)
        requires
            tree_wf(old(self)@),
            old(self)@.len() + 1 < usize::MAX,
        ensures
            tree_wf(final(self)@),
            i == old(self)@.len(),
            final(self)@.len() == old(self)@.len() + 1,
            keeps_edges(old(self)@, final(self)@),
            forall|m: int| 0 <= m < old(self)@.len() ==> #[trigger] final(self)@[m] == old(self)@[m],
            final(self)@[i as int].routes@.len() == 0,
            final(self)@[i as int].literals@.len() == 0,
            final(self)@[i as int].dynamic is None,
            final(self)@[i as int].glob is None,
    {
        let i = self.nodes.len();
        self.nodes.push(Node { literals: Vec::new(), dynamic: None, glob: None, routes: Vec::new() });
        proof {
            assert forall|n: int| 0 <= n < self@.len() implies node_wf(self@, #[trigger] self@[n]) by {
                if n < i {
                    assert(node_wf(old(self)@, old(self)@[n]));
                }
            }
        }
        i
    }

    /// Registers `route` under `pattern`: literal segments, `:name` for one captured
    /// segment, and `*name` for the rest of the path. Existing children are reused and
    /// missing ones created; nothing changes when an error is returned.
    pub fn add_route(&mut self, pattern: &str, route: Route) -> (r: Result<(), BuildError>)
        requires
            tree_wf(old(self)@),
        ensures
            tree_wf(final(self)@),
            tree_shaped(old(self)@) ==> tree_shaped(final(self)@),
            !pattern_ok(path_segments(pattern.spec_bytes())) <==> r == Err::<(), BuildError>(BuildError::InvalidPattern),
            r == Err::<(), BuildError>(BuildError::Conflict) ==> clashes(old(self)@, 0, path_segments(pattern.spec_bytes())),
            r == Err::<(), BuildError>(BuildError::TooLarge) ==> old(self)@.len() + path_segments(pattern.spec_bytes()).len() + 2 >= usize::MAX,
            pattern_ok(path_segments(pattern.spec_bytes())) && !clashes(old(self)@, 0, path_segments(pattern.spec_bytes()))
                && old(self)@.len() + path_segments(pattern.spec_bytes()).len() + 2 < usize::MAX ==> r is Ok,
            r is Err ==> final(self)@ == old(self)@,
            r is Ok ==> keeps_edges(old(self)@, final(self)@),
            r is Ok ==> edges_from_pattern(old(self)@, final(self)@, path_segments(pattern.spec_bytes()),
                path_segments(pattern.spec_bytes()).len() as int),
            r is Ok ==> exists|n: int| #[trigger] final(self).reaches(path_segments(pattern.spec_bytes())) == Some(n)
                && 0 <= n < final(self)@.len()
                && final(self)@[n].routes@ == (if n < old(self)@.len() {
                    old(self)@[n].routes@
                } else {
                    Seq::<Route>::empty()
                }).push(route)
                && forall|m: int| 0 <= m < final(self)@.len() && m != n
                    ==> #[trigger] final(self)@[m].routes@ == (if m < old(self)@.len() {
                        old(self)@[m].routes@
                    } else {
                        Seq::<Route>::empty()
                    }),
    {
        let pat = split_path(pattern);
        self.add_segments(&pat, route)
    }

    /// Registers `route` under the pattern segments `pat`: literal segments, `:name` for one captured
    /// segment, and `*name` for the rest of the path. Existing children are reused and
    /// missing ones created; nothing changes when an error is returned.
    pub fn add_segments(&mut self, pat: &Vec<Vec<u8>>, route: Route) -> (r: Result<(), BuildError>)
        requires
            tree_wf(old(self)@),
        ensures
            tree_wf(final(self)@),
            tree_shaped(old(self)@) ==> tree_shaped(final(self)@),
            !pattern_ok(bytes_seqs(pat@)) <==> r == Err::<(), BuildError>(BuildError::InvalidPattern),
            r == Err::<(), BuildError>(BuildError::Conflict) ==> clashes(old(self)@, 0, bytes_seqs(pat@)),
            r == Err::<(), BuildError>(BuildError::TooLarge) ==> old(self)@.len() + bytes_seqs(pat@).len() + 2 >= usize::MAX,
            pattern_ok(bytes_seqs(pat@)) && !clashes(old(self)@, 0, bytes_seqs(pat@))
                && old(self)@.len() + bytes_seqs(pat@).len() + 2 < usize::MAX ==> r is Ok,
            r is Err ==> final(self)@ == old(self)@,
            final(self)@.len() <= old(self)@.len() + bytes_seqs(pat@).len(),
            r is Ok ==> keeps_edges(old(self)@, final(self)@),
            r is Ok ==> edges_from_pattern(old(self)@, final(self)@, bytes_seqs(pat@), bytes_seqs(pat@).len() as int),
            r is Ok ==> exists|n: int| #[trigger] final(self).reaches(bytes_seqs(pat@)) == Some(n)
                && 0 <= n < final(self)@.len()
                && final(self)@[n].routes@ == (if n < old(self)@.len() {
                    old(self)@[n].routes@
                } else {
                    Seq::<Route>::empty()
                }).push(route)
                && forall|m: int| 0 <= m < final(self)@.len() && m != n
                    ==> #[trigger] final(self)@[m].routes@ == (if m < old(self)@.len() {
                        old(self)@[m].routes@
                    } else {
                        Seq::<Route>::empty()
                    }),
    {

        let ghost p = bytes_seqs(pat@);
        if !check_pattern(&pat) {
            return Err(BuildError::InvalidPattern);
        }
        if self.nodes.len() >= usize::MAX - 2 || pat.len() >= usize::MAX - 2 - self.nodes.len() {
            return Err(BuildError::TooLarge);
        }
        let ghost start = self@;
        let mut cur: usize = 0;
        let mut j: usize = 0;
        assert(p.subrange(0, 0) =~= Seq::<Seq<u8>>::empty());
        assert(p.subrange(0, p.len() as int) =~= p);
        while j < pat.len()
            invariant
                tree_wf(self@),
                p == bytes_seqs(pat@),
                pattern_ok(p),
                j <= pat@.len(),
                cur < self@.len(),
                self@.len() + pat@.len() - j + 2 < usize::MAX,
                keeps_edges(start, self@),
                start == old(self)@,
                path_to(self@, 0, p.subrange(0, j as int)) == Some(cur as int),
                forall|m: int| 0 <= m < self@.len() ==> #[trigger] self@[m].routes@ == (if m < start.len() {
                    start[m].routes@
                } else {
                    Seq::<Route>::empty()
                }),
                cur < start.len() ==> self@ == start,
                self@.len() <= start.len() + j,
                start.len() <= self@.len(),
                edges_from_pattern(start, self@, p, j as int),
                tree_shaped(start) ==> tree_shaped(self@),
                cur < start.len() ==> clashes(start, 0, p) == clashes(start, cur as int, p.subrange(j as int, p.len() as int)),
                cur >= start.len() ==> !clashes(start, 0, p),
                cur >= start.len() ==> cur == self@.len() - 1 && self@[cur as int].literals@.len() == 0
                    && self@[cur as int].dynamic is None && self@[cur as int].glob is None,
            decreases pat@.len() - j,
        {
            let seg = &pat[j];
            assert(p[j as int] == seg@);
            let ghost before = self@;
            let ghost prev = cur as int;
            let ghost tail = p.subrange(j as int, p.len() as int);
            assert(tail[0] == seg@);
            assert(tail.drop_first() =~= p.subrange(j + 1, p.len() as int));
            assert(node_wf(self@, self@[cur as int]));
            assert(p.subrange(0, j as int).push(seg@) =~= p.subrange(0, j + 1));
            if seg.len() > 0 && seg[0] == COLON {
                let name = slice_from(seg.as_slice(), 1);
                match &self.nodes[cur].dynamic {
                    Some(d) => {
                        if !bytes_eq(d.0.as_slice(), name.as_slice()) {
                            return Err(BuildError::Conflict);
                        }
                        assert(step(self@, prev, seg@) == Some(d.1 as int));
                        cur = d.1;
                    },
                    None => {
                        let child = self.push_node();
                        let ghost mid = self@;
                        self.nodes[cur].dynamic = Some((name, child));
                        proof {
                            assert(step(self@, prev, seg@) == Some(child as int));
                            assert forall|n: int| 0 <= n < self@.len() implies node_wf(self@, #[trigger] self@[n]) by {
                                assert(node_wf(mid, mid[n]));
                            }
                            assert(keeps_edges(mid, self@));
                            lemma_keeps_trans(before, mid, self@);
                            if tree_shaped(start) {
                                assert(one_edge_added(before, self@, prev, seg@, child as int));
                                lemma_shape_after_edge(before, self@, prev, seg@, child as int);
                            }
                        }
                        cur = child;
                    },
                }
            } else if seg.len() > 0 && seg[0] == STAR {
                let name = slice_from(seg.as_slice(), 1);
                match &self.nodes[cur].glob {
                    Some(g) => {
                        if !bytes_eq(g.0.as_slice(), name.as_slice()) {
                            return Err(BuildError::Conflict);
                        }
                        assert(step(self@, prev, seg@) == Some(g.1 as int));
                        cur = g.1;
                    },
                    None => {
                        let child = self.push_node();
                        let ghost mid = self@;
                        self.nodes[cur].glob = Some((name, child));
                        proof {
                            assert(step(self@, prev, seg@) == Some(child as int));
                            assert forall|n: int| 0 <= n < self@.len() implies node_wf(self@, #[trigger] self@[n]) by {
                                assert(node_wf(mid, mid[n]));
                            }
                            assert(keeps_edges(mid, self@));
                            lemma_keeps_trans(before, mid, self@);
                            if tree_shaped(start) {
                                assert(one_edge_added(before, self@, prev, seg@, child as int));
                                lemma_shape_after_edge(before, self@, prev, seg@, child as int);
                            }
                        }
                        cur = child;
                    },
                }
            } else {
                let seg_bytes = seg.as_slice();
                let found = find_literal_child(&self.nodes[cur].literals, seg_bytes);
                match found {
                    Some(k) => {
                        assert(step(self@, prev, seg@) == Some(self@[prev].literals@[k as int].1 as int));
                        cur = self.nodes[cur].literals[k].1;
                    },
                    None => {
                        proof { lemma_find_literal_none(before[prev].literals@, seg@, 0); }
                        let child = self.push_node();
                        let ghost mid = self@;
                        let key = copy_bytes(seg.as_slice());
                        assert(mid[cur as int] == before[cur as int]);
                        self.nodes[cur].literals.push((key, child));
                        proof {
                            assert(self@[cur as int].literals@ == mid[cur as int].literals@.push((key, child)));
                            lemma_find_literal_appended(mid[cur as int].literals@, (key, child), seg@, 0);
                            assert(step(self@, prev, seg@) == Some(child as int));
                            assert forall|n: int| 0 <= n < self@.len() implies node_wf(self@, #[trigger] self@[n]) by {
                                assert(node_wf(mid, mid[n]));
                            }
                            assert(keeps_edges(mid, self@));
                            lemma_keeps_trans(before, mid, self@);
                            if tree_shaped(start) {
                                assert(one_edge_added(before, self@, prev, seg@, child as int));
                                lemma_shape_after_edge(before, self@, prev, seg@, child as int);
                            }
                        }
                        cur = child;
                    },
                }
            }
            proof {
                lemma_keeps_trans(start, before, self@);
                lemma_keeps_path(before, self@, 0, p.subrange(0, j as int));
                lemma_path_push(self@, 0, p.subrange(0, j as int), seg@);
                assert(on_path(self@, p, prev, j as int));
                assert(path_to(self@, 0, p.subrange(0, j + 1)) == Some(cur as int));
                assert(prev >= start.len() ==> before[prev].literals@.len() == 0 && before[prev].dynamic is None
                    && before[prev].glob is None);
                assert(prev < start.len() ==> before == start);
                assert forall|m: int| 0 <= m < self@.len() implies {
                    &&& (self@[m].literals@ == lits_before(before, m) || lit_added_at(start, self@, p, m, j as int))
                    &&& (self@[m].dynamic == dyn_before(before, m) || dyn_added_at(start, self@, p, m, j as int))
                    &&& (self@[m].glob == glob_before(before, m) || glob_added_at(start, self@, p, m, j as int))
                } by {
                    if m == prev {
                        assert(p[j as int] == seg@);
                    }
                }
                lemma_frame_extend(start, before, self@, p, j as int);
            }
            j = j + 1;
        }
        assert(p.subrange(0, pat@.len() as int) =~= p);
        let ghost before = self@;
        self.nodes[cur].routes.push(route);
        proof {
            assert(keeps_edges(before, self@));
            lemma_frame_same(start, before, self@, p, p.len() as int);
            if tree_shaped(start) {
                lemma_shape_same(before, self@);
            }
            lemma_keeps_trans(start, before, self@);
            lemma_keeps_path(before, self@, 0, p);
            assert forall|n: int| 0 <= n < self@.len() implies node_wf(self@, #[trigger] self@[n]) by {
                assert(node_wf(before, before[n]));
            }
        }
        Ok(())
    }
}

/// The bytes of `s` from position `i` on.
pub fn slice_from(s: &[u8], i: usize) -> (r: Vec<u8>)
    requires
        i <= s@.len(),
    ensures
        r@ == s@.subrange(i as int, s@.len() as int),
{
    let mut r: Vec<u8> = Vec::new();
    let mut k: usize = i;
    while k < s.len()
        invariant
            i <= k <= s@.len(),
            r@ == s@.subrange(i as int, k as int),
        decreases s@.len() - k,
    {
        r.push(s[k]);
        k = k + 1;
        assert(r@ =~= s@.subrange(i as int, k as int));
    }
    r
}

/// Every segment of `pat` is literal text.
pub open spec fn all_literal(pat: Seq<Seq<u8>>) -> bool {
    forall|j: int| 0 <= j < pat.len() ==> !opens_with(#[trigger] pat[j], COLON) && !opens_with(pat[j], STAR)
}

proof fn lemma_literal_from(nodes: Seq<Node>, c: int, segs: Seq<Seq<u8>>, i: int, n: int)
    requires
        tree_wf(nodes),
        0 <= c < nodes.len(),
        0 <= i <= segs.len(),
        0 <= n < nodes.len(),
        all_literal(segs),
        path_to(nodes, c, segs.subrange(i, segs.len() as int)) == Some(n),
        nodes[n].routes@.len() > 0,
    ensures
        match_from(nodes, c, segs, i) == Some((n, segs.len() as int, Seq::<(Seq<u8>, Seq<Seq<u8>>)>::empty())),
    decreases segs.len() - i,
{
    let sub = segs.subrange(i, segs.len() as int);
    if i < segs.len() {
        assert(sub[0] == segs[i]);
        assert(sub.drop_first() =~= segs.subrange(i + 1, segs.len() as int));
        assert(!opens_with(segs[i], COLON) && !opens_with(segs[i], STAR));
        lemma_step_in_range(nodes, c, segs[i]);
        let d = step(nodes, c, segs[i]).unwrap();
        lemma_literal_from(nodes, d, segs, i + 1, n);
    } else {
        assert(sub.len() == 0);
    }
}

/// A literal path finds what was registered under it: when the segments of a literal
/// pattern lead from the root to node `n`, and the first route at `n` that answers `m`
/// is `route`, then routing that path with `m` gives `route`, with no captures and the
/// whole path consumed.
pub proof fn lemma_literal_path_matches(nodes: Seq<Node>, segs: Seq<Seq<u8>>, n: int, m: Method, route: Route, r: Outcome)
    requires
        tree_wf(nodes),
        all_literal(segs),
        path_to(nodes, 0, segs) == Some(n),
        select(nodes[n].routes@, m, true) == Some(route),
        routes_to(nodes, m, segs, r),
    ensures
        match_from(nodes, 0, segs, 0) == Some((n, segs.len() as int, Seq::<(Seq<u8>, Seq<Seq<u8>>)>::empty())),
        match r {
            Outcome::Matched { route: got, captures, consumed } => got == route
                && captures@.len() == 0 && consumed == segs.len(),
            _ => false,
        },
{
    lemma_path_in_range(nodes, 0, segs);
    lemma_select_some(nodes[n].routes@, m, true);
    assert(segs.subrange(0, segs.len() as int) =~= segs);
    lemma_literal_from(nodes, 0, segs, 0, n);
    match r {
        Outcome::Matched { route: got, captures, consumed } => {
            assert(captures_view(captures@).len() == captures@.len());
        },
        _ => {},
    }
}

proof fn lemma_select_some(routes: Seq<Route>, m: Method, whole: bool)
    requires
        select(routes, m, whole) is Some,
    ensures
        routes.len() > 0,
    decreases routes.len(),
{
}

pub proof fn lemma_path_in_range(nodes: Seq<Node>, c: int, pat: Seq<Seq<u8>>)
    requires
        tree_wf(nodes),
        0 <= c < nodes.len(),
        path_to(nodes, c, pat) is Some,
    ensures
        0 <= path_to(nodes, c, pat).unwrap() < nodes.len(),
    decreases pat.len(),
{
    if pat.len() > 0 {
        lemma_step_in_range(nodes, c, pat[0]);
        lemma_path_in_range(nodes, step(nodes, c, pat[0]).unwrap(), pat.drop_first());
    }
}

/// Two outcomes say the same thing: the same route, captures and consumed length; both
/// not found; or the same allowed methods.
pub open spec fn same_outcome(a: Outcome, b: Outcome) -> bool {
    match a {
        Outcome::Matched { route: r1, captures: c1, consumed: n1 } => match b {
            Outcome::Matched { route: r2, captures: c2, consumed: n2 } => r1 == r2
                && captures_view(c1@) == captures_view(c2@) && n1 == n2,
            _ => false,
        },
        Outcome::NotFound => b is NotFound,
        Outcome::MethodNotAllowed { allowed: a1 } => match b {
            Outcome::MethodNotAllowed { allowed: a2 } => a1@ == a2@,
            _ => false,
        },
    }
}

/// Routing is a function of the tree, the method and the path: two routings of the same
/// request on the same tree agree.
pub proof fn lemma_route_deterministic(nodes: Seq<Node>, m: Method, segs: Seq<Seq<u8>>, a: Outcome, b: Outcome)
    requires
        routes_to(nodes, m, segs, a),
        routes_to(nodes, m, segs, b),
    ensures
        same_outcome(a, b),
{
}

/// A match names a node of the arena and consumes no more than the path.
pub proof fn lemma_match_in_range(nodes: Seq<Node>, n: int, segs: Seq<Seq<u8>>, i: int)
    requires
        match_from(nodes, n, segs, i) is Some,
    ensures
        0 <= match_from(nodes, n, segs, i).unwrap().0 < nodes.len(),
        match_from(nodes, n, segs, i).unwrap().1 <= segs.len(),
    decreases segs.len() - i,
{
    if 0 <= n < nodes.len() && 0 <= i < segs.len() {
        let node = nodes[n];
        match find_literal(node.literals@, segs[i], 0) {
            Some(k) => {
                if match_from(nodes, node.literals@[k].1 as int, segs, i + 1) is Some {
                    lemma_match_in_range(nodes, node.literals@[k].1 as int, segs, i + 1);
                }
            },
            None => {},
        }
        match node.dynamic {
            Some(d) => {
                if match_from(nodes, d.1 as int, segs, i + 1) is Some {
                    lemma_match_in_range(nodes, d.1 as int, segs, i + 1);
                }
            },
            None => {},
        }
    }
}

/// A pattern of literal segments never clashes: only captures can.
pub proof fn lemma_literal_never_clashes(nodes: Seq<Node>, n: int, pat: Seq<Seq<u8>>)
    requires
        all_literal(pat),
    ensures
        !clashes(nodes, n, pat),
    decreases pat.len(),
{
    if pat.len() > 0 && 0 <= n < nodes.len() {
        assert(!opens_with(pat[0], COLON) && !opens_with(pat[0], STAR));
        assert forall|j: int| 0 <= j < pat.drop_first().len() implies
            !opens_with(#[trigger] pat.drop_first()[j], COLON) && !opens_with(pat.drop_first()[j], STAR) by {
            assert(pat.drop_first()[j] == pat[j + 1]);
        }
        match step(nodes, n, pat[0]) {
            Some(c) => lemma_literal_never_clashes(nodes, c, pat.drop_first()),
            None => {},
        }
    }
}

/// A tree with no dynamic and no glob child anywhere.
pub open spec fn no_capture_edges(nodes: Seq<Node>) -> bool {
    forall|x: int| 0 <= x < nodes.len() ==> (#[trigger] nodes[x]).dynamic is None && nodes[x].glob is None
}

/// Nothing clashes in a tree without capture children.
pub proof fn lemma_no_capture_edges_never_clash(nodes: Seq<Node>, n: int, pat: Seq<Seq<u8>>)
    requires
        no_capture_edges(nodes),
    ensures
        !clashes(nodes, n, pat),
    decreases pat.len(),
{
    if pat.len() > 0 && 0 <= n < nodes.len() {
        assert(nodes[n].dynamic is None && nodes[n].glob is None);
        match step(nodes, n, pat[0]) {
            Some(c) => lemma_no_capture_edges_never_clash(nodes, c, pat.drop_first()),
            None => {},
        }
    }
}

/// Registering a literal pattern adds no capture child.
pub proof fn lemma_literal_keeps_no_capture_edges(old: Seq<Node>, new: Seq<Node>, p: Seq<Seq<u8>>)
    requires
        no_capture_edges(old),
        all_literal(p),
        edges_from_pattern(old, new, p, p.len() as int),
    ensures
        no_capture_edges(new),
{
    assert forall|x: int| 0 <= x < new.len() implies (#[trigger] new[x]).dynamic is None && new[x].glob is None by {
        if new[x].dynamic != dyn_before(old, x) {
            let j = choose|j: int| 0 <= j < p.len() as int && #[trigger] dyn_added_at(old, new, p, x, j);
            assert(!opens_with(p[j], COLON));
        }
        if new[x].glob != glob_before(old, x) {
            let j = choose|j: int| 0 <= j < p.len() as int && #[trigger] glob_added_at(old, new, p, x, j);
            assert(!opens_with(p[j], STAR));
        }
        if x < old.len() {
            assert(old[x].dynamic is None && old[x].glob is None);
        }
    }
}

/// Each node is entered by at most one edge, and the root by none: the arena is a tree.
pub open spec fn tree_shaped(nodes: Seq<Node>) -> bool {
    &&& forall|y1: int, s1: Seq<u8>, y2: int, s2: Seq<u8>|
        0 <= y1 < nodes.len() && 0 <= y2 < nodes.len() && #[trigger] step(nodes, y1, s1) is Some
            && step(nodes, y1, s1) == #[trigger] step(nodes, y2, s2) ==> y1 == y2 && s1 == s2
    &&& forall|y: int, s: Seq<u8>| 0 <= y < nodes.len() ==> #[trigger] step(nodes, y, s) != Some(0int)
}

proof fn lemma_capture_eq(a: Seq<u8>, b: Seq<u8>, mark: u8)
    requires
        opens_with(a, mark),
        opens_with(b, mark),
        capture_name(a) == capture_name(b),
    ensures
        a == b,
{
    assert(a =~= seq![mark] + capture_name(a));
    assert(b =~= seq![mark] + capture_name(b));
}

proof fn lemma_find_literal_appended_other(a: Seq<(Vec<u8>, usize)>, x: (Vec<u8>, usize), seg: Seq<u8>, j: int)
    requires
        0 <= j <= a.len(),
        x.0@ != seg,
    ensures
        find_literal(a.push(x), seg, j) == find_literal(a, seg, j),
    decreases a.len() - j,
{
    if j < a.len() {
        assert(a.push(x)[j] == a[j]);
        lemma_find_literal_appended_other(a, x, seg, j + 1);
    } else {
        assert(a.push(x)[j] == x);
        assert(find_literal(a.push(x), seg, j + 1) is None);
    }
}

/// How a tree steps after one edge, from `y0` by segment `s0` to the fresh node `c`, is
/// added to it.
pub open spec fn one_edge_added(before: Seq<Node>, after: Seq<Node>, y0: int, s0: Seq<u8>, c: int) -> bool {
    &&& c == before.len() && after.len() == c + 1 && 0 <= y0 < c
    &&& after[c].literals@.len() == 0 && after[c].dynamic is None && after[c].glob is None
    &&& forall|m: int| 0 <= m < c && m != y0 ==> (#[trigger] after[m]).literals@ == before[m].literals@
        && after[m].dynamic == before[m].dynamic && after[m].glob == before[m].glob
    &&& if opens_with(s0, COLON) {
        &&& before[y0].dynamic is None
        &&& after[y0].dynamic matches Some(d) && d.0@ == capture_name(s0) && d.1 == c
        &&& after[y0].literals@ == before[y0].literals@ && after[y0].glob == before[y0].glob
    } else if opens_with(s0, STAR) {
        &&& before[y0].glob is None
        &&& after[y0].glob matches Some(g) && g.0@ == capture_name(s0) && g.1 == c
        &&& after[y0].literals@ == before[y0].literals@ && after[y0].dynamic == before[y0].dynamic
    } else {
        &&& find_literal(before[y0].literals@, s0, 0) is None
        &&& after[y0].literals@.len() > 0
        &&& after[y0].literals@ == before[y0].literals@.push(after[y0].literals@.last())
        &&& after[y0].literals@.last().0@ == s0 && after[y0].literals@.last().1 == c
        &&& after[y0].dynamic == before[y0].dynamic && after[y0].glob == before[y0].glob
    }
}

proof fn lemma_step_after_edge(before: Seq<Node>, after: Seq<Node>, y0: int, s0: Seq<u8>, c: int, y: int, s: Seq<u8>)
    requires
        one_edge_added(before, after, y0, s0, c),
        0 <= y < after.len(),
    ensures
        step(after, y, s) == (if y == y0 && s == s0 { Some(c) } else if y < c { step(before, y, s) } else { None }),
{
    if y == y0 {
        if opens_with(s0, COLON) {
            if opens_with(s, COLON) && after[y0].dynamic.unwrap().0@ == capture_name(s) {
                lemma_capture_eq(s, s0, COLON);
            }
        } else if opens_with(s0, STAR) {
            if opens_with(s, STAR) && after[y0].glob.unwrap().0@ == capture_name(s) {
                lemma_capture_eq(s, s0, STAR);
            }
        } else {
            let x = after[y0].literals@.last();
            if !opens_with(s, COLON) && !opens_with(s, STAR) {
                if s == s0 {
                    lemma_find_literal_none(before[y0].literals@, s0, 0);
                    lemma_find_literal_appended(before[y0].literals@, x, s0, 0);
                    assert(after[y0].literals@[before[y0].literals@.len() as int] == x);
                    assert(step(after, y, s) == Some(c));
                } else {
                    lemma_find_literal_appended_other(before[y0].literals@, x, s, 0);
                    match find_literal(before[y0].literals@, s, 0) {
                        Some(k) => {
                            lemma_find_literal_range(before[y0].literals@, s, 0);
                            assert(after[y0].literals@[k] == before[y0].literals@[k]);
                        },
                        None => {},
                    }
                    assert(step(after, y, s) == step(before, y, s));
                }
            }
        }
    } else if y < c {
        assert(after[y].literals@ == before[y].literals@);
    } else {
        assert(y == c);
        assert(find_literal(after[c].literals@, s, 0) is None);
    }
}

/// Adding one edge to a fresh node keeps the arena a tree.
proof fn lemma_shape_after_edge(before: Seq<Node>, after: Seq<Node>, y0: int, s0: Seq<u8>, c: int)
    requires
        tree_wf(before),
        tree_shaped(before),
        one_edge_added(before, after, y0, s0, c),
    ensures
        tree_shaped(after),
{
    assert forall|y1: int, s1: Seq<u8>, y2: int, s2: Seq<u8>|
        0 <= y1 < after.len() && 0 <= y2 < after.len() && #[trigger] step(after, y1, s1) is Some
            && step(after, y1, s1) == #[trigger] step(after, y2, s2) implies y1 == y2 && s1 == s2 by {
        lemma_step_after_edge(before, after, y0, s0, c, y1, s1);
        lemma_step_after_edge(before, after, y0, s0, c, y2, s2);
        if y1 < c && !(y1 == y0 && s1 == s0) {
            lemma_step_in_range(before, y1, s1);
        }
        if y2 < c && !(y2 == y0 && s2 == s0) {
            lemma_step_in_range(before, y2, s2);
        }
    }
    assert forall|y: int, s: Seq<u8>| 0 <= y < after.len() implies #[trigger] step(after, y, s) != Some(0int) by {
        lemma_step_after_edge(before, after, y0, s0, c, y, s);
    }
}

proof fn lemma_path_prefix(nodes: Seq<Node>, n: int, pat: Seq<Seq<u8>>)
    requires
        tree_wf(nodes),
        0 <= n < nodes.len(),
        pat.len() > 0,
        path_to(nodes, n, pat) is Some,
    ensures
        path_to(nodes, n, pat.drop_last()) is Some,
        0 <= path_to(nodes, n, pat.drop_last()).unwrap() < nodes.len(),
        step(nodes, path_to(nodes, n, pat.drop_last()).unwrap(), pat.last()) == path_to(nodes, n, pat),
    decreases pat.len(),
{
    let rest = pat.drop_first();
    lemma_step_in_range(nodes, n, pat[0]);
    let c = step(nodes, n, pat[0]).unwrap();
    if rest.len() == 0 {
        assert(pat.drop_last() =~= Seq::<Seq<u8>>::empty());
        assert(path_to(nodes, c, rest) == Some(c));
    } else {
        lemma_path_prefix(nodes, c, rest);
        assert(pat.drop_last().drop_first() =~= rest.drop_last());
        assert(pat.drop_last()[0] == pat[0]);
        assert(rest.last() == pat.last());
    }
}

/// In a tree, different segment lists lead from the root to different nodes.
pub proof fn lemma_paths_distinct(nodes: Seq<Node>, p: Seq<Seq<u8>>, q: Seq<Seq<u8>>)
    requires
        tree_wf(nodes),
        tree_shaped(nodes),
        path_to(nodes, 0, p) is Some,
        path_to(nodes, 0, p) == path_to(nodes, 0, q),
    ensures
        p == q,
    decreases p.len() + q.len(),
{
    if p.len() > 0 {
        lemma_path_prefix(nodes, 0, p);
    }
    if q.len() > 0 {
        lemma_path_prefix(nodes, 0, q);
    }
    if p.len() > 0 && q.len() > 0 {
        let y1 = path_to(nodes, 0, p.drop_last()).unwrap();
        let y2 = path_to(nodes, 0, q.drop_last()).unwrap();
        assert(step(nodes, y1, p.last()) is Some);
        assert(y1 == y2 && p.last() == q.last());
        lemma_paths_distinct(nodes, p.drop_last(), q.drop_last());
        assert(p =~= p.drop_last().push(p.last()));
        assert(q =~= q.drop_last().push(q.last()));
    } else if p.len() > 0 {
        let y1 = path_to(nodes, 0, p.drop_last()).unwrap();
        assert(step(nodes, y1, p.last()) != Some(0int));
    } else if q.len() > 0 {
        let y2 = path_to(nodes, 0, q.drop_last()).unwrap();
        assert(step(nodes, y2, q.last()) != Some(0int));
    } else {
        assert(p =~= q);
    }
}

/// A change that leaves every edge as it was keeps the arena a tree.
proof fn lemma_shape_same(before: Seq<Node>, after: Seq<Node>)
    requires
        tree_shaped(before),
        before.len() == after.len(),
        forall|m: int| 0 <= m < before.len() ==> (#[trigger] after[m]).literals@ == before[m].literals@
            && after[m].dynamic == before[m].dynamic && after[m].glob == before[m].glob,
    ensures
        tree_shaped(after),
{
    assert forall|y: int, s: Seq<u8>| 0 <= y < after.len() implies #[trigger] step(after, y, s) == step(before, y, s) by {
        assert(after[y].literals@ == before[y].literals@);
    }
}

} // verus!
