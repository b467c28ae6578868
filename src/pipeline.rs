use vstd::prelude::*;

verus! {

/// The pipelines of a router, each an ordered list of middleware (named by index), and
/// each named by the handle that `add` gave it.
pub struct PipelineSet {
    pipelines: Vec<Vec<usize>>,
}

impl View for PipelineSet {
    type V = Seq<Seq<usize>>;

    closed spec fn view(&self) -> Seq<Seq<usize>> {
        self.pipelines@.map_values(|p: Vec<usize>| p@)
    }
}

/// The middleware that a chain of handles runs, pipeline after pipeline; `None` when a
/// handle names no pipeline of the set.
pub open spec fn resolve_spec(set: Seq<Seq<usize>>, chain: Seq<usize>) -> Option<Seq<usize>>
    decreases chain.len(),
{
    if chain.len() == 0 {
        Some(seq![])
    } else if chain[0] < set.len() {
        match resolve_spec(set, chain.drop_first()) {
            Some(rest) => Some(set[chain[0] as int] + rest),
            None => None,
        }
    } else {
        None
    }
}

impl PipelineSet {
    /// An empty set.
    pub fn new() -> (s: PipelineSet)
        ensures
            s@ == Seq::<Seq<usize>>::empty(),
    {
        let s = PipelineSet { pipelines: Vec::new() };
        assert(s@ =~= Seq::<Seq<usize>>::empty());
        s
    }

    /// Adds a pipeline and gives its handle.
    pub fn add(&mut self, pipeline: Vec<usize>) -> (h: usize)
        requires
            old(self)@.len() < usize::MAX,
        ensures
            h == old(self)@.len(),
            final(self)@ == old(self)@.push(pipeline@),
    {
        let ghost p = pipeline@;
        let h = self.pipelines.len();
        self.pipelines.push(pipeline);
        assert(self@ =~= old(self)@.push(p));
        h
    }

    /// The middleware that `chain` runs, in order, or `None` for an unknown handle.
    pub fn resolve(&self, chain: &Vec<usize>) -> (r: Option<Vec<usize>>)
        ensures
            match r {
                Some(v) => resolve_spec(self@, chain@) == Some(v@),
                None => resolve_spec(self@, chain@) is None,
            },
    {
        let mut out: Vec<usize> = Vec::new();
        let mut i: usize = chain.len();
        assert(chain@.subrange(chain@.len() as int, chain@.len() as int) =~= Seq::<usize>::empty());
        while i > 0
            invariant
                i <= chain@.len(),
                resolve_spec(self@, chain@.subrange(i as int, chain@.len() as int)) == Some(out@),
            decreases i,
        {
            let ghost tail = chain@.subrange(i as int, chain@.len() as int);
            let h = chain[i - 1];
            let ghost longer = chain@.subrange(i - 1, chain@.len() as int);
            assert(longer.drop_first() =~= tail);
            assert(longer[0] == h);
            if h >= self.pipelines.len() {
                proof { self.lemma_unknown_handle(chain@, i - 1); }
                return None;
            }
            let p = &self.pipelines[h];
            assert(self@[h as int] == p@);
            let mut next: Vec<usize> = Vec::new();
            let mut k: usize = 0;
            while k < p.len()
                invariant
                    k <= p@.len(),
                    next@ == p@.subrange(0, k as int),
                decreases p@.len() - k,
            {
                next.push(p[k]);
                k = k + 1;
                assert(next@ =~= p@.subrange(0, k as int));
            }
            let mut m: usize = 0;
            let ghost base = next@;
            while m < out.len()
                invariant
                    m <= out@.len(),
                    base == p@,
                    next@ == base + out@.subrange(0, m as int),
                decreases out@.len() - m,
            {
                next.push(out[m]);
                m = m + 1;
                assert(next@ =~= base + out@.subrange(0, m as int));
            }
            assert(out@.subrange(0, out@.len() as int) =~= out@);
            out = next;
            i = i - 1;
        }
        assert(chain@.subrange(0, chain@.len() as int) =~= chain@);
        Some(out)
    }

    proof fn lemma_unknown_handle(&self, chain: Seq<usize>, j: int)
        requires
            0 <= j < chain.len(),
            chain[j] >= self@.len(),
        ensures
            resolve_spec(self@, chain) is None,
        decreases j,
    {
        if j > 0 {
            self.lemma_unknown_handle(chain.drop_first(), j - 1);
        }
    }
}

/// One step that dispatch performs.
#[derive(Clone, Copy, PartialEq, Eq, Structural, Debug)]
pub enum Step {
    /// The middleware with this index runs.
    Middleware(usize),
    /// The terminal handler runs.
    Handler,
}

/// What dispatch runs when middleware `k` calls its continuation exactly when
/// `continues[k]`: each middleware in order, and the handler once every one has
/// continued; a middleware that answers itself ends the run.
pub open spec fn trace(mws: Seq<usize>, continues: Seq<bool>) -> Seq<Step>
    decreases mws.len(),
{
    if mws.len() == 0 {
        seq![Step::Handler]
    } else if continues.len() > 0 && continues[0] {
        seq![Step::Middleware(mws[0])] + trace(mws.drop_first(), continues.drop_first())
    } else {
        seq![Step::Middleware(mws[0])]
    }
}

/// Runs a resolved chain: the steps that happen, given which middleware continue.
pub fn dispatch_trace(mws: &Vec<usize>, continues: &Vec<bool>) -> (r: Vec<Step>)
    ensures
        r@ == trace(mws@, continues@),
{
    let mut out: Vec<Step> = Vec::new();
    let mut i: usize = 0;
    assert(mws@.subrange(0, mws@.len() as int) =~= mws@);
    assert(continues@.subrange(0, continues@.len() as int) =~= continues@);
    assert(out@ + trace(mws@, continues@) =~= trace(mws@, continues@));
    while i < mws.len()
        invariant
            i <= mws@.len(),
            i <= continues@.len(),
            out@ + trace(mws@.subrange(i as int, mws@.len() as int),
                continues@.subrange(i as int, continues@.len() as int)) == trace(mws@, continues@),
        decreases mws@.len() - i,
    {
        let ghost ms = mws@.subrange(i as int, mws@.len() as int);
        let ghost cs = continues@.subrange(i as int, continues@.len() as int);
        let ghost before = out@;
        out.push(Step::Middleware(mws[i]));
        if i < continues.len() && continues[i] {
            assert(ms.drop_first() =~= mws@.subrange(i + 1, mws@.len() as int));
            assert(cs.drop_first() =~= continues@.subrange(i + 1, continues@.len() as int));
            assert(out@ + trace(ms.drop_first(), cs.drop_first()) =~= before + trace(ms, cs));
            i = i + 1;
        } else {
            assert(out@ =~= before + trace(ms, cs));
            assert(out@ + seq![] =~= out@);
            return out;
        }
    }
    let ghost ms = mws@.subrange(i as int, mws@.len() as int);
    assert(ms.len() == 0);
    out.push(Step::Handler);
    assert(out@ =~= out@.drop_last() + trace(ms, continues@.subrange(i as int, continues@.len() as int)));
    out
}

/// Middleware in a chain runs strictly in order: when the first `k` continue and
/// middleware `k` answers itself, exactly the first `k + 1` run, and neither later
/// middleware nor the handler does.
pub proof fn lemma_short_circuit(mws: Seq<usize>, continues: Seq<bool>, k: int)
    requires
        0 <= k < mws.len(),
        k < continues.len(),
        !continues[k],
        forall|j: int| 0 <= j < k ==> continues[j],
    ensures
        trace(mws, continues) == mws.subrange(0, k + 1).map_values(|m: usize| Step::Middleware(m)),
        !trace(mws, continues).contains(Step::Handler),
    decreases k,
{
    if k > 0 {
        lemma_short_circuit(mws.drop_first(), continues.drop_first(), k - 1);
        assert(mws.subrange(0, k + 1).map_values(|m: usize| Step::Middleware(m))
            =~= seq![Step::Middleware(mws[0])]
                + mws.drop_first().subrange(0, k).map_values(|m: usize| Step::Middleware(m)));
    } else {
        assert(mws.subrange(0, 1).map_values(|m: usize| Step::Middleware(m)) =~= seq![Step::Middleware(mws[0])]);
    }
    let t = trace(mws, continues);
    assert forall|j: int| 0 <= j < t.len() implies t[j] != Step::Handler by {
        assert(t[j] == Step::Middleware(mws.subrange(0, k + 1)[j]));
    }
}

/// When every middleware continues, all of them run in chain order and then the handler.
pub proof fn lemma_all_continue(mws: Seq<usize>, continues: Seq<bool>)
    requires
        mws.len() <= continues.len(),
        forall|j: int| 0 <= j < mws.len() ==> continues[j],
    ensures
        trace(mws, continues) == mws.map_values(|m: usize| Step::Middleware(m)).push(Step::Handler),
    decreases mws.len(),
{
    if mws.len() > 0 {
        lemma_all_continue(mws.drop_first(), continues.drop_first());
        assert(mws.map_values(|m: usize| Step::Middleware(m)).push(Step::Handler)
            =~= seq![Step::Middleware(mws[0])]
                + mws.drop_first().map_values(|m: usize| Step::Middleware(m)).push(Step::Handler));
    } else {
        assert(mws.map_values(|m: usize| Step::Middleware(m)).push(Step::Handler) =~= seq![Step::Handler]);
    }
}

/// Middleware that a request passes through. `call` may read and change the context; it
/// returns `true` to hand the request on to the rest of the chain, or `false` when it has
/// answered the request itself.
pub trait Middleware<C> {
    fn call(&self, context: &mut C) -> bool;
}

/// Makes a fresh middleware instance for each request.
pub trait NewMiddleware {
    type Instance;

    fn new_middleware(&self) -> Self::Instance;
}

/// The positions `0..n` of a chain.
pub open spec fn positions(n: nat) -> Seq<usize> {
    Seq::new(n, |i: int| i as usize)
}

/// Runs `chain` on the context in order, each middleware deciding whether the next one
/// (and in the end the handler) runs. The steps returned are those that ran, by position
/// in the chain: a run that `trace` describes for the decisions the middleware made.
pub fn run_chain<C, M: Middleware<C>>(chain: &Vec<M>, context: &mut C) -> (r: Vec<Step>)
    ensures
        exists|continues: Seq<bool>| continues.len() == chain@.len()
            && r@ == trace(positions(chain@.len() as nat), continues),
{
    let ghost ps = positions(chain@.len() as nat);
    let mut out: Vec<Step> = Vec::new();
    let mut i: usize = 0;
    while i < chain.len()
        invariant
            i <= chain@.len(),
            ps == positions(chain@.len() as nat),
            out@ == ps.subrange(0, i as int).map_values(|m: usize| Step::Middleware(m)),
        decreases chain@.len() - i,
    {
        let go_on = chain[i].call(context);
        out.push(Step::Middleware(i));
        assert(out@ =~= ps.subrange(0, i + 1).map_values(|m: usize| Step::Middleware(m)));
        if !go_on {
            let ghost continues = Seq::new(chain@.len() as nat, |k: int| k != i);
            proof {
                lemma_short_circuit(ps, continues, i as int);
            }
            return out;
        }
        i = i + 1;
    }
    let ghost continues = Seq::new(chain@.len() as nat, |k: int| true);
    proof {
        lemma_all_continue(ps, continues);
        assert(ps.subrange(0, i as int) =~= ps);
    }
    out.push(Step::Handler);
    out
}

} // verus!
