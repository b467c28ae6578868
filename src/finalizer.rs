use vstd::prelude::*;

verus! {

/// Response extenders (named by index) registered against a response status.
pub struct ResponseFinalizer {
    entries: Vec<(u16, usize)>,
}

impl View for ResponseFinalizer {
    type V = Seq<(u16, usize)>;

    closed spec fn view(&self) -> Seq<(u16, usize)> {
        self.entries@
    }
}

/// The extenders registered for `status`, in registration order.
pub open spec fn extenders_for(entries: Seq<(u16, usize)>, status: u16) -> Seq<usize>
    decreases entries.len(),
{
    if entries.len() == 0 {
        seq![]
    } else if entries[0].0 == status {
        seq![entries[0].1] + extenders_for(entries.drop_first(), status)
    } else {
        extenders_for(entries.drop_first(), status)
    }
}

impl ResponseFinalizer {
    /// A finalizer with no extenders.
    pub fn new() -> (f: ResponseFinalizer)
        ensures
            f@ == Seq::<(u16, usize)>::empty(),
    {
        ResponseFinalizer { entries: Vec::new() }
    }

    /// Registers `extender` for responses with `status`.
    pub fn add(&mut self, status: u16, extender: usize)
        ensures
            final(self)@ == old(self)@.push((status, extender)),
    {
        self.entries.push((status, extender));
    }

    /// The extenders to apply to a response with `status`, in registration order.
    pub fn finalize(&self, status: u16) -> (r: Vec<usize>)
        ensures
            r@ == extenders_for(self@, status),
    {
        let mut out: Vec<usize> = Vec::new();
        let mut i: usize = 0;
        assert(self@.subrange(0, self@.len() as int) =~= self@);
        assert(out@ + extenders_for(self@, status) =~= extenders_for(self@, status));
        while i < self.entries.len()
            invariant
                i <= self@.len(),
                self@ == self.entries@,
                out@ + extenders_for(self@.subrange(i as int, self@.len() as int), status)
                    == extenders_for(self@, status),
            decreases self@.len() - i,
        {
            let ghost rest = self@.subrange(i as int, self@.len() as int);
            assert(rest.drop_first() =~= self@.subrange(i + 1, self@.len() as int));
            let (s, e) = self.entries[i];
            if s == status {
                let ghost before = out@;
                out.push(e);
                assert(out@ + extenders_for(rest.drop_first(), status) =~= before + extenders_for(rest, status));
            }
            i = i + 1;
        }
        assert(self@.subrange(i as int, self@.len() as int) =~= Seq::<(u16, usize)>::empty());
        assert(out@ + seq![] =~= out@);
        out
    }
}

} // verus!
