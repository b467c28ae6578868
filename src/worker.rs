use vstd::prelude::*;

verus! {

/// A job that runs on the worker pool after being prepared. `prepare` runs where the
/// request is being handled and must not block; it reads the context and keeps no hold
/// on it.
pub trait Job<C> {
    type Prepared: PreparedJob;

    fn prepare(self, context: &C) -> Self::Prepared;
}

/// A prepared job: a self-contained unit of blocking work for a pool thread.
pub trait PreparedJob {
    type Item;
    type Error;

    fn run(self) -> Result<Self::Item, Self::Error>;
}

/// The request context held back while its job runs elsewhere. It is the context's only
/// owner until the job's outcome comes back and `complete` hands it on.
pub struct Handoff<C> {
    context: C,
}

impl<C> Handoff<C> {
    /// The context held.
    pub closed spec fn held(&self) -> C {
        self.context
    }

    /// Holds a context for a job that is about to run.
    pub fn hold(context: C) -> (h: Handoff<C>)
        ensures
            h.held() == context,
    {
        Handoff { context }
    }

    /// Reunites the held context with the job's outcome.
    pub fn complete<T, E>(self, outcome: Result<T, E>) -> (r: Result<(C, T), (C, E)>)
        ensures
            r == match outcome {
                Ok(t) => Ok::<(C, T), (C, E)>((self.held(), t)),
                Err(e) => Err((self.held(), e)),
            },
    {
        match outcome {
            Ok(t) => Ok((self.context, t)),
            Err(e) => Err((self.context, e)),
        }
    }
}

/// Prepares `job` from the context, once, then holds the context, unchanged, while the
/// prepared job is handed to a worker. The context comes back, with the job's outcome, through
/// `Handoff::complete`.
pub fn run_with_worker<C, J: Job<C>>(context: C, job: J) -> (r: (Handoff<C>, J::Prepared))
    ensures
        r.0.held() == context,
        call_ensures(J::prepare, (job, &context), r.1),
{
    let prepared = job.prepare(&context);
    (Handoff::hold(context), prepared)
}

/// A context handed off comes back whole: whatever the job's outcome, the context that
/// `complete` returns is the one that was held, and the outcome is the job's own.
pub proof fn lemma_context_returns<C, T, E>(context: C, outcome: Result<T, E>, h: Handoff<C>, r: Result<(C, T), (C, E)>)
    requires
        h.held() == context,
        r == match outcome {
            Ok(t) => Ok::<(C, T), (C, E)>((h.held(), t)),
            Err(e) => Err((h.held(), e)),
        },
    ensures
        match r {
            Ok(p) => p.0 == context && outcome == Ok::<T, E>(p.1),
            Err(p) => p.0 == context && outcome == Err::<T, E>(p.1),
        },
{
}

} // verus!
