use gotham_router::finalizer::ResponseFinalizer;
use gotham_router::pipeline::{dispatch_trace, run_chain, Middleware, NewMiddleware, PipelineSet, Step};
use gotham_router::worker::{run_with_worker, Handoff, Job, PreparedJob};
use std::sync::{Arc, Mutex};

#[test]
fn chain_resolves_in_order() {
    let mut set = PipelineSet::new();
    let p1 = set.add(vec![10, 11]);
    let p2 = set.add(vec![20]);
    assert_eq!(set.resolve(&vec![p1, p2]), Some(vec![10, 11, 20]));
    assert_eq!(set.resolve(&vec![p2, p1]), Some(vec![20, 10, 11]));
    assert_eq!(set.resolve(&vec![]), Some(vec![]));
    assert_eq!(set.resolve(&vec![p1, 5]), None);
}

#[test]
fn short_circuit_stops_the_chain() {
    let trace = dispatch_trace(&vec![1, 2], &vec![false, true]);
    assert_eq!(trace, vec![Step::Middleware(1)]);
}

#[test]
fn continuing_chain_reaches_handler() {
    let trace = dispatch_trace(&vec![1, 2], &vec![true, true]);
    assert_eq!(trace, vec![Step::Middleware(1), Step::Middleware(2), Step::Handler]);
    assert_eq!(dispatch_trace(&vec![], &vec![]), vec![Step::Handler]);
}

struct Context {
    n: Arc<Mutex<usize>>,
    label: String,
}

struct TestJob;

struct PreparedTestJob {
    n: Arc<Mutex<usize>>,
}

impl Job<Context> for TestJob {
    type Prepared = PreparedTestJob;

    fn prepare(self, context: &Context) -> PreparedTestJob {
        PreparedTestJob { n: context.n.clone() }
    }
}

impl PreparedJob for PreparedTestJob {
    type Item = usize;
    type Error = ();

    fn run(self) -> Result<usize, ()> {
        let mut n = self.n.lock().unwrap();
        *n += 1;
        Ok(*n)
    }
}

#[test]
fn run_with_worker_tests() {
    let context = Context { n: Arc::new(Mutex::new(41)), label: "ctx".to_string() };
    let (handoff, prepared) = run_with_worker(context, TestJob);
    let outcome = prepared.run();
    let (context, item) = handoff.complete(outcome).unwrap_or_else(|_| panic!("not ok"));
    assert_eq!(item, 42);
    assert_eq!(format!("{}", *context.n.lock().unwrap()), "42");
    assert_eq!(context.label, "ctx");
}

struct FailingJob;

struct PreparedFailingJob;

impl Job<Context> for FailingJob {
    type Prepared = PreparedFailingJob;

    fn prepare(self, context: &Context) -> PreparedFailingJob {
        assert_eq!(context.label, "ctx");
        PreparedFailingJob
    }
}

impl PreparedJob for PreparedFailingJob {
    type Item = usize;
    type Error = String;

    fn run(self) -> Result<usize, String> {
        Err("boom".to_string())
    }
}

#[test]
fn failed_job_returns_the_context() {
    let context = Context { n: Arc::new(Mutex::new(0)), label: "ctx".to_string() };
    let (handoff, prepared) = run_with_worker(context, FailingJob);
    match handoff.complete(prepared.run()) {
        Err((context, e)) => {
            assert_eq!(e, "boom");
            assert_eq!(context.label, "ctx");
        },
        Ok(_) => panic!("expected failure"),
    }
}

#[test]
fn handoff_returns_what_it_holds() {
    let h = Handoff::hold(vec![1u8, 2]);
    assert_eq!(h.complete::<u8, ()>(Ok(5)), Ok((vec![1u8, 2], 5)));
}

#[test]
fn finalizer_applies_matching_extenders_in_order() {
    let mut f = ResponseFinalizer::new();
    f.add(404, 1);
    f.add(500, 2);
    f.add(404, 3);
    assert_eq!(f.finalize(404), vec![1, 3]);
    assert_eq!(f.finalize(500), vec![2]);
    assert!(f.finalize(200).is_empty());
}

struct Recorder {
    id: usize,
    go_on: bool,
}

impl Middleware<Vec<usize>> for Recorder {
    fn call(&self, context: &mut Vec<usize>) -> bool {
        context.push(self.id);
        self.go_on
    }
}

struct NewRecorder {
    id: usize,
}

impl NewMiddleware for NewRecorder {
    type Instance = Recorder;

    fn new_middleware(&self) -> Recorder {
        Recorder { id: self.id, go_on: true }
    }
}

#[test]
fn middleware_run_in_order_and_can_stop() {
    let mut seen: Vec<usize> = Vec::new();
    let chain = vec![Recorder { id: 1, go_on: false }, Recorder { id: 2, go_on: true }];
    assert_eq!(run_chain(&chain, &mut seen), vec![Step::Middleware(0)]);
    assert_eq!(seen, vec![1]);

    let mut seen: Vec<usize> = Vec::new();
    let chain = vec![NewRecorder { id: 1 }.new_middleware(), NewRecorder { id: 2 }.new_middleware()];
    assert_eq!(run_chain(&chain, &mut seen), vec![Step::Middleware(0), Step::Middleware(1), Step::Handler]);
    assert_eq!(seen, vec![1, 2]);
}

struct FnJob<F>(F);

struct FnPrepared<G>(G);

impl<F, G> Job<Context> for FnJob<F>
where
    F: FnOnce(&Context) -> G,
    G: FnOnce() -> Result<usize, ()>,
{
    type Prepared = FnPrepared<G>;

    fn prepare(self, context: &Context) -> FnPrepared<G> {
        FnPrepared((self.0)(context))
    }
}

impl<G> PreparedJob for FnPrepared<G>
where
    G: FnOnce() -> Result<usize, ()>,
{
    type Item = usize;
    type Error = ();

    fn run(self) -> Result<usize, ()> {
        (self.0)()
    }
}

#[test]
fn run_with_worker_closure_tests() {
    let context = Context { n: Arc::new(Mutex::new(0)), label: "ctx".to_string() };
    let job = FnJob(|_context: &Context| {
        let x = 41;
        move || Ok(x + 1)
    });
    let (handoff, prepared) = run_with_worker(context, job);
    let (context, t) = handoff.complete(prepared.run()).unwrap_or_else(|_| panic!("not ok"));
    assert_eq!(format!("{}", t), "42");
    assert_eq!(context.label, "ctx");
}
