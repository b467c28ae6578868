use gotham_router::builder::{build_router, suffix, Dispatch, RouterBuilder};
use gotham_router::path::split_path;
use gotham_router::pipeline::PipelineSet;
use gotham_router::query::{extract_path_text, extract_u64_pair, ExtractionError};
use gotham_router::route::Method;
use gotham_router::tree::BuildError;

const INDEX: usize = 0;
const HELLO: usize = 1;
const ADD: usize = 2;
const SUBMIT: usize = 3;

fn run(d: Dispatch) -> (Vec<usize>, usize, Vec<(Vec<u8>, Vec<Vec<u8>>)>) {
    match d {
        Dispatch::Run { middleware, handler, captures, .. } => (
            middleware,
            handler,
            captures.into_iter().map(|c| (c.name, c.values)).collect(),
        ),
        _ => panic!("expected a route to run"),
    }
}

#[test]
fn build_router_test() {
    let mut pipelines = PipelineSet::new();
    let default = pipelines.add(vec![100]);
    let route = RouterBuilder::new(vec![]);
    let api = route.scope("/api");
    let decls = vec![
        (route.get("/"), INDEX),
        (route.get("/hello/:name"), HELLO),
        (
            route
                .get("/add")
                .with_query_string_extractor(vec![b"x".to_vec(), b"y".to_vec()]),
            ADD,
        ),
        (api.post("/submit"), SUBMIT),
    ];
    let router = build_router(vec![default], decls, vec![]).unwrap();

    let (mws, h, _) = run(router.dispatch(Method::Get, "/", None, &pipelines));
    assert_eq!(mws, vec![100]);
    assert_eq!(h, INDEX);

    let (mws, h, _) = run(router.dispatch(Method::Post, "/api/submit", None, &pipelines));
    assert_eq!(mws, vec![100]);
    assert_eq!(h, SUBMIT);

    let (h, name) = match router.dispatch(Method::Get, "/hello/world", None, &pipelines) {
        Dispatch::Run { handler, captures, .. } => (handler, extract_path_text(&captures, "name").unwrap()),
        _ => panic!("expected the hello route to run"),
    };
    assert_eq!(h, HELLO);
    let name = String::from_utf8(name).unwrap();
    assert_eq!(format!("Hello, {}!", name), "Hello, world!");

    match router.dispatch(Method::Get, "/add", Some("x=16&y=71"), &pipelines) {
        Dispatch::Run { handler, query_values, .. } => {
            assert_eq!(handler, ADD);
            let (x, y) = (query_values[0], query_values[1]);
            assert_eq!(format!("{} + {} = {}", x, y, x + y), "16 + 71 = 87");
        },
        _ => panic!("expected the add route to run"),
    }
    let (x, y) = extract_u64_pair(Some("x=16&y=71"), "x", "y").unwrap();
    assert_eq!((x, y), (16, 71));
}

#[test]
fn builder_step_by_step() {
    let mut pipelines = PipelineSet::new();
    let default = pipelines.add(vec![100]);
    let mut route = RouterBuilder::new(vec![default]);
    let r = route.get("/");
    route.to(r, INDEX).unwrap();
    let api = route.scope("/api");
    route.to(api.post("/submit"), SUBMIT).unwrap();
    let router = route.finish();
    assert_eq!(run(router.dispatch(Method::Get, "/", None, &pipelines)).1, INDEX);
    assert_eq!(run(router.dispatch(Method::Post, "/api/submit", None, &pipelines)).1, SUBMIT);
}

#[test]
fn build_router_reports_conflicts() {
    let b = RouterBuilder::new(vec![]);
    let decls = vec![(b.get("/a/:x"), 1), (b.get("/a/:y"), 2)];
    assert!(matches!(build_router(vec![], decls, vec![]), Err(BuildError::Conflict)));
    let decls = vec![(b.get("/a/:x"), 1), (b.get("/a/*rest"), 2), (b.get("/a/:x/b"), 3)];
    assert!(build_router(vec![], decls, vec![]).is_ok());
}

#[test]
fn dispatch_reports_routing_errors() {
    let mut pipelines = PipelineSet::new();
    let p = pipelines.add(vec![1, 2]);
    let mut b = RouterBuilder::new(vec![p]);
    let r = b.get("/only-get");
    b.to(r, 5).unwrap();
    let router = b.finish();
    assert!(matches!(router.dispatch(Method::Get, "/missing", None, &pipelines), Dispatch::NotFound));
    match router.dispatch(Method::Post, "/only-get", None, &pipelines) {
        Dispatch::MethodNotAllowed { allowed } => assert_eq!(allowed, vec![Method::Get]),
        _ => panic!("expected method not allowed"),
    }
    assert!(matches!(router.dispatch(Method::Get, "/only-get", None, &PipelineSet::new()), Dispatch::UnknownPipeline));
}

#[test]
fn build_router_from_declarations() {
    let b = RouterBuilder::new(vec![]);
    let decls = vec![(b.get("/a"), 1), (b.post("/b/:id"), 2)];
    let router = build_router(vec![], decls, vec![]).unwrap();
    let pipelines = PipelineSet::new();
    let (mws, h, caps) = run(router.dispatch(Method::Post, "/b/9", None, &pipelines));
    assert!(mws.is_empty());
    assert_eq!(h, 2);
    assert_eq!(caps, vec![(b"id".to_vec(), vec![b"9".to_vec()])]);
    let bad = vec![(b.get("/x/:"), 1)];
    assert!(matches!(build_router(vec![], bad, vec![]), Err(BuildError::InvalidPattern)));
}

#[test]
fn delegated_scope_route() {
    let mut b = RouterBuilder::new(vec![]);
    let r = b.scope("/mount").get("/sub").delegate();
    b.to(r, 8).unwrap();
    let router = b.finish();
    match router.dispatch(Method::Get, "/mount/sub/deeper/still", None, &PipelineSet::new()) {
        Dispatch::Run { handler, consumed, .. } => {
            assert_eq!(handler, 8);
            assert_eq!(consumed, 2);
        },
        _ => panic!("expected the delegated route"),
    }
}

#[test]
fn extraction_failure_stops_dispatch() {
    let mut pipelines = PipelineSet::new();
    let p = pipelines.add(vec![1]);
    let mut b = RouterBuilder::new(vec![p]);
    let r = b
        .get("/add/:n")
        .with_path_extractor(vec![b"n".to_vec()])
        .with_query_string_extractor(vec![b"x".to_vec(), b"y".to_vec()]);
    b.to(r, 4).unwrap();
    let router = b.finish();
    match router.dispatch(Method::Get, "/add/3", Some("x=abc&y=71"), &pipelines) {
        Dispatch::BadRequest { error, .. } => assert_eq!(error, ExtractionError::Malformed),
        _ => panic!("expected a bad request"),
    }
    match router.dispatch(Method::Get, "/add/three", Some("x=1&y=2"), &pipelines) {
        Dispatch::BadRequest { error, .. } => assert_eq!(error, ExtractionError::Malformed),
        _ => panic!("expected a bad request"),
    }
    match router.dispatch(Method::Get, "/add/3", None, &pipelines) {
        Dispatch::BadRequest { error, .. } => assert_eq!(error, ExtractionError::Missing),
        _ => panic!("expected a bad request"),
    }
    match router.dispatch(Method::Get, "/add/3", Some("y=2&x=1"), &pipelines) {
        Dispatch::Run { middleware, path_values, query_values, .. } => {
            assert_eq!(middleware, vec![1]);
            assert_eq!(path_values, vec![3]);
            assert_eq!(query_values, vec![1, 2]);
        },
        _ => panic!("expected the route to run"),
    }
}

#[test]
fn bad_request_carries_its_extenders() {
    let b = RouterBuilder::new(vec![]);
    let decls = vec![(b.get("/n").with_query_string_extractor(vec![b"x".to_vec()]), 1)];
    let router = build_router(vec![], decls, vec![(400, 7), (404, 8), (400, 9)]).unwrap();
    match router.dispatch(Method::Get, "/n", Some("x=abc"), &PipelineSet::new()) {
        Dispatch::BadRequest { error, extenders } => {
            assert_eq!(error, ExtractionError::Malformed);
            assert_eq!(extenders, vec![7, 9]);
        },
        _ => panic!("expected a bad request"),
    }
    assert_eq!(router.finalize(404), vec![8]);
    assert!(router.finalize(200).is_empty());
}

#[test]
fn mounted_router_gets_the_suffix() {
    let b = RouterBuilder::new(vec![]);
    let outer = build_router(vec![], vec![(b.get("/mount").delegate(), 1)], vec![]).unwrap();
    let inner = build_router(vec![], vec![(b.get("/users/:id"), 2)], vec![]).unwrap();
    let segs = split_path("/mount/users/5");
    let consumed = match outer.dispatch_segments(Method::Get, &segs, None, &PipelineSet::new()) {
        Dispatch::Run { handler, consumed, .. } => {
            assert_eq!(handler, 1);
            consumed
        },
        _ => panic!("expected the mount"),
    };
    let rest = suffix(&segs, consumed);
    assert_eq!(rest, vec![b"users".to_vec(), b"5".to_vec()]);
    let (_, h, caps) = run(inner.dispatch_segments(Method::Get, &rest, None, &PipelineSet::new()));
    assert_eq!(h, 2);
    assert_eq!(caps, vec![(b"id".to_vec(), vec![b"5".to_vec()])]);
}

#[test]
fn route_extenders_come_first_on_bad_request() {
    let b = RouterBuilder::new(vec![]);
    let decl = b
        .get("/n/:id")
        .with_path_extractor(vec![b"id".to_vec()])
        .with_extender(3)
        .with_extender(1);
    let router = build_router(vec![], vec![(decl, 1)], vec![(400, 7)]).unwrap();
    match router.dispatch(Method::Get, "/n/abc", None, &PipelineSet::new()) {
        Dispatch::BadRequest { error, extenders } => {
            assert_eq!(error, ExtractionError::Malformed);
            assert_eq!(extenders, vec![3, 1, 7]);
        },
        _ => panic!("expected a bad request"),
    }
    match router.dispatch(Method::Get, "/n/12", None, &PipelineSet::new()) {
        Dispatch::Run { path_values, .. } => assert_eq!(path_values, vec![12]),
        _ => panic!("expected the route to run"),
    }
}
