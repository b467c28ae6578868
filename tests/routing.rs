use gotham_router::matcher::RouteMatcher;
use gotham_router::route::{Method, Route};
use gotham_router::tree::{BuildError, Capture, Outcome, Tree};
use gotham_router::path::split_path;

fn route(method: Method, dispatcher: usize) -> Route {
    Route { method, dispatcher, delegated: false }
}

fn matched(o: Outcome) -> (Route, Vec<Capture>, usize) {
    match o {
        Outcome::Matched { route, captures, consumed } => (route, captures, consumed),
        Outcome::NotFound => panic!("expected a match, got not found"),
        Outcome::MethodNotAllowed { .. } => panic!("expected a match, got method not allowed"),
    }
}

fn bytes(s: &str) -> Vec<u8> {
    s.as_bytes().to_vec()
}

#[test]
fn literal_paths_match_their_routes() {
    let mut t = Tree::new();
    assert_eq!(t.add_route("/", route(Method::Get, 0)), Ok(()));
    assert_eq!(t.add_route("/hello", route(Method::Get, 1)), Ok(()));
    assert_eq!(t.add_route("/hello/there", route(Method::Get, 2)), Ok(()));
    for (p, d) in [("/", 0usize), ("/hello", 1), ("/hello/there", 2)] {
        let (r, caps, consumed) = matched(t.route(Method::Get, p));
        assert_eq!(r.dispatcher, d);
        assert!(caps.is_empty());
        assert_eq!(consumed, split_path(p).len());
    }
}

#[test]
fn dynamic_segment_captures_value() {
    let mut t = Tree::new();
    t.add_route("/a/:x/b", route(Method::Get, 7)).unwrap();
    let (r, caps, _) = matched(t.route(Method::Get, "/a/42/b"));
    assert_eq!(r.dispatcher, 7);
    assert_eq!(caps.len(), 1);
    assert_eq!(caps[0].name, bytes("x"));
    assert_eq!(caps[0].values, vec![bytes("42")]);
    assert!(matches!(t.route(Method::Get, "/a/b"), Outcome::NotFound));
}

#[test]
fn glob_takes_the_rest_of_the_path() {
    let mut t = Tree::new();
    t.add_route("/files/*rest", route(Method::Get, 3)).unwrap();
    let (_, caps, _) = matched(t.route(Method::Get, "/files/a/b/c"));
    assert_eq!(caps.len(), 1);
    assert_eq!(caps[0].name, bytes("rest"));
    assert_eq!(caps[0].values, vec![bytes("a"), bytes("b"), bytes("c")]);
    let (_, caps, _) = matched(t.route(Method::Get, "/files/"));
    assert_eq!(caps[0].name, bytes("rest"));
    assert!(caps[0].values.is_empty());
}

#[test]
fn unmatched_method_lists_registered_methods() {
    let mut t = Tree::new();
    t.add_route("/item", route(Method::Get, 1)).unwrap();
    t.add_route("/item", route(Method::Post, 2)).unwrap();
    match t.route(Method::Delete, "/item") {
        Outcome::MethodNotAllowed { allowed } => assert_eq!(allowed, vec![Method::Get, Method::Post]),
        _ => panic!("expected method not allowed"),
    }
    let (r, _, _) = matched(t.route(Method::Post, "/item"));
    assert_eq!(r.dispatcher, 2);
}

#[test]
fn first_registered_route_wins() {
    let mut t = Tree::new();
    t.add_route("/same", route(Method::Get, 1)).unwrap();
    t.add_route("/same", route(Method::Get, 2)).unwrap();
    let (r, _, _) = matched(t.route(Method::Get, "/same"));
    assert_eq!(r.dispatcher, 1);
}

#[test]
fn literal_beats_dynamic_beats_glob() {
    let mut t = Tree::new();
    t.add_route("/u/me", route(Method::Get, 1)).unwrap();
    t.add_route("/u/:id", route(Method::Get, 2)).unwrap();
    t.add_route("/u/*all", route(Method::Get, 3)).unwrap();
    assert_eq!(matched(t.route(Method::Get, "/u/me")).0.dispatcher, 1);
    assert_eq!(matched(t.route(Method::Get, "/u/you")).0.dispatcher, 2);
    assert_eq!(matched(t.route(Method::Get, "/u/you/too")).0.dispatcher, 3);
}

#[test]
fn dead_end_literal_backtracks_to_dynamic() {
    let mut t = Tree::new();
    t.add_route("/a/b/c", route(Method::Get, 1)).unwrap();
    t.add_route("/a/:x/d", route(Method::Get, 2)).unwrap();
    let (r, caps, _) = matched(t.route(Method::Get, "/a/b/d"));
    assert_eq!(r.dispatcher, 2);
    assert_eq!(caps[0].values, vec![bytes("b")]);
}

#[test]
fn delegated_route_takes_a_prefix() {
    let mut t = Tree::new();
    t.add_route("/api", Route { method: Method::Get, dispatcher: 9, delegated: true }).unwrap();
    let (r, caps, consumed) = matched(t.route(Method::Get, "/api/v1/users"));
    assert_eq!(r.dispatcher, 9);
    assert!(caps.is_empty());
    assert_eq!(consumed, 1);
}

#[test]
fn unknown_path_is_not_found() {
    let mut t = Tree::new();
    t.add_route("/known", route(Method::Get, 1)).unwrap();
    assert!(matches!(t.route(Method::Get, "/unknown"), Outcome::NotFound));
    assert!(matches!(Tree::new().route(Method::Get, "/"), Outcome::NotFound));
}

#[test]
fn bad_patterns_are_refused() {
    let mut t = Tree::new();
    assert_eq!(t.add_route("/a/:", route(Method::Get, 1)), Err(BuildError::InvalidPattern));
    assert_eq!(t.add_route("/a/*rest/b", route(Method::Get, 1)), Err(BuildError::InvalidPattern));
    t.add_route("/a/:x", route(Method::Get, 1)).unwrap();
    assert_eq!(t.add_route("/a/:y", route(Method::Get, 2)), Err(BuildError::Conflict));
    t.add_route("/g/*one", route(Method::Get, 1)).unwrap();
    assert_eq!(t.add_route("/g/*two", route(Method::Get, 2)), Err(BuildError::Conflict));
    assert!(matches!(t.route(Method::Get, "/a/:y"), Outcome::Matched { .. }));
}

#[test]
fn repeated_matches_agree() {
    let mut t = Tree::new();
    t.add_route("/a/:x/b", route(Method::Get, 4)).unwrap();
    let (r1, c1, n1) = matched(t.route(Method::Get, "/a/7/b"));
    let (r2, c2, n2) = matched(t.route(Method::Get, "/a/7/b"));
    assert_eq!(r1, r2);
    assert_eq!(n1, n2);
    assert_eq!(c1[0].values, c2[0].values);
}

#[test]
fn empty_segments_are_dropped() {
    assert_eq!(split_path("//a///b/"), vec![bytes("a"), bytes("b")]);
    assert!(split_path("").is_empty());
}

#[test]
fn matcher_needs_method_and_headers() {
    let m = RouteMatcher {
        methods: vec![Method::Get, Method::Head],
        headers: vec![(bytes("accept"), bytes("text/plain"))],
    };
    let good = vec![(bytes("host"), bytes("x")), (bytes("accept"), bytes("text/plain"))];
    let bad = vec![(bytes("accept"), bytes("text/html"))];
    assert!(m.is_match(Method::Get, &good));
    assert!(m.is_match(Method::Head, &good));
    assert!(!m.is_match(Method::Post, &good));
    assert!(!m.is_match(Method::Get, &bad));
    assert!(!m.is_match(Method::Get, &Vec::new()));
}

#[test]
fn allowed_methods_are_listed_once() {
    let mut t = Tree::new();
    t.add_route("/item", route(Method::Get, 1)).unwrap();
    t.add_route("/item", route(Method::Post, 2)).unwrap();
    t.add_route("/item", route(Method::Get, 3)).unwrap();
    match t.route(Method::Put, "/item") {
        Outcome::MethodNotAllowed { allowed } => assert_eq!(allowed, vec![Method::Get, Method::Post]),
        _ => panic!("expected method not allowed"),
    }
}
