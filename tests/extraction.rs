use gotham_router::query::{decode, extract_path_u64, extract_u64_pair, parse_query, parse_u64, ExtractionError};
use gotham_router::route::{Method, Route};
use gotham_router::tree::{Outcome, Tree};

#[test]
fn two_numeric_fields_decode() {
    assert_eq!(extract_u64_pair(Some("x=16&y=71"), "x", "y"), Ok((16, 71)));
}

#[test]
fn non_numeric_field_fails() {
    assert_eq!(extract_u64_pair(Some("x=abc&y=71"), "x", "y"), Err(ExtractionError::Malformed));
}

#[test]
fn missing_field_or_query_fails() {
    assert_eq!(extract_u64_pair(Some("x=1"), "x", "y"), Err(ExtractionError::Missing));
    assert_eq!(extract_u64_pair(None, "x", "y"), Err(ExtractionError::Missing));
}

#[test]
fn first_value_of_a_repeated_key_is_used() {
    assert_eq!(extract_u64_pair(Some("x=1&x=2&&y=3"), "x", "y"), Ok((1, 3)));
}

#[test]
fn decimal_limits() {
    assert_eq!(parse_u64(b"18446744073709551615"), Some(u64::MAX));
    assert_eq!(parse_u64(b"18446744073709551616"), None);
    assert_eq!(parse_u64(b""), None);
    assert_eq!(parse_u64(b"0"), Some(0));
    assert_eq!(parse_u64(b"-1"), None);
}

#[test]
fn form_decoding() {
    assert_eq!(decode(b"a+b%41%zz"), b"a bA%zz".to_vec());
    let q = parse_query("na%6De=J+Doe&flag");
    assert_eq!(q.pairs, vec![(b"name".to_vec(), b"J Doe".to_vec()), (b"flag".to_vec(), Vec::new())]);
}

#[test]
fn path_field_from_captures() {
    let mut t = Tree::new();
    t.add_route("/a/:x/b", Route { method: Method::Get, dispatcher: 0, delegated: false }).unwrap();
    let caps = match t.route(Method::Get, "/a/42/b") {
        Outcome::Matched { captures, .. } => captures,
        _ => panic!("expected a match"),
    };
    assert_eq!(extract_path_u64(&caps, "x"), Ok(42));
    assert_eq!(extract_path_u64(&caps, "y"), Err(ExtractionError::Missing));
    let caps = match t.route(Method::Get, "/a/forty/b") {
        Outcome::Matched { captures, .. } => captures,
        _ => panic!("expected a match"),
    };
    assert_eq!(extract_path_u64(&caps, "x"), Err(ExtractionError::Malformed));
}
