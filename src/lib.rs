//! Request routing and dispatch core: a segment tree matcher with backtracking,
//! typed query extraction, pipeline chains with ordered dispatch, response
//! finalizers, and a worker handoff that keeps the request context with exactly
//! one owner.

pub mod builder;
pub mod finalizer;
pub mod matcher;
pub mod path;
pub mod pipeline;
pub mod query;
pub mod route;
pub mod tree;
pub mod worker;
