use vstd::prelude::*;
use crate::route::Method;
use crate::tree::bytes_eq;

verus! {

/// A request predicate: the method is one of `methods`, and each `(name, value)` of
/// `headers` is present among the request's headers. Both parts must hold.
pub struct RouteMatcher {
    pub methods: Vec<Method>,
    pub headers: Vec<(Vec<u8>, Vec<u8>)>,
}

/// The request carries header `name` with `value`.
pub open spec fn has_header(hs: Seq<(Vec<u8>, Vec<u8>)>, name: Seq<u8>, value: Seq<u8>) -> bool {
    exists|k: int| 0 <= k < hs.len() && #[trigger] hs[k].0@ == name && hs[k].1@ == value
}

/// What the matcher accepts.
pub open spec fn accepts(m: &RouteMatcher, method: Method, hs: Seq<(Vec<u8>, Vec<u8>)>) -> bool {
    &&& m.methods@.contains(method)
    &&& forall|j: int| 0 <= j < m.headers@.len()
        ==> has_header(hs, (#[trigger] m.headers@[j]).0@, m.headers@[j].1@)
}

fn header_present(hs: &Vec<(Vec<u8>, Vec<u8>)>, name: &Vec<u8>, value: &Vec<u8>) -> (r: bool)
    ensures
        r == has_header(hs@, name@, value@),
{
    let mut k: usize = 0;
    while k < hs.len()
        invariant
            k <= hs@.len(),
            forall|i: int| 0 <= i < k ==> !(hs@[i].0@ == name@ && hs@[i].1@ == value@),
        decreases hs@.len() - k,
    {
        if bytes_eq(hs[k].0.as_slice(), name.as_slice()) && bytes_eq(hs[k].1.as_slice(), value.as_slice()) {
            return true;
        }
        k = k + 1;
    }
    false
}

impl RouteMatcher {
    /// Whether a request with `method` and headers `hs` satisfies every condition.
    pub fn is_match(&self, method: Method, hs: &Vec<(Vec<u8>, Vec<u8>)>) -> (r: bool)
        ensures
            r == accepts(self, method, hs@),
    {
        let mut found = false;
        let mut i: usize = 0;
        while i < self.methods.len()
            invariant
                i <= self.methods@.len(),
                found == exists|k: int| 0 <= k < i && self.methods@[k] == method,
            decreases self.methods@.len() - i,
        {
            if self.methods[i] == method {
                found = true;
            }
            i = i + 1;
        }
        if !found {
            return false;
        }
        let mut j: usize = 0;
        while j < self.headers.len()
            invariant
                j <= self.headers@.len(),
                self.methods@.contains(method),
                forall|x: int| 0 <= x < j
                    ==> has_header(hs@, (#[trigger] self.headers@[x]).0@, self.headers@[x].1@),
            decreases self.headers@.len() - j,
        {
            if !header_present(hs, &self.headers[j].0, &self.headers[j].1) {
                return false;
            }
            j = j + 1;
        }
        true
    }
}

} // verus!
