use vstd::prelude::*;
use vstd::string::StringSliceAdditionalSpecFns;

verus! {

/// The byte `/` that separates path segments.
pub const SLASH: u8 = 0x2f;

/// Segments finished, and the segment in progress, after reading the first `n` bytes of `s`.
pub open spec fn scan(s: Seq<u8>, sep: u8, n: nat) -> (Seq<Seq<u8>>, Seq<u8>)
    decreases n,
{
    if n == 0 {
        (seq![], seq![])
    } else {
        let (done, cur) = scan(s, sep, (n - 1) as nat);
        if s[n - 1] == sep {
            if cur.len() > 0 {
                (done.push(cur), seq![])
            } else {
                (done, seq![])
            }
        } else {
            (done, cur.push(s[n - 1]))
        }
    }
}

/// The non-empty pieces of `s` between separators, in order.
pub open spec fn split_nonempty(s: Seq<u8>, sep: u8) -> Seq<Seq<u8>> {
    let (done, cur) = scan(s, sep, s.len());
    if cur.len() > 0 {
        done.push(cur)
    } else {
        done
    }
}

/// The byte strings held by a vector of byte vectors.
pub open spec fn bytes_seqs(v: Seq<Vec<u8>>) -> Seq<Seq<u8>> {
    v.map_values(|x: Vec<u8>| x@)
}

/// Splits `s` at every `sep`, dropping empty pieces.
pub fn split_bytes(s: &[u8], sep: u8) -> (r: Vec<Vec<u8>>)
    ensures
        bytes_seqs(r@) == split_nonempty(s@, sep),
{
    let mut done: Vec<Vec<u8>> = Vec::new();
    let mut cur: Vec<u8> = Vec::new();
    let mut i: usize = 0;
    while i < s.len()
        invariant
            i <= s@.len(),
            bytes_seqs(done@) == scan(s@, sep, i as nat).0,
            cur@ == scan(s@, sep, i as nat).1,
        decreases s@.len() - i,
    {
        let b = s[i];
        if b == sep {
            if cur.len() > 0 {
                let ghost before = done@;
                done.push(cur);
                assert(bytes_seqs(done@) == bytes_seqs(before).push(scan(s@, sep, i as nat).1));
            }
            cur = Vec::new();
        } else {
            cur.push(b);
        }
        i = i + 1;
    }
    if cur.len() > 0 {
        let ghost before = done@;
        let ghost last = cur@;
        done.push(cur);
        assert(bytes_seqs(done@) == bytes_seqs(before).push(last));
    }
    done
}

/// The segments of a request path: the non-empty pieces between slashes.
pub open spec fn path_segments(path: Seq<u8>) -> Seq<Seq<u8>> {
    split_nonempty(path, SLASH)
}

/// Splits a request path into its segments; empty segments (`//`, a trailing `/`) are dropped.
pub fn split_path(path: &str) -> (r: Vec<Vec<u8>>)
    ensures
        bytes_seqs(r@) == path_segments(path.spec_bytes()),
{
    split_bytes(path.as_bytes(), SLASH)
}

} // verus!
