use vstd::prelude::*;
use vstd::string::StringSliceAdditionalSpecFns;
use crate::path::{bytes_seqs, split_bytes, split_nonempty};
use crate::tree::{bytes_eq, captures_view, copy_bytes, slice_from, Capture};

verus! {

/// The byte `&` that separates query pairs.
pub const AMP: u8 = 0x26;

/// The byte `=` between a key and its value.
pub const EQ: u8 = 0x3d;

/// The byte `+`, which stands for a space.
pub const PLUS: u8 = 0x2b;

/// The byte `%` that opens an escape of two hex digits.
pub const PERCENT: u8 = 0x25;

/// The value of a hex digit, if `b` is one.
pub open spec fn hex_value(b: u8) -> Option<u8> {
    if 0x30 <= b <= 0x39 {
        Some((b - 0x30) as u8)
    } else if 0x41 <= b <= 0x46 {
        Some((b - 0x41 + 10) as u8)
    } else if 0x61 <= b <= 0x66 {
        Some((b - 0x61 + 10) as u8)
    } else {
        None
    }
}

/// Reads one hex digit.
pub fn hex_digit(b: u8) -> (r: Option<u8>)
    ensures
        r == hex_value(b),
{
    if 0x30 <= b && b <= 0x39 {
        Some(b - 0x30)
    } else if 0x41 <= b && b <= 0x46 {
        Some(b - 0x41 + 10)
    } else if 0x61 <= b && b <= 0x66 {
        Some(b - 0x61 + 10)
    } else {
        None
    }
}

/// Form decoding: `+` is a space, `%` and two hex digits is that byte, anything else
/// stands for itself.
pub open spec fn form_decode(s: Seq<u8>) -> Seq<u8>
    decreases s.len(),
{
    if s.len() == 0 {
        seq![]
    } else if s[0] == PLUS {
        seq![0x20u8] + form_decode(s.drop_first())
    } else if s[0] == PERCENT && s.len() >= 3 && hex_value(s[1]) is Some && hex_value(s[2]) is Some {
        seq![(hex_value(s[1]).unwrap() * 16 + hex_value(s[2]).unwrap()) as u8]
            + form_decode(s.subrange(3, s.len() as int))
    } else {
        seq![s[0]] + form_decode(s.drop_first())
    }
}

/// Decodes a form-encoded byte string.
pub fn decode(s: &[u8]) -> (r: Vec<u8>)
    ensures
        r@ == form_decode(s@),
{
    let mut out: Vec<u8> = Vec::new();
    let mut i: usize = 0;
    assert(s@.subrange(0, s@.len() as int) =~= s@);
    assert(out@ + form_decode(s@) =~= form_decode(s@));
    while i < s.len()
        invariant
            i <= s@.len(),
            out@ + form_decode(s@.subrange(i as int, s@.len() as int)) == form_decode(s@),
        decreases s@.len() - i,
    {
        let ghost rest = s@.subrange(i as int, s@.len() as int);
        let ghost before = out@;
        let b = s[i];
        if b == PLUS {
            out.push(0x20u8);
            assert(rest.drop_first() =~= s@.subrange(i + 1, s@.len() as int));
            assert(out@ + form_decode(rest.drop_first()) =~= before + form_decode(rest));
            i = i + 1;
        } else {
            let mut escaped: Option<u8> = None;
            if b == PERCENT && s.len() - i >= 3 {
                match (hex_digit(s[i + 1]), hex_digit(s[i + 2])) {
                    (Some(h), Some(l)) => {
                        escaped = Some(h * 16 + l);
                    },
                    _ => {},
                }
            }
            match escaped {
                Some(v) => {
                    out.push(v);
                    assert(rest.subrange(3, rest.len() as int) =~= s@.subrange(i + 3, s@.len() as int));
                    assert(out@ + form_decode(rest.subrange(3, rest.len() as int)) =~= before + form_decode(rest));
                    i = i + 3;
                },
                None => {
                    out.push(b);
                    assert(rest.drop_first() =~= s@.subrange(i + 1, s@.len() as int));
                    assert(out@ + form_decode(rest.drop_first()) =~= before + form_decode(rest));
                    i = i + 1;
                },
            }
        }
    }
    assert(s@.subrange(i as int, s@.len() as int) =~= Seq::<u8>::empty());
    assert(out@ + seq![] =~= out@);
    out
}

/// The position of the first `b` in `s` from `i` on, or the length when there is none.
pub open spec fn first_index(s: Seq<u8>, b: u8, i: int) -> int
    decreases s.len() - i,
{
    if i >= s.len() {
        s.len() as int
    } else if s[i] == b {
        i
    } else {
        first_index(s, b, i + 1)
    }
}

/// One `key=value` pair of a query, decoded; a pair without `=` has an empty value.
pub open spec fn pair_of(p: Seq<u8>) -> (Seq<u8>, Seq<u8>) {
    let e = first_index(p, EQ, 0);
    (
        form_decode(p.subrange(0, e)),
        form_decode(if e < p.len() { p.subrange(e + 1, p.len() as int) } else { seq![] }),
    )
}

/// The decoded pairs of a query string, in order; empty pieces between `&` are skipped.
pub open spec fn query_pairs(q: Seq<u8>) -> Seq<(Seq<u8>, Seq<u8>)> {
    decode_pairs(split_nonempty(q, AMP))
}

/// Each raw piece decoded into its pair.
pub open spec fn decode_pairs(ps: Seq<Seq<u8>>) -> Seq<(Seq<u8>, Seq<u8>)> {
    ps.map_values(|p: Seq<u8>| pair_of(p))
}

/// What a list of byte-vector pairs holds.
pub open spec fn pairs_view(v: Seq<(Vec<u8>, Vec<u8>)>) -> Seq<(Seq<u8>, Seq<u8>)> {
    v.map_values(|p: (Vec<u8>, Vec<u8>)| (p.0@, p.1@))
}

/// The values given for `key`, in order.
pub open spec fn values_of(pairs: Seq<(Seq<u8>, Seq<u8>)>, key: Seq<u8>) -> Seq<Seq<u8>>
    decreases pairs.len(),
{
    if pairs.len() == 0 {
        seq![]
    } else if pairs[0].0 == key {
        seq![pairs[0].1] + values_of(pairs.drop_first(), key)
    } else {
        values_of(pairs.drop_first(), key)
    }
}

/// A decoded query: each key with its values, in the order the pairs came.
pub struct QueryPairs {
    pub pairs: Vec<(Vec<u8>, Vec<u8>)>,
}

impl View for QueryPairs {
    type V = Seq<(Seq<u8>, Seq<u8>)>;

    open spec fn view(&self) -> Seq<(Seq<u8>, Seq<u8>)> {
        pairs_view(self.pairs@)
    }
}

/// Finds the first `b` in `s` from `i` on.
fn find_byte(s: &[u8], b: u8) -> (r: usize)
    ensures
        r == first_index(s@, b, 0),
{
    let mut i: usize = 0;
    while i < s.len()
        invariant
            i <= s@.len(),
            first_index(s@, b, 0) == first_index(s@, b, i as int),
        decreases s@.len() - i,
    {
        if s[i] == b {
            return i;
        }
        i = i + 1;
    }
    i
}

/// Takes the bytes of `s` before position `e`.
fn prefix(s: &[u8], e: usize) -> (r: Vec<u8>)
    requires
        e <= s@.len(),
    ensures
        r@ == s@.subrange(0, e as int),
{
    let mut r: Vec<u8> = Vec::new();
    let mut k: usize = 0;
    while k < e
        invariant
            k <= e <= s@.len(),
            r@ == s@.subrange(0, k as int),
        decreases e - k,
    {
        r.push(s[k]);
        k = k + 1;
        assert(r@ =~= s@.subrange(0, k as int));
    }
    r
}

/// Splits one piece of a query into its decoded key and value.
pub fn split_pair(p: &[u8]) -> (r: (Vec<u8>, Vec<u8>))
    ensures
        (r.0@, r.1@) == pair_of(p@),
{
    let e = find_byte(p, EQ);
    proof { lemma_first_index_bound(p@, EQ, 0); }
    let key = decode(prefix(p, e).as_slice());
    let raw = if e < p.len() { slice_from(p, e + 1) } else { Vec::new() };
    assert(e >= p@.len() ==> raw@ =~= Seq::<u8>::empty());
    let value = decode(raw.as_slice());
    (key, value)
}

proof fn lemma_first_index_bound(s: Seq<u8>, b: u8, i: int)
    requires
        0 <= i,
    ensures
        0 <= first_index(s, b, i) <= s.len(),
    decreases s.len() - i,
{
    if i < s.len() && s[i] != b {
        lemma_first_index_bound(s, b, i + 1);
    }
}

/// Parses a raw query string into its decoded pairs.
pub fn parse_query(query: &str) -> (r: QueryPairs)
    ensures
        r@ == query_pairs(query.spec_bytes()),
{
    let pieces = split_bytes(query.as_bytes(), AMP);
    let ghost ps = bytes_seqs(pieces@);
    let mut pairs: Vec<(Vec<u8>, Vec<u8>)> = Vec::new();
    let mut i: usize = 0;
    while i < pieces.len()
        invariant
            i <= pieces@.len(),
            ps == bytes_seqs(pieces@),
            pairs@.len() == i,
            ps == split_nonempty(query.spec_bytes(), AMP),
            pairs_view(pairs@)
                == decode_pairs(ps.subrange(0, i as int)),
        decreases pieces@.len() - i,
    {
        let ghost before = pairs@;
        assert(ps[i as int] == pieces@[i as int]@);
        let kv = split_pair(pieces[i].as_slice());
        let ghost kvv = (kv.0@, kv.1@);
        pairs.push(kv);
        assert((pairs@[i as int].0@, pairs@[i as int].1@) == kvv);
        assert forall|k: int| 0 <= k <= i implies
            #[trigger] pairs_view(pairs@)[k]
                == decode_pairs(ps.subrange(0, i + 1))[k] by {
            if k < i {
                assert(pairs@[k] == before[k]);
                assert(pairs_view(before)[k]
                    == decode_pairs(ps.subrange(0, i as int))[k]);
            }
        }
        i = i + 1;
        assert(pairs_view(pairs@)
            =~= decode_pairs(ps.subrange(0, i as int)));
    }
    assert(ps.subrange(0, i as int) =~= ps);
    QueryPairs { pairs }
}

impl QueryPairs {
    /// The first value given for `key`, if any.
    pub fn first_value(&self, key: &[u8]) -> (r: Option<Vec<u8>>)
        ensures
            match r {
                Some(v) => values_of(self@, key@).len() > 0 && v@ == values_of(self@, key@)[0],
                None => values_of(self@, key@).len() == 0,
            },
    {
        let mut i: usize = 0;
        assert(self@.subrange(0, self@.len() as int) =~= self@);
        while i < self.pairs.len()
            invariant
                i <= self@.len(),
                self@.len() == self.pairs@.len(),
                values_of(self@, key@) == values_of(self@.subrange(i as int, self@.len() as int), key@),
            decreases self@.len() - i,
        {
            let ghost rest = self@.subrange(i as int, self@.len() as int);
            assert(rest.drop_first() =~= self@.subrange(i + 1, self@.len() as int));
            assert(rest[0] == (self.pairs@[i as int].0@, self.pairs@[i as int].1@));
            if bytes_eq(self.pairs[i].0.as_slice(), key) {
                return Some(copy_bytes(self.pairs[i].1.as_slice()));
            }
            i = i + 1;
        }
        None
    }
}

/// Whether `b` is an ASCII decimal digit.
pub open spec fn is_digit(b: u8) -> bool {
    0x30 <= b <= 0x39
}

/// The number that a string of decimal digits spells.
pub open spec fn decimal_value(s: Seq<u8>) -> nat
    decreases s.len(),
{
    if s.len() == 0 {
        0
    } else {
        decimal_value(s.drop_last()) * 10 + (if is_digit(s.last()) { (s.last() - 0x30) as nat } else { 0 })
    }
}

/// The `u64` that `s` spells: one or more decimal digits, and nothing else, whose value fits.
pub open spec fn decimal(s: Seq<u8>) -> Option<u64> {
    if s.len() > 0 && (forall|i: int| 0 <= i < s.len() ==> is_digit(#[trigger] s[i]))
        && decimal_value(s) <= u64::MAX {
        Some(decimal_value(s) as u64)
    } else {
        None
    }
}

proof fn lemma_decimal_grows(s: Seq<u8>, i: int, j: int)
    requires
        0 <= i <= j <= s.len(),
    ensures
        decimal_value(s.subrange(0, i)) <= decimal_value(s.subrange(0, j)),
    decreases j - i,
{
    if i < j {
        lemma_decimal_grows(s, i, j - 1);
        assert(s.subrange(0, j).drop_last() =~= s.subrange(0, j - 1));
    }
}

/// Parses a decimal `u64`; `None` for an empty string, a byte that is not a digit, or a
/// value that does not fit.
pub fn parse_u64(s: &[u8]) -> (r: Option<u64>)
    ensures
        r == decimal(s@),
{
    if s.len() == 0 {
        return None;
    }
    let mut v: u64 = 0;
    let mut i: usize = 0;
    assert(s@.subrange(0, 0) =~= Seq::<u8>::empty());
    while i < s.len()
        invariant
            i <= s@.len(),
            v as nat == decimal_value(s@.subrange(0, i as int)),
            forall|k: int| 0 <= k < i ==> is_digit(#[trigger] s@[k]),
        decreases s@.len() - i,
    {
        let b = s[i];
        if b < 0x30 || b > 0x39 {
            assert(!is_digit(s@[i as int]));
            return None;
        }
        let d: u64 = (b - 0x30) as u64;
        assert(s@.subrange(0, i + 1).drop_last() =~= s@.subrange(0, i as int));
        if v > (u64::MAX - d) / 10 {
            assert(v * 10 + d > u64::MAX) by (nonlinear_arith)
                requires v > (u64::MAX - d) / 10, d <= 9;
            proof { lemma_decimal_grows(s@, i + 1, s@.len() as int); }
            assert(s@.subrange(0, s@.len() as int) =~= s@);
            return None;
        }
        assert(v * 10 + d <= u64::MAX) by (nonlinear_arith)
            requires v <= (u64::MAX - d) / 10, d <= 9;
        v = v * 10 + d;
        i = i + 1;
    }
    assert(s@.subrange(0, s@.len() as int) =~= s@);
    Some(v)
}

/// Why typed data could not be read from a query.
#[derive(Clone, Copy, PartialEq, Eq, Structural, Debug)]
pub enum ExtractionError {
    /// The key is absent.
    Missing,
    /// The first value given for the key does not decode into the field's type.
    Malformed,
}

/// The `u64` field `key` of a decoded query: its first value, read as a decimal.
pub open spec fn field_u64(pairs: Seq<(Seq<u8>, Seq<u8>)>, key: Seq<u8>) -> Result<u64, ExtractionError> {
    let vs = values_of(pairs, key);
    if vs.len() == 0 {
        Err(ExtractionError::Missing)
    } else {
        match decimal(vs[0]) {
            Some(n) => Ok(n),
            None => Err(ExtractionError::Malformed),
        }
    }
}

/// Both fields, or the error of the first that fails.
pub open spec fn both_fields(a: Result<u64, ExtractionError>, b: Result<u64, ExtractionError>) -> Result<(u64, u64), ExtractionError> {
    match a {
        Err(e) => Err(e),
        Ok(x) => match b {
            Err(e) => Err(e),
            Ok(y) => Ok((x, y)),
        },
    }
}

impl QueryPairs {
    /// Reads the `u64` field `key`.
    pub fn extract_u64(&self, key: &str) -> (r: Result<u64, ExtractionError>)
        ensures
            r == field_u64(self@, key.spec_bytes()),
    {
        self.extract_u64_bytes(key.as_bytes())
    }

    /// Reads the `u64` field whose name is the bytes `key`.
    pub fn extract_u64_bytes(&self, key: &[u8]) -> (r: Result<u64, ExtractionError>)
        ensures
            r == field_u64(self@, key@),
    {
        match self.first_value(key) {
            None => Err(ExtractionError::Missing),
            Some(v) => match parse_u64(v.as_slice()) {
                Some(n) => Ok(n),
                None => Err(ExtractionError::Malformed),
            },
        }
    }
}

/// Reads a structure of two `u64` fields, named `first` and `second`, from a raw query
/// string (absent when the request has none).
pub fn extract_u64_pair(query: Option<&str>, first: &str, second: &str) -> (r: Result<(u64, u64), ExtractionError>)
    ensures
        r == both_fields(
            field_u64(query_pairs(match query { Some(q) => q.spec_bytes(), None => seq![] }), first.spec_bytes()),
            field_u64(query_pairs(match query { Some(q) => q.spec_bytes(), None => seq![] }), second.spec_bytes()),
        ),
{
    let q = match query {
        Some(q) => q,
        None => "",
    };
    proof { reveal_strlit(""); }
    let pairs = parse_query(q);
    let a = pairs.extract_u64(first);
    match a {
        Err(e) => Err(e),
        Ok(x) => match pairs.extract_u64(second) {
            Err(e) => Err(e),
            Ok(y) => Ok((x, y)),
        },
    }
}

/// The values captured under `name`: those of the first capture with that name.
pub open spec fn captured(caps: Seq<(Seq<u8>, Seq<Seq<u8>>)>, name: Seq<u8>) -> Option<Seq<Seq<u8>>>
    decreases caps.len(),
{
    if caps.len() == 0 {
        None
    } else if caps[0].0 == name {
        Some(caps[0].1)
    } else {
        captured(caps.drop_first(), name)
    }
}

/// The `u64` path field `name`: the first value captured under it, read as a decimal.
pub open spec fn path_field_u64(caps: Seq<(Seq<u8>, Seq<Seq<u8>>)>, name: Seq<u8>) -> Result<u64, ExtractionError> {
    match captured(caps, name) {
        Some(vs) => if vs.len() > 0 {
            match decimal(vs[0]) {
                Some(n) => Ok(n),
                None => Err(ExtractionError::Malformed),
            }
        } else {
            Err(ExtractionError::Missing)
        },
        None => Err(ExtractionError::Missing),
    }
}

/// Reads the `u64` path field `name` from the captures of a match.
pub fn extract_path_u64(captures: &Vec<Capture>, name: &str) -> (r: Result<u64, ExtractionError>)
    ensures
        r == path_field_u64(captures_view(captures@), name.spec_bytes()),
{
    extract_path_bytes(captures, name.as_bytes())
}

/// Reads the `u64` path field whose name is the bytes `key`.
pub fn extract_path_bytes(captures: &Vec<Capture>, key: &[u8]) -> (r: Result<u64, ExtractionError>)
    ensures
        r == path_field_u64(captures_view(captures@), key@),
{
    let ghost cv = captures_view(captures@);
    let mut i: usize = 0;
    assert(cv.subrange(0, cv.len() as int) =~= cv);
    while i < captures.len()
        invariant
            i <= captures@.len(),
            cv == captures_view(captures@),
            captured(cv, key@) == captured(cv.subrange(i as int, cv.len() as int), key@),
        decreases captures@.len() - i,
    {
        let ghost rest = cv.subrange(i as int, cv.len() as int);
        assert(rest.drop_first() =~= cv.subrange(i + 1, cv.len() as int));
        assert(rest[0] == captures@[i as int]@);
        let c = &captures[i];
        if bytes_eq(c.name.as_slice(), key) {
            assert(rest[0] == (c.name@, bytes_seqs(c.values@)));
            assert(captured(rest, key@) == Some(bytes_seqs(c.values@)));
            assert(bytes_seqs(c.values@).len() == c.values@.len());
            if c.values.len() == 0 {
                return Err(ExtractionError::Missing);
            }
            assert(bytes_seqs(c.values@)[0] == c.values@[0]@);
            return match parse_u64(c.values[0].as_slice()) {
                Some(n) => Ok(n),
                None => Err(ExtractionError::Malformed),
            };
        }
        i = i + 1;
    }
    Err(ExtractionError::Missing)
}

/// Reads each of `fields` with `read`, in order; the first failure is the result.
pub open spec fn extract_all(fields: Seq<Seq<u8>>, read: spec_fn(Seq<u8>) -> Result<u64, ExtractionError>) -> Result<Seq<u64>, ExtractionError>
    decreases fields.len(),
{
    if fields.len() == 0 {
        Ok(seq![])
    } else {
        match read(fields[0]) {
            Err(e) => Err(e),
            Ok(v) => match extract_all(fields.drop_first(), read) {
                Ok(vs) => Ok(seq![v] + vs),
                Err(e) => Err(e),
            },
        }
    }
}

/// Reads a `u64` path field from the captures `caps`.
pub open spec fn path_reader(caps: Seq<(Seq<u8>, Seq<Seq<u8>>)>) -> spec_fn(Seq<u8>) -> Result<u64, ExtractionError> {
    |f: Seq<u8>| path_field_u64(caps, f)
}

/// Reads the `u64` path fields `fields`, in order, from the captures of a match.
pub fn extract_path_fields(captures: &Vec<Capture>, fields: &Vec<Vec<u8>>) -> (r: Result<Vec<u64>, ExtractionError>)
    ensures
        match r {
            Ok(v) => extract_all(bytes_seqs(fields@), path_reader(captures_view(captures@))) == Ok::<Seq<u64>, ExtractionError>(v@),
            Err(e) => extract_all(bytes_seqs(fields@), path_reader(captures_view(captures@))) == Err::<Seq<u64>, ExtractionError>(e),
        },
{
    let ghost read = path_reader(captures_view(captures@));
    let ghost fs = bytes_seqs(fields@);
    let mut out: Vec<u64> = Vec::new();
    let mut i: usize = 0;
    assert(fs.subrange(0, fs.len() as int) =~= fs);
    while i < fields.len()
        invariant
            i <= fields@.len(),
            fs == bytes_seqs(fields@),
            read == path_reader(captures_view(captures@)),
            extract_all(fs, read) == match extract_all(fs.subrange(i as int, fs.len() as int), read) {
                Ok(vs) => Ok::<Seq<u64>, ExtractionError>(out@ + vs),
                Err(e) => Err(e),
            },
        decreases fields@.len() - i,
    {
        let ghost rest = fs.subrange(i as int, fs.len() as int);
        assert(rest.drop_first() =~= fs.subrange(i + 1, fs.len() as int));
        assert(rest[0] == fields@[i as int]@);
        let f = &fields[i];
        let name = f.as_slice();
        let got = extract_path_bytes(captures, name);
        assert(read(rest[0]) == path_field_u64(captures_view(captures@), name@));
        assert(read(rest[0]) == got);
        match got {
            Err(e) => {
                assert(extract_all(rest, read) == Err::<Seq<u64>, ExtractionError>(e));
                return Err(e);
            },
            Ok(v) => {
                let ghost before = out@;
                out.push(v);
                proof {
                    let next = fs.subrange(i + 1, fs.len() as int);
                    match extract_all(next, read) {
                        Ok(vs) => {
                            assert(extract_all(rest, read) == Ok::<Seq<u64>, ExtractionError>(seq![v] + vs));
                            assert(before + (seq![v] + vs) =~= out@ + vs);
                        },
                        Err(e) => {
                            assert(extract_all(rest, read) == Err::<Seq<u64>, ExtractionError>(e));
                        },
                    }
                }
                i = i + 1;
            },
        }
    }
    assert(fs.subrange(i as int, fs.len() as int) =~= Seq::<Seq<u8>>::empty());
    assert(out@ + seq![] =~= out@);
    Ok(out)
}

/// Reads a `u64` query field from the decoded pairs `pairs`.
pub open spec fn query_reader(pairs: Seq<(Seq<u8>, Seq<u8>)>) -> spec_fn(Seq<u8>) -> Result<u64, ExtractionError> {
    |f: Seq<u8>| field_u64(pairs, f)
}

/// Reads the `u64` query fields `fields`, in order, from a raw query string (absent
/// when the request has none).
pub fn extract_query_fields(query: Option<&str>, fields: &Vec<Vec<u8>>) -> (r: Result<Vec<u64>, ExtractionError>)
    ensures
        match r {
            Ok(v) => extract_all(bytes_seqs(fields@), query_reader(query_pairs(match query { Some(q) => q.spec_bytes(), None => seq![] })))
                == Ok::<Seq<u64>, ExtractionError>(v@),
            Err(e) => extract_all(bytes_seqs(fields@), query_reader(query_pairs(match query { Some(q) => q.spec_bytes(), None => seq![] })))
                == Err::<Seq<u64>, ExtractionError>(e),
        },
{
    let q = match query {
        Some(q) => q,
        None => "",
    };
    proof { reveal_strlit(""); }
    let pairs = parse_query(q);
    let ghost read = query_reader(pairs@);
    assert(pairs@ == query_pairs(match query { Some(q) => q.spec_bytes(), None => seq![] }));
    let ghost fs = bytes_seqs(fields@);
    let mut out: Vec<u64> = Vec::new();
    let mut i: usize = 0;
    assert(fs.subrange(0, fs.len() as int) =~= fs);
    while i < fields.len()
        invariant
            i <= fields@.len(),
            fs == bytes_seqs(fields@),
            read == query_reader(pairs@),
            read == query_reader(query_pairs(match query { Some(q) => q.spec_bytes(), None => seq![] })),
            extract_all(fs, read) == match extract_all(fs.subrange(i as int, fs.len() as int), read) {
                Ok(vs) => Ok::<Seq<u64>, ExtractionError>(out@ + vs),
                Err(e) => Err(e),
            },
        decreases fields@.len() - i,
    {
        let ghost rest = fs.subrange(i as int, fs.len() as int);
        assert(rest.drop_first() =~= fs.subrange(i + 1, fs.len() as int));
        assert(rest[0] == fields@[i as int]@);
        let name = fields[i].as_slice();
        let got = pairs.extract_u64_bytes(name);
        assert(read(rest[0]) == got);
        match got {
            Err(e) => {
                assert(extract_all(rest, read) == Err::<Seq<u64>, ExtractionError>(e));
                return Err(e);
            },
            Ok(v) => {
                let ghost before = out@;
                out.push(v);
                proof {
                    let next = fs.subrange(i + 1, fs.len() as int);
                    match extract_all(next, read) {
                        Ok(vs) => {
                            assert(extract_all(rest, read) == Ok::<Seq<u64>, ExtractionError>(seq![v] + vs));
                            assert(before + (seq![v] + vs) =~= out@ + vs);
                        },
                        Err(e) => {
                            assert(extract_all(rest, read) == Err::<Seq<u64>, ExtractionError>(e));
                        },
                    }
                }
                i = i + 1;
            },
        }
    }
    assert(fs.subrange(i as int, fs.len() as int) =~= Seq::<Seq<u8>>::empty());
    assert(out@ + seq![] =~= out@);
    Ok(out)
}

/// The text path field `name`: the first value captured under it.
pub open spec fn path_field_text(caps: Seq<(Seq<u8>, Seq<Seq<u8>>)>, name: Seq<u8>) -> Result<Seq<u8>, ExtractionError> {
    match captured(caps, name) {
        Some(vs) => if vs.len() > 0 { Ok(vs[0]) } else { Err(ExtractionError::Missing) },
        None => Err(ExtractionError::Missing),
    }
}

/// Reads the text path field `name` from the captures of a match.
pub fn extract_path_text(captures: &Vec<Capture>, name: &str) -> (r: Result<Vec<u8>, ExtractionError>)
    ensures
        match r {
            Ok(v) => path_field_text(captures_view(captures@), name.spec_bytes()) == Ok::<Seq<u8>, ExtractionError>(v@),
            Err(e) => path_field_text(captures_view(captures@), name.spec_bytes()) == Err::<Seq<u8>, ExtractionError>(e),
        },
{
    let key = name.as_bytes();
    let ghost cv = captures_view(captures@);
    let mut i: usize = 0;
    assert(cv.subrange(0, cv.len() as int) =~= cv);
    while i < captures.len()
        invariant
            i <= captures@.len(),
            cv == captures_view(captures@),
            key@ == name.spec_bytes(),
            captured(cv, key@) == captured(cv.subrange(i as int, cv.len() as int), key@),
        decreases captures@.len() - i,
    {
        let ghost rest = cv.subrange(i as int, cv.len() as int);
        assert(rest.drop_first() =~= cv.subrange(i + 1, cv.len() as int));
        assert(rest[0] == captures@[i as int]@);
        let c = &captures[i];
        if bytes_eq(c.name.as_slice(), key) {
            assert(rest[0] == (c.name@, bytes_seqs(c.values@)));
            assert(captured(rest, key@) == Some(bytes_seqs(c.values@)));
            assert(bytes_seqs(c.values@).len() == c.values@.len());
            if c.values.len() == 0 {
                return Err(ExtractionError::Missing);
            }
            assert(bytes_seqs(c.values@)[0] == c.values@[0]@);
            return Ok(copy_bytes(c.values[0].as_slice()));
        }
        i = i + 1;
    }
    Err(ExtractionError::Missing)
}

} // verus!
