//! The fixed-column ATOM records of a structure file, one line at a time.
use vstd::prelude::*;
use crate::plane::COORD_LIMIT;

verus! {

pub open spec fn is_space(b: u8) -> bool {
    b == 32 || (9 <= b && b <= 13)
}

pub open spec fn is_digit(b: u8) -> bool {
    48 <= b && b <= 57
}

pub open spec fn all_digits(s: Seq<u8>) -> bool {
    forall|k: int| 0 <= k < s.len() ==> is_digit(#[trigger] s[k])
}

/// Columns `lo .. hi` of a line, or nothing where the line is shorter.
pub open spec fn field(line: Seq<u8>, lo: int, hi: int) -> Seq<u8> {
    if hi <= line.len() { line.subrange(lo, hi) } else { Seq::empty() }
}

pub open spec fn trim_start(s: Seq<u8>) -> Seq<u8>
    decreases s.len(),
{
    if s.len() > 0 && is_space(s[0]) { trim_start(s.drop_first()) } else { s }
}

pub open spec fn trim_end(s: Seq<u8>) -> Seq<u8>
    decreases s.len(),
{
    if s.len() > 0 && is_space(s.last()) { trim_end(s.drop_last()) } else { s }
}

/// `s` without leading and trailing white space.
pub open spec fn trim(s: Seq<u8>) -> Seq<u8> {
    trim_end(trim_start(s))
}

/// The number that a run of decimal digits spells.
pub open spec fn digits_value(s: Seq<u8>) -> int
    decreases s.len(),
{
    if s.len() == 0 { 0 } else { digits_value(s.drop_last()) * 10 + (s.last() - 48) }
}

/// Whether the text starts with a minus sign, and the text after any sign.
pub open spec fn split_sign(t: Seq<u8>) -> (bool, Seq<u8>) {
    if t.len() > 0 && t[0] == 45 {
        (true, t.drop_first())
    } else if t.len() > 0 && t[0] == 43 {
        (false, t.drop_first())
    } else {
        (false, t)
    }
}

pub open spec fn negate_if(neg: bool, v: int) -> int {
    if neg { -v } else { v }
}

/// A signed decimal integer that fits an `i32`.
pub open spec fn i32_value(t: Seq<u8>) -> Option<int> {
    let (neg, d) = split_sign(t);
    let v = negate_if(neg, digits_value(d));
    if d.len() > 0 && all_digits(d) && i32::MIN <= v <= i32::MAX { Some(v) } else { None }
}

/// The decimal point sits at `p` of `d`, with digits before it and at most
/// three digits after it.
pub open spec fn point_at(d: Seq<u8>, p: int) -> bool {
    &&& 0 <= p < d.len()
    &&& d[p] == 46
    &&& all_digits(d.subrange(0, p))
    &&& all_digits(d.subrange(p + 1, d.len() as int))
    &&& d.len() - p - 1 <= 3
    &&& d.len() >= 2
}

pub open spec fn scale_of(frac_len: int) -> int {
    if frac_len == 0 { 1000 } else if frac_len == 1 { 100 } else if frac_len == 2 { 10 } else { 1 }
}

/// The thousandths in an unsigned decimal number with at most three places.
pub open spec fn unsigned_thousandths(d: Seq<u8>) -> Option<int> {
    if d.len() > 0 && all_digits(d) {
        Some(digits_value(d) * 1000)
    } else if exists|p: int| point_at(d, p) {
        let p = choose|p: int| point_at(d, p);
        let frac = d.subrange(p + 1, d.len() as int);
        Some(digits_value(d.subrange(0, p)) * 1000 + digits_value(frac) * scale_of(frac.len() as int))
    } else {
        None
    }
}

/// The thousandths in a decimal number with at most three places
/// (`-12.5` is `-12500`).
pub open spec fn thousandths(t: Seq<u8>) -> Option<int> {
    let (neg, d) = split_sign(t);
    match unsigned_thousandths(d) {
        Some(m) => Some(negate_if(neg, m)),
        None => None,
    }
}

/// A coordinate field: a decimal number of thousandths within the coordinate bound.
pub open spec fn coord_value(t: Seq<u8>) -> Option<int> {
    match thousandths(t) {
        Some(v) => if -COORD_LIMIT <= v <= COORD_LIMIT { Some(v) } else { None },
        None => None,
    }
}

/// An `ATOM` record of an alpha carbon.
pub open spec fn is_ca_line(line: Seq<u8>) -> bool {
    &&& line.len() >= 6
    &&& line.subrange(0, 6) == seq![65u8, 84, 79, 77, 32, 32]
    &&& trim(field(line, 12, 16)) == seq![67u8, 65]
}

/// The field of a record that could not be read.
#[derive(Clone, Copy, Debug, PartialEq, Eq, Structural)]
pub enum PdbField {
    Serial,
    ResSeq,
    X,
    Y,
    Z,
}

/// The fields of an alpha-carbon record; coordinates in thousandths of an angstrom.
#[derive(Debug)]
pub struct CaRecord {
    pub serial: i32,
    pub res_name: Vec<u8>,
    pub chain_id: u8,
    pub res_seq: i32,
    pub x: i64,
    pub y: i64,
    pub z: i64,
}

/// The first field of an alpha-carbon record that cannot be read, if any.
pub open spec fn first_bad_field(line: Seq<u8>) -> Option<PdbField> {
    if i32_value(trim(field(line, 6, 11))).is_none() {
        Some(PdbField::Serial)
    } else if i32_value(trim(field(line, 22, 26))).is_none() {
        Some(PdbField::ResSeq)
    } else if coord_value(trim(field(line, 30, 38))).is_none() {
        Some(PdbField::X)
    } else if coord_value(trim(field(line, 38, 46))).is_none() {
        Some(PdbField::Y)
    } else if coord_value(trim(field(line, 46, 54))).is_none() {
        Some(PdbField::Z)
    } else {
        None
    }
}

proof fn lemma_trim_start_skip(s: Seq<u8>, a: int, b: int)
    requires
        0 <= a < b <= s.len(),
        is_space(s[a]),
    ensures
        trim_start(s.subrange(a, b)) == trim_start(s.subrange(a + 1, b)),
{
    assert(s.subrange(a, b).drop_first() =~= s.subrange(a + 1, b));
}

proof fn lemma_trim_end_skip(s: Seq<u8>, a: int, b: int)
    requires
        0 <= a < b <= s.len(),
        is_space(s[b - 1]),
    ensures
        trim_end(s.subrange(a, b)) == trim_end(s.subrange(a, b - 1)),
{
    assert(s.subrange(a, b).drop_last() =~= s.subrange(a, b - 1));
}

/// The bounds of `trim(field(line, lo, hi))` within `line`.
fn trimmed_field(line: &[u8], lo: usize, hi: usize) -> (r: (usize, usize))
    requires
        lo <= hi,
    ensures
        r.0 <= r.1 <= line@.len(),
        line@.subrange(r.0 as int, r.1 as int) == trim(field(line@, lo as int, hi as int)),
{
    if hi > line.len() {
        assert(line@.subrange(0, 0) =~= Seq::<u8>::empty());
        return (0, 0);
    }
    let mut a = lo;
    while a < hi && (line[a] == 32 || (9 <= line[a] && line[a] <= 13))
        invariant
            lo <= a <= hi <= line@.len(),
            trim_start(line@.subrange(a as int, hi as int)) == trim_start(line@.subrange(lo as int, hi as int)),
        decreases hi - a,
    {
        proof {
            lemma_trim_start_skip(line@, a as int, hi as int);
        }
        a = a + 1;
    }
    assert(trim_start(line@.subrange(a as int, hi as int)) == line@.subrange(a as int, hi as int));
    let mut b = hi;
    while b > a && (line[b - 1] == 32 || (9 <= line[b - 1] && line[b - 1] <= 13))
        invariant
            lo <= a <= b <= hi <= line@.len(),
            trim_end(line@.subrange(a as int, b as int)) == trim_end(line@.subrange(a as int, hi as int)),
        decreases b - a,
    {
        proof {
            lemma_trim_end_skip(line@, a as int, b as int);
        }
        b = b - 1;
    }
    (a, b)
}

proof fn lemma_digits_step(s: Seq<u8>, a: int, k: int)
    requires
        0 <= a <= k < s.len(),
    ensures
        digits_value(s.subrange(a, k + 1)) == digits_value(s.subrange(a, k)) * 10 + (s[k] - 48),
{
    assert(s.subrange(a, k + 1).drop_last() =~= s.subrange(a, k));
}

proof fn lemma_digits_grow(s: Seq<u8>, a: int, k: int, b: int)
    requires
        0 <= a <= k <= b <= s.len(),
        all_digits(s.subrange(a, b)),
    ensures
        digits_value(s.subrange(a, k)) <= digits_value(s.subrange(a, b)),
    decreases b - k,
{
    if k < b {
        lemma_digits_grow(s, a, k + 1, b);
        lemma_digits_step(s, a, k);
        assert(s.subrange(a, b)[k - a] == s[k]);
        lemma_digits_nonneg(s.subrange(a, k));
    }
}

pub open spec fn pow10(n: nat) -> int
    decreases n,
{
    if n == 0 { 1 } else { 10 * pow10((n - 1) as nat) }
}

proof fn lemma_digits_upper(s: Seq<u8>)
    requires
        all_digits(s),
    ensures
        digits_value(s) < pow10(s.len()),
        s.len() <= 3 ==> digits_value(s) <= 999,
    decreases s.len(),
{
    if s.len() > 0 {
        assert(all_digits(s.drop_last()));
        lemma_digits_upper(s.drop_last());
        assert(is_digit(s[s.len() - 1]));
    }
    if s.len() <= 3 {
        assert(pow10(0) == 1);
        assert(pow10(1) == 10);
        assert(pow10(2) == 100);
        assert(pow10(3) == 1000);
    }
}

proof fn lemma_digits_nonneg(s: Seq<u8>)
    requires
        all_digits(s),
    ensures
        digits_value(s) >= 0,
    decreases s.len(),
{
    if s.len() > 0 {
        assert(all_digits(s.drop_last()));
        lemma_digits_nonneg(s.drop_last());
    }
}

/// The digits of `line[a..b]`, when they all are digits and spell at most `limit`.
fn digits_within(line: &[u8], a: usize, b: usize, limit: i64) -> (r: Option<i64>)
    requires
        a <= b <= line@.len(),
        0 <= limit <= 1000000000000,
    ensures
        r matches Some(v) ==> all_digits(line@.subrange(a as int, b as int))
            && v == digits_value(line@.subrange(a as int, b as int)) && 0 <= v <= limit,
        r is None ==> !all_digits(line@.subrange(a as int, b as int))
            || digits_value(line@.subrange(a as int, b as int)) > limit,
{
    let mut v: i64 = 0;
    let mut k = a;
    while k < b
        invariant
            a <= k <= b <= line@.len(),
            0 <= limit <= 1000000000000,
            all_digits(line@.subrange(a as int, k as int)),
            v == digits_value(line@.subrange(a as int, k as int)),
            0 <= v <= limit,
        decreases b - k,
    {
        let c = line[k];
        if c < 48 || c > 57 {
            assert(line@.subrange(a as int, b as int)[k - a] == c);
            return None;
        }
        proof {
            lemma_digits_step(line@, a as int, k as int);
            assert(line@.subrange(a as int, k as int + 1) =~= line@.subrange(a as int, k as int).push(c));
        }
        v = v * 10 + (c - 48) as i64;
        k = k + 1;
        if v > limit {
            proof {
                if all_digits(line@.subrange(a as int, b as int)) {
                    lemma_digits_grow(line@, a as int, k as int, b as int);
                }
            }
            return None;
        }
    }
    Some(v)
}

/// Reads `line[a..b]` as a signed decimal integer that fits an `i32`.
fn parse_i32(line: &[u8], a: usize, b: usize) -> (r: Option<i32>)
    requires
        a <= b <= line@.len(),
    ensures
        r matches Some(v) ==> i32_value(line@.subrange(a as int, b as int)) == Some(v as int),
        r is None ==> i32_value(line@.subrange(a as int, b as int)) is None,
{
    let ghost t = line@.subrange(a as int, b as int);
    let mut start = a;
    let mut neg = false;
    if a < b && line[a] == 45 {
        neg = true;
        start = a + 1;
    } else if a < b && line[a] == 43 {
        start = a + 1;
    }
    assert(split_sign(t).1 =~= line@.subrange(start as int, b as int));
    assert(split_sign(t).0 == neg);
    if start == b {
        return None;
    }
    let limit: i64 = if neg { 2147483648 } else { 2147483647 };
    match digits_within(line, start, b, limit) {
        Some(v) => {
            let s: i64 = if neg { -v } else { v };
            Some(s as i32)
        },
        None => None,
    }
}

proof fn lemma_point_unique(d: Seq<u8>, p: int, q: int)
    requires
        point_at(d, p),
        point_at(d, q),
    ensures
        p == q,
{
    if p < q {
        assert(d.subrange(0, q)[p] == d[p]);
    }
    if q < p {
        assert(d.subrange(0, p)[q] == d[q]);
    }
}

/// Reads `line[a..k]`, all digits, then a point and at most three digits up
/// to `b`, in thousandths, where that is at most `COORD_LIMIT`.
fn parse_point_form(line: &[u8], a: usize, k: usize, b: usize) -> (r: Option<i64>)
    requires
        a <= k < b <= line@.len(),
        all_digits(line@.subrange(a as int, k as int)),
        !is_digit(line@[k as int]),
    ensures
        r matches Some(m) ==> unsigned_thousandths(line@.subrange(a as int, b as int)) == Some(m as int)
            && 0 <= m <= COORD_LIMIT,
        r is None ==> match unsigned_thousandths(line@.subrange(a as int, b as int)) {
            Some(m) => m > COORD_LIMIT,
            None => true,
        },
{
    let ghost d = line@.subrange(a as int, b as int);
    let ghost q = k - a;
    proof {
        assert(d[q] == line@[k as int]);
        assert(!all_digits(d));
        if exists|p: int| point_at(d, p) {
            let p = choose|p: int| point_at(d, p);
            if p < q {
                assert(line@.subrange(a as int, k as int)[p] == d[p]);
            }
            if p > q {
                assert(d.subrange(0, p)[q] == d[q]);
            }
        }
    }
    if line[k] != 46 || b - k - 1 > 3 || b - a < 2 {
        return None;
    }
    assert(d.subrange(0, q) =~= line@.subrange(a as int, k as int));
    assert(d.subrange(q + 1, d.len() as int) =~= line@.subrange(k + 1, b as int));
    let frac = digits_within(line, k + 1, b, 999);
    if frac.is_none() {
        proof {
            if all_digits(line@.subrange(k + 1, b as int)) {
                lemma_digits_upper(line@.subrange(k + 1, b as int));
            }
        }
        return None;
    }
    let fv = frac.unwrap();
    proof {
        assert(point_at(d, q));
        let p = choose|p: int| point_at(d, p);
        lemma_point_unique(d, p, q);
    }
    let int_part = digits_within(line, a, k, 16777);
    if int_part.is_none() {
        proof {
            let iv = digits_value(d.subrange(0, q));
            let sc = scale_of(b - k - 1);
            assert(iv * 1000 + fv * sc > COORD_LIMIT) by (nonlinear_arith)
                requires iv > 16777, fv >= 0, sc >= 1;
            assert(unsigned_thousandths(d) == Some(iv * 1000 + fv * sc));
        }
        return None;
    }
    let iv = int_part.unwrap();
    let flen = b - k - 1;
    let fm: i64 = if flen == 0 { fv * 1000 } else if flen == 1 { fv * 100 } else if flen == 2 { fv * 10 } else { fv };
    let m: i64 = iv * 1000 + fm;
    if m > COORD_LIMIT {
        return None;
    }
    Some(m)
}

/// Reads `line[a..b]` as an unsigned decimal number with at most three places,
/// in thousandths, where that is at most `COORD_LIMIT`.
fn parse_magnitude(line: &[u8], a: usize, b: usize) -> (r: Option<i64>)
    requires
        a < b <= line@.len(),
    ensures
        r matches Some(m) ==> unsigned_thousandths(line@.subrange(a as int, b as int)) == Some(m as int)
            && 0 <= m <= COORD_LIMIT,
        r is None ==> match unsigned_thousandths(line@.subrange(a as int, b as int)) {
            Some(m) => m > COORD_LIMIT,
            None => true,
        },
{
    let ghost d = line@.subrange(a as int, b as int);
    let mut k = a;
    while k < b && 48 <= line[k] && line[k] <= 57
        invariant
            a <= k <= b <= line@.len(),
            all_digits(line@.subrange(a as int, k as int)),
        decreases b - k,
    {
        assert(line@.subrange(a as int, k as int + 1) =~= line@.subrange(a as int, k as int).push(line[k as int]));
        k = k + 1;
    }
    if k < b {
        return parse_point_form(line, a, k, b);
    }
    match digits_within(line, a, b, 16777) {
        Some(v) => Some(v * 1000),
        None => {
            proof {
                let dv = digits_value(d);
                assert(dv * 1000 > COORD_LIMIT) by (nonlinear_arith)
                    requires dv > 16777;
            }
            None
        },
    }
}

/// Reads `line[a..b]` as a decimal number with at most three places, in
/// thousandths, within the coordinate bound.
fn parse_coord(line: &[u8], a: usize, b: usize) -> (r: Option<i64>)
    requires
        a <= b <= line@.len(),
    ensures
        r matches Some(v) ==> coord_value(line@.subrange(a as int, b as int)) == Some(v as int),
        r is None ==> coord_value(line@.subrange(a as int, b as int)) is None,
{
    let ghost t = line@.subrange(a as int, b as int);
    let mut start = a;
    let mut neg = false;
    if a < b && line[a] == 45 {
        neg = true;
        start = a + 1;
    } else if a < b && line[a] == 43 {
        start = a + 1;
    }
    assert(split_sign(t).1 =~= line@.subrange(start as int, b as int));
    assert(split_sign(t).0 == neg);
    if start == b {
        return None;
    }
    match parse_magnitude(line, start, b) {
        Some(m) => Some(if neg { -m } else { m }),
        None => None,
    }
}

/// The bytes `line[a..b]`.
fn copy_range(line: &[u8], a: usize, b: usize) -> (r: Vec<u8>)
    requires
        a <= b <= line@.len(),
    ensures
        r@ == line@.subrange(a as int, b as int),
{
    let mut out: Vec<u8> = Vec::new();
    let mut k = a;
    while k < b
        invariant
            a <= k <= b <= line@.len(),
            out@ == line@.subrange(a as int, k as int),
        decreases b - k,
    {
        out.push(line[k]);
        k = k + 1;
        assert(out@ =~= line@.subrange(a as int, k as int));
    }
    out
}

/// The chain identifier in column 21, a space where the line is shorter.
pub open spec fn chain_id_of(line: Seq<u8>) -> u8 {
    if line.len() >= 22 { line[21] } else { 32 }
}

/// Reads one line of a structure file. A line that is not the `ATOM` record
/// of an alpha carbon gives `Ok(None)`; in one that is, the first field that
/// cannot be read gives its error, else all fields are returned.
pub fn parse_ca_line(line: &[u8]) -> (r: Result<Option<CaRecord>, PdbField>)
    ensures
        !is_ca_line(line@) ==> (r matches Ok(None)),
        is_ca_line(line@) ==> (r is Err <==> first_bad_field(line@) is Some),
        r matches Err(f) ==> first_bad_field(line@) == Some(f),
        is_ca_line(line@) && first_bad_field(line@) is None ==> (r matches Ok(Some(rec))
            && i32_value(trim(field(line@, 6, 11))) == Some(rec.serial as int)
            && i32_value(trim(field(line@, 22, 26))) == Some(rec.res_seq as int)
            && coord_value(trim(field(line@, 30, 38))) == Some(rec.x as int)
            && coord_value(trim(field(line@, 38, 46))) == Some(rec.y as int)
            && coord_value(trim(field(line@, 46, 54))) == Some(rec.z as int)
            && rec.res_name@ == trim(field(line@, 17, 20))
            && rec.chain_id == chain_id_of(line@)),
{
    if line.len() < 6 || line[0] != 65 || line[1] != 84 || line[2] != 79 || line[3] != 77
        || line[4] != 32 || line[5] != 32 {
        proof {
            if line@.len() >= 6 && line@.subrange(0, 6) == seq![65u8, 84, 79, 77, 32, 32] {
                assert(line@.subrange(0, 6)[0] == line@[0]);
                assert(line@.subrange(0, 6)[1] == line@[1]);
                assert(line@.subrange(0, 6)[2] == line@[2]);
                assert(line@.subrange(0, 6)[3] == line@[3]);
                assert(line@.subrange(0, 6)[4] == line@[4]);
                assert(line@.subrange(0, 6)[5] == line@[5]);
            }
        }
        return Ok(None);
    }
    assert(line@.subrange(0, 6) =~= seq![65u8, 84, 79, 77, 32, 32]);
    let (na, nb) = trimmed_field(line, 12, 16);
    if nb - na != 2 || line[na] != 67 || line[na + 1] != 65 {
        proof {
            let t = line@.subrange(na as int, nb as int);
            let ca = seq![67u8, 65];
            assert(ca.len() == 2 && ca[0] == 67 && ca[1] == 65);
            if t == ca {
                assert(t.len() == 2);
                assert(t[0] == line@[na as int]);
                assert(t[1] == line@[na + 1]);
            }
        }
        return Ok(None);
    }
    assert(line@.subrange(na as int, nb as int) =~= seq![67u8, 65]);
    let (sa, sb) = trimmed_field(line, 6, 11);
    let serial = match parse_i32(line, sa, sb) {
        Some(v) => v,
        None => return Err(PdbField::Serial),
    };
    let (qa, qb) = trimmed_field(line, 22, 26);
    let res_seq = match parse_i32(line, qa, qb) {
        Some(v) => v,
        None => return Err(PdbField::ResSeq),
    };
    let (xa, xb) = trimmed_field(line, 30, 38);
    let x = match parse_coord(line, xa, xb) {
        Some(v) => v,
        None => return Err(PdbField::X),
    };
    let (ya, yb) = trimmed_field(line, 38, 46);
    let y = match parse_coord(line, ya, yb) {
        Some(v) => v,
        None => return Err(PdbField::Y),
    };
    let (za, zb) = trimmed_field(line, 46, 54);
    let z = match parse_coord(line, za, zb) {
        Some(v) => v,
        None => return Err(PdbField::Z),
    };
    let (ra, rb) = trimmed_field(line, 17, 20);
    let res_name = copy_range(line, ra, rb);
    let chain_id: u8 = if line.len() >= 22 { line[21] } else { 32 };
    Ok(Some(CaRecord { serial, res_name, chain_id, res_seq, x, y, z }))
}

} // verus!
