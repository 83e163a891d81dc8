//! The vertex stream reader: splits the point-cloud text into lines, skips
//! the header up to and including the `end_header` marker, and parses each
//! data line's first three whitespace-separated decimal tokens into a
//! fixed-point vertex.
//!
//! A numeric token is an optional sign, one to twelve integer digits, and
//! optionally a dot followed by at least one fraction digit; fraction digits
//! beyond the sixth are read but do not contribute (the value is held in
//! millionths). Anything else on a data line's first three fields is
//! `MalformedVertex`.

use vstd::prelude::*;
use crate::PcError;
use crate::vertex::{Vertex, COORD_LIMIT};

verus! {

/// Whitespace that separates tokens: space, tab or carriage return.
pub open spec fn is_ws(c: u8) -> bool {
    c == 32 || c == 9 || c == 13
}

/// An ASCII decimal digit.
pub open spec fn is_digit(c: u8) -> bool {
    48 <= c <= 57
}

/// Every byte of the sequence is a digit.
pub open spec fn all_digits(s: Seq<u8>) -> bool {
    forall|i: int| 0 <= i < s.len() ==> is_digit(#[trigger] s[i])
}

/// The number the digit sequence denotes, most significant first.
pub open spec fn digits_val(s: Seq<u8>) -> int
    decreases s.len(),
{
    if s.len() == 0 {
        0
    } else {
        10 * digits_val(s.drop_last()) + (s.last() - 48)
    }
}

/// Ten to the `k`.
pub open spec fn pow10(k: nat) -> int
    decreases k,
{
    if k == 0 {
        1
    } else {
        10 * pow10((k - 1) as nat)
    }
}

/// Ten to a larger power is at least as large.
proof fn lemma_pow10_mono(a: nat, b: nat)
    requires
        a <= b,
    ensures
        1 <= pow10(a) <= pow10(b),
    decreases b,
{
    if b > 0 {
        if a == b {
            lemma_pow10_mono((a - 1) as nat, (b - 1) as nat);
        } else {
            lemma_pow10_mono(a, (b - 1) as nat);
        }
    }
}

/// A digit sequence denotes a number below ten to its length.
proof fn lemma_digits_val_bound(s: Seq<u8>)
    requires
        all_digits(s),
    ensures
        0 <= digits_val(s) < pow10(s.len()),
    decreases s.len(),
{
    if s.len() > 0 {
        assert forall|i: int| 0 <= i < s.drop_last().len()
            implies is_digit(#[trigger] s.drop_last()[i]) by {
            assert(s.drop_last()[i] == s[i]);
        }
        lemma_digits_val_bound(s.drop_last());
        assert(is_digit(s.last()));
        assert(pow10(s.len()) == 10 * pow10((s.len() - 1) as nat));
    }
}

/// Length of the leading whitespace run.
pub open spec fn ws_count(s: Seq<u8>) -> nat
    decreases s.len(),
{
    if s.len() > 0 && is_ws(s[0]) {
        1 + ws_count(s.skip(1))
    } else {
        0
    }
}

/// Length of the leading token: the run of bytes before any whitespace.
pub open spec fn tok_len(s: Seq<u8>) -> nat
    decreases s.len(),
{
    if s.len() > 0 && !is_ws(s[0]) {
        1 + tok_len(s.skip(1))
    } else {
        0
    }
}

/// First position of a dot, or the length if there is none.
pub open spec fn dot_pos(s: Seq<u8>) -> nat
    decreases s.len(),
{
    if s.len() == 0 {
        0
    } else if s[0] == 46 {
        0
    } else {
        1 + dot_pos(s.skip(1))
    }
}

/// First position of a line feed, or the length if there is none.
pub open spec fn nl_pos(s: Seq<u8>) -> nat
    decreases s.len(),
{
    if s.len() == 0 {
        0
    } else if s[0] == 10 {
        0
    } else {
        1 + nl_pos(s.skip(1))
    }
}

/// A position with only whitespace before it and none at it is the
/// whitespace run's length.
proof fn lemma_ws_count_char(s: Seq<u8>, k: int)
    requires
        0 <= k <= s.len(),
        forall|j: int| 0 <= j < k ==> is_ws(#[trigger] s[j]),
        k < s.len() ==> !is_ws(s[k]),
    ensures
        ws_count(s) == k,
    decreases k,
{
    if k > 0 {
        assert forall|j: int| 0 <= j < k - 1 implies is_ws(#[trigger] s.skip(1)[j]) by {
            assert(s.skip(1)[j] == s[j + 1]);
        }
        if k - 1 < s.skip(1).len() {
            assert(s.skip(1)[k - 1] == s[k]);
        }
        lemma_ws_count_char(s.skip(1), k - 1);
    }
}

/// A position with no whitespace before it and whitespace or the end at it
/// is the token's length.
proof fn lemma_tok_len_char(s: Seq<u8>, k: int)
    requires
        0 <= k <= s.len(),
        forall|j: int| 0 <= j < k ==> !is_ws(#[trigger] s[j]),
        k < s.len() ==> is_ws(s[k]),
    ensures
        tok_len(s) == k,
    decreases k,
{
    if k > 0 {
        assert forall|j: int| 0 <= j < k - 1 implies !is_ws(#[trigger] s.skip(1)[j]) by {
            assert(s.skip(1)[j] == s[j + 1]);
        }
        if k - 1 < s.skip(1).len() {
            assert(s.skip(1)[k - 1] == s[k]);
        }
        lemma_tok_len_char(s.skip(1), k - 1);
    }
}

/// A position with no dot before it and a dot or the end at it is the first
/// dot position.
proof fn lemma_dot_pos_char(s: Seq<u8>, k: int)
    requires
        0 <= k <= s.len(),
        forall|j: int| 0 <= j < k ==> #[trigger] s[j] != 46,
        k < s.len() ==> s[k] == 46,
    ensures
        dot_pos(s) == k,
    decreases k,
{
    if k > 0 {
        assert forall|j: int| 0 <= j < k - 1 implies #[trigger] s.skip(1)[j] != 46 by {
            assert(s.skip(1)[j] == s[j + 1]);
        }
        if k - 1 < s.skip(1).len() {
            assert(s.skip(1)[k - 1] == s[k]);
        }
        lemma_dot_pos_char(s.skip(1), k - 1);
    }
}

/// A position with no line feed before it and a line feed or the end at it
/// is the first line feed position.
proof fn lemma_nl_pos_char(s: Seq<u8>, k: int)
    requires
        0 <= k <= s.len(),
        forall|j: int| 0 <= j < k ==> #[trigger] s[j] != 10,
        k < s.len() ==> s[k] == 10,
    ensures
        nl_pos(s) == k,
    decreases k,
{
    if k > 0 {
        assert forall|j: int| 0 <= j < k - 1 implies #[trigger] s.skip(1)[j] != 10 by {
            assert(s.skip(1)[j] == s[j + 1]);
        }
        if k - 1 < s.skip(1).len() {
            assert(s.skip(1)[k - 1] == s[k]);
        }
        lemma_nl_pos_char(s.skip(1), k - 1);
    }
}

/// The first six fraction digits, zero-padded on the right.
pub open spec fn pad6(f: Seq<u8>) -> Seq<u8> {
    Seq::new(6, |j: int| if j < f.len() { f[j] } else { 48u8 })
}

/// The number of millionths the fraction digits denote: the value of the
/// first six digits, zero-padded; digits beyond the sixth are dropped.
pub open spec fn frac_val(f: Seq<u8>) -> int {
    digits_val(pad6(f))
}

/// The fixed-point value a numeric token denotes, in millionths: an
/// optional sign, one to twelve integer digits, and optionally a dot with
/// at least one fraction digit; `None` for any other shape.
pub open spec fn dec_val(t: Seq<u8>) -> Option<int> {
    if t.len() == 0 {
        None
    } else {
        let signed = t[0] == 45 || t[0] == 43;
        let sign: int = if t[0] == 45 { -1 } else { 1 };
        let body = if signed { t.skip(1) } else { t };
        let p = dot_pos(body) as int;
        let ip = body.take(p);
        if ip.len() == 0 || ip.len() > 12 || !all_digits(ip) {
            None
        } else if p == body.len() {
            Some(sign * digits_val(ip) * 1000000)
        } else {
            let fp = body.skip(p + 1);
            if fp.len() == 0 || !all_digits(fp) {
                None
            } else {
                Some(sign * (digits_val(ip) * 1000000 + frac_val(fp)))
            }
        }
    }
}

/// Whether the byte is token-separating whitespace.
fn ws_byte(c: u8) -> (r: bool)
    ensures
        r == is_ws(c),
{
    c == 32 || c == 9 || c == 13
}

/// Copies the bytes of `l` between `lo` and `hi`.
fn copy_range(l: &Vec<u8>, lo: usize, hi: usize) -> (r: Vec<u8>)
    requires
        lo <= hi <= l@.len(),
    ensures
        r@ == l@.subrange(lo as int, hi as int),
{
    let mut r: Vec<u8> = Vec::new();
    let mut i: usize = lo;
    while i < hi
        invariant
            lo <= i <= hi <= l@.len(),
            r@ == l@.subrange(lo as int, i as int),
        decreases hi - i,
    {
        r.push(l[i]);
        i = i + 1;
        assert(l@.subrange(lo as int, i as int) =~= l@.subrange(lo as int, i - 1).push(l@[i - 1]));
    }
    r
}

/// Advances past the whitespace run that starts at `from`.
fn scan_ws(l: &Vec<u8>, from: usize) -> (r: usize)
    requires
        from <= l@.len(),
    ensures
        from <= r <= l@.len(),
        r == from + ws_count(l@.skip(from as int)),
{
    let mut i = from;
    while i < l.len() && ws_byte(l[i])
        invariant
            from <= i <= l@.len(),
            forall|j: int| from <= j < i ==> is_ws(#[trigger] l@[j]),
        decreases l@.len() - i,
    {
        i = i + 1;
    }
    proof {
        let s = l@.skip(from as int);
        assert forall|j: int| 0 <= j < i - from implies is_ws(#[trigger] s[j]) by {
            assert(s[j] == l@[from + j]);
        }
        if i < l@.len() {
            assert(s[i - from] == l@[i as int]);
        }
        lemma_ws_count_char(s, i - from);
    }
    i
}

/// Advances past the token that starts at `from`.
fn scan_tok(l: &Vec<u8>, from: usize) -> (r: usize)
    requires
        from <= l@.len(),
    ensures
        from <= r <= l@.len(),
        r == from + tok_len(l@.skip(from as int)),
{
    let mut i = from;
    while i < l.len() && !ws_byte(l[i])
        invariant
            from <= i <= l@.len(),
            forall|j: int| from <= j < i ==> !is_ws(#[trigger] l@[j]),
        decreases l@.len() - i,
    {
        i = i + 1;
    }
    proof {
        let s = l@.skip(from as int);
        assert forall|j: int| 0 <= j < i - from implies !is_ws(#[trigger] s[j]) by {
            assert(s[j] == l@[from + j]);
        }
        if i < l@.len() {
            assert(s[i - from] == l@[i as int]);
        }
        lemma_tok_len_char(s, i - from);
    }
    i
}

/// Reads the digit run between `lo` and `hi` as a number; `None` if a byte
/// there is no digit.
fn scan_digits(t: &Vec<u8>, lo: usize, hi: usize) -> (r: Option<i64>)
    requires
        lo <= hi <= t@.len(),
        hi - lo <= 12,
    ensures
        r is Some <==> all_digits(t@.subrange(lo as int, hi as int)),
        r matches Some(m) ==> {
            &&& m == digits_val(t@.subrange(lo as int, hi as int))
            &&& 0 <= m < pow10((hi - lo) as nat)
        },
{
    let mut acc: i64 = 0;
    let mut k = lo;
    while k < hi
        invariant
            lo <= k <= hi <= t@.len(),
            hi - lo <= 12,
            acc == digits_val(t@.subrange(lo as int, k as int)),
            0 <= acc < pow10((k - lo) as nat),
            forall|j: int| lo <= j < k ==> is_digit(#[trigger] t@[j]),
        decreases hi - k,
    {
        let c = t[k];
        if c < 48 || c > 57 {
            proof {
                let s = t@.subrange(lo as int, hi as int);
                assert(s[k - lo] == t@[k as int]);
            }
            return None;
        }
        proof {
            let pre = t@.subrange(lo as int, k as int);
            lemma_pow10_mono((k - lo) as nat, 11);
            reveal_with_fuel(pow10, 13);
            assert(acc < 100000000000);
            assert(t@.subrange(lo as int, k + 1).drop_last() =~= pre);
            assert(t@.subrange(lo as int, k + 1).last() == t@[k as int]);
            assert(pow10((k + 1 - lo) as nat) == 10 * pow10((k - lo) as nat));
        }
        acc = acc * 10 + (c - 48) as i64;
        k = k + 1;
    }
    proof {
        let s = t@.subrange(lo as int, hi as int);
        assert forall|j: int| 0 <= j < s.len() implies is_digit(#[trigger] s[j]) by {
            assert(s[j] == t@[lo + j]);
        }
    }
    Some(acc)
}

/// Reads the fraction digits between `lo` and `hi` as millionths: the first
/// six digits, zero-padded on the right; later digits are dropped.
fn frac_digits(t: &Vec<u8>, lo: usize, hi: usize) -> (r: i64)
    requires
        lo < hi <= t@.len(),
        all_digits(t@.subrange(lo as int, hi as int)),
    ensures
        r == frac_val(t@.subrange(lo as int, hi as int)),
        0 <= r < 1000000,
{
    let ghost fp = t@.subrange(lo as int, hi as int);
    let ghost pd = pad6(fp);
    let flen = hi - lo;
    let mut facc: i64 = 0;
    let mut j: usize = 0;
    while j < 6
        invariant
            j <= 6,
            lo < hi <= t@.len(),
            flen == hi - lo,
            fp == t@.subrange(lo as int, hi as int),
            pd == pad6(fp),
            all_digits(fp),
            facc == digits_val(pd.take(j as int)),
            0 <= facc < pow10(j as nat),
        decreases 6 - j,
    {
        let c: u8 = if j < flen {
            t[lo + j]
        } else {
            48
        };
        proof {
            if j < flen {
                assert(fp[j as int] == t@[lo + j]);
                assert(is_digit(fp[j as int]));
            }
            assert(pd[j as int] == c);
            assert(pd.take(j + 1).drop_last() =~= pd.take(j as int));
            assert(pd.take(j + 1).last() == pd[j as int]);
            reveal_with_fuel(pow10, 8);
            assert(pow10((j + 1) as nat) == 10 * pow10(j as nat));
        }
        facc = facc * 10 + (c - 48) as i64;
        j = j + 1;
    }
    proof {
        assert(pd.take(6) =~= pd);
        reveal_with_fuel(pow10, 8);
    }
    facc
}

/// Parses one numeric token into its fixed-point value in millionths.
#[verifier::loop_isolation(false)]
#[verifier::rlimit(50)]
fn parse_token(t: &Vec<u8>) -> (r: Option<i64>)
    ensures
        r is Some <==> dec_val(t@) is Some,
        r matches Some(m) ==> {
            &&& (dec_val(t@) matches Some(x) && x == m as int)
            &&& -COORD_LIMIT <= m <= COORD_LIMIT
        },
{
    let n = t.len();
    if n == 0 {
        return None;
    }
    let mut pos: usize = 0;
    let mut neg = false;
    if t[0] == 45 {
        neg = true;
        pos = 1;
    } else if t[0] == 43 {
        pos = 1;
    }
    let ghost body = t@.skip(pos as int);
    proof {
        if pos == 0 {
            assert(body =~= t@);
        }
    }
    // find the first dot
    let mut dp = pos;
    while dp < n && t[dp] != 46
        invariant
            pos <= dp <= n,
            forall|j: int| pos <= j < dp ==> #[trigger] t@[j] != 46,
        decreases n - dp,
    {
        dp = dp + 1;
    }
    proof {
        assert forall|j: int| 0 <= j < dp - pos implies #[trigger] body[j] != 46 by {
            assert(body[j] == t@[pos + j]);
        }
        if dp < n {
            assert(body[dp - pos] == t@[dp as int]);
        }
        lemma_dot_pos_char(body, dp - pos);
    }
    let ghost ip = body.take(dp - pos);
    assert(ip =~= t@.subrange(pos as int, dp as int));
    if dp == pos {
        return None;
    }
    if dp - pos > 12 {
        return None;
    }
    let acc: i64 = match scan_digits(t, pos, dp) {
        None => {
            return None;
        },
        Some(m) => m,
    };
    proof {
        lemma_pow10_mono((dp - pos) as nat, 12);
        reveal_with_fuel(pow10, 13);
        assert(acc < 1000000000000);
    }
    if dp == n {
        let v = acc * 1000000;
        proof {
            assert(dot_pos(body) == dp - pos);
            assert(dp - pos == body.len());
            assert(digits_val(ip) == acc as int);
            assert(dec_val(t@) is Some);
            if neg {
                assert(t@[0] == 45);
                assert(dec_val(t@) matches Some(x) && x == -1 * digits_val(ip) * 1000000);
                assert(-1 * digits_val(ip) * 1000000 == -(acc as int * 1000000))
                    by (nonlinear_arith)
                    requires digits_val(ip) == acc as int;
            } else {
                assert(dec_val(t@) matches Some(x) && x == 1 * digits_val(ip) * 1000000);
            }
        }
        return if neg {
            Some(-v)
        } else {
            Some(v)
        };
    }
    // fraction part: at least one digit after the dot
    if dp + 1 == n {
        return None;
    }
    let ghost fp = body.skip(dp - pos + 1);
    assert(fp =~= t@.subrange(dp + 1, n as int));
    let all_ok = check_digits(t, dp + 1, n);
    if !all_ok {
        return None;
    }
    let fv = frac_digits(t, dp + 1, n);
    let v = acc * 1000000 + fv;
    proof {
        assert(dot_pos(body) == dp - pos);
        assert(digits_val(ip) == acc as int);
        assert(frac_val(fp) == fv as int);
        assert(dec_val(t@) is Some);
        if neg {
            assert(t@[0] == 45);
            assert(dec_val(t@) matches Some(x)
                && x == -1 * (digits_val(ip) * 1000000 + frac_val(fp)));
            assert(-1 * (digits_val(ip) * 1000000 + frac_val(fp))
                == -(acc as int * 1000000 + fv as int))
                by (nonlinear_arith)
                requires digits_val(ip) == acc as int && frac_val(fp) == fv as int;
        } else {
            assert(dec_val(t@) matches Some(x)
                && x == 1 * (digits_val(ip) * 1000000 + frac_val(fp)));
        }
    }
    if neg {
        Some(-v)
    } else {
        Some(v)
    }
}

/// Whether the bytes between `lo` and `hi` are all digits.
fn check_digits(t: &Vec<u8>, lo: usize, hi: usize) -> (r: bool)
    requires
        lo <= hi <= t@.len(),
    ensures
        r == all_digits(t@.subrange(lo as int, hi as int)),
{
    let mut k = lo;
    while k < hi
        invariant
            lo <= k <= hi <= t@.len(),
            forall|j: int| lo <= j < k ==> is_digit(#[trigger] t@[j]),
        decreases hi - k,
    {
        let c = t[k];
        if c < 48 || c > 57 {
            proof {
                let s = t@.subrange(lo as int, hi as int);
                assert(s[k - lo] == t@[k as int]);
            }
            return false;
        }
        k = k + 1;
    }
    proof {
        let s = t@.subrange(lo as int, hi as int);
        assert forall|j: int| 0 <= j < s.len() implies is_digit(#[trigger] s[j]) by {
            assert(s[j] == t@[lo + j]);
        }
    }
    true
}

/// The vertex a data line denotes: its first three whitespace-separated
/// tokens read as fixed-point numbers; `None` if fewer than three tokens
/// are present or one of the three is not numeric. Later fields are
/// ignored.
pub open spec fn vertex_of_line(l: Seq<u8>) -> Option<Vertex> {
    let a1 = ws_count(l) as int;
    let b1 = a1 + tok_len(l.skip(a1)) as int;
    let a2 = b1 + ws_count(l.skip(b1)) as int;
    let b2 = a2 + tok_len(l.skip(a2)) as int;
    let a3 = b2 + ws_count(l.skip(b2)) as int;
    let b3 = a3 + tok_len(l.skip(a3)) as int;
    if a1 == b1 || a2 == b2 || a3 == b3 {
        None
    } else {
        match (dec_val(l.subrange(a1, b1)), dec_val(l.subrange(a2, b2)), dec_val(
            l.subrange(a3, b3),
        )) {
            (Some(x), Some(y), Some(z)) => Some(
                Vertex { x: x as i64, y: y as i64, z: z as i64 },
            ),
            _ => None,
        }
    }
}

/// Parses one data line into a vertex: the first three whitespace-separated
/// tokens, each a fixed-point decimal; anything else is `MalformedVertex`.
pub fn parse_line(line: &Vec<u8>) -> (r: Result<Vertex, PcError>)
    ensures
        r is Ok <==> vertex_of_line(line@) is Some,
        r matches Ok(v) ==> (vertex_of_line(line@) matches Some(w) && w == v) && v.wf(),
        r matches Err(e) ==> e == PcError::MalformedVertex,
{
    let a1 = scan_ws(line, 0);
    let b1 = scan_tok(line, a1);
    let a2 = scan_ws(line, b1);
    let b2 = scan_tok(line, a2);
    let a3 = scan_ws(line, b2);
    let b3 = scan_tok(line, a3);
    proof {
        assert(line@.skip(0) =~= line@);
    }
    if b1 == a1 || b2 == a2 || b3 == a3 {
        return Err(PcError::MalformedVertex);
    }
    let t1 = copy_range(line, a1, b1);
    let t2 = copy_range(line, a2, b2);
    let t3 = copy_range(line, a3, b3);
    let x = match parse_token(&t1) {
        None => {
            return Err(PcError::MalformedVertex);
        },
        Some(m) => m,
    };
    let y = match parse_token(&t2) {
        None => {
            return Err(PcError::MalformedVertex);
        },
        Some(m) => m,
    };
    let z = match parse_token(&t3) {
        None => {
            return Err(PcError::MalformedVertex);
        },
        Some(m) => m,
    };
    Ok(Vertex { x, y, z })
}

/// The header-closing marker line: the bytes of `end_header`.
pub open spec fn marker() -> Seq<u8> {
    seq![101u8, 110u8, 100u8, 95u8, 104u8, 101u8, 97u8, 100u8, 101u8, 114u8]
}

/// Whether the line is exactly the `end_header` marker.
fn is_marker_line(l: &Vec<u8>) -> (r: bool)
    ensures
        r == (l@ == marker()),
{
    proof {
        assert(marker().len() == 10);
        assert(marker()[0] == 101 && marker()[1] == 110 && marker()[2] == 100 && marker()[3]
            == 95 && marker()[4] == 104 && marker()[5] == 101 && marker()[6] == 97 && marker()[7]
            == 100 && marker()[8] == 101 && marker()[9] == 114);
    }
    if l.len() != 10 {
        return false;
    }
    let ok = l[0] == 101 && l[1] == 110 && l[2] == 100 && l[3] == 95 && l[4] == 104 && l[5] == 101
        && l[6] == 97 && l[7] == 100 && l[8] == 101 && l[9] == 114;
    proof {
        if ok {
            assert(l@ =~= marker());
        }
    }
    ok
}

/// One line without its line feed, nor a single carriage return before it.
pub open spec fn strip_cr(l: Seq<u8>) -> Seq<u8> {
    if l.len() > 0 && l.last() == 13 {
        l.drop_last()
    } else {
        l
    }
}

/// The lines of the text from `pos` on: split at line feeds, each without
/// its terminator.
pub open spec fn lines_from(d: Seq<u8>, pos: int) -> Seq<Seq<u8>>
    decreases d.len() - pos,
{
    if pos < 0 || pos >= d.len() {
        Seq::empty()
    } else {
        let p = pos + nl_pos(d.skip(pos)) as int;
        if p >= d.len() {
            seq![strip_cr(d.subrange(pos, d.len() as int))]
        } else {
            seq![strip_cr(d.subrange(pos, p))] + lines_from(d, p + 1)
        }
    }
}

/// The data lines: everything after the first `end_header` marker line, or
/// nothing if there is no marker.
pub open spec fn body_lines(ls: Seq<Seq<u8>>) -> Seq<Seq<u8>>
    decreases ls.len(),
{
    if ls.len() == 0 {
        Seq::empty()
    } else if ls[0] == marker() {
        ls.skip(1)
    } else {
        body_lines(ls.skip(1))
    }
}

/// The vertices the data lines denote, in order; `None` if any line is
/// malformed.
pub open spec fn parse_body(ls: Seq<Seq<u8>>) -> Option<Seq<Vertex>>
    decreases ls.len(),
{
    if ls.len() == 0 {
        Some(Seq::empty())
    } else {
        match vertex_of_line(ls[0]) {
            Option::None => None,
            Option::Some(v) => match parse_body(ls.skip(1)) {
                Option::None => None,
                Option::Some(tail) => Some(seq![v] + tail),
            },
        }
    }
}

/// What the whole point-cloud text denotes: the vertices of the lines after
/// the header, or `None` if one of them is malformed.
pub open spec fn read_spec(d: Seq<u8>) -> Option<Seq<Vertex>> {
    parse_body(body_lines(lines_from(d, 0)))
}

/// Reads the whole point-cloud text: skips the header up to and including
/// the `end_header` marker line, then parses one vertex per line. A text
/// without the marker, or with no line after it, yields no vertices; a
/// malformed data line is `MalformedVertex`.
#[verifier::loop_isolation(false)]
#[verifier::rlimit(100)]
pub fn read_vertices(data: &Vec<u8>) -> (r: Result<Vec<Vertex>, PcError>)
    requires
        data@.len() < usize::MAX,
    ensures
        r is Ok <==> read_spec(data@) is Some,
        r matches Ok(vs) ==> {
            &&& (read_spec(data@) matches Some(s) && s == vs@)
            &&& forall|j: int| 0 <= j < vs@.len() ==> (#[trigger] vs@[j]).wf()
        },
        r matches Err(e) ==> e == PcError::MalformedVertex,
{
    let n = data.len();
    let mut pos: usize = 0;
    let mut in_body = false;
    let mut acc: Vec<Vertex> = Vec::new();
    while pos < n
        invariant
            pos <= n,
            forall|j: int| 0 <= j < acc@.len() ==> (#[trigger] acc@[j]).wf(),
            !in_body ==> acc@.len() == 0 && body_lines(lines_from(data@, 0)) == body_lines(
                lines_from(data@, pos as int),
            ),
            in_body ==> parse_body(body_lines(lines_from(data@, 0))) == (
            match parse_body(lines_from(data@, pos as int)) {
                Option::None => Option::<Seq<Vertex>>::None,
                Option::Some(tail) => Option::Some(acc@ + tail),
            }),
        decreases n - pos,
    {
        let mut p = pos;
        while p < n && data[p] != 10
            invariant
                pos <= p <= n,
                forall|j: int| pos <= j < p ==> #[trigger] data@[j] != 10,
            decreases n - p,
        {
            p = p + 1;
        }
        proof {
            let s = data@.skip(pos as int);
            assert forall|j: int| 0 <= j < p - pos implies #[trigger] s[j] != 10 by {
                assert(s[j] == data@[pos + j]);
            }
            if p < n {
                assert(s[p - pos] == data@[p as int]);
            }
            lemma_nl_pos_char(s, p - pos);
        }
        let mut e = p;
        if e > pos && data[e - 1] == 13 {
            e = e - 1;
        }
        let line = copy_range(data, pos, e);
        let ghost rem = lines_from(data@, pos as int);
        let next = if p < n {
            p + 1
        } else {
            n
        };
        proof {
            let raw = data@.subrange(pos as int, p as int);
            if p > pos && data@[p - 1] == 13 {
                assert(raw.last() == data@[p - 1]);
                assert(strip_cr(raw) =~= data@.subrange(pos as int, e as int));
            } else {
                if raw.len() > 0 {
                    assert(raw.last() == data@[p - 1]);
                }
                assert(strip_cr(raw) =~= data@.subrange(pos as int, e as int));
            }
            assert(line@ == strip_cr(raw));
            if p < n {
                assert(rem == seq![line@] + lines_from(data@, p + 1));
                assert(rem[0] == line@);
                assert(rem.skip(1) =~= lines_from(data@, next as int));
            } else {
                assert(raw =~= data@.subrange(pos as int, n as int));
                assert(rem == seq![line@]);
                assert(rem[0] == line@);
                assert(rem.skip(1) =~= lines_from(data@, next as int));
            }
        }
        if in_body {
            let ghost acc_prev = acc@;
            match parse_line(&line) {
                Result::Err(_) => {
                    proof {
                        assert(parse_body(rem) is None);
                    }
                    return Err(PcError::MalformedVertex);
                },
                Result::Ok(v) => {
                    acc.push(v);
                    proof {
                        match parse_body(lines_from(data@, next as int)) {
                            Option::None => {
                                assert(parse_body(rem) is None);
                            },
                            Option::Some(tail) => {
                                assert(parse_body(rem) == Option::Some(seq![v] + tail));
                                assert(acc_prev + (seq![v] + tail) =~= acc@ + tail);
                            },
                        }
                    }
                },
            }
        } else {
            if is_marker_line(&line) {
                in_body = true;
                proof {
                    assert(body_lines(rem) == rem.skip(1));
                    match parse_body(lines_from(data@, next as int)) {
                        Option::None => {},
                        Option::Some(tail) => {
                            assert(acc@ + tail =~= tail);
                        },
                    }
                }
            } else {
                proof {
                    assert(body_lines(rem) == body_lines(rem.skip(1)));
                }
            }
        }
        pos = next;
    }
    proof {
        assert(lines_from(data@, n as int) == Seq::<Seq<u8>>::empty());
        if in_body {
            assert(parse_body(lines_from(data@, n as int)) == Option::Some(Seq::<Vertex>::empty()));
            assert(acc@ + Seq::<Vertex>::empty() =~= acc@);
        } else {
            assert(body_lines(lines_from(data@, 0)) == Seq::<Seq<u8>>::empty());
        }
    }
    Ok(acc)
}

/// Reading is restartable and deterministic: a second pass over the same
/// bytes yields the identical vertex sequence, in order and in value.
pub proof fn lemma_reader_restartable(d1: Seq<u8>, d2: Seq<u8>)
    requires
        d1 == d2,
    ensures
        read_spec(d1) == read_spec(d2),
{
}

} // verus!

