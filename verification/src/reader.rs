//! The solution-file reader.
//!
//! A solver's result text is a header line (content ignored, but at
//! least one whitespace-separated token must be present), then data
//! lines of exactly two whitespace-separated tokens — a variable name
//! and a decimal value, optionally with an `e`/`E` exponent — with
//! `#`-prefixed comment lines skipped.  Whitespace inside a line is a
//! space, a tab, or a carriage return, so CRLF line endings are
//! tolerated.  A line with any other token count fails with
//! [`ParseError::MalformedSolutionLine`]; a value that is not a decimal
//! number in range fails with [`ParseError::InvalidNumber`] carrying the
//! offending token; a missing or token-less header fails with
//! [`ParseError::MalformedSolutionHeader`].  Failure is all-or-nothing:
//! no partial mapping is ever returned.  The solve status is supplied by
//! the invocation layer and threaded through unchanged.

use vstd::prelude::*;
use crate::num::Num;
use crate::text::chars_to_string;

verus! {

/// The categorical outcome of a solve attempt.
#[derive(Clone, Copy, Debug, PartialEq, Eq, Structural, Hash)]
pub enum Status {
    Optimal,
    SubOptimal,
    Infeasible,
    Unbounded,
    NotSolved,
}

/// Why a solution text was rejected.
#[derive(Clone, Debug, PartialEq, Eq)]
pub enum ParseError {
    /// The first line yields no token, or the text is empty.
    MalformedSolutionHeader,
    /// A data line (carried here) has a token count other than two.
    MalformedSolutionLine(String),
    /// A value token (carried here) is not a decimal number in range.
    InvalidNumber(String),
}

/// A decoded solution: the status and the name-to-value mapping.
#[derive(Debug)]
pub struct Solution {
    pub status: Status,
    pub values: Vec<(String, Num)>,
}

/// Whitespace inside a line.
pub open spec fn is_ws(c: char) -> bool {
    c == ' ' || c == '\t' || c == '\r'
}

/// A decimal digit.
pub open spec fn is_digit(c: char) -> bool {
    '0' <= c && c <= '9'
}

/// The value of a decimal digit.
pub open spec fn digit_val(c: char) -> int {
    c as int - 48
}

/// Every character is a digit.
pub open spec fn all_digits(s: Seq<char>) -> bool {
    forall|i: int| 0 <= i < s.len() ==> is_digit(#[trigger] s[i])
}

/// The number the digit string denotes.
pub open spec fn digits_val(s: Seq<char>) -> int
    decreases s.len(),
{
    if s.len() == 0 {
        0
    } else {
        digits_val(s.drop_last()) * 10 + digit_val(s.last())
    }
}

/// Ten to the `k`.
pub open spec fn pow10(k: nat) -> int
    decreases k,
{
    if k == 0 {
        1
    } else {
        10 * pow10((k - 1) as nat)
    }
}

/// Index of the first `'.'`, or the length when there is none.
pub open spec fn dot_idx(s: Seq<char>) -> nat
    decreases s.len(),
{
    if s.len() == 0 {
        0
    } else if s[0] == '.' {
        0
    } else {
        1 + dot_idx(s.drop_first())
    }
}

/// Index of the first `'\n'`, or the length when there is none.
pub open spec fn line_end(s: Seq<char>) -> nat
    decreases s.len(),
{
    if s.len() == 0 {
        0
    } else if s[0] == '\n' {
        0
    } else {
        1 + line_end(s.drop_first())
    }
}

/// Length of the leading whitespace-free run.
pub open spec fn tok_len(s: Seq<char>) -> nat
    decreases s.len(),
{
    if s.len() == 0 || is_ws(s[0]) {
        0
    } else {
        1 + tok_len(s.drop_first())
    }
}

/// The whitespace-separated tokens of a line, in order.
pub open spec fn tokens_of(s: Seq<char>) -> Seq<Seq<char>>
    decreases s.len(),
    via tokens_of_dec
{
    if s.len() == 0 {
        Seq::empty()
    } else if is_ws(s[0]) {
        tokens_of(s.drop_first())
    } else {
        seq![s.take(tok_len(s) as int)] + tokens_of(s.skip(tok_len(s) as int))
    }
}

/// The leading token never runs past the line.
pub proof fn lemma_tok_len_le(s: Seq<char>)
    ensures
        tok_len(s) <= s.len(),
    decreases s.len(),
{
    if s.len() > 0 && !is_ws(s[0]) {
        lemma_tok_len_le(s.drop_first());
    }
}

#[via_fn]
proof fn tokens_of_dec(s: Seq<char>) {
    if s.len() > 0 && !is_ws(s[0]) {
        assert(tok_len(s) >= 1);
        lemma_tok_len_le(s);
    }
}

/// The fixed-point value of a plain decimal (no exponent), in
/// millionths: an optional sign, then decimal digits with at most one
/// `'.'` and at least one digit; fractional digits beyond the sixth are
/// truncated; a magnitude beyond the `i64` range is rejected.
pub open spec fn spec_parse_mantissa(t: Seq<char>) -> Option<int> {
    if t.len() == 0 {
        None
    } else {
        let sgn: int = if t[0] == '-' {
            -1
        } else {
            1
        };
        let body = if t[0] == '-' || t[0] == '+' {
            t.drop_first()
        } else {
            t
        };
        if body.len() == 0 {
            None
        } else {
            let di = dot_idx(body);
            if di >= body.len() {
                if all_digits(body) {
                    let mag = digits_val(body) * 1_000_000;
                    if mag > i64::MAX {
                        None
                    } else {
                        Some(sgn * mag)
                    }
                } else {
                    None
                }
            } else {
                let ip = body.take(di as int);
                let fp = body.skip(di as int + 1);
                if dot_idx(fp) < fp.len() {
                    None
                } else if !all_digits(ip) || !all_digits(fp) {
                    None
                } else if ip.len() + fp.len() == 0 {
                    None
                } else {
                    let fv = if fp.len() >= 6 {
                        digits_val(fp.take(6))
                    } else {
                        digits_val(fp) * pow10((6 - fp.len()) as nat)
                    };
                    let mag = digits_val(ip) * 1_000_000 + fv;
                    if mag > i64::MAX {
                        None
                    } else {
                        Some(sgn * mag)
                    }
                }
            }
        }
    }
}

/// Index of the first `'e'` or `'E'`, or the length when there is none.
pub open spec fn exp_idx(s: Seq<char>) -> nat
    decreases s.len(),
{
    if s.len() == 0 {
        0
    } else if s[0] == 'e' || s[0] == 'E' {
        0
    } else {
        1 + exp_idx(s.drop_first())
    }
}

/// The fixed-point value a token denotes, in millionths: a plain
/// decimal, optionally followed by `e`/`E` and a signed whole exponent.
/// A negative exponent divides, truncating toward zero off the
/// millionth grid; a positive exponent multiplies, rejecting results
/// beyond the `i64` range (the symmetric range: the most negative unit
/// count is not used).
pub open spec fn spec_parse_num(t: Seq<char>) -> Option<int> {
    let ei = exp_idx(t);
    if ei >= t.len() {
        spec_parse_mantissa(t)
    } else {
        let mant = t.take(ei as int);
        let et = t.skip(ei as int + 1);
        let eneg = et.len() > 0 && et[0] == '-';
        let ed = if et.len() > 0 && (et[0] == '-' || et[0] == '+') {
            et.drop_first()
        } else {
            et
        };
        if ed.len() == 0 || !all_digits(ed) {
            None
        } else {
            match spec_parse_mantissa(mant) {
                None => None,
                Some(u) => {
                    let d = digits_val(ed);
                    if eneg {
                        let dd = if d > 19 {
                            19
                        } else {
                            d
                        };
                        let q = crate::num::abs_int(u) / (pow10(dd as nat) as nat);
                        if u < 0 {
                            Some(-(q as int))
                        } else {
                            Some(q as int)
                        }
                    } else {
                        if u == 0 {
                            Some(0)
                        } else if d > 18 {
                            None
                        } else {
                            let pr = u * pow10(d as nat);
                            if -(i64::MAX as int) <= pr <= i64::MAX {
                                Some(pr)
                            } else {
                                None
                            }
                        }
                    }
                },
            }
        }
    }
}

/// First slot of the mapping holding `name`, or the length.
pub open spec fn sol_find(m: Seq<(Seq<char>, int)>, name: Seq<char>) -> int
    decreases m.len(),
{
    if m.len() == 0 {
        0
    } else if m[0].0 == name {
        0
    } else {
        1 + sol_find(m.drop_first(), name)
    }
}

/// Records `val` under `name`: overwrites the existing slot, or appends.
pub open spec fn upsert(m: Seq<(Seq<char>, int)>, name: Seq<char>, val: int) -> Seq<
    (Seq<char>, int),
> {
    let k = sol_find(m, name);
    if k < m.len() {
        m.update(k, (name, val))
    } else {
        m.push((name, val))
    }
}

/// The outcome of reading solution text.
pub enum ReadOutcome {
    Done(Seq<(Seq<char>, int)>),
    BadHeader,
    BadLine(Seq<char>),
    BadNum(Seq<char>),
}

/// Reads the data lines of `s`, accumulating into `acc`.
pub open spec fn spec_read_lines(s: Seq<char>, acc: Seq<(Seq<char>, int)>) -> ReadOutcome
    decreases s.len(),
{
    if s.len() == 0 {
        ReadOutcome::Done(acc)
    } else {
        let le = line_end(s);
        let line = s.take(le as int);
        if line.len() > 0 && line[0] == '#' {
            if le >= s.len() {
                ReadOutcome::Done(acc)
            } else {
                spec_read_lines(s.skip(le as int + 1), acc)
            }
        } else {
            let ts = tokens_of(line);
            if ts.len() != 2 {
                ReadOutcome::BadLine(line)
            } else {
                match spec_parse_num(ts[1]) {
                    None => ReadOutcome::BadNum(ts[1]),
                    Some(u) => {
                        let acc2 = upsert(acc, ts[0], u);
                        if le >= s.len() {
                            ReadOutcome::Done(acc2)
                        } else {
                            spec_read_lines(s.skip(le as int + 1), acc2)
                        }
                    },
                }
            }
        }
    }
}

/// Reads a whole solution text: a header line with at least one token,
/// then data lines.
pub open spec fn spec_read(s: Seq<char>) -> ReadOutcome {
    if s.len() == 0 {
        ReadOutcome::BadHeader
    } else {
        let le = line_end(s);
        let hdr = s.take(le as int);
        if tokens_of(hdr).len() == 0 {
            ReadOutcome::BadHeader
        } else if le >= s.len() {
            ReadOutcome::Done(Seq::empty())
        } else {
            spec_read_lines(s.skip(le as int + 1), Seq::empty())
        }
    }
}

/// The name-and-units view of an exec mapping.
pub open spec fn pair_views(m: Seq<(String, Num)>) -> Seq<(Seq<char>, int)> {
    m.map(|i: int, p: (String, Num)| (p.0@, p.1@))
}

/// The outcome an exec result denotes.
pub open spec fn outcome_of(r: Result<Vec<(String, Num)>, ParseError>) -> ReadOutcome {
    match r {
        Ok(m) => ReadOutcome::Done(pair_views(m@)),
        Err(ParseError::MalformedSolutionHeader) => ReadOutcome::BadHeader,
        Err(ParseError::MalformedSolutionLine(l)) => ReadOutcome::BadLine(l@),
        Err(ParseError::InvalidNumber(t)) => ReadOutcome::BadNum(t@),
    }
}

/// Characterizes the first newline by its neighborhood.
proof fn lemma_line_end_at(s: Seq<char>, k: int)
    requires
        0 <= k <= s.len(),
        forall|m: int| 0 <= m < k ==> s[m] != '\n',
        k == s.len() || s[k] == '\n',
    ensures
        line_end(s) == k,
    decreases k,
{
    if k > 0 {
        assert(s[0] != '\n');
        lemma_line_end_at(s.drop_first(), k - 1);
    }
}

/// Characterizes the first dot by its neighborhood.
proof fn lemma_dot_idx_at(s: Seq<char>, k: int)
    requires
        0 <= k <= s.len(),
        forall|m: int| 0 <= m < k ==> s[m] != '.',
        k == s.len() || s[k] == '.',
    ensures
        dot_idx(s) == k,
    decreases k,
{
    if k > 0 {
        assert(s[0] != '.');
        lemma_dot_idx_at(s.drop_first(), k - 1);
    }
}

/// Characterizes the leading token length by its neighborhood.
proof fn lemma_tok_len_at(s: Seq<char>, k: int)
    requires
        0 <= k <= s.len(),
        forall|m: int| 0 <= m < k ==> !is_ws(s[m]),
        k == s.len() || is_ws(s[k]),
    ensures
        tok_len(s) == k,
    decreases k,
{
    if k > 0 {
        assert(!is_ws(s[0]));
        lemma_tok_len_at(s.drop_first(), k - 1);
    }
}

/// A line has no token exactly when it is all whitespace.
proof fn lemma_tokens_empty(s: Seq<char>)
    ensures
        (tokens_of(s).len() == 0) <==> (forall|i: int| 0 <= i < s.len() ==> is_ws(#[trigger] s[i])),
    decreases s.len(),
{
    if s.len() > 0 {
        if is_ws(s[0]) {
            let d = s.drop_first();
            lemma_tokens_empty(d);
            if tokens_of(s).len() == 0 {
                assert forall|i: int| 0 <= i < s.len() implies is_ws(#[trigger] s[i]) by {
                    if i > 0 {
                        assert(d[i - 1] == s[i]);
                    }
                }
            } else {
                let w = choose|i: int| 0 <= i < d.len() && !is_ws(#[trigger] d[i]);
                assert(s[w + 1] == d[w]);
                assert(!is_ws(s[w + 1]));
            }
        } else {
            assert(tokens_of(s).len() > 0);
            assert(!is_ws(s[0]));
        }
    }
}

/// Digit strings denote nonnegative numbers.
proof fn lemma_digits_nonneg(s: Seq<char>)
    requires
        all_digits(s),
    ensures
        digits_val(s) >= 0,
    decreases s.len(),
{
    if s.len() > 0 {
        assert(all_digits(s.drop_last()));
        lemma_digits_nonneg(s.drop_last());
        assert(is_digit(s.last()));
    }
}

/// Powers of ten are positive and monotone.
proof fn lemma_pow10_mono(a: nat, b: nat)
    requires
        a <= b,
    ensures
        1 <= pow10(a) <= pow10(b),
    decreases b,
{
    if b > 0 {
        if a == b {
            lemma_pow10_mono(0, (b - 1) as nat);
        } else {
            lemma_pow10_mono(a, (b - 1) as nat);
        }
    }
}

/// A digit string's value is below ten to its length.
proof fn lemma_digits_bound(s: Seq<char>)
    requires
        all_digits(s),
    ensures
        0 <= digits_val(s) < pow10(s.len()),
    decreases s.len(),
{
    if s.len() > 0 {
        assert(all_digits(s.drop_last()));
        lemma_digits_bound(s.drop_last());
        assert(is_digit(s.last()));
        assert(pow10(s.len()) == 10 * pow10((s.len() - 1) as nat));
    }
}

/// A dot at `k` puts the first dot at or before `k`.
proof fn lemma_dot_bound(s: Seq<char>, k: int)
    requires
        0 <= k < s.len(),
        s[k] == '.',
    ensures
        dot_idx(s) <= k,
    decreases k,
{
    if s[0] != '.' {
        assert(s.drop_first()[k - 1] == s[k]);
        lemma_dot_bound(s.drop_first(), k - 1);
    }
}

/// Whitespace test.
fn ws_of(c: char) -> (r: bool)
    ensures
        r == is_ws(c),
{
    c == ' ' || c == '\t' || c == '\r'
}

/// Digit decoding.
fn digit_of(c: char) -> (r: Option<u64>)
    ensures
        r matches Some(d) ==> is_digit(c) && d < 10 && d as int == digit_val(c),
        r is None ==> !is_digit(c),
{
    let u: u32 = c as u32;
    if 48 <= u && u <= 57 {
        Some((u - 48) as u64)
    } else {
        None
    }
}

/// First newline at or after `from`, or the length.
#[verifier::loop_isolation(false)]
fn find_nl(v: &Vec<char>, from: usize) -> (r: usize)
    requires
        from <= v@.len(),
    ensures
        from <= r <= v@.len(),
        r - from == line_end(v@.skip(from as int)),
        r < v@.len() ==> v@[r as int] == '\n',
        forall|m: int| from <= m < r ==> v@[m] != '\n',
{
    let mut r: usize = from;
    while r < v.len() && !(v[r] == '\n')
        invariant
            from <= r <= v@.len(),
            forall|m: int| from <= m < r ==> v@[m] != '\n',
        decreases v@.len() - r,
    {
        r += 1;
    }
    proof {
        let s = v@.skip(from as int);
        assert forall|m: int| 0 <= m < r - from implies s[m] != '\n' by {
            assert(s[m] == v@[m + from]);
        }
        lemma_line_end_at(s, r - from);
    }
    r
}

/// The tokens of `line` from position `i` on.
#[verifier::loop_isolation(false)]
fn toks(line: &Vec<char>, i: usize) -> (r: Vec<Vec<char>>)
    requires
        i <= line@.len(),
    ensures
        r.deep_view() == tokens_of(line@.skip(i as int)),
    decreases line@.len() - i,
{
    let ghost s = line@.skip(i as int);
    if i == line.len() {
        let r: Vec<Vec<char>> = Vec::new();
        proof {
            assert(s.len() == 0);
            assert(r.deep_view() =~= tokens_of(s));
        }
        return r;
    }
    if ws_of(line[i]) {
        let r = toks(line, i + 1);
        proof {
            assert(s.drop_first() =~= line@.skip(i as int + 1));
        }
        return r;
    }
    let mut j: usize = i;
    while j < line.len() && !ws_of(line[j])
        invariant
            i <= j <= line@.len(),
            forall|m: int| i <= m < j ==> !is_ws(#[trigger] line@[m]),
        decreases line@.len() - j,
    {
        j += 1;
    }
    proof {
        assert forall|m: int| 0 <= m < j - i implies !is_ws(s[m]) by {
            assert(s[m] == line@[m + i]);
        }
        lemma_tok_len_at(s, j - i);
    }
    let mut tok: Vec<char> = Vec::new();
    let mut m: usize = i;
    while m < j
        invariant
            i <= m <= j <= line@.len(),
            tok@ == line@.subrange(i as int, m as int),
        decreases j - m,
    {
        tok.push(line[m]);
        proof {
            assert(tok@ =~= line@.subrange(i as int, m as int + 1));
        }
        m += 1;
    }
    let rest = toks(line, j);
    let mut r = rest;
    r.insert(0, tok);
    proof {
        assert(s.take(tok_len(s) as int) =~= line@.subrange(i as int, j as int));
        assert(s.skip(tok_len(s) as int) =~= line@.skip(j as int));
        assert(r@.len() == rest@.len() + 1);
        assert(r@[0] == tok);
        assert(forall|x: int| 1 <= x < r@.len() ==> #[trigger] r@[x] == rest@[x - 1]);
        assert forall|x: int| 0 <= x < r@.len() implies #[trigger] r.deep_view()[x] == tokens_of(
            s,
        )[x] by {
            assert(r.deep_view()[x] == r@[x]@);
            if x == 0 {
                assert(r@[0]@ == tok@);
            } else {
                assert(rest.deep_view()[x - 1] == rest@[x - 1]@);
                assert(tokens_of(s)[x] == tokens_of(s.skip(tok_len(s) as int))[x - 1]);
            }
        }
        assert(r.deep_view() =~= tokens_of(s));
    }
    r
}

/// Scans a digit run, accumulating its value with an overflow flag.
#[verifier::loop_isolation(false)]
fn scan_int(t: &Vec<char>, from: usize, to: usize) -> (r: Option<(u64, bool)>)
    requires
        from <= to <= t@.len(),
    ensures
        r is None ==> !all_digits(t@.subrange(from as int, to as int)),
        r matches Some(p) ==> {
            let seg = t@.subrange(from as int, to as int);
            &&& all_digits(seg)
            &&& !p.1 ==> p.0 as int == digits_val(seg) && p.0 <= 9_223_372_036_854
            &&& p.1 ==> digits_val(seg) > 9_223_372_036_854
        },
{
    let ghost seg = t@.subrange(from as int, to as int);
    let mut acc: u64 = 0;
    let mut big: bool = false;
    let mut m: usize = from;
    proof {
        assert(seg.take(0) =~= Seq::<char>::empty());
    }
    while m < to
        invariant
            from <= m <= to,
            seg == t@.subrange(from as int, to as int),
            seg.len() == to - from,
            forall|mm: int| 0 <= mm < m - from ==> is_digit(#[trigger] seg[mm]),
            !big ==> acc as int == digits_val(seg.take((m - from) as int)) && acc
                <= 9_223_372_036_854,
            big ==> digits_val(seg.take((m - from) as int)) > 9_223_372_036_854,
        decreases to - m,
    {
        proof {
            assert(seg[(m - from) as int] == t@[m as int]);
        }
        let d = match digit_of(t[m]) {
            Some(d) => d,
            None => {
                proof {
                    assert(!is_digit(seg[(m - from) as int]));
                }
                return None;
            },
        };
        proof {
            assert(seg.take((m - from) as int + 1).drop_last() =~= seg.take((m - from) as int));
            assert(seg.take((m - from) as int + 1).last() == seg[(m - from) as int]);
        }
        if !big {
            let na: u64 = acc * 10 + d;
            if na > 9_223_372_036_854 {
                big = true;
            } else {
                acc = na;
            }
        } else {
            proof {
                let pv = digits_val(seg.take((m - from) as int));
                assert(digits_val(seg.take((m - from) as int + 1)) == pv * 10 + digit_val(
                    seg[(m - from) as int],
                ));
            }
        }
        m += 1;
    }
    proof {
        assert(seg.take((to - from) as int) =~= seg);
    }
    Some((acc, big))
}

/// Scans a fraction run: its first six digits' value, scaled later.
#[verifier::loop_isolation(false)]
fn scan_frac(t: &Vec<char>, from: usize, to: usize) -> (r: Option<(u64, usize)>)
    requires
        from <= to <= t@.len(),
    ensures
        r is None ==> !all_digits(t@.subrange(from as int, to as int)),
        r matches Some(p) ==> {
            let seg = t@.subrange(from as int, to as int);
            &&& all_digits(seg)
            &&& p.1 == if seg.len() <= 6 {
                seg.len() as int
            } else {
                6int
            }
            &&& p.0 as int == digits_val(seg.take(p.1 as int))
            &&& (p.0 as int) < pow10(p.1 as nat)
            &&& p.1 <= 6
        },
{
    let ghost seg = t@.subrange(from as int, to as int);
    let mut facc: u64 = 0;
    let mut fd: usize = 0;
    let mut q: usize = from;
    proof {
        assert(seg.take(0) =~= Seq::<char>::empty());
        assert(pow10(0) == 1);
        assert(pow10(1) == 10);
        assert(pow10(2) == 100);
        assert(pow10(3) == 1000);
        assert(pow10(4) == 10000);
        assert(pow10(5) == 100000);
        assert(pow10(6) == 1000000);
    }
    while q < to
        invariant
            from <= q <= to,
            seg == t@.subrange(from as int, to as int),
            seg.len() == to - from,
            forall|mm: int| 0 <= mm < q - from ==> is_digit(#[trigger] seg[mm]),
            fd == if q - from <= 6 {
                q - from
            } else {
                6
            },
            facc as int == digits_val(seg.take(fd as int)),
            (facc as int) < pow10(fd as nat),
            fd <= 6,
            pow10(5) == 100000,
        decreases to - q,
    {
        proof {
            assert(seg[(q - from) as int] == t@[q as int]);
        }
        let d = match digit_of(t[q]) {
            Some(d) => d,
            None => {
                proof {
                    assert(!is_digit(seg[(q - from) as int]));
                }
                return None;
            },
        };
        if fd < 6 {
            proof {
                assert(seg.take(fd as int + 1).drop_last() =~= seg.take(fd as int));
                assert(seg.take(fd as int + 1).last() == seg[fd as int]);
                lemma_pow10_mono(fd as nat, 5);
            }
            facc = facc * 10 + d;
            fd += 1;
        }
        q += 1;
    }
    Some((facc, fd))
}

/// Decodes a plain decimal into a fixed-point number, per
/// [`spec_parse_mantissa`].
#[verifier::loop_isolation(false)]
#[verifier::rlimit(100)]
fn parse_mantissa(t: &Vec<char>) -> (r: Option<Num>)
    ensures
        r matches Some(n) ==> spec_parse_mantissa(t@) == Some(n.units as int),
        r is None ==> spec_parse_mantissa(t@) is None,
{
    if t.len() == 0 {
        return None;
    }
    let c0 = t[0];
    let neg: bool = c0 == '-';
    let b: usize = if c0 == '-' || c0 == '+' {
        1
    } else {
        0
    };
    let ghost body = if t@[0] == '-' || t@[0] == '+' {
        t@.drop_first()
    } else {
        t@
    };
    proof {
        assert(body =~= t@.skip(b as int));
    }
    if t.len() == b {
        return None;
    }
    let mut da: usize = b;
    while da < t.len() && !(t[da] == '.')
        invariant
            b <= da <= t@.len(),
            forall|m: int| b <= m < da ==> #[trigger] t@[m] != '.',
        decreases t@.len() - da,
    {
        da += 1;
    }
    proof {
        assert forall|m: int| 0 <= m < da - b implies body[m] != '.' by {
            assert(body[m] == t@[m + b]);
        }
        lemma_dot_idx_at(body, da - b);
    }
    let ghost di = dot_idx(body);
    let has_dot: bool = da < t.len();
    if has_dot && da == b && da + 1 == t.len() {
        proof {
            let fp0 = body.skip(di as int + 1);
            assert(fp0.len() == 0);
            assert(body.take(di as int).len() == 0);
        }
        return None;
    }
    let ghost ip = body.take(di as int);
    proof {
        if !has_dot {
            assert(ip =~= body);
        }
        assert(ip =~= t@.subrange(b as int, da as int));
    }
    let (acc, big) = match scan_int(t, b, da) {
        Some(p) => p,
        None => {
            proof {
                assert(!all_digits(ip));
            }
            return None;
        },
    };
    let ghost fp = if has_dot {
        body.skip(di as int + 1)
    } else {
        Seq::<char>::empty()
    };
    proof {
        if has_dot {
            assert(fp =~= t@.subrange(da as int + 1, t@.len() as int));
        } else {
            assert(fp =~= t@.subrange(t@.len() as int, t@.len() as int));
        }
        assert(pow10(0) == 1);
        assert(pow10(1) == 10);
        assert(pow10(2) == 100);
        assert(pow10(3) == 1000);
        assert(pow10(4) == 10000);
        assert(pow10(5) == 100000);
        assert(pow10(6) == 1000000);
    }
    let fstart: usize = if has_dot {
        da + 1
    } else {
        t.len()
    };
    let (facc, fd) = match scan_frac(t, fstart, t.len()) {
        Some(p) => p,
        None => {
            proof {
                assert(!all_digits(fp));
            }
            return None;
        },
    };
    let fv: u64 = if fd == 6 {
        facc
    } else if fd == 5 {
        facc * 10
    } else if fd == 4 {
        facc * 100
    } else if fd == 3 {
        facc * 1_000
    } else if fd == 2 {
        facc * 10_000
    } else if fd == 1 {
        facc * 100_000
    } else {
        facc * 1_000_000
    };
    proof {
        assert(fv < 1_000_000);
        if has_dot {
            if fp.len() >= 6 {
                assert(fv as int == digits_val(fp.take(6)));
            } else {
                assert(fp.take(fd as int) =~= fp);
                assert(fv as int == digits_val(fp) * pow10((6 - fp.len()) as nat));
            }
        } else {
            assert(fp.len() == 0);
            assert(fv == 0);
        }
        lemma_digits_nonneg(fp.take(fd as int));
    }
    if big {
        proof {
            let iv = digits_val(ip);
            assert(iv > 9_223_372_036_854);
            if has_dot && fp.len() < 6 {
                lemma_digits_nonneg(fp);
                lemma_pow10_mono(0, (6 - fp.len()) as nat);
                assert(digits_val(fp) * pow10((6 - fp.len()) as nat) >= 0) by (nonlinear_arith)
                    requires
                        digits_val(fp) >= 0,
                        pow10((6 - fp.len()) as nat) >= 1,
                ;
            }
            if has_dot && fp.len() >= 6 {
                assert(fp.take(fd as int) =~= fp.take(6));
            }
        }
        return None;
    }
    let mag: u64 = acc * 1_000_000 + fv;
    if mag > 9_223_372_036_854_775_807u64 {
        return None;
    }
    let units: i64 = if neg {
        -(mag as i64)
    } else {
        mag as i64
    };
    proof {
        assert(acc as int == digits_val(ip));
        if t@[0] == '-' {
            assert(units as int == -1 * (mag as int));
        } else {
            assert(units as int == 1 * (mag as int));
        }
        if has_dot && fp.len() >= 6 {
            assert(fp.take(fd as int) =~= fp.take(6));
        }
        assert forall|mm: int| 0 <= mm < fp.len() implies #[trigger] fp[mm] != '.' by {
            assert(is_digit(fp[mm]));
        }
        lemma_dot_idx_at(fp, fp.len() as int);
        assert(dot_idx(fp) == fp.len());
        if has_dot {
            assert(!(da == b && da + 1 == t@.len()));
            assert(ip.len() + fp.len() > 0);
        }
        assert(spec_parse_mantissa(t@) == Some(units as int));
    }
    Some(Num { units })
}

/// Characterizes the first exponent marker by its neighborhood.
proof fn lemma_exp_idx_at(s: Seq<char>, k: int)
    requires
        0 <= k <= s.len(),
        forall|m: int| 0 <= m < k ==> s[m] != 'e' && #[trigger] s[m] != 'E',
        k == s.len() || s[k] == 'e' || s[k] == 'E',
    ensures
        exp_idx(s) == k,
    decreases k,
{
    if k > 0 {
        assert(s[0] != 'e' && s[0] != 'E');
        lemma_exp_idx_at(s.drop_first(), k - 1);
    }
}

/// A plain decimal never denotes more than `i64::MAX` units in
/// magnitude.
proof fn lemma_mantissa_bound(t: Seq<char>)
    ensures
        spec_parse_mantissa(t) matches Some(u) ==> -(i64::MAX as int) <= u <= i64::MAX,
{
    if spec_parse_mantissa(t) is Some {
        let u = spec_parse_mantissa(t).unwrap();
        let sgn: int = if t[0] == '-' {
            -1
        } else {
            1
        };
        let body = if t[0] == '-' || t[0] == '+' {
            t.drop_first()
        } else {
            t
        };
        let di = dot_idx(body);
        if di >= body.len() {
            lemma_digits_nonneg(body);
            let mag = digits_val(body) * 1_000_000;
            assert(0 <= mag <= i64::MAX);
            assert(u == sgn * mag);
            assert(sgn * mag == if sgn == -1 {
                -mag
            } else {
                mag
            });
        } else {
            let ip = body.take(di as int);
            let fp = body.skip(di as int + 1);
            lemma_digits_nonneg(ip);
            if fp.len() >= 6 {
                assert(all_digits(fp.take(6))) by {
                    assert forall|i: int| 0 <= i < fp.take(6).len() implies is_digit(
                        #[trigger] fp.take(6)[i],
                    ) by {
                        assert(fp.take(6)[i] == fp[i]);
                    }
                }
                lemma_digits_nonneg(fp.take(6));
            } else {
                lemma_digits_nonneg(fp);
                lemma_pow10_mono(0, (6 - fp.len()) as nat);
                assert(digits_val(fp) * pow10((6 - fp.len()) as nat) >= 0) by (nonlinear_arith)
                    requires
                        digits_val(fp) >= 0,
                        pow10((6 - fp.len()) as nat) >= 1,
                ;
            }
            let fv = if fp.len() >= 6 {
                digits_val(fp.take(6))
            } else {
                digits_val(fp) * pow10((6 - fp.len()) as nat)
            };
            let mag = digits_val(ip) * 1_000_000 + fv;
            assert(0 <= mag <= i64::MAX);
            assert(u == sgn * mag);
            assert(sgn * mag == if sgn == -1 {
                -mag
            } else {
                mag
            });
        }
    }
}

/// Concrete values of the large powers of ten.
proof fn lemma_pow10_vals()
    ensures
        pow10(18) == 1_000_000_000_000_000_000,
        pow10(19) == 10_000_000_000_000_000_000,
{
    assert(pow10(0) == 1);
    assert(pow10(1) == 10);
    assert(pow10(2) == 100);
    assert(pow10(3) == 1000);
    assert(pow10(4) == 10000);
    assert(pow10(5) == 100000);
    assert(pow10(6) == 1000000);
    assert(pow10(7) == 10000000);
    assert(pow10(8) == 100000000);
    assert(pow10(9) == 1000000000);
    assert(pow10(10) == 10000000000);
    assert(pow10(11) == 100000000000);
    assert(pow10(12) == 1000000000000);
    assert(pow10(13) == 10000000000000);
    assert(pow10(14) == 100000000000000);
    assert(pow10(15) == 1000000000000000);
    assert(pow10(16) == 10000000000000000);
    assert(pow10(17) == 100000000000000000);
    assert(pow10(18) == 1000000000000000000);
    assert(pow10(19) == 10000000000000000000);
}

/// Ten to the `d`, executable.
#[verifier::loop_isolation(false)]
fn pow10_u64(d: u64) -> (r: u64)
    requires
        d <= 19,
    ensures
        r as int == pow10(d as nat),
{
    proof {
        assert(pow10(0) == 1);
        assert(pow10(1) == 10);
        assert(pow10(2) == 100);
        assert(pow10(3) == 1000);
        assert(pow10(4) == 10000);
        assert(pow10(5) == 100000);
        assert(pow10(6) == 1000000);
        assert(pow10(7) == 10000000);
        assert(pow10(8) == 100000000);
        assert(pow10(9) == 1000000000);
        assert(pow10(10) == 10000000000);
        assert(pow10(11) == 100000000000);
        assert(pow10(12) == 1000000000000);
        assert(pow10(13) == 10000000000000);
        assert(pow10(14) == 100000000000000);
        assert(pow10(15) == 1000000000000000);
        assert(pow10(16) == 10000000000000000);
        assert(pow10(17) == 100000000000000000);
        assert(pow10(18) == 1000000000000000000);
        assert(pow10(19) == 10000000000000000000);
    }
    let mut r: u64 = 1;
    let mut i: u64 = 0;
    while i < d
        invariant
            0 <= i <= d <= 19,
            r as int == pow10(i as nat),
        decreases d - i,
    {
        proof {
            lemma_pow10_mono(i as nat, 18);
        }
        r = r * 10;
        i += 1;
    }
    r
}

/// Decodes a value token into a fixed-point number, per
/// [`spec_parse_num`].
#[verifier::loop_isolation(false)]
#[verifier::rlimit(100)]
fn parse_num(t: &Vec<char>) -> (r: Option<Num>)
    ensures
        r matches Some(n) ==> spec_parse_num(t@) == Some(n.units as int),
        r is None ==> spec_parse_num(t@) is None,
{
    let mut ei: usize = 0;
    while ei < t.len() && !(t[ei] == 'e' || t[ei] == 'E')
        invariant
            0 <= ei <= t@.len(),
            forall|m: int| 0 <= m < ei ==> t@[m] != 'e' && #[trigger] t@[m] != 'E',
        decreases t@.len() - ei,
    {
        ei += 1;
    }
    proof {
        lemma_exp_idx_at(t@, ei as int);
    }
    if ei == t.len() {
        return parse_mantissa(t);
    }
    let mut mant: Vec<char> = Vec::new();
    let mut m: usize = 0;
    while m < ei
        invariant
            0 <= m <= ei <= t@.len(),
            mant@ == t@.subrange(0, m as int),
        decreases ei - m,
    {
        let c = t[m];
        mant.push(c);
        proof {
            assert(mant@ =~= t@.subrange(0, m as int + 1));
        }
        m += 1;
    }
    let mut et: Vec<char> = Vec::new();
    let mut m2: usize = ei + 1;
    while m2 < t.len()
        invariant
            ei + 1 <= m2 <= t@.len(),
            et@ == t@.subrange(ei as int + 1, m2 as int),
        decreases t@.len() - m2,
    {
        let c = t[m2];
        et.push(c);
        proof {
            assert(et@ =~= t@.subrange(ei as int + 1, m2 as int + 1));
        }
        m2 += 1;
    }
    proof {
        assert(mant@ =~= t@.take(ei as int));
        assert(et@ =~= t@.skip(ei as int + 1));
    }
    let eneg: bool = et.len() > 0 && et[0] == '-';
    let eb: usize = if et.len() > 0 && (et[0] == '-' || et[0] == '+') {
        1
    } else {
        0
    };
    let ghost ed = if et@.len() > 0 && (et@[0] == '-' || et@[0] == '+') {
        et@.drop_first()
    } else {
        et@
    };
    proof {
        assert(ed =~= et@.subrange(eb as int, et@.len() as int));
    }
    if et.len() == eb {
        return None;
    }
    let scanned = match scan_int(&et, eb, et.len()) {
        Some(pr) => pr,
        None => {
            return None;
        },
    };
    let (dacc, dbig) = scanned;
    let u = match parse_mantissa(&mant) {
        Some(n) => n,
        None => {
            return None;
        },
    };
    proof {
        lemma_mantissa_bound(mant@);
        lemma_digits_nonneg(ed);
    }
    if eneg {
        let dd: u64 = if dbig {
            19
        } else if dacc > 19 {
            19
        } else {
            dacc
        };
        proof {
            assert(dd as int == if digits_val(ed) > 19 {
                19int
            } else {
                digits_val(ed)
            });
        }
        let p: u64 = pow10_u64(dd);
        proof {
            lemma_pow10_mono(0, dd as nat);
        }
        let mag: u64 = if u.units < 0 {
            (-(u.units as i128)) as u64
        } else {
            u.units as u64
        };
        proof {
            assert(mag as nat == crate::num::abs_int(u.units as int));
        }
        let q: u64 = mag / p;
        let units: i64 = if u.units < 0 {
            -(q as i64)
        } else {
            q as i64
        };
        proof {
            assert(q as nat == crate::num::abs_int(u.units as int) / (pow10(dd as nat) as nat));
            assert(spec_parse_num(t@) == Some(units as int));
        }
        Some(Num { units })
    } else {
        if u.units == 0 {
            proof {
                assert(spec_parse_num(t@) == Some(0int));
            }
            return Some(Num { units: 0 });
        }
        if dbig || dacc > 18 {
            proof {
                assert(digits_val(ed) > 18);
            }
            return None;
        }
        let p: u64 = pow10_u64(dacc);
        proof {
            lemma_pow10_mono(0, dacc as nat);
            lemma_pow10_mono(dacc as nat, 18);
            lemma_pow10_vals();
            assert(-0x8000_0000_0000_0000_0000_0000_0000_0000 <= (u.units as i128) * (p as i128)
                < 0x8000_0000_0000_0000_0000_0000_0000_0000) by (nonlinear_arith)
                requires
                    -0x8000_0000_0000_0000 <= u.units as i128 <= 0x7FFF_FFFF_FFFF_FFFF,
                    0 < p as i128 <= 1_000_000_000_000_000_000,
            ;
        }
        let prod: i128 = (u.units as i128) * (p as i128);
        if prod < -(i64::MAX as i128) || prod > i64::MAX as i128 {
            return None;
        }
        let units: i64 = prod as i64;
        proof {
            assert(spec_parse_num(t@) == Some(units as int));
        }
        Some(Num { units })
    }
}

/// Characterizes the first slot of a name by its neighborhood.
proof fn lemma_sol_find_at(m: Seq<(Seq<char>, int)>, k: int, name: Seq<char>)
    requires
        0 <= k <= m.len(),
        forall|i: int| 0 <= i < k ==> (#[trigger] m[i]).0 != name,
        k == m.len() || m[k].0 == name,
    ensures
        sol_find(m, name) == k,
    decreases k,
{
    if k > 0 {
        assert(m[0].0 != name);
        lemma_sol_find_at(m.drop_first(), k - 1, name);
    }
}

/// Records a value in the mapping: overwrites the slot of an existing
/// name, or appends a fresh one.
#[verifier::loop_isolation(false)]
fn sol_upsert(m: &mut Vec<(String, Num)>, name: String, u: Num)
    ensures
        pair_views(final(m)@) == upsert(pair_views(old(m)@), name@, u@),
{
    let ghost mv = pair_views(m@);
    let mut k: usize = 0;
    while k < m.len()
        invariant
            0 <= k <= m@.len(),
            m@ == old(m)@,
            mv == pair_views(m@),
            mv.len() == m@.len(),
            forall|i: int| 0 <= i < k ==> (#[trigger] mv[i]).0 != name@,
        decreases m@.len() - k,
    {
        if m[k].0 == name {
            proof {
                assert(mv[k as int].0 == name@);
                lemma_sol_find_at(mv, k as int, name@);
            }
            m[k] = (name, u);
            proof {
                assert(pair_views(m@) =~= upsert(mv, name@, u@));
            }
            return ;
        }
        k += 1;
    }
    proof {
        lemma_sol_find_at(mv, m@.len() as int, name@);
    }
    m.push((name, u));
    proof {
        assert(pair_views(m@) =~= upsert(mv, name@, u@));
    }
}

/// Reads the data lines from `pos` on, accumulating into `acc`.
#[verifier::loop_isolation(false)]
#[verifier::rlimit(100)]
fn read_lines(v: &Vec<char>, pos: usize, acc: Vec<(String, Num)>) -> (r: Result<
    Vec<(String, Num)>,
    ParseError,
>)
    requires
        pos <= v@.len(),
    ensures
        outcome_of(r) == spec_read_lines(v@.skip(pos as int), pair_views(acc@)),
    decreases v@.len() - pos,
{
    let ghost s = v@.skip(pos as int);
    if pos == v.len() {
        proof {
            assert(s.len() == 0);
        }
        return Ok(acc);
    }
    let le = find_nl(v, pos);
    let ghost line = s.take(line_end(s) as int);
    proof {
        assert forall|m: int| 0 <= m < le - pos implies #[trigger] s[m] != '\n' by {
            assert(s[m] == v@[m + pos]);
        }
        lemma_line_end_at(s, le - pos);
        assert(line =~= v@.subrange(pos as int, le as int));
    }
    let mut lv: Vec<char> = Vec::new();
    let mut m: usize = pos;
    while m < le
        invariant
            pos <= m <= le <= v@.len(),
            lv@ == v@.subrange(pos as int, m as int),
        decreases le - m,
    {
        let c = v[m];
        lv.push(c);
        proof {
            assert(lv@ =~= v@.subrange(pos as int, m as int + 1));
        }
        m += 1;
    }
    proof {
        assert(lv@ == line);
    }
    if lv.len() > 0 && lv[0] == '#' {
        if le == v.len() {
            proof {
                assert(line_end(s) >= s.len());
            }
            return Ok(acc);
        }
        let r = read_lines(v, le + 1, acc);
        proof {
            assert(s.skip(line_end(s) as int + 1) =~= v@.skip(le as int + 1));
        }
        return r;
    }
    let ts = toks(&lv, 0);
    proof {
        assert(lv@.skip(0) =~= lv@);
        assert(ts.deep_view() == tokens_of(line));
        assert(ts.deep_view().len() == ts@.len());
    }
    if ts.len() != 2 {
        let r: Result<Vec<(String, Num)>, ParseError> = Err(
            ParseError::MalformedSolutionLine(chars_to_string(&lv)),
        );
        proof {
            assert(outcome_of(r) == ReadOutcome::BadLine(line));
        }
        return r;
    }
    proof {
        assert(ts.deep_view()[1] == ts@[1].deep_view());
        assert(ts@[1].deep_view() =~= ts@[1]@);
        assert(ts.deep_view()[0] == ts@[0].deep_view());
        assert(ts@[0].deep_view() =~= ts@[0]@);
    }
    let u = match parse_num(&ts[1]) {
        Some(u) => u,
        None => {
            let r: Result<Vec<(String, Num)>, ParseError> = Err(
                ParseError::InvalidNumber(chars_to_string(&ts[1])),
            );
            proof {
                assert(outcome_of(r) == ReadOutcome::BadNum(tokens_of(line)[1]));
            }
            return r;
        },
    };
    let name = chars_to_string(&ts[0]);
    let mut acc2 = acc;
    proof {
        assert(tokens_of(line)[0] == name@);
        assert(tokens_of(line)[1] == ts@[1]@);
    }
    sol_upsert(&mut acc2, name, u);
    if le == v.len() {
        proof {
            assert(line_end(s) >= s.len());
        }
        return Ok(acc2);
    }
    let r = read_lines(v, le + 1, acc2);
    proof {
        assert(s.skip(line_end(s) as int + 1) =~= v@.skip(le as int + 1));
    }
    r
}

/// Reads a whole solution text, threading the caller-supplied status
/// through unchanged: the grammar is given by [`spec_read`].
#[verifier::loop_isolation(false)]
pub fn read_solution(text: &str, status: Status) -> (r: Result<Solution, ParseError>)
    ensures
        r matches Ok(sol) ==> sol.status == status && spec_read(text@) == ReadOutcome::Done(
            pair_views(sol.values@),
        ),
        r matches Err(e) ==> ({
            ||| (e is MalformedSolutionHeader && spec_read(text@) is BadHeader)
            ||| (e matches ParseError::MalformedSolutionLine(l) && spec_read(text@)
                == ReadOutcome::BadLine(l@))
            ||| (e matches ParseError::InvalidNumber(tk) && spec_read(text@)
                == ReadOutcome::BadNum(tk@))
        }),
        (r is Ok) <==> (spec_read(text@) is Done),
{
    let v = crate::text::str_to_chars(text);
    if v.len() == 0 {
        return Err(ParseError::MalformedSolutionHeader);
    }
    let le0 = find_nl(&v, 0);
    let ghost hdr = v@.take(line_end(v@) as int);
    proof {
        assert(v@.skip(0) =~= v@);
        assert(line_end(v@.skip(0)) == line_end(v@));
        assert(hdr =~= v@.subrange(0, le0 as int));
    }
    let mut hv: Vec<char> = Vec::new();
    let mut m: usize = 0;
    while m < le0
        invariant
            0 <= m <= le0 <= v@.len(),
            hv@ == v@.subrange(0, m as int),
        decreases le0 - m,
    {
        let c = v[m];
        hv.push(c);
        proof {
            assert(hv@ =~= v@.subrange(0, m as int + 1));
        }
        m += 1;
    }
    proof {
        assert(hv@ == hdr);
    }
    let hts = toks(&hv, 0);
    proof {
        assert(hv@.skip(0) =~= hv@);
        assert(hts.deep_view() == tokens_of(hdr));
        assert(hts.deep_view().len() == hts@.len());
    }
    if hts.len() == 0 {
        return Err(ParseError::MalformedSolutionHeader);
    }
    if le0 == v.len() {
        let sol = Solution { status, values: Vec::new() };
        proof {
            assert(pair_views(sol.values@) =~= Seq::<(Seq<char>, int)>::empty());
        }
        return Ok(sol);
    }
    let start: Vec<(String, Num)> = Vec::new();
    proof {
        assert(pair_views(start@) =~= Seq::<(Seq<char>, int)>::empty());
    }
    match read_lines(&v, le0 + 1, start) {
        Ok(mvals) => {
            let sol = Solution { status, values: mvals };
            Ok(sol)
        },
        Err(e) => Err(e),
    }
}

} // verus!
