//! Character-sequence utilities: building output text, rendering
//! fixed-point numbers, and substring search.

use vstd::prelude::*;
use vstd::string::StrSliceExecFns;

verus! {

/// The character for one decimal digit.
pub open spec fn digit_char(d: int) -> char {
    if d == 0 {
        '0'
    } else if d == 1 {
        '1'
    } else if d == 2 {
        '2'
    } else if d == 3 {
        '3'
    } else if d == 4 {
        '4'
    } else if d == 5 {
        '5'
    } else if d == 6 {
        '6'
    } else if d == 7 {
        '7'
    } else if d == 8 {
        '8'
    } else {
        '9'
    }
}

/// The decimal digits of `n`, most significant first, no leading zeros
/// (a single `'0'` for zero).
pub open spec fn spec_udigits(n: nat) -> Seq<char>
    decreases n,
{
    if n < 10 {
        seq![digit_char(n as int)]
    } else {
        spec_udigits(n / 10).push(digit_char((n % 10) as int))
    }
}

/// The six decimal digits of a fractional part below one million,
/// zero-padded on the left.
pub open spec fn frac6(fp: nat) -> Seq<char> {
    seq![
        digit_char(((fp / 100000) % 10) as int),
        digit_char(((fp / 10000) % 10) as int),
        digit_char(((fp / 1000) % 10) as int),
        digit_char(((fp / 100) % 10) as int),
        digit_char(((fp / 10) % 10) as int),
        digit_char((fp % 10) as int),
    ]
}

/// `s` without its trailing `'0'` characters.
pub open spec fn trim_zeros(s: Seq<char>) -> Seq<char>
    decreases s.len(),
{
    if s.len() > 0 && s.last() == '0' {
        trim_zeros(s.drop_last())
    } else {
        s
    }
}

/// The rendering of a nonnegative count of millionths: integer part,
/// then a `'.'` and the fractional digits (trailing zeros trimmed) when
/// the fraction is nonzero.
pub open spec fn spec_mag_chars(m: nat) -> Seq<char> {
    let ip = m / 1_000_000;
    let fp = m % 1_000_000;
    if fp == 0 {
        spec_udigits(ip)
    } else {
        spec_udigits(ip) + seq!['.'] + trim_zeros(frac6(fp))
    }
}

/// The rendering of a signed count of millionths.
pub open spec fn spec_num_chars(u: int) -> Seq<char> {
    if u < 0 {
        seq!['-'] + spec_mag_chars((-u) as nat)
    } else {
        spec_mag_chars(u as nat)
    }
}

/// `n` occurs as a contiguous run of `h` starting at `i`.
pub open spec fn contains_at(h: Seq<char>, n: Seq<char>, i: int) -> bool {
    0 <= i && i + n.len() <= h.len() && h.subrange(i, i + n.len()) == n
}

/// `n` occurs somewhere in `h`.
pub open spec fn contains_seq(h: Seq<char>, n: Seq<char>) -> bool {
    exists|i: int| contains_at(h, n, i)
}

/// Appends the characters of `s` to `out`.
#[verifier::loop_isolation(false)]
pub fn push_str_chars(out: &mut Vec<char>, s: &str)
    ensures
        final(out)@ == old(out)@ + s@,
{
    let n = s.unicode_len();
    let mut i: usize = 0;
    proof {
        assert(out@ =~= old(out)@ + s@.take(0));
    }
    while i < n
        invariant
            0 <= i <= n,
            n == s@.len(),
            out@ == old(out)@ + s@.take(i as int),
        decreases n - i,
    {
        let c = s.get_char(i);
        out.push(c);
        proof {
            assert(out@ =~= old(out)@ + s@.take(i as int + 1));
        }
        i += 1;
    }
    proof {
        assert(s@.take(n as int) =~= s@);
    }
}

/// The characters of `s` as a vector.
#[verifier::loop_isolation(false)]
pub fn str_to_chars(s: &str) -> (r: Vec<char>)
    ensures
        r@ == s@,
{
    let mut out: Vec<char> = Vec::new();
    push_str_chars(&mut out, s);
    out
}

/// Relies on `String`'s `FromIterator<char>`: collecting characters
/// yields the string holding exactly those characters in order.
#[verifier::external_body]
pub fn chars_to_string(v: &Vec<char>) -> (r: String)
    ensures
        r@ == v@,
{
    v.iter().collect()
}

/// The character for one decimal digit.
pub fn digit_char_of(d: u64) -> (c: char)
    requires
        d < 10,
    ensures
        c == digit_char(d as int),
{
    if d == 0 {
        '0'
    } else if d == 1 {
        '1'
    } else if d == 2 {
        '2'
    } else if d == 3 {
        '3'
    } else if d == 4 {
        '4'
    } else if d == 5 {
        '5'
    } else if d == 6 {
        '6'
    } else if d == 7 {
        '7'
    } else if d == 8 {
        '8'
    } else {
        '9'
    }
}

/// Appends the decimal digits of `n`.
pub fn push_udigits(out: &mut Vec<char>, n: u64)
    ensures
        final(out)@ == old(out)@ + spec_udigits(n as nat),
    decreases n,
{
    if n < 10 {
        out.push(digit_char_of(n));
        proof {
            assert(out@ =~= old(out)@ + spec_udigits(n as nat));
        }
    } else {
        push_udigits(out, n / 10);
        out.push(digit_char_of(n % 10));
        proof {
            assert(out@ =~= old(out)@ + spec_udigits(n as nat));
        }
    }
}

/// Appends the rendering of a nonnegative count of millionths.
#[verifier::loop_isolation(false)]
pub fn push_mag_chars(out: &mut Vec<char>, m: u64)
    ensures
        final(out)@ == old(out)@ + spec_mag_chars(m as nat),
{
    let ip: u64 = m / 1_000_000;
    let fp: u64 = m % 1_000_000;
    push_udigits(out, ip);
    if fp != 0 {
        out.push('.');
        let mut tmp: Vec<char> = Vec::new();
        tmp.push(digit_char_of((fp / 100000) % 10));
        tmp.push(digit_char_of((fp / 10000) % 10));
        tmp.push(digit_char_of((fp / 1000) % 10));
        tmp.push(digit_char_of((fp / 100) % 10));
        tmp.push(digit_char_of((fp / 10) % 10));
        tmp.push(digit_char_of(fp % 10));
        proof {
            assert(tmp@ =~= frac6(fp as nat));
        }
        let mut end: usize = 6;
        proof {
            assert(tmp@.take(6) =~= tmp@);
        }
        while end > 0 && tmp[end - 1] == '0'
            invariant
                0 <= end <= 6,
                tmp@ == frac6(fp as nat),
                tmp@.len() == 6,
                trim_zeros(tmp@.take(end as int)) == trim_zeros(tmp@),
            decreases end,
        {
            proof {
                assert(tmp@.take(end as int).last() == '0');
                assert(tmp@.take(end as int).drop_last() =~= tmp@.take(end as int - 1));
            }
            end -= 1;
        }
        proof {
            assert(trim_zeros(tmp@.take(end as int)) == tmp@.take(end as int));
        }
        let mut q: usize = 0;
        while q < end
            invariant
                0 <= q <= end <= 6,
                tmp@.len() == 6,
                out@ == old(out)@ + spec_udigits(ip as nat) + seq!['.'] + tmp@.take(q as int),
            decreases end - q,
        {
            let c = tmp[q];
            out.push(c);
            proof {
                assert(out@ =~= old(out)@ + spec_udigits(ip as nat) + seq!['.'] + tmp@.take(
                    q as int + 1,
                ));
            }
            q += 1;
        }
        proof {
            assert(out@ =~= old(out)@ + spec_mag_chars(m as nat));
        }
    }
}

/// Appends the rendering of a signed count of millionths.
pub fn push_num_chars(out: &mut Vec<char>, u: i64)
    ensures
        final(out)@ == old(out)@ + spec_num_chars(u as int),
{
    if u < 0 {
        out.push('-');
        let m: u64 = (-(u as i128)) as u64;
        proof {
            assert(m as nat == (-(u as int)) as nat);
        }
        push_mag_chars(out, m);
        proof {
            assert(out@ =~= old(out)@ + spec_num_chars(u as int));
        }
    } else {
        push_mag_chars(out, u as u64);
    }
}

/// Whether `nd` occurs as a contiguous run of `h`.
#[verifier::loop_isolation(false)]
pub fn contains_chars(h: &Vec<char>, nd: &Vec<char>) -> (r: bool)
    ensures
        r == contains_seq(h@, nd@),
{
    if nd.len() > h.len() {
        proof {
            assert(forall|i: int| !contains_at(h@, nd@, i));
        }
        return false;
    }
    if nd.len() == 0 {
        proof {
            assert(h@.subrange(0, 0) =~= nd@);
            assert(contains_at(h@, nd@, 0));
        }
        return true;
    }
    let last_start: usize = h.len() - nd.len();
    let mut i: usize = 0;
    while i <= last_start
        invariant
            0 <= i <= last_start + 1,
            last_start == h@.len() - nd@.len(),
            forall|ii: int| 0 <= ii < i ==> !contains_at(h@, nd@, ii),
        decreases last_start + 1 - i,
    {
        let mut j: usize = 0;
        let mut matched: bool = true;
        while j < nd.len()
            invariant
                0 <= j <= nd@.len(),
                0 <= i <= last_start,
                matched ==> forall|jj: int| 0 <= jj < j ==> h@[i + jj] == nd@[jj],
                !matched ==> !contains_at(h@, nd@, i as int),
            decreases nd@.len() - j,
        {
            if h[i + j] != nd[j] {
                proof {
                    if contains_at(h@, nd@, i as int) {
                        assert(h@.subrange(i as int, i + nd@.len())[j as int] == nd@[j as int]);
                    }
                }
                matched = false;
                j = nd.len();
            } else {
                j += 1;
            }
        }
        if matched {
            proof {
                assert(h@.subrange(i as int, i + nd@.len()) =~= nd@);
                assert(contains_at(h@, nd@, i as int));
            }
            return true;
        }
        i += 1;
    }
    proof {
        assert forall|ii: int| !contains_at(h@, nd@, ii) by {
            if contains_at(h@, nd@, ii) {
                assert(0 <= ii <= last_start);
            }
        }
    }
    false
}

} // verus!
