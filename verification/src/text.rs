//! Small verified text helpers: decimal rendering of counters for error
//! messages, and strict parsing of signed 64-bit decimal integers.

use vstd::prelude::*;

verus! {

pub open spec fn spec_digit_char(d: int) -> char {
    ((0x30 + d) as u8) as char
}

/// The decimal digit string of a non-negative number.
pub open spec fn spec_dec_str(n: int) -> Seq<char>
    decreases n,
{
    if n < 10 {
        seq![spec_digit_char(if n < 0 {
            0
        } else {
            n
        })]
    } else {
        spec_dec_str(n / 10) + seq![spec_digit_char(n % 10)]
    }
}

/// Relies on core::fmt's Display implementation for u64: the decimal digit
/// string of the value.
#[verifier::external_body]
pub fn u64_to_string(n: u64) -> (r: String)
    ensures
        r@ == spec_dec_str(n as int),
{
    format!("{}", n)
}

pub open spec fn spec_is_digit(c: char) -> bool {
    '0' <= c <= '9'
}

pub open spec fn spec_digit_val(c: char) -> int {
    c as int - 0x30
}

pub open spec fn spec_is_ascii_ws(c: char) -> bool {
    c == ' ' || c == '\t' || c == '\n' || c == '\r' || c == (0x0b as u8 as char) || c == (
    0x0c as u8 as char)
}

/// The sequence with leading and trailing ASCII whitespace removed.
pub open spec fn spec_trim_ascii(s: Seq<char>) -> Seq<char>
    decreases s.len(),
{
    if s.len() == 0 {
        Seq::empty()
    } else if spec_is_ascii_ws(s[0]) {
        spec_trim_ascii(s.drop_first())
    } else if spec_is_ascii_ws(s.last()) {
        spec_trim_ascii(s.drop_last())
    } else {
        s
    }
}

/// The value of a digit string, most significant digit first.
pub open spec fn spec_digits_val(s: Seq<char>) -> int
    decreases s.len(),
{
    if s.len() == 0 {
        0
    } else {
        spec_digits_val(s.drop_last()) * 10 + spec_digit_val(s.last())
    }
}

pub open spec fn spec_all_digits(s: Seq<char>) -> bool {
    forall|i: int| 0 <= i < s.len() ==> spec_is_digit(#[trigger] s[i])
}

/// Strict signed decimal parsing of a trimmed field: an optional sign
/// followed by at least one digit, with the value in the i64 range.
pub open spec fn spec_parse_i64(s: Seq<char>) -> Option<i64> {
    let body = if s.len() > 0 && (s[0] == '-' || s[0] == '+') {
        s.drop_first()
    } else {
        s
    };
    let negative = s.len() > 0 && s[0] == '-';
    if body.len() == 0 || !spec_all_digits(body) {
        None
    } else {
        let magnitude = spec_digits_val(body);
        if negative {
            if -magnitude < i64::MIN {
                None
            } else {
                Some((-magnitude) as i64)
            }
        } else {
            if magnitude > i64::MAX {
                None
            } else {
                Some(magnitude as i64)
            }
        }
    }
}

/// Parsing an integer field: trim ASCII whitespace, then parse a strict
/// signed decimal number.
pub open spec fn spec_parse_i64_field(s: Seq<char>) -> Option<i64> {
    spec_parse_i64(spec_trim_ascii(s))
}

fn char_at(s: &str, i: usize) -> (c: char)
    requires
        i < s@.len(),
    ensures
        c == s@[i as int],
{
    s.get_char(i)
}

fn is_ascii_ws_char(c: char) -> (r: bool)
    ensures
        r == spec_is_ascii_ws(c),
{
    c == ' ' || c == '\t' || c == '\n' || c == '\r' || c == (0x0b as u8 as char) || c == (
    0x0c as u8 as char)
}

proof fn lemma_trim_range(s: Seq<char>, lo: int, hi: int)
    requires
        0 <= lo <= hi <= s.len(),
        forall|i: int| 0 <= i < lo ==> spec_is_ascii_ws(#[trigger] s[i]),
        forall|i: int| hi <= i < s.len() ==> spec_is_ascii_ws(#[trigger] s[i]),
        hi > lo ==> !spec_is_ascii_ws(s[lo]) && !spec_is_ascii_ws(s[hi - 1]),
        hi == lo ==> forall|i: int| 0 <= i < s.len() ==> spec_is_ascii_ws(#[trigger] s[i]),
    ensures
        spec_trim_ascii(s) == s.subrange(lo, hi),
    decreases s.len(),
{
    if s.len() == 0 {
        assert(spec_trim_ascii(s) =~= s.subrange(lo, hi));
    } else if spec_is_ascii_ws(s[0]) {
        let t = s.drop_first();
        if hi == lo {
            lemma_trim_range(t, 0, 0);
            assert(spec_trim_ascii(s) =~= s.subrange(lo, hi));
        } else {
            assert(lo >= 1);
            assert forall|i: int| 0 <= i < lo - 1 implies spec_is_ascii_ws(#[trigger] t[i]) by {
                assert(t[i] == s[i + 1]);
            }
            assert forall|i: int| hi - 1 <= i < t.len() implies spec_is_ascii_ws(
                #[trigger] t[i],
            ) by {
                assert(t[i] == s[i + 1]);
            }
            lemma_trim_range(t, lo - 1, hi - 1);
            assert(t.subrange(lo - 1, hi - 1) =~= s.subrange(lo, hi));
        }
    } else if spec_is_ascii_ws(s.last()) {
        let t = s.drop_last();
        if hi == lo {
            assert(spec_is_ascii_ws(s[0]));
            assert(false);
        } else {
            assert(hi <= s.len() - 1) by {
                if hi == s.len() {
                    assert(spec_is_ascii_ws(s[hi - 1]));
                }
            }
            lemma_trim_range(t, lo, hi);
            assert(t.subrange(lo, hi) =~= s.subrange(lo, hi));
        }
    } else {
        if hi == lo {
            assert(spec_is_ascii_ws(s[0]));
            assert(false);
        } else {
            assert(lo == 0);
            assert(hi == s.len()) by {
                if hi < s.len() {
                    assert(spec_is_ascii_ws(s[s.len() - 1]));
                }
            }
            assert(spec_trim_ascii(s) =~= s.subrange(lo, hi));
        }
    }
}

/// Parse a CSV field as a signed 64-bit integer: trim ASCII whitespace, then
/// read an optional sign and decimal digits.
pub fn parse_i64_field(s: &str) -> (r: Option<i64>)
    ensures
        r == spec_parse_i64_field(s@),
{
    let n: usize = s.unicode_len();
    let mut lo: usize = 0;
    while lo < n && is_ascii_ws_char(char_at(s, lo))
        invariant
            lo <= n,
            n == s@.len(),
            forall|i: int| 0 <= i < lo ==> spec_is_ascii_ws(#[trigger] s@[i]),
        decreases n - lo,
    {
        lo = lo + 1;
    }
    let mut hi: usize = n;
    if lo == n {
        proof {
            lemma_trim_range(s@, n as int, n as int);
            assert(s@.subrange(n as int, n as int) =~= Seq::<char>::empty());
        }
        return None;
    }
    while hi > lo && is_ascii_ws_char(char_at(s, hi - 1))
        invariant
            lo <= hi <= n,
            n == s@.len(),
            lo < n,
            forall|i: int| 0 <= i < lo ==> spec_is_ascii_ws(#[trigger] s@[i]),
            forall|i: int| hi <= i < n ==> spec_is_ascii_ws(#[trigger] s@[i]),
            !spec_is_ascii_ws(s@[lo as int]),
        decreases hi,
    {
        hi = hi - 1;
    }
    proof {
        assert(hi > lo);
        lemma_trim_range(s@, lo as int, hi as int);
    }
    let ghost trimmed: Seq<char> = s@.subrange(lo as int, hi as int);
    // optional sign
    let first: char = char_at(s, lo);
    let negative: bool = first == '-';
    let body_lo: usize = if first == '-' || first == '+' {
        lo + 1
    } else {
        lo
    };
    let ghost body: Seq<char> = s@.subrange(body_lo as int, hi as int);
    proof {
        if first == '-' || first == '+' {
            assert(trimmed.drop_first() =~= body);
        } else {
            assert(trimmed =~= body);
        }
    }
    if body_lo == hi {
        return None;
    }
    // accumulate the magnitude in a u64; the largest accepted magnitude is
    // 2^63 for a negative number and 2^63 - 1 otherwise
    let limit: u64 = if negative {
        9_223_372_036_854_775_808u64
    } else {
        9_223_372_036_854_775_807u64
    };
    let mut acc: u64 = 0;
    let mut i: usize = body_lo;
    while i < hi
        invariant
            lo <= body_lo <= i <= hi <= n,
            n == s@.len(),
            body_lo < hi,
            lo < hi,
            body == s@.subrange(body_lo as int, hi as int),
            spec_trim_ascii(s@) == s@.subrange(lo as int, hi as int),
            negative == (s@[lo as int] == '-'),
            (s@[lo as int] == '-' || s@[lo as int] == '+') ==> body_lo == lo + 1,
            !(s@[lo as int] == '-' || s@[lo as int] == '+') ==> body_lo == lo,
            forall|k: int| body_lo <= k < i ==> spec_is_digit(#[trigger] s@[k]),
            acc == spec_digits_val(s@.subrange(body_lo as int, i as int)),
            acc <= limit,
            limit >= 9_223_372_036_854_775_807u64,
            limit <= 9_223_372_036_854_775_808u64,
            negative ==> limit == 9_223_372_036_854_775_808u64,
            !negative ==> limit == 9_223_372_036_854_775_807u64,
        decreases hi - i,
    {
        let c: char = char_at(s, i);
        if !(c >= '0' && c <= '9') {
            proof {
                assert(body[i - body_lo] == s@[i as int]);
                assert(!spec_all_digits(body));
                let trimmed2 = s@.subrange(lo as int, hi as int);
                if s@[lo as int] == '-' || s@[lo as int] == '+' {
                    assert(trimmed2.drop_first() =~= body);
                } else {
                    assert(trimmed2 =~= body);
                }
            }
            return None;
        }
        let d: u64 = (c as u32 as u64) - 0x30;
        proof {
            assert(d == spec_digit_val(c));
            assert(d <= 9);
        }
        if acc > (limit - d) / 10 {
            proof {
                let pref = s@.subrange(body_lo as int, i + 1);
                assert(pref.drop_last() =~= s@.subrange(body_lo as int, i as int));
                assert(pref.last() == s@[i as int]);
                assert(spec_digits_val(pref) == acc * 10 + d);
                assert(acc * 10 + d > limit) by (nonlinear_arith)
                    requires
                        acc > (limit - d) / 10,
                        d <= 9,
                        limit >= d,
                ;
                let trimmed2 = s@.subrange(lo as int, hi as int);
                if s@[lo as int] == '-' || s@[lo as int] == '+' {
                    assert(trimmed2.drop_first() =~= body);
                } else {
                    assert(trimmed2 =~= body);
                }
                if spec_all_digits(body) {
                    assert(spec_all_digits_upto(body, body.len() as int));
                    lemma_digits_val_monotonic(body, (i + 1 - body_lo) as int);
                    assert(body.subrange(0, i + 1 - body_lo) =~= pref);
                    assert(spec_digits_val(body) >= spec_digits_val(pref));
                }
            }
            return None;
        }
        proof {
            assert(acc * 10 + d <= limit) by (nonlinear_arith)
                requires
                    acc <= (limit - d) / 10,
                    d <= 9,
                    limit >= d,
            ;
            let pref = s@.subrange(body_lo as int, i + 1);
            assert(pref.drop_last() =~= s@.subrange(body_lo as int, i as int));
            assert(pref.last() == s@[i as int]);
        }
        acc = acc * 10 + d;
        i = i + 1;
    }
    proof {
        assert(s@.subrange(body_lo as int, hi as int) =~= body);
        assert(spec_all_digits(body)) by {
            assert(forall|k: int| 0 <= k < body.len() ==> body[k] == s@[k + body_lo]);
        }
        assert(spec_digits_val(body) == acc);
    }
    if negative {
        if acc == 9_223_372_036_854_775_808u64 {
            return Some(i64::MIN);
        }
        Some(-(acc as i64))
    } else {
        Some(acc as i64)
    }
}

/// If some digit prefix already exceeds a bound, the whole string does: the
/// value of a digit string grows with its length.
proof fn lemma_digits_val_monotonic(s: Seq<char>, k: int)
    requires
        0 <= k <= s.len(),
        spec_all_digits_upto(s, s.len() as int),
    ensures
        spec_digits_val(s) >= spec_digits_val(s.subrange(0, k)),
    decreases s.len() - k,
{
    if k < s.len() {
        lemma_digits_val_monotonic(s, k + 1);
        let a = s.subrange(0, k);
        let b = s.subrange(0, k + 1);
        assert(b.drop_last() =~= a);
        assert(spec_digits_val(b) == spec_digits_val(a) * 10 + spec_digit_val(b.last()));
        assert(spec_is_digit(s[k]));
        assert(spec_digit_val(b.last()) >= 0);
        lemma_digits_val_nonneg(a, s, k);
        assert(spec_digits_val(b) >= spec_digits_val(a)) by (nonlinear_arith)
            requires
                spec_digits_val(b) == spec_digits_val(a) * 10 + spec_digit_val(b.last()),
                spec_digit_val(b.last()) >= 0,
                spec_digits_val(a) >= 0,
        ;
    } else {
        assert(s.subrange(0, k) =~= s);
    }
}

pub open spec fn spec_all_digits_upto(s: Seq<char>, k: int) -> bool {
    forall|i: int| 0 <= i < k && i < s.len() ==> spec_is_digit(#[trigger] s[i])
}

proof fn lemma_digits_val_nonneg(a: Seq<char>, s: Seq<char>, k: int)
    requires
        a == s.subrange(0, k),
        0 <= k <= s.len(),
        spec_all_digits_upto(s, s.len() as int),
    ensures
        spec_digits_val(a) >= 0,
    decreases k,
{
    if k > 0 {
        assert(a.drop_last() =~= s.subrange(0, k - 1));
        lemma_digits_val_nonneg(s.subrange(0, k - 1), s, k - 1);
        assert(spec_is_digit(s[k - 1]));
        assert(spec_digits_val(a) == spec_digits_val(s.subrange(0, k - 1)) * 10 + spec_digit_val(
            a.last(),
        ));
        assert(spec_digits_val(a) >= 0) by (nonlinear_arith)
            requires
                spec_digits_val(a) == spec_digits_val(s.subrange(0, k - 1)) * 10 + spec_digit_val(
                    a.last(),
                ),
                spec_digits_val(s.subrange(0, k - 1)) >= 0,
                spec_digit_val(a.last()) >= 0,
        ;
    }
}

} // verus!
