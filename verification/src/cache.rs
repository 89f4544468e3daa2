//! The prime cache artifact: a line-delimited decimal text format.
//!
//! The supply persists the prime sequence for a limit as plain text, one
//! decimal integer per line, each line terminated by a newline, in increasing
//! order. `encode_primes` produces exactly those bytes; `decode_primes`
//! accepts a byte buffer and recovers the sequence, failing on any malformed
//! line (cache corruption is not recoverable). Decoding what was encoded
//! gives back the original sequence, which makes repeated runs over the same
//! cache serve identical primes.

use vstd::prelude::*;
use crate::primes::is_prime_seq_upto;
use crate::primes::lemma_prime_seq_unique;

verus! {

/// The line terminator of the cache artifact.
pub const NEWLINE: u8 = 10;

/// A cache artifact that cannot be parsed: corruption, fatal to the run.
#[derive(Clone, Copy, PartialEq, Eq, Structural, Debug)]
pub enum CacheError {
    /// Some line is empty, holds a non-digit, or overflows the native range.
    Malformed,
}

/// `b` is an ASCII decimal digit.
pub open spec fn is_digit(b: u8) -> bool {
    48 <= b <= 57
}

/// The value of a sequence of ASCII digits, most significant first.
pub open spec fn digits_val(s: Seq<u8>) -> nat
    decreases s.len(),
{
    if s.len() == 0 {
        0
    } else {
        digits_val(s.drop_last()) * 10 + (s.last() - 48) as nat
    }
}

/// The canonical decimal representation of `n`: no leading zeros.
pub open spec fn dec_rep(n: nat) -> Seq<u8>
    decreases n,
{
    if n < 10 {
        seq![(48 + n) as u8]
    } else {
        dec_rep(n / 10).push((48 + n % 10) as u8)
    }
}

/// The bytes of the cache artifact for a sequence of primes: each value in
/// canonical decimal, each line newline-terminated.
pub open spec fn cache_bytes(s: Seq<u64>) -> Seq<u8>
    decreases s.len(),
{
    if s.len() == 0 {
        Seq::empty()
    } else {
        dec_rep(s[0] as nat) + seq![NEWLINE] + cache_bytes(s.drop_first())
    }
}

/// The distance to the first newline in `s`, or `s.len()` when there is
/// none.
pub open spec fn line_len(s: Seq<u8>) -> nat
    decreases s.len(),
{
    if s.len() == 0 {
        0
    } else if s[0] == NEWLINE {
        0
    } else {
        1 + line_len(s.drop_first())
    }
}

/// A parseable cache line: nonempty, all digits, value within the native
/// range.
pub open spec fn valid_line(l: Seq<u8>) -> bool {
    &&& l.len() >= 1
    &&& forall|i: int| 0 <= i < l.len() ==> is_digit(#[trigger] l[i])
    &&& digits_val(l) <= u64::MAX
}

/// The meaning of a cache artifact: the sequence of line values when every
/// line is newline-terminated and parseable, and nothing otherwise.
pub open spec fn parse_cache(s: Seq<u8>) -> Option<Seq<u64>>
    decreases s.len(),
{
    if s.len() == 0 {
        Some(Seq::empty())
    } else {
        let k: int = line_len(s) as int;
        if k >= s.len() {
            None
        } else if !valid_line(s.take(k)) {
            None
        } else {
            match parse_cache(s.skip(k + 1)) {
                Some(rest) => Some(seq![digits_val(s.take(k)) as u64] + rest),
                None => None,
            }
        }
    }
}

/// `line_len` is pinned by a scan: if everything before `d` is not a newline
/// and `d` is the end or a newline, the first newline distance is `d`.
proof fn lemma_line_len_is(s: Seq<u8>, d: int)
    requires
        0 <= d <= s.len(),
        forall|x: int| 0 <= x < d ==> s[x] != NEWLINE,
        d < s.len() ==> s[d] == NEWLINE,
    ensures
        line_len(s) == d,
    decreases s.len(),
{
    if d == 0 {
    } else {
        lemma_line_len_is(s.drop_first(), d - 1);
    }
}

/// Where the first line holds, before any newline, a byte that is neither a
/// digit nor a newline, the artifact does not parse.
proof fn lemma_parse_none_nondigit(s: Seq<u8>, d: int)
    requires
        0 <= d < s.len(),
        forall|x: int| 0 <= x < d ==> is_digit(s[x]),
        !is_digit(s[d]),
        s[d] != NEWLINE,
    ensures
        parse_cache(s) is None,
{
    let k: int = line_len(s) as int;
    lemma_line_len_ubound(s);
    lemma_line_len_first(s);
    // the bad byte lies before the first newline
    assert(d < k) by {
        if k <= d {
            assert(k < s.len());
            assert(s[k] == NEWLINE);
            assert(k != d);
            assert(is_digit(s[k]));
        }
    }
    if k < s.len() {
        assert(s.take(k)[d] == s[d]);
        assert(!valid_line(s.take(k)));
    }
}

/// The first newline comes no later than the end.
proof fn lemma_line_len_ubound(s: Seq<u8>)
    ensures
        line_len(s) <= s.len(),
    decreases s.len(),
{
    if s.len() > 0 && s[0] != NEWLINE {
        lemma_line_len_ubound(s.drop_first());
    }
}

/// Everything before the first newline is not a newline, and the byte at the
/// first newline distance, when inside the sequence, is a newline.
proof fn lemma_line_len_first(s: Seq<u8>)
    ensures
        forall|x: int| 0 <= x < line_len(s) ==> s[x] != NEWLINE,
        line_len(s) < s.len() ==> s[line_len(s) as int] == NEWLINE,
    decreases s.len(),
{
    lemma_line_len_ubound(s);
    if s.len() > 0 && s[0] != NEWLINE {
        lemma_line_len_first(s.drop_first());
        assert forall|x: int| 0 <= x < line_len(s) implies s[x] != NEWLINE by {
            if x > 0 {
                assert(s.drop_first()[x - 1] != NEWLINE);
            }
        }
    }
}

/// How an artifact parses when its first line is all digits up to a newline
/// at distance `d`: not at all when the line is empty or overflows, and
/// otherwise as the line's value followed by the parse of the rest.
proof fn lemma_parse_at_newline(s: Seq<u8>, d: int)
    requires
        0 <= d < s.len(),
        forall|x: int| 0 <= x < d ==> is_digit(s[x]),
        s[d] == NEWLINE,
    ensures
        d == 0 ==> parse_cache(s) is None,
        d > 0 && digits_val(s.take(d)) > u64::MAX ==> parse_cache(s) is None,
        d > 0 && digits_val(s.take(d)) <= u64::MAX ==> parse_cache(s) == (match parse_cache(
            s.skip(d + 1),
        ) {
            Some(rest) => Some(seq![digits_val(s.take(d)) as u64] + rest),
            None => None::<Seq<u64>>,
        }),
{
    assert(line_len(s) == d) by {
        lemma_line_len_is(s, d);
    }
    if d == 0 {
        assert(s.take(0).len() == 0);
        assert(!valid_line(s.take(0)));
    } else {
        assert(forall|i: int| 0 <= i < d ==> is_digit(#[trigger] s.take(d)[i]));
        assert(s.take(d).len() == d);
    }
}

/// An artifact that is nonempty but holds no newline does not parse.
proof fn lemma_parse_none_unterminated(s: Seq<u8>)
    requires
        s.len() > 0,
        forall|x: int| 0 <= x < s.len() ==> s[x] != NEWLINE,
    ensures
        parse_cache(s) is None,
{
    lemma_line_len_is(s, s.len() as int);
}

/// Every byte of a canonical decimal representation is a digit, and there is
/// at least one.
proof fn lemma_dec_rep_digits(n: nat)
    ensures
        dec_rep(n).len() >= 1,
        forall|i: int| 0 <= i < dec_rep(n).len() ==> is_digit(#[trigger] dec_rep(n)[i]),
    decreases n,
{
    if n >= 10 {
        lemma_dec_rep_digits(n / 10);
        assert forall|i: int| 0 <= i < dec_rep(n).len() implies is_digit(
            #[trigger] dec_rep(n)[i],
        ) by {
            if i < dec_rep(n / 10).len() {
                assert(dec_rep(n)[i] == dec_rep(n / 10)[i]);
            }
        }
    }
}

/// The value of the canonical decimal representation of `n` is `n`.
proof fn lemma_dec_rep_val(n: nat)
    ensures
        digits_val(dec_rep(n)) == n,
    decreases n,
{
    if n < 10 {
        let s = dec_rep(n);
        assert(s.drop_last() =~= Seq::<u8>::empty());
        assert(digits_val(Seq::<u8>::empty()) == 0);
        assert(s.last() == (48 + n) as u8);
        assert(digits_val(s) == digits_val(s.drop_last()) * 10 + (s.last() - 48) as nat);
    } else {
        lemma_dec_rep_val(n / 10);
        let s = dec_rep(n);
        assert(s.drop_last() =~= dec_rep(n / 10));
        assert(s.last() == (48 + n % 10) as u8);
        assert(digits_val(s) == digits_val(s.drop_last()) * 10 + (s.last() - 48) as nat);
        assert(digits_val(dec_rep(n)) == (n / 10) * 10 + n % 10);
        assert((n / 10) * 10 + n % 10 == n) by {
            vstd::arithmetic::div_mod::lemma_fundamental_div_mod(n as int, 10);
        }
    }
}

/// Appending one value to a sequence appends its line to the artifact.
proof fn lemma_cache_bytes_push(s: Seq<u64>, v: u64)
    ensures
        cache_bytes(s.push(v)) == cache_bytes(s) + dec_rep(v as nat) + seq![NEWLINE],
    decreases s.len(),
{
    if s.len() == 0 {
        assert(s.push(v).drop_first() =~= Seq::<u64>::empty());
        assert(s.push(v)[0] == v);
        assert(cache_bytes(s.push(v)) == dec_rep(v as nat) + seq![NEWLINE] + cache_bytes(
            s.push(v).drop_first(),
        ));
        assert(cache_bytes(s.push(v).drop_first()) == Seq::<u8>::empty());
        assert(cache_bytes(s) == Seq::<u8>::empty());
        assert(cache_bytes(s.push(v)) =~= cache_bytes(s) + dec_rep(v as nat) + seq![NEWLINE]);
    } else {
        lemma_cache_bytes_push(s.drop_first(), v);
        assert(s.push(v).drop_first() =~= s.drop_first().push(v));
        assert(s.push(v)[0] == s[0]);
        assert(cache_bytes(s.push(v)) == dec_rep(s.push(v)[0] as nat) + seq![NEWLINE]
            + cache_bytes(s.push(v).drop_first()));
        assert(cache_bytes(s.push(v).drop_first()) == cache_bytes(s.drop_first()) + dec_rep(
            v as nat,
        ) + seq![NEWLINE]);
        assert(cache_bytes(s) == dec_rep(s[0] as nat) + seq![NEWLINE] + cache_bytes(
            s.drop_first(),
        ));
        assert(cache_bytes(s.push(v)) =~= cache_bytes(s) + dec_rep(v as nat) + seq![NEWLINE]);
    }
}

/// Decoding an encoded sequence gives back exactly that sequence: the cache
/// artifact round-trips.
pub proof fn lemma_cache_round_trip(v: Seq<u64>)
    ensures
        parse_cache(cache_bytes(v)) == Some(v),
    decreases v.len(),
{
    if v.len() == 0 {
        assert(v =~= Seq::<u64>::empty());
    } else {
        let d = dec_rep(v[0] as nat);
        let s = cache_bytes(v);
        lemma_dec_rep_digits(v[0] as nat);
        lemma_dec_rep_val(v[0] as nat);
        assert(forall|x: int| 0 <= x < d.len() ==> is_digit(#[trigger] s[x]));
        assert(s[d.len() as int] == NEWLINE);
        lemma_parse_at_newline(s, d.len() as int);
        assert(s.take(d.len() as int) =~= d);
        assert(s.skip(d.len() as int + 1) =~= cache_bytes(v.drop_first()));
        lemma_cache_round_trip(v.drop_first());
        assert(seq![v[0]] + v.drop_first() =~= v);
    }
}

/// The cache artifact is deterministic: the prime sequences of two runs with
/// the same limit encode to byte-identical artifacts.
pub proof fn lemma_cache_bytes_deterministic(s1: Seq<u64>, s2: Seq<u64>, limit: u64)
    requires
        is_prime_seq_upto(s1, limit),
        is_prime_seq_upto(s2, limit),
    ensures
        cache_bytes(s1) == cache_bytes(s2),
{
    lemma_prime_seq_unique(s1, s2, limit);
}

/// Append the canonical decimal representation of `n` to `out`.
fn push_dec(n: u64, out: &mut Vec<u8>)
    ensures
        final(out)@ == old(out)@ + dec_rep(n as nat),
    decreases n,
{
    if n < 10 {
        out.push(48 + n as u8);
        assert(out@ =~= old(out)@ + dec_rep(n as nat));
    } else {
        push_dec(n / 10, out);
        out.push(48 + (n % 10) as u8);
        assert(out@ =~= old(out)@ + dec_rep(n as nat));
    }
}

/// Encode a sequence of primes as the cache artifact: one decimal integer
/// per line, each line newline-terminated, in the sequence's order.
pub fn encode_primes(ps: &Vec<u64>) -> (r: Vec<u8>)
    ensures
        r@ == cache_bytes(ps@),
{
    let mut out: Vec<u8> = Vec::new();
    let mut i: usize = 0;
    while i < ps.len()
        invariant
            i <= ps.len(),
            out@ == cache_bytes(ps@.take(i as int)),
        decreases ps.len() - i,
    {
        push_dec(ps[i], &mut out);
        out.push(NEWLINE);
        proof {
            lemma_cache_bytes_push(ps@.take(i as int), ps@[i as int]);
            assert(ps@.take(i as int).push(ps@[i as int]) =~= ps@.take(i + 1));
        }
        i = i + 1;
    }
    proof {
        assert(ps@.take(ps@.len() as int) =~= ps@);
    }
    out
}

/// Prepend already-decoded values to a parse outcome.
spec fn opt_prepend(pre: Seq<u64>, o: Option<Seq<u64>>) -> Option<Seq<u64>> {
    match o {
        Some(rest) => Some(pre + rest),
        None => None,
    }
}

/// Decode a cache artifact: the sequence of line values when every line is a
/// newline-terminated decimal integer in the native range, and a fatal
/// corruption error otherwise.
pub fn decode_primes(bytes: &Vec<u8>) -> (r: Result<Vec<u64>, CacheError>)
    ensures
        match r {
            Ok(v) => parse_cache(bytes@) == Some(v@),
            Err(e) => parse_cache(bytes@) is None && e == CacheError::Malformed,
        },
{
    let n: usize = bytes.len();
    let mut out: Vec<u64> = Vec::new();
    let mut i: usize = 0;
    proof {
        assert(bytes@.skip(0) =~= bytes@);
        match parse_cache(bytes@) {
            Some(v0) => {
                assert(Seq::<u64>::empty() + v0 =~= v0);
            },
            None => {},
        }
    }
    while i < n
        invariant
            n == bytes@.len(),
            i <= n,
            parse_cache(bytes@) == opt_prepend(out@, parse_cache(bytes@.skip(i as int))),
        decreases n - i,
    {
        let start: usize = i;
        let mut val: u64 = 0;
        let mut overflow = false;
        while i < n && bytes[i] != NEWLINE
            invariant
                n == bytes@.len(),
                start <= i <= n,
                parse_cache(bytes@) == opt_prepend(out@, parse_cache(bytes@.skip(start as int))),
                forall|x: int| start <= x < i ==> is_digit(#[trigger] bytes@[x]),
                !overflow ==> val == digits_val(bytes@.subrange(start as int, i as int)),
                overflow ==> digits_val(bytes@.subrange(start as int, i as int)) > u64::MAX,
            decreases n - i,
        {
            let b: u8 = bytes[i];
            if b < 48 || b > 57 {
                proof {
                    let s = bytes@.skip(start as int);
                    assert(forall|x: int| 0 <= x < i - start ==> is_digit(#[trigger] s[x]));
                    lemma_parse_none_nondigit(s, i - start);
                }
                return Err(CacheError::Malformed);
            }
            let d: u8 = b - 48;
            let ghost prefix = bytes@.subrange(start as int, i as int);
            let ghost extended = bytes@.subrange(start as int, i + 1);
            proof {
                assert(extended.drop_last() =~= prefix);
                assert(digits_val(extended) == digits_val(prefix) * 10 + d);
            }
            if overflow {
                proof {
                    assert(digits_val(prefix) * 10 + d > u64::MAX) by (nonlinear_arith)
                        requires
                            digits_val(prefix) > u64::MAX,
                            d >= 0,
                    ;
                }
            } else if val > (u64::MAX - d as u64) / 10 {
                overflow = true;
                proof {
                    assert(val * 10 + d > u64::MAX) by (nonlinear_arith)
                        requires
                            val > (u64::MAX - d) / 10,
                            0 <= d <= 9,
                    ;
                }
            } else {
                proof {
                    assert(val * 10 + d <= u64::MAX) by (nonlinear_arith)
                        requires
                            val <= (u64::MAX - d) / 10,
                            0 <= d <= 9,
                    ;
                }
                val = val * 10 + d as u64;
            }
            i = i + 1;
        }
        let ghost s = bytes@.skip(start as int);
        proof {
            assert(forall|x: int| 0 <= x < i - start ==> is_digit(#[trigger] s[x]));
            assert(bytes@.subrange(start as int, i as int) =~= s.take(i - start));
        }
        if i == n {
            // the final line is unterminated (the outer loop guard gave a
            // nonempty remainder)
            proof {
                lemma_parse_none_unterminated(s);
            }
            return Err(CacheError::Malformed);
        }
        proof {
            assert(s[i - start] == NEWLINE);
            lemma_parse_at_newline(s, i - start);
        }
        if i == start || overflow {
            return Err(CacheError::Malformed);
        }
        let ghost prev_out = out@;
        let ghost line_val = digits_val(s.take(i - start)) as u64;
        out.push(val);
        i = i + 1;
        proof {
            assert(s.skip((i - start) as int) =~= bytes@.skip(i as int));
            match parse_cache(bytes@.skip(i as int)) {
                Some(rest) => {
                    assert(prev_out + (seq![line_val] + rest) =~= out@ + rest);
                },
                None => {},
            }
        }
    }
    proof {
        assert(bytes@.skip(n as int) =~= Seq::<u8>::empty());
        assert(out@ + Seq::<u64>::empty() =~= out@);
    }
    Ok(out)
}

} // verus!
