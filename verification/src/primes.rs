//! The prime supply.
//!
//! `primes(limit)` produces the ordered, gapless sequence of all primes up to
//! and including `limit`. The sieve itself is reikna's; this module pins down
//! exactly what the sequence contains and proves that any two sequences
//! meeting that description are equal, which makes the supply restartable:
//! every call with the same limit yields the identical sequence.

use vstd::prelude::*;

verus! {

/// `n` is prime: at least 2 and divisible by no smaller number above 1.
pub open spec fn is_prime(n: int) -> bool {
    n >= 2 && forall|k: int| 2 <= k < n ==> #[trigger] (n % k) != 0
}

/// `s` is the prime sequence up to `limit`: strictly increasing, every
/// element a prime at most `limit`, and missing no such prime.
pub open spec fn is_prime_seq_upto(s: Seq<u64>, limit: u64) -> bool {
    &&& forall|i: int, j: int| 0 <= i < j < s.len() ==> s[i] < s[j]
    &&& forall|i: int| 0 <= i < s.len() ==> is_prime(#[trigger] s[i] as int) && s[i] <= limit
    &&& forall|p: u64| is_prime(p as int) && p <= limit ==> s.contains(p)
}

/// Relies on reikna::prime::prime_sieve: the primes in [1, `limit`], in
/// increasing order. It panics when `limit` does not fit the machine word, so
/// `u64::MAX` is excluded.
#[verifier::external_body]
fn sieve_up_to(limit: u64) -> (r: Vec<u64>)
    requires
        limit < u64::MAX,
    ensures
        is_prime_seq_upto(r@, limit),
{
    reikna::prime::prime_sieve(limit)
}

/// All primes up to and including `limit`, in strictly increasing order with
/// no duplicates and no gaps.
pub fn primes(limit: u64) -> (r: Vec<u64>)
    requires
        limit < u64::MAX,
    ensures
        is_prime_seq_upto(r@, limit),
{
    sieve_up_to(limit)
}

/// The prime sequence up to a limit is unique: any two sequences that are
/// strictly increasing and contain exactly the primes up to `limit` are
/// equal. Re-invoking the supply with the same limit therefore yields an
/// identical sequence.
pub proof fn lemma_prime_seq_unique(s1: Seq<u64>, s2: Seq<u64>, limit: u64)
    requires
        is_prime_seq_upto(s1, limit),
        is_prime_seq_upto(s2, limit),
    ensures
        s1 == s2,
{
    lemma_increasing_same_members_equal(s1, s2);
}

/// Two strictly increasing sequences with the same members are equal.
proof fn lemma_increasing_same_members_equal(s1: Seq<u64>, s2: Seq<u64>)
    requires
        forall|i: int, j: int| 0 <= i < j < s1.len() ==> s1[i] < s1[j],
        forall|i: int, j: int| 0 <= i < j < s2.len() ==> s2[i] < s2[j],
        forall|p: u64| s1.contains(p) <==> s2.contains(p),
    ensures
        s1 == s2,
    decreases s1.len(),
{
    if s1.len() == 0 {
        if s2.len() > 0 {
            assert(s2.contains(s2[0]));
            assert(false);
        }
        assert(s1 =~= s2);
    } else {
        assert(s1.contains(s1[0]));
        assert(s2.len() > 0) by {
            assert(s2.contains(s1[0]));
        }
        // each head is the least member, so the heads agree
        assert(s1[0] == s2[0]) by {
            let w1 = choose|i: int| 0 <= i < s2.len() && s2[i] == s1[0];
            assert(s2[0] <= s2[w1]);
            let w2 = choose|i: int| 0 <= i < s1.len() && s1[i] == s2[0];
            assert(s2.contains(s2[0]));
            assert(s1.contains(s2[0]));
            assert(s1[0] <= s1[w2]);
        }
        let t1 = s1.drop_first();
        let t2 = s2.drop_first();
        assert forall|p: u64| t1.contains(p) <==> t2.contains(p) by {
            lemma_tail_members(s1, p);
            lemma_tail_members(s2, p);
            assert(s2[0] == s1[0]);
        }
        lemma_increasing_same_members_equal(t1, t2);
        assert(s1 =~= s2) by {
            assert(forall|i: int| 1 <= i < s1.len() ==> s1[i] == t1[i - 1]);
            assert(forall|i: int| 1 <= i < s2.len() ==> s2[i] == t2[i - 1]);
        }
    }
}

/// In a strictly increasing sequence, the tail's members are exactly the
/// members other than the head.
proof fn lemma_tail_members(s: Seq<u64>, p: u64)
    requires
        s.len() > 0,
        forall|i: int, j: int| 0 <= i < j < s.len() ==> s[i] < s[j],
    ensures
        s.drop_first().contains(p) <==> (s.contains(p) && p != s[0]),
{
    let t = s.drop_first();
    if t.contains(p) {
        let w = choose|i: int| 0 <= i < t.len() && t[i] == p;
        assert(s[w + 1] == p);
        assert(s.contains(p));
        assert(s[0] < s[w + 1]);
    }
    if s.contains(p) && p != s[0] {
        let w = choose|i: int| 0 <= i < s.len() && s[i] == p;
        assert(t[w - 1] == p);
        assert(t.contains(p));
    }
}

/// A restartable cursor over the prime sequence up to a limit. Both passes of
/// the pipeline create one with the same limit and therefore consume
/// value-for-value identical sequences.
pub struct PrimeIter {
    /// The full prime sequence being handed out.
    pub primes: Vec<u64>,
    /// How many primes have been handed out so far.
    pub pos: usize,
}

impl PrimeIter {
    /// A cursor at the start of the prime sequence up to `limit`.
    pub fn new(limit: u64) -> (it: PrimeIter)
        requires
            limit < u64::MAX,
        ensures
            is_prime_seq_upto(it.primes@, limit),
            it.pos == 0,
    {
        PrimeIter { primes: primes(limit), pos: 0 }
    }

    /// The next prime, or `None` once the sequence is exhausted.
    pub fn next(&mut self) -> (r: Option<u64>)
        requires
            old(self).pos <= old(self).primes.len(),
        ensures
            final(self).primes == old(self).primes,
            match r {
                Some(p) => {
                    &&& old(self).pos < old(self).primes.len()
                    &&& p == old(self).primes[old(self).pos as int]
                    &&& final(self).pos == old(self).pos + 1
                },
                None => {
                    &&& old(self).pos == old(self).primes.len()
                    &&& final(self).pos == old(self).pos
                },
            },
    {
        if self.pos < self.primes.len() {
            let p = self.primes[self.pos];
            self.pos = self.pos + 1;
            Some(p)
        } else {
            None
        }
    }
}

} // verus!
