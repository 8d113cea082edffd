use primes::PrimeSet;
use vstd::prelude::*;

verus! {

/// `p` is a prime number.
pub open spec fn is_prime(p: nat) -> bool {
    &&& p >= 2
    &&& forall|d: nat| 2 <= d < p ==> #[trigger] (p % d) != 0
}

/// `s` is the start of the sequence of all primes: strictly increasing, each
/// element prime, and no prime left out below any element.
pub open spec fn is_prime_prefix(s: Seq<u64>) -> bool {
    &&& forall|i: int, j: int| 0 <= i < j < s.len() ==> s[i] < s[j]
    &&& forall|i: int| 0 <= i < s.len() ==> is_prime(#[trigger] s[i] as nat)
    &&& forall|i: int, p: nat|
        #![trigger s[i], is_prime(p)]
        0 <= i < s.len() && is_prime(p) && p < s[i] ==> exists|j: int|
            0 <= j < i && #[trigger] s[j] == p
}

/// The first `n` primes in increasing order.
pub open spec fn prime_prefix(n: nat) -> Seq<u64> {
    choose|s: Seq<u64>| is_prime_prefix(s) && s.len() == n
}

/// The largest count of primes drawn at once: every prime among them stays
/// below 2^32, so the sieve's squares fit in a `u64`.
pub const MAX_PRIME_COUNT: usize = 200_000_000;

proof fn lemma_prime_prefix_agree(a: Seq<u64>, b: Seq<u64>, n: int)
    requires
        is_prime_prefix(a),
        is_prime_prefix(b),
        0 <= n <= a.len(),
        n <= b.len(),
    ensures
        forall|k: int| 0 <= k < n ==> a[k] == b[k],
    decreases n,
{
    if n > 0 {
        let i = n - 1;
        lemma_prime_prefix_agree(a, b, i);
        assert(is_prime(a[i] as nat));
        assert(is_prime(b[i] as nat));
        if a[i] < b[i] {
            let j = choose|j: int| 0 <= j < i && b[j] == a[i] as nat;
            assert(a[j] < a[i]);
        } else if b[i] < a[i] {
            let j = choose|j: int| 0 <= j < i && a[j] == b[i] as nat;
            assert(b[j] < b[i]);
        }
    }
}

/// Two starts of the sequence of primes of one length are the same sequence.
pub proof fn lemma_prime_prefix_unique(a: Seq<u64>, b: Seq<u64>)
    requires
        is_prime_prefix(a),
        is_prime_prefix(b),
        a.len() == b.len(),
    ensures
        a == b,
{
    lemma_prime_prefix_agree(a, b, a.len() as int);
    assert(a =~= b);
}

/// Relies on `primes::Sieve::new` and `PrimeSet::iter`: an iterator over all
/// primes in increasing order, starting with 2, of which the first `count`
/// are taken.
#[verifier::external_body]
fn first_primes(count: usize) -> (r: Vec<u64>)
    requires
        count <= MAX_PRIME_COUNT,
    ensures
        r@.len() == count,
        is_prime_prefix(r@),
{
    primes::Sieve::new().iter().take(count).collect()
}

/// The first `count` primes, 2, 3, 5, 7, ... in increasing order.
pub fn prime_steps(count: usize) -> (r: Vec<u64>)
    requires
        count <= MAX_PRIME_COUNT,
    ensures
        r@.len() == count,
        is_prime_prefix(r@),
        r@ == prime_prefix(count as nat),
{
    let r = first_primes(count);
    proof {
        lemma_prime_prefix_unique(r@, prime_prefix(count as nat));
    }
    r
}

} // verus!
