use vstd::prelude::*;

verus! {

/// The largest capacity a table may be built with.
pub const MAX_CAPACITY: usize = 50849;

/// `n` is a prime number: at least 2, and divisible by no number strictly
/// between 1 and itself.
pub open spec fn is_prime_number(n: int) -> bool {
    &&& n >= 2
    &&& forall|d: int| 2 <= d < n ==> #[trigger] (n % d) != 0
}

/// A capacity a table can be built with: a prime that does not exceed
/// `MAX_CAPACITY`.
pub open spec fn valid_capacity(c: usize) -> bool {
    is_prime_number(c as int) && c <= MAX_CAPACITY
}

/// Calls `const_primes::is_prime`, which answers whether `n` is prime for
/// every `u64` (trial division followed by a deterministic Miller-Rabin
/// test). The claim that its answer is the mathematical one is trusted.
#[verifier::external_body]
fn is_prime(n: u64) -> (prime: bool)
    ensures
        prime == is_prime_number(n as int),
{
    const_primes::is_prime(n)
}

/// Whether `c` is prime and no larger than `max_cap`.
pub fn is_prime_and_within_limit(c: usize, max_cap: usize) -> (ok: bool)
    ensures
        ok == (is_prime_number(c as int) && c <= max_cap),
{
    is_prime(c as u64) && c <= max_cap
}

/// Whether a table can be built with capacity `c`.
pub fn is_valid_capacity(c: usize) -> (ok: bool)
    ensures
        ok == valid_capacity(c),
{
    is_prime_and_within_limit(c, MAX_CAPACITY)
}

/// A number with no divisor from 2 up to `bound`, where `bound * bound`
/// exceeds it, is prime: of two factors, one is at most `bound`.
pub proof fn lemma_prime_by_trial(n: int, bound: int)
    requires
        n >= 2,
        bound >= 1,
        bound * bound > n,
        forall|d: int| 2 <= d <= bound ==> #[trigger] (n % d) != 0,
    ensures
        is_prime_number(n),
{
    assert forall|d: int| 2 <= d < n implies #[trigger] (n % d) != 0 by {
        if d > bound && n % d == 0 {
            let q = n / d;
            assert(n == d * q) by (nonlinear_arith)
                requires
                    n % d == 0,
                    q == n / d,
                    d > 0,
            ;
            assert(q >= 2) by (nonlinear_arith)
                requires
                    n == d * q,
                    2 <= d < n,
            ;
            assert(q <= bound) by (nonlinear_arith)
                requires
                    n == d * q,
                    d > bound,
                    bound >= 1,
                    bound * bound > n,
                    q >= 0,
            ;
            assert(n % q == 0) by (nonlinear_arith)
                requires
                    n == d * q,
                    q >= 2,
            ;
        }
    }
}

} // verus!
