use vstd::prelude::*;

verus! {

/// `f` divides `n`: the remainder of `n` by `f` is zero.
pub open spec fn divides(n: int, f: int) -> bool {
    n % f == 0
}

/// The divisors of `n` among `1..=k`, in ascending order.
pub open spec fn divisors_upto(n: int, k: int) -> Seq<int>
    decreases k,
{
    if k <= 0 {
        Seq::empty()
    } else if divides(n, k) {
        divisors_upto(n, k - 1).push(k)
    } else {
        divisors_upto(n, k - 1)
    }
}

/// The positive divisors of `n`, ascending; empty when `n` is not positive.
pub open spec fn divisors(n: int) -> Seq<int> {
    divisors_upto(n, n)
}

/// A sequence of machine integers read as mathematical integers.
pub open spec fn ints(s: Seq<i32>) -> Seq<int> {
    s.map_values(|x: i32| x as int)
}

/// `n` is prime: at least 2, with no divisor strictly between 1 and itself.
pub open spec fn prime(n: int) -> bool {
    n >= 2 && forall|d: int| 2 <= d < n ==> !#[trigger] divides(n, d)
}

/// The primes in `2..=k`, in ascending order.
pub open spec fn primes_upto(k: int) -> Seq<int>
    decreases k,
{
    if k < 2 {
        Seq::empty()
    } else if prime(k) {
        primes_upto(k - 1).push(k)
    } else {
        primes_upto(k - 1)
    }
}

/// Whether `f` evenly divides `n`, by the remainder of `n` by `f`.
pub fn is_factor(n: i32, f: i32) -> (r: bool)
    requires
        f != 0,
        !(n == i32::MIN && f == -1),
    ensures
        r == divides(n as int, f as int),
{
    let m = n % f;
    proof {
        lemma_divides_neg_left(n as int, f as int);
        lemma_divides_neg_right(n as int, f as int);
        lemma_divides_neg_right(-n as int, f as int);
        if n < 0 && f > 0 {
            assert(m == -((-n as int) % f as int));
        } else if n < 0 && f < 0 {
            assert(m == -((-n as int) % (f as int)));
        } else if f < 0 {
            assert(m == (n as int) % (f as int));
        }
    }
    m == 0
}

/// The positive divisors of `n` from 1 up to `n`, in ascending order.
pub fn factorize(n: i32) -> (r: Vec<i32>)
    ensures
        ints(r@) == divisors(n as int),
        forall|i: int, j: int| 0 <= i < j < r@.len() ==> r@[i] < r@[j],
        forall|i: int| 0 <= i < r@.len() ==> 1 <= r@[i] <= n && divides(n as int, r@[i] as int),
        forall|f: i32| 1 <= f <= n && divides(n as int, f as int) ==> r@.contains(f),
{
    let mut factors: Vec<i32> = Vec::new();
    let mut i: i32 = 0;
    while i < n
        invariant
            0 <= i,
            i <= n || i == 0,
            ints(factors@) == divisors_upto(n as int, i as int),
        decreases n - i,
    {
        i += 1;
        let ghost before = factors@;
        if is_factor(n, i) {
            factors.push(i);
            assert(ints(factors@) =~= ints(before).push(i as int));
        }
    }
    proof {
        lemma_divisors_upto_shape(n as int, n as int);
        lemma_ints_shape(factors@, divisors(n as int));
    }
    factors
}

/// Whether `n` is prime: whether its divisors are exactly two.
pub fn is_prime(n: i32) -> (r: bool)
    ensures
        r == (divisors(n as int).len() == 2),
        r == prime(n as int),
{
    let factors: Vec<i32> = factorize(n);
    proof {
        lemma_two_divisors_iff_prime(n as int);
    }
    factors.len() == 2
}

/// Every prime from 2 up to `limit` (`limit` included), in ascending order.
pub fn primes_to_limit(limit: i32) -> (r: Vec<i32>)
    ensures
        ints(r@) == primes_upto(limit as int),
        forall|i: int, j: int| 0 <= i < j < r@.len() ==> r@[i] < r@[j],
        forall|i: int| 0 <= i < r@.len() ==> 2 <= r@[i] <= limit && prime(r@[i] as int),
        forall|p: i32| p <= limit && prime(p as int) ==> r@.contains(p),
{
    let mut primes: Vec<i32> = Vec::new();
    let mut i: i32 = 1;
    while i < limit
        invariant
            1 <= i,
            i <= limit || i == 1,
            ints(primes@) == primes_upto(i as int),
        decreases limit - i,
    {
        i += 1;
        let ghost before = primes@;
        if is_prime(i) {
            primes.push(i);
            assert(ints(primes@) =~= ints(before).push(i as int));
        }
    }
    proof {
        lemma_primes_upto_shape(limit as int);
        lemma_ints_shape(primes@, primes_upto(limit as int));
    }
    primes
}

/// A number has exactly two positive divisors if and only if it is prime.
pub proof fn lemma_two_divisors_iff_prime(n: int)
    ensures
        (divisors(n).len() == 2) == prime(n),
{
    if n >= 2 {
        lemma_lone_divisor(n, n - 1);
        assert(divides(n, n)) by {
            vstd::arithmetic::div_mod::lemma_mod_self_0(n);
        }
    } else if n == 1 {
        assert(divisors_upto(1, 0).len() == 0);
    }
}

/// `n` is prime exactly when the list of its divisors that `factorize` gives
/// has two entries, which is what `is_prime` answers.
pub proof fn lemma_prime_iff_two_factors(n: i32, factors: Seq<i32>)
    requires
        ints(factors) == divisors(n as int),
    ensures
        prime(n as int) == (factors.len() == 2),
{
    lemma_two_divisors_iff_prime(n as int);
    lemma_ints_shape(factors, divisors(n as int));
}

/// When `limit` is not itself prime, `primes_to_limit(limit)` holds exactly the
/// primes strictly below `limit`.
pub proof fn lemma_primes_strictly_below(limit: i32)
    requires
        !prime(limit as int),
    ensures
        primes_upto(limit as int) == primes_upto(limit - 1),
        forall|p: int| #[trigger] primes_upto(limit as int).contains(p) == (p < limit && prime(p)),
{
    lemma_primes_upto_shape(limit as int);
    assert forall|p: int| #[trigger] primes_upto(limit as int).contains(p) implies p < limit && prime(p) by {
        let j = choose|j: int| 0 <= j < primes_upto(limit as int).len() && primes_upto(limit as int)[j] == p;
    }
}

/// Results are fixed by the input alone: two lists that meet `factorize`'s
/// contract on one input are the same list, and so are two that meet
/// `primes_to_limit`'s. Calling either twice on one input gives one answer;
/// `is_factor` and `is_prime` return a value fixed by their inputs as well.
pub proof fn lemma_same_input_same_output(
    n: i32,
    factors_a: Seq<i32>,
    factors_b: Seq<i32>,
    limit: i32,
    primes_a: Seq<i32>,
    primes_b: Seq<i32>,
)
    requires
        ints(factors_a) == divisors(n as int),
        ints(factors_b) == divisors(n as int),
        ints(primes_a) == primes_upto(limit as int),
        ints(primes_b) == primes_upto(limit as int),
    ensures
        factors_a == factors_b,
        primes_a == primes_b,
{
    lemma_ints_injective(factors_a, factors_b);
    lemma_ints_injective(primes_a, primes_b);
}

/// Two machine sequences with the same integer reading are equal.
proof fn lemma_ints_injective(a: Seq<i32>, b: Seq<i32>)
    requires
        ints(a) == ints(b),
    ensures
        a == b,
{
    lemma_ints_shape(a, ints(b));
    lemma_ints_shape(b, ints(b));
    assert(a =~= b);
}

/// Among `1..=k`, with `1 <= k < n`, `n` has the divisor 1, and no other exactly
/// when nothing in `2..=k` divides it.
proof fn lemma_lone_divisor(n: int, k: int)
    requires
        1 <= k < n,
    ensures
        divisors_upto(n, k).len() >= 1,
        (divisors_upto(n, k).len() == 1) == (forall|d: int| 2 <= d <= k ==> !#[trigger] divides(n, d)),
    decreases k,
{
    if k == 1 {
        assert(divides(n, 1));
        assert(divisors_upto(n, 0).len() == 0);
    } else {
        lemma_lone_divisor(n, k - 1);
        if divides(n, k) {
            assert(!(forall|d: int| 2 <= d <= k ==> !#[trigger] divides(n, d)));
        }
    }
}

/// What `primes_upto` holds: the primes in `2..=k`, ascending, all of them.
pub proof fn lemma_primes_upto_shape(k: int)
    ensures
        forall|i: int, j: int|
            0 <= i < j < primes_upto(k).len() ==> primes_upto(k)[i] < primes_upto(k)[j],
        forall|i: int|
            0 <= i < primes_upto(k).len() ==> 2 <= #[trigger] primes_upto(k)[i] <= k
                && prime(primes_upto(k)[i]),
        forall|p: int| p <= k && prime(p) ==> #[trigger] primes_upto(k).contains(p),
    decreases k,
{
    if k >= 2 {
        lemma_primes_upto_shape(k - 1);
        let s = primes_upto(k - 1);
        if prime(k) {
            assert forall|p: int| p <= k && prime(p) implies #[trigger] s.push(k).contains(p) by {
                if p < k {
                    assert(s.contains(p));
                    let j = choose|j: int| 0 <= j < s.len() && s[j] == p;
                    assert(s.push(k)[j] == p);
                } else {
                    assert(s.push(k)[s.len() as int] == p);
                }
            }
        }
    }
}

/// What `divisors_upto` holds: ascending divisors of `n` in `1..=k`, all of them.
pub proof fn lemma_divisors_upto_shape(n: int, k: int)
    ensures
        forall|i: int, j: int|
            0 <= i < j < divisors_upto(n, k).len() ==> divisors_upto(n, k)[i] < divisors_upto(n, k)[j],
        forall|i: int|
            0 <= i < divisors_upto(n, k).len() ==> 1 <= #[trigger] divisors_upto(n, k)[i] <= k
                && divides(n, divisors_upto(n, k)[i]),
        forall|f: int| 1 <= f <= k && divides(n, f) ==> #[trigger] divisors_upto(n, k).contains(f),
    decreases k,
{
    if k > 0 {
        lemma_divisors_upto_shape(n, k - 1);
        let s = divisors_upto(n, k - 1);
        if divides(n, k) {
            assert forall|f: int| 1 <= f <= k && divides(n, f) implies #[trigger] s.push(k).contains(f) by {
                if f < k {
                    assert(s.contains(f));
                    let j = choose|j: int| 0 <= j < s.len() && s[j] == f;
                    assert(s.push(k)[j] == f);
                } else {
                    assert(s.push(k)[s.len() as int] == f);
                }
            }
        }
    }
}

/// Facts about a machine sequence whose integer reading is known.
proof fn lemma_ints_shape(s: Seq<i32>, t: Seq<int>)
    requires
        ints(s) == t,
    ensures
        s.len() == t.len(),
        forall|i: int| 0 <= i < s.len() ==> #[trigger] s[i] as int == t[i],
        forall|x: i32| t.contains(x as int) ==> #[trigger] s.contains(x),
{
    assert forall|x: i32| t.contains(x as int) implies #[trigger] s.contains(x) by {
        let j = choose|j: int| 0 <= j < t.len() && t[j] == x as int;
        assert(s[j] == x);
    }
}

proof fn lemma_divides_neg_left(x: int, d: int)
    requires
        d != 0,
    ensures
        (x % d == 0) == ((-x) % d == 0),
{
    lemma_divides_neg_right(x, d);
    lemma_divides_neg_right(-x, d);
    let m = if d > 0 { d } else { -d };
    vstd::arithmetic::div_mod::lemma_fundamental_div_mod(x, m);
    vstd::arithmetic::div_mod::lemma_fundamental_div_mod(-x, m);
    if x % m == 0 {
        assert(-x == (-(x / m)) * m) by (nonlinear_arith)
            requires x == m * (x / m) + x % m, x % m == 0;
        vstd::arithmetic::div_mod::lemma_mod_multiples_basic(-(x / m), m);
    }
    if (-x) % m == 0 {
        assert(x == (-((-x) / m)) * m) by (nonlinear_arith)
            requires -x == m * ((-x) / m) + (-x) % m, (-x) % m == 0;
        vstd::arithmetic::div_mod::lemma_mod_multiples_basic(-((-x) / m), m);
    }
}

proof fn lemma_divides_neg_right(x: int, d: int)
    requires
        d != 0,
    ensures
        (x % d == 0) == (x % (-d) == 0),
{
    assert((x % d == 0) ==> x % (-d) == 0) by (nonlinear_arith) requires d != 0;
    assert((x % (-d) == 0) ==> x % d == 0) by (nonlinear_arith) requires d != 0;
}

} // verus!
