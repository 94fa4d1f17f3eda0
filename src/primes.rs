use vstd::prelude::*;

verus! {

/// `n` is a prime number: at least two, and no number between two and `n`
/// divides it.
pub open spec fn is_prime(n: nat) -> bool {
    &&& n >= 2
    &&& forall|d: nat| 2 <= d < n ==> #[trigger] (n % d) != 0
}

/// `e` is a divisor of `n` strictly between one and `n`; so is `n / e`.
proof fn lemma_cofactor(n: nat, e: nat)
    requires
        2 <= e < n,
        n % e == 0,
    ensures
        2 <= n / e,
        (n / e) * e == n,
        n % (n / e) == 0,
{
    let k = n / e;
    assert(n == e * k + n % e) by (nonlinear_arith)
        requires e > 0, k == n / e;
    assert(k * e == n) by (nonlinear_arith)
        requires n == e * k + 0;
    assert(k >= 2) by (nonlinear_arith)
        requires k * e == n, e < n, e >= 2;
    assert(n % k == 0) by {
        vstd::arithmetic::div_mod::lemma_mod_multiples_basic(e as int, k as int);
    }
}

/// Decides whether `n` is prime, by trial division up to its square root.
pub fn check_prime(n: u64) -> (r: bool)
    ensures
        r == is_prime(n as nat),
{
    if n < 2 {
        return false;
    }
    let mut d: u64 = 2;
    while d <= n / d
        invariant
            2 <= d,
            n >= 2,
            forall|e: nat| 2 <= e < d ==> #[trigger] ((n as nat) % e) != 0,
        decreases n - d,
    {
        assert(d * d <= n && d < n) by (nonlinear_arith)
            requires d <= n / d, d >= 2;
        if n % d == 0 {
            return false;
        }
        d = d + 1;
    }
    assert forall|e: nat| 2 <= e < n implies #[trigger] ((n as nat) % e) != 0 by {
        if e >= d && (n as nat) % e == 0 {
            lemma_cofactor(n as nat, e);
            let k = (n as nat) / e;
            vstd::arithmetic::div_mod::lemma_div_is_ordered_by_denominator(n as int, d as int, e as int);
            assert(k < d) by (nonlinear_arith)
                requires k <= n as nat / d as nat, d > n / d, d >= 2;
        }
    }
    true
}


/// Euclid's lemma: a prime that divides a product divides one of its factors.
pub proof fn lemma_euclid(p: nat, x: nat, b: nat)
    requires
        is_prime(p),
        (x * b) % p == 0,
    ensures
        x % p == 0 || b % p == 0,
    decreases b,
{
    let pi = p as int;
    if b == 0 {
        assert(b % p == 0);
    } else if b >= p {
        let b2 = (b - p) as nat;
        let k = (x * b) / p;
        vstd::arithmetic::div_mod::lemma_fundamental_div_mod((x * b) as int, pi);
        assert(x * b2 == (k - x) * pi) by (nonlinear_arith)
            requires x * b == pi * k + 0, b2 == b - pi;
        vstd::arithmetic::div_mod::lemma_mod_multiples_basic(k - x, pi);
        lemma_euclid(p, x, b2);
        if b2 % p == 0 {
            vstd::arithmetic::div_mod::lemma_mod_add_multiples_vanish(b2 as int, pi);
        }
    } else if b == 1 {
        assert(x * b == x) by (nonlinear_arith)
            requires b == 1;
    } else {
        let q = p / b;
        let r = p % b;
        vstd::arithmetic::div_mod::lemma_fundamental_div_mod(pi, b as int);
        assert(r != 0);
        assert(0 < r < b);
        let k = (x * b) / p;
        vstd::arithmetic::div_mod::lemma_fundamental_div_mod((x * b) as int, pi);
        assert(x * r == (x - q * k) * pi) by (nonlinear_arith)
            requires x * b == pi * k + 0, pi == b * q + r;
        vstd::arithmetic::div_mod::lemma_mod_multiples_basic(x - q * k, pi);
        lemma_euclid(p, x, r);
        vstd::arithmetic::div_mod::lemma_small_mod(r, p);
    }
}

/// A prime's only divisor of at least two is itself.
pub proof fn lemma_prime_divisor(p: nat, q: nat)
    requires
        p >= 2,
        is_prime(q),
        q % p == 0,
    ensures
        p == q,
{
    if p > q {
        vstd::arithmetic::div_mod::lemma_small_mod(q, p);
    } else if p < q {
        assert(q % p != 0);
    }
}

} // verus!
