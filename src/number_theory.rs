//! Facts of elementary number theory behind the correctness of RSA.
use vstd::arithmetic::div_mod::{
    lemma_add_mod_noop, lemma_fundamental_div_mod, lemma_mod_bound, lemma_mod_equivalence,
    lemma_mod_multiples_basic, lemma_mod_twice, lemma_mul_mod_noop_general, lemma_small_mod,
};
use vstd::arithmetic::div_mod::{lemma_mul_mod_noop_left, lemma_mul_mod_noop_right};
use vstd::arithmetic::power::{
    lemma0_pow, lemma1_pow, lemma_pow1, lemma_pow_adds, lemma_pow_mod_noop, lemma_pow_multiplies, pow,
};
use vstd::prelude::*;

verus! {

/// `p` is a prime number.
pub open spec fn is_prime(p: nat) -> bool {
    p > 1 && forall|d: nat| 1 < d < p ==> #[trigger] (p % d) != 0
}

proof fn lemma_euclid_below(p: nat, a: nat, b: nat)
    requires
        is_prime(p),
        0 < a < p,
        (a * b) % p == 0,
    ensures
        b % p == 0,
    decreases a,
{
    if a > 1 {
        let k = p / a;
        let r = p % a;
        lemma_fundamental_div_mod(p as int, a as int);
        assert(r != 0);
        let j = (a * b) / p;
        lemma_fundamental_div_mod((a * b) as int, p as int);
        assert(a * b == p * j);
        assert(r * b == p * b - k * (a * b)) by (nonlinear_arith)
            requires
                p == k * a + r,
        ;
        assert(r * b == p * (b - k * j)) by (nonlinear_arith)
            requires
                r * b == p * b - k * (a * b),
                a * b == p * j,
        ;
        assert(b - k * j >= 0) by (nonlinear_arith)
            requires
                r * b == p * (b - k * j),
                p > 0,
                r * b >= 0,
        ;
        lemma_mod_multiples_basic(b - k * j, p as int);
        assert((r * b) % p == 0) by (nonlinear_arith)
            requires
                r * b == p * (b - k * j),
                ((b - k * j) * p) % (p as int) == 0,
        ;
        lemma_euclid_below(p, r, b);
    } else {
        assert(a * b == b) by (nonlinear_arith)
            requires
                a == 1,
        ;
    }
}

/// Euclid's lemma: a prime that divides a product divides one of its
/// factors.
pub proof fn lemma_euclid(p: nat, a: int, b: int)
    requires
        is_prime(p),
        (a * b) % (p as int) == 0,
    ensures
        a % (p as int) == 0 || b % (p as int) == 0,
{
    let pp = p as int;
    let x = a % pp;
    let y = b % pp;
    lemma_mod_bound(a, pp);
    lemma_mod_bound(b, pp);
    lemma_mul_mod_noop_general(a, b, pp);
    if x != 0 {
        lemma_euclid_below(p, x as nat, y as nat);
        lemma_small_mod(y as nat, p);
    }
}

/// The binomial coefficient `n` choose `k`, by Pascal's rule.
pub open spec fn binom(n: nat, k: nat) -> nat
    decreases n,
{
    if k == 0 {
        1
    } else if n == 0 {
        0
    } else {
        binom((n - 1) as nat, (k - 1) as nat) + binom((n - 1) as nat, k)
    }
}

proof fn lemma_binom_above(n: nat, k: nat)
    requires
        k > n,
    ensures
        binom(n, k) == 0,
    decreases n,
{
    if n > 0 {
        lemma_binom_above((n - 1) as nat, (k - 1) as nat);
        lemma_binom_above((n - 1) as nat, k);
    }
}

proof fn lemma_binom_diagonal(n: nat)
    ensures
        binom(n, n) == 1,
    decreases n,
{
    if n > 0 {
        lemma_binom_diagonal((n - 1) as nat);
        lemma_binom_above((n - 1) as nat, n);
    }
}

/// `k * C(n, k) == n * C(n - 1, k - 1)`.
proof fn lemma_binom_absorb(n: nat, k: nat)
    requires
        n >= 1,
        k >= 1,
    ensures
        k * binom(n, k) == n * binom((n - 1) as nat, (k - 1) as nat),
    decreases n,
{
    if n == 1 {
        if k == 1 {
            assert(binom(0, 0) == 1);
            assert(binom(0, 1) == 0);
            assert(binom(1, 1) == binom(0, 0) + binom(0, 1));
            assert(k * binom(n, k) == 1);
        } else {
            lemma_binom_above(1, k);
            lemma_binom_above(0, (k - 1) as nat);
            assert(k * binom(n, k) == 0);
            assert(n * binom(0, (k - 1) as nat) == 0);
        }
    } else {
        let c1 = binom((n - 1) as nat, (k - 1) as nat);
        let c2 = binom((n - 1) as nat, k);
        assert(binom(n, k) == c1 + c2);
        lemma_binom_absorb((n - 1) as nat, k);
        let d2 = binom((n - 2) as nat, (k - 1) as nat);
        assert(k * c2 == (n - 1) * d2);
        if k == 1 {
            assert(c1 == 1);
            assert(d2 == 1);
            assert(k * binom(n, k) == n * c1) by (nonlinear_arith)
                requires
                    k == 1,
                    c1 == 1,
                    d2 == 1,
                    k * c2 == (n - 1) * d2,
                    binom(n, k) == c1 + c2,
            ;
        } else {
            lemma_binom_absorb((n - 1) as nat, (k - 1) as nat);
            let d1 = binom((n - 2) as nat, (k - 2) as nat);
            assert((k - 1) * c1 == (n - 1) * d1);
            assert(c1 == d1 + d2);
            assert(k * (c1 + c2) == n * c1) by (nonlinear_arith)
                requires
                    k * c2 == (n - 1) * d2,
                    (k - 1) * c1 == (n - 1) * d1,
                    c1 == d1 + d2,
            ;
            assert(k * binom(n, k) == k * (c1 + c2));
        }
    }
}

/// A prime divides every binomial coefficient `C(p, k)` with `0 < k < p`.
proof fn lemma_prime_divides_binom(p: nat, k: nat)
    requires
        is_prime(p),
        0 < k < p,
    ensures
        binom(p, k) % p == 0,
{
    lemma_binom_absorb(p, k);
    let c = binom((p - 1) as nat, (k - 1) as nat);
    lemma_mod_multiples_basic(c as int, p as int);
    assert(((k as int) * (binom(p, k) as int)) % (p as int) == 0) by (nonlinear_arith)
        requires
            k * binom(p, k) == p * c,
            ((c as int) * (p as int)) % (p as int) == 0,
    ;
    lemma_euclid(p, k as int, binom(p, k) as int);
    lemma_small_mod(k, p);
}

/// The first `k` terms of the binomial expansion of `(a + 1)^n`.
pub open spec fn binom_sum(a: int, n: nat, k: nat) -> int
    decreases k,
{
    if k == 0 {
        0
    } else {
        binom_sum(a, n, (k - 1) as nat) + binom(n, (k - 1) as nat) * pow(a, (k - 1) as nat)
    }
}

proof fn lemma_binom_sum_one(a: int, n: nat)
    ensures
        binom_sum(a, n, 1) == 1,
{
    reveal(pow);
    assert(pow(a, 0) == 1);
    assert(binom(n, 0) == 1);
    assert(binom_sum(a, n, 0) == 0);
    assert(binom(n, 0) * pow(a, 0) == 1) by (nonlinear_arith)
        requires
            pow(a, 0) == 1,
            binom(n, 0) == 1,
    ;
}

proof fn lemma_binom_sum_step(a: int, n: nat, k: nat)
    ensures
        binom_sum(a, n + 1, k + 1) == a * binom_sum(a, n, k) + binom_sum(a, n, k + 1),
    decreases k,
{
    reveal(pow);
    if k == 0 {
        lemma_binom_sum_one(a, n + 1);
        lemma_binom_sum_one(a, n);
        assert(binom_sum(a, n, 0) == 0);
    } else {
        let j = (k - 1) as nat;
        lemma_binom_sum_step(a, n, j);
        let sj = binom_sum(a, n, j);
        let sk = binom_sum(a, n, k);
        let cj = binom(n, j);
        let ck = binom(n, k);
        assert(binom(n + 1, k) == cj + ck);
        assert(pow(a, k) == a * pow(a, j));
        assert(sk == sj + cj * pow(a, j));
        assert(binom_sum(a, n, k + 1) == sk + ck * pow(a, k));
        assert(binom_sum(a, n + 1, k + 1) == binom_sum(a, n + 1, k) + (cj + ck) * pow(a, k));
        assert(binom_sum(a, n + 1, k + 1) == a * sk + binom_sum(a, n, k + 1)) by (nonlinear_arith)
            requires
                binom_sum(a, n + 1, k + 1) == binom_sum(a, n + 1, k) + (cj + ck) * pow(a, k),
                binom_sum(a, n + 1, k) == a * sj + sk,
                pow(a, k) == a * pow(a, j),
                sk == sj + cj * pow(a, j),
                binom_sum(a, n, k + 1) == sk + ck * pow(a, k),
        ;
    }
}

/// The binomial theorem for `(a + 1)^n`.
proof fn lemma_binomial_theorem(a: int, n: nat)
    ensures
        binom_sum(a, n, n + 1) == pow(a + 1, n),
    decreases n,
{
    reveal(pow);
    if n == 0 {
        lemma_binom_sum_one(a, 0);
    } else {
        let m = (n - 1) as nat;
        lemma_binomial_theorem(a, m);
        lemma_binom_sum_step(a, m, n);
        lemma_binom_above(m, n);
        assert(binom_sum(a, m, n + 1) == binom_sum(a, m, n));
        assert(pow(a + 1, n) == (a + 1) * pow(a + 1, m));
        assert(binom_sum(a, n, n + 1) == a * pow(a + 1, m) + pow(a + 1, m));
        assert(a * pow(a + 1, m) + pow(a + 1, m) == (a + 1) * pow(a + 1, m)) by (nonlinear_arith);
    }
}

proof fn lemma_binom_sum_mod_prime(a: int, p: nat, k: nat)
    requires
        is_prime(p),
        1 <= k <= p,
    ensures
        binom_sum(a, p, k) % (p as int) == 1,
    decreases k,
{
    let pp = p as int;
    lemma_small_mod(1, p);
    if k == 1 {
        lemma_binom_sum_one(a, p);
    } else {
        let j = (k - 1) as nat;
        lemma_binom_sum_mod_prime(a, p, j);
        lemma_prime_divides_binom(p, j);
        let c = binom(p, j);
        let q = c / p;
        lemma_fundamental_div_mod(c as int, pp);
        let t = c * pow(a, j);
        assert(t == (q * pow(a, j)) * pp) by (nonlinear_arith)
            requires
                t == c * pow(a, j),
                c == pp * q + 0,
        ;
        lemma_mod_multiples_basic(q * pow(a, j), pp);
        let s = binom_sum(a, p, j);
        lemma_add_mod_noop(s, t, pp);
        assert(binom_sum(a, p, k) == s + t);
    }
}

/// Fermat's little theorem: `a^p` and `a` leave the same remainder modulo
/// a prime `p`.
pub proof fn lemma_fermat(a: nat, p: nat)
    requires
        is_prime(p),
    ensures
        pow(a as int, p) % (p as int) == (a as int) % (p as int),
    decreases a,
{
    let pp = p as int;
    if a == 0 {
        lemma0_pow(p);
    } else {
        let b = (a - 1) as nat;
        lemma_fermat(b, p);
        lemma_binomial_theorem(b as int, p);
        reveal(pow);
        lemma_binom_diagonal(p);
        assert(binom(p, p) * pow(b as int, p) == pow(b as int, p)) by (nonlinear_arith)
            requires
                binom(p, p) == 1,
        ;
        assert(binom_sum(b as int, p, p + 1) == binom_sum(b as int, p, p) + pow(b as int, p));
        lemma_binom_sum_mod_prime(b as int, p, p);
        lemma_add_mod_noop(binom_sum(b as int, p, p), pow(b as int, p), pp);
        lemma_add_mod_noop(1, b as int, pp);
        lemma_small_mod(1, p);
    }
}

/// For `a` not divisible by a prime `p`, `a^(p - 1)` leaves remainder 1.
pub proof fn lemma_fermat_unit(a: nat, p: nat)
    requires
        is_prime(p),
        a % p != 0,
    ensures
        pow(a as int, (p - 1) as nat) % (p as int) == 1,
{
    let pp = p as int;
    let x = pow(a as int, (p - 1) as nat);
    lemma_fermat(a, p);
    reveal(pow);
    assert(pow(a as int, p) == a * x);
    lemma_mod_equivalence(a * x, a as int, pp);
    assert(a * (x - 1) == a * x - a) by (nonlinear_arith);
    lemma_euclid(p, a as int, x - 1);
    lemma_mod_equivalence(x, 1, pp);
    lemma_small_mod(1, p);
}

/// An exponent that is 1 modulo `(p - 1) * k` acts as the identity modulo
/// the prime `p`.
pub proof fn lemma_exponent_identity_mod_prime(m: nat, p: nat, k: nat, ed: nat)
    requires
        is_prime(p),
        k >= 1,
        ed % ((p - 1) * k) as nat == 1,
    ensures
        pow(m as int, ed) % (p as int) == (m as int) % (p as int),
{
    let pp = p as int;
    let phi = ((p - 1) * k) as nat;
    assert(phi >= 1) by (nonlinear_arith)
        requires
            p >= 2,
            k >= 1,
            phi == (p - 1) * k,
    ;
    lemma_fundamental_div_mod(ed as int, phi as int);
    let j = ed / phi;
    assert(ed == phi * j + 1);
    let e1 = ((p - 1) as nat * (k * j)) as nat;
    assert(e1 == phi * j) by (nonlinear_arith)
        requires
            e1 == (p - 1) * (k * j),
            phi == (p - 1) * k,
    ;
    lemma_pow_adds(m as int, e1, 1);
    reveal(pow);
    lemma_pow1(m as int);
    let big = pow(m as int, e1);
    assert(pow(m as int, ed) == big * m);
    if m % p == 0 {
        lemma_mul_mod_noop_right(big, m as int, pp);
        assert(big * 0 == 0);
        lemma_small_mod(0, p);
    } else {
        lemma_fermat_unit(m, p);
        lemma_pow_multiplies(m as int, (p - 1) as nat, (k * j) as nat);
        lemma_pow_mod_noop(pow(m as int, (p - 1) as nat), (k * j) as nat, pp);
        lemma1_pow((k * j) as nat);
        lemma_small_mod(1, p);
        assert(big % pp == 1);
        lemma_mul_mod_noop_left(big, m as int, pp);
        assert(1 * (m as int) == m);
    }
}

/// Two distinct primes that each divide `x - m` make `x` and `m` agree
/// modulo their product.
pub proof fn lemma_crt_distinct_primes(x: int, m: nat, p: nat, q: nat)
    requires
        is_prime(p),
        is_prime(q),
        p != q,
        m < p * q,
        x % (p as int) == (m as int) % (p as int),
        x % (q as int) == (m as int) % (q as int),
    ensures
        x % ((p * q) as int) == m,
{
    let pp = p as int;
    let qq = q as int;
    let y = x - m;
    lemma_mod_equivalence(x, m as int, pp);
    lemma_mod_equivalence(x, m as int, qq);
    lemma_fundamental_div_mod(y, pp);
    let k = y / pp;
    assert(y == pp * k);
    lemma_euclid(q, pp, k);
    if q < p {
        assert(p % q != 0);
    } else {
        lemma_small_mod(p, q);
    }
    assert(k % qq == 0);
    lemma_fundamental_div_mod(k, qq);
    let l = k / qq;
    let n = (p * q) as int;
    assert(n > 0) by (nonlinear_arith)
        requires
            p > 1,
            q > 1,
            n == p * q,
    ;
    assert(y == l * n) by (nonlinear_arith)
        requires
            y == pp * k,
            k == qq * l + 0,
            n == pp * qq,
    ;
    lemma_mod_multiples_basic(l, n);
    lemma_mod_equivalence(x, m as int, n);
    lemma_small_mod(m, n as nat);
}

/// The only square roots of 1 modulo a prime `p` are 1 and `p - 1`.
pub proof fn lemma_square_root_of_one(p: nat, x: nat)
    requires
        is_prime(p),
        x < p,
        (x * x) % p == 1,
    ensures
        x == 1 || x == p - 1,
{
    let pp = p as int;
    let xi = x as int;
    lemma_small_mod(1, p);
    lemma_mod_equivalence(xi * xi, 1, pp);
    assert((xi - 1) * (xi + 1) == xi * xi - 1) by (nonlinear_arith);
    lemma_euclid(p, xi - 1, xi + 1);
    if (xi - 1) % pp == 0 {
        if x == 0 {
            assert(x * x == 0);
            lemma_small_mod(0, p);
        } else {
            lemma_small_mod((x - 1) as nat, p);
        }
    } else {
        if x + 1 < p {
            lemma_small_mod(x + 1, p);
        }
    }
}

} // verus!
