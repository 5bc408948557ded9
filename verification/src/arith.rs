//! Specification-level number theory shared by the whole crate:
//! divisibility, primality, the Euclidean greatest common divisor,
//! bit lengths and big-endian byte values.

use vstd::prelude::*;
use vstd::arithmetic::power::pow;
use vstd::arithmetic::power2::pow2;
use vstd::arithmetic::div_mod::{
    lemma_fundamental_div_mod, lemma_add_mod_noop, lemma_mul_mod_noop_right, lemma_small_mod,
    lemma_mod_self_0, lemma_mod_bound,
};
use vstd::arithmetic::power2::{lemma_pow2_unfold, lemma_pow2_pos};

verus! {

/// `d` divides `n`.
pub open spec fn divides(d: nat, n: nat) -> bool {
    d != 0 && n % d == 0
}

/// `n` is prime: at least 2, and no number strictly between 1 and `n`
/// divides it.
pub open spec fn is_prime_spec(n: nat) -> bool {
    n >= 2 && forall|d: nat| 2 <= d < n ==> #[trigger] (n % d) != 0
}

/// The Euclidean greatest common divisor.
pub open spec fn gcd_nat(a: nat, b: nat) -> nat
    decreases b,
{
    if b == 0 {
        a
    } else {
        gcd_nat(b, a % b)
    }
}

/// `a` and `b` have no common divisor above 1.
pub open spec fn coprime(a: nat, b: nat) -> bool {
    gcd_nat(a, b) == 1
}

/// `pow(b, e) % m`, the result of modular exponentiation.
pub open spec fn pow_mod(b: nat, e: nat, m: nat) -> nat
    recommends
        m > 0,
{
    (pow(b as int, e) % (m as int)) as nat
}

/// Number of bits needed to write `n`: 0 for 0, otherwise the length of
/// its binary expansion.
pub open spec fn bitlen(n: nat) -> nat
    decreases n,
{
    if n == 0 {
        0
    } else {
        (1 + bitlen(n / 2)) as nat
    }
}

/// The value of a big-endian byte string.
pub open spec fn be_val(s: Seq<u8>) -> nat
    decreases s.len(),
{
    if s.len() == 0 {
        0
    } else {
        (be_val(s.drop_last()) * 256 + s.last()) as nat
    }
}

/// Exponentiation modulo `m` distributes over a product reduced
/// modulo `m`.
pub proof fn lemma_pow_mod_mul(a: nat, b: nat, e: nat, m: nat)
    requires
        m > 0,
    ensures
        pow_mod((a * b) % m, e, m) == (pow_mod(a, e, m) * pow_mod(b, e, m)) % m,
{
    let mi = m as int;
    let ab = (a * b) as int;
    assert(pow(ab % mi, e) % mi == pow(ab, e) % mi) by {
        vstd::arithmetic::power::lemma_pow_mod_noop(ab, e, mi);
    }
    assert(pow(ab, e) == pow(a as int, e) * pow(b as int, e)) by {
        vstd::arithmetic::power::lemma_pow_distributes(a as int, b as int, e);
    }
    assert((pow(a as int, e) * pow(b as int, e)) % mi == ((pow(a as int, e) % mi) * (pow(
        b as int,
        e,
    ) % mi)) % mi) by {
        vstd::arithmetic::div_mod::lemma_mul_mod_noop_general(
            pow(a as int, e),
            pow(b as int, e),
            mi,
        );
    }
    assert(pow(a as int, e) % mi >= 0 && pow(b as int, e) % mi >= 0) by {
        lemma_mod_bound(pow(a as int, e), mi);
        lemma_mod_bound(pow(b as int, e), mi);
    }
}

/// Iterated exponentiation modulo `m` multiplies the exponents.
pub proof fn lemma_pow_mod_compose(a: nat, e1: nat, e2: nat, m: nat)
    requires
        m > 0,
    ensures
        pow_mod(pow_mod(a, e1, m), e2, m) == pow_mod(a, (e1 * e2) as nat, m),
{
    let mi = m as int;
    assert(pow(pow(a as int, e1) % mi, e2) % mi == pow(pow(a as int, e1), e2) % mi) by {
        vstd::arithmetic::power::lemma_pow_mod_noop(pow(a as int, e1), e2, mi);
    }
    assert(pow(pow(a as int, e1), e2) == pow(a as int, (e1 * e2) as nat)) by {
        vstd::arithmetic::power::lemma_pow_multiplies(a as int, e1, e2);
    }
    assert(pow(a as int, e1) % mi >= 0) by {
        lemma_mod_bound(pow(a as int, e1), mi);
    }
}

/// Reducing `1 + s*n` modulo `n^2` reduces the coefficient modulo `n`.
pub proof fn lemma_mod_one_plus_sn(n: nat, s: nat)
    requires
        n >= 2,
    ensures
        (1 + s * n) % (n * n) == 1 + (s % n) * n,
{
    let nn = (n * n) as int;
    let ni = n as int;
    let q = (s / n) as int;
    let sn = (s % n) as int;
    assert(nn >= 4) by (nonlinear_arith)
        requires
            nn == (n * n) as int,
            n >= 2,
    ;
    lemma_fundamental_div_mod(s as int, ni);
    assert((s as int) * ni == nn * q + sn * ni) by (nonlinear_arith)
        requires
            s as int == ni * q + sn,
            nn == ni * ni,
    ;
    assert((nn * q + (1 + sn * ni)) % nn == (1 + sn * ni) % nn) by {
        vstd::arithmetic::div_mod::lemma_mod_multiples_vanish(q, 1 + sn * ni, nn);
    }
    lemma_mod_bound(s as int, ni);
    assert(1 + sn * ni < nn) by (nonlinear_arith)
        requires
            ni >= 2,
            0 <= sn < ni,
            nn == ni * ni,
    ;
    lemma_small_mod((1 + sn * ni) as nat, (n * n) as nat);
}

/// Multiplying two numbers of the form `1 + t*n` modulo `n^2` adds the
/// coefficients modulo `n`.
pub proof fn lemma_one_plus_tn_mul(n: nat, t1: nat, t2: nat)
    requires
        n >= 2,
    ensures
        ((1 + t1 * n) * (1 + t2 * n)) % (n * n) == 1 + ((t1 + t2) % n) * n,
{
    let nn = (n * n) as int;
    assert(nn >= 4) by (nonlinear_arith)
        requires
            nn == (n * n) as int,
            n >= 2,
    ;
    assert((1 + t1 * n) * (1 + t2 * n) == (n * n) * (t1 * t2) + (1 + (t1 + t2) * n))
        by (nonlinear_arith);
    assert((nn * ((t1 * t2) as int) + (1 + ((t1 + t2) as int) * (n as int))) % nn == (1 + ((t1
        + t2) as int) * (n as int)) % nn) by {
        vstd::arithmetic::div_mod::lemma_mod_multiples_vanish(
            (t1 * t2) as int,
            1 + ((t1 + t2) as int) * (n as int),
            nn,
        );
    }
    lemma_mod_one_plus_sn(n, t1 + t2);
}

/// The binomial collapse behind Paillier: powers of `1 + m*n` modulo
/// `n^2` stay of the form `1 + (m*e mod n)*n`.
pub proof fn lemma_one_plus_mn_pow(n: nat, m: nat, e: nat)
    requires
        n >= 2,
    ensures
        pow_mod((1 + m * n) as nat, e, (n * n) as nat) == 1 + ((m * e) % n) * n,
    decreases e,
{
    let nn = (n * n) as int;
    let a = (1 + m * n) as int;
    assert(nn >= 4) by (nonlinear_arith)
        requires
            nn == (n * n) as int,
            n >= 2,
    ;
    if e == 0 {
        assert(pow(a, 0) == 1) by {
            vstd::arithmetic::power::lemma_pow0(a);
        }
        lemma_small_mod(1, (n * n) as nat);
        assert(pow_mod((1 + m * n) as nat, e, (n * n) as nat) == 1);
        assert(m * e == 0) by (nonlinear_arith)
            requires
                e == 0,
        ;
        lemma_small_mod(0, n);
        assert(0nat * n == 0) by {
            vstd::arithmetic::mul::lemma_mul_by_zero_is_zero(n as int);
        }
        assert(((m * e) % n) * n == 0);
    } else {
        let e1 = (e - 1) as nat;
        lemma_one_plus_mn_pow(n, m, e1);
        let t = (m * e1) % n;
        assert(pow(a, e) == pow(a, e1) * a) by {
            vstd::arithmetic::power::lemma_pow_adds(a, e1, 1);
            vstd::arithmetic::power::lemma_pow1(a);
        }
        assert(pow(a, e) % nn == ((pow(a, e1) % nn) * a) % nn) by {
            vstd::arithmetic::div_mod::lemma_mul_mod_noop_left(pow(a, e1), a, nn);
        }
        assert(pow(a, e1) % nn == 1 + t * n);
        assert(((1 + t * n) * (1 + m * n)) % (n * n) == 1 + ((t + m) % n) * n) by {
            lemma_one_plus_tn_mul(n, t, m);
        }
        assert((t + m) % n == (m * e1 + m) % n) by {
            vstd::arithmetic::div_mod::lemma_add_mod_noop(t as int, m as int, n as int);
            vstd::arithmetic::div_mod::lemma_add_mod_noop(
                (m * e1) as int,
                m as int,
                n as int,
            );
            vstd::arithmetic::div_mod::lemma_mod_twice((m * e1) as int, n as int);
            vstd::arithmetic::div_mod::lemma_mod_twice(m as int, n as int);
        }
        assert(m * e1 + m == m * e) by (nonlinear_arith)
            requires
                e1 == e - 1,
                e >= 1,
        ;
        assert(((pow(a, e1) % nn) * a) % nn == (((1 + t * n) * (1 + m * n)) as int) % nn);
        assert(pow(a, e) % nn == 1 + ((m * e) % n) * n);
    }
}

/// Reducing the left summand first does not change a sum modulo `m`.
pub proof fn lemma_mod_add_left(x: nat, y: nat, m: nat)
    requires
        m > 0,
    ensures
        ((x % m) + y) % m == (x + y) % m,
{
    vstd::arithmetic::div_mod::lemma_add_mod_noop(x as int, y as int, m as int);
    vstd::arithmetic::div_mod::lemma_add_mod_noop((x % m) as int, y as int, m as int);
    vstd::arithmetic::div_mod::lemma_mod_twice(x as int, m as int);
}

/// Reducing the right summand first does not change a sum modulo `m`.
pub proof fn lemma_mod_add_right(x: nat, y: nat, m: nat)
    requires
        m > 0,
    ensures
        (x + (y % m)) % m == (x + y) % m,
{
    vstd::arithmetic::div_mod::lemma_add_mod_noop(x as int, y as int, m as int);
    vstd::arithmetic::div_mod::lemma_add_mod_noop(x as int, (y % m) as int, m as int);
    vstd::arithmetic::div_mod::lemma_mod_twice(y as int, m as int);
}

/// If `d` divides `x` and `y`, it divides their sum.
pub proof fn lemma_divides_add(d: nat, x: nat, y: nat)
    requires
        divides(d, x),
        divides(d, y),
    ensures
        divides(d, x + y),
{
    lemma_add_mod_noop(x as int, y as int, d as int);
    lemma_small_mod(0, d);
}

/// If `d` divides `x`, it divides every multiple of `x`.
pub proof fn lemma_divides_mul(d: nat, k: nat, x: nat)
    requires
        divides(d, x),
    ensures
        divides(d, k * x),
{
    lemma_mul_mod_noop_right(k as int, x as int, d as int);
    assert((k * x) % d == (k * (x % d)) % d);
    assert(k * (x % d) == 0) by {
        assert(x % d == 0);
    }
    lemma_small_mod(0, d);
}

/// A divisor of a sum that divides one summand divides the other.
pub proof fn lemma_divides_sum_cancel(d: nat, x: nat, y: nat)
    requires
        divides(d, (x + y) as nat),
        divides(d, x),
    ensures
        divides(d, y),
{
    vstd::arithmetic::div_mod::lemma_add_mod_noop(x as int, y as int, d as int);
    vstd::arithmetic::div_mod::lemma_mod_twice(y as int, d as int);
    lemma_mod_bound(y as int, d as int);
    lemma_small_mod((y % d) as nat, d);
}

/// Every common divisor divides the greatest common divisor.
pub proof fn lemma_common_divisor_divides_gcd(d: nat, a: nat, b: nat)
    requires
        divides(d, a),
        divides(d, b),
    ensures
        divides(d, gcd_nat(a, b)),
    decreases b,
{
    if b == 0 {
    } else {
        lemma_fundamental_div_mod(a as int, b as int);
        assert(a == b * (a / b) + a % b);
        lemma_divides_mul(d, a / b, b);
        assert((a / b) * b == b * (a / b)) by {
            vstd::arithmetic::mul::lemma_mul_is_commutative((a / b) as int, b as int);
        }
        lemma_divides_sum_cancel(d, (b * (a / b)) as nat, a % b);
        lemma_mod_bound(a as int, b as int);
        lemma_common_divisor_divides_gcd(d, b, a % b);
    }
}

/// Scaling both operands scales the remainder.
pub proof fn lemma_mod_scale(k: nat, a: nat, b: nat)
    requires
        k > 0,
        b > 0,
    ensures
        (k * a) % (k * b) == k * (a % b),
{
    let q = a / b;
    let rr = a % b;
    lemma_fundamental_div_mod(a as int, b as int);
    assert(a == b * q + rr);
    assert((k * a) as int == (q as int) * ((k * b) as int) + ((k * rr) as int))
        by (nonlinear_arith)
        requires
            a == b * q + rr,
    ;
    lemma_mod_bound(a as int, b as int);
    assert(0 <= k * rr < k * b) by (nonlinear_arith)
        requires
            k > 0,
            0 <= rr < b,
    ;
    vstd::arithmetic::div_mod::lemma_fundamental_div_mod_converse_mod(
        (k * a) as int,
        (k * b) as int,
        q as int,
        (k * rr) as int,
    );
}

/// Scaling both operands scales the greatest common divisor.
pub proof fn lemma_gcd_scale(k: nat, a: nat, b: nat)
    ensures
        gcd_nat((k * a) as nat, (k * b) as nat) == k * gcd_nat(a, b),
    decreases b,
{
    if k == 0 {
        assert(k * a == 0 && k * b == 0 && k * gcd_nat(a, b) == 0) by (nonlinear_arith)
            requires
                k == 0,
        ;
    } else if b == 0 {
        assert(k * b == 0) by (nonlinear_arith)
            requires
                b == 0,
        ;
    } else {
        assert(k * b > 0) by (nonlinear_arith)
            requires
                k > 0,
                b > 0,
        ;
        lemma_mod_scale(k, a, b);
        lemma_mod_bound(a as int, b as int);
        lemma_gcd_scale(k, b, a % b);
        assert(gcd_nat((k * a) as nat, (k * b) as nat) == gcd_nat(
            (k * b) as nat,
            ((k * a) % (k * b)) as nat,
        ));
    }
}

/// Euclid's lemma: a prime dividing a product divides a factor.
pub proof fn lemma_euclid(p: nat, x: nat, y: nat)
    requires
        is_prime_spec(p),
        divides(p, (x * y) as nat),
    ensures
        divides(p, x) || divides(p, y),
{
    if !divides(p, x) {
        assert(x != 0) by {
            if x == 0 {
                lemma_small_mod(0, p);
            }
        }
        let g = gcd_nat(p, x);
        lemma_gcd_divides(p, x);
        assert(g == 1) by {
            lemma_divides_le(g, p);
            if g != 1 {
                assert(g >= 2) by {
                    lemma_divides_le(g, x);
                }
                if g < p {
                    assert(p % g != 0);
                    assert(false);
                } else {
                    assert(g == p);
                    assert(divides(p, x));
                    assert(false);
                }
            }
        }
        if y == 0 {
            lemma_small_mod(0, p);
        } else {
            lemma_gcd_scale(y, p, x);
            assert(y * gcd_nat(p, x) == y) by {
                vstd::arithmetic::mul::lemma_mul_basics(y as int);
            }
            assert(divides(p, (y * p) as nat)) by {
                lemma_mod_self_0(p as int);
                lemma_divides_mul(p, y, p);
            }
            assert(divides(p, (y * x) as nat)) by {
                assert(y * x == x * y) by {
                    vstd::arithmetic::mul::lemma_mul_is_commutative(y as int, x as int);
                }
            }
            lemma_common_divisor_divides_gcd(p, (y * p) as nat, (y * x) as nat);
        }
    }
}

/// Binomial coefficients, by Pascal's rule.
pub open spec fn binom(n: nat, k: nat) -> nat
    decreases n, k,
{
    if k == 0 {
        1
    } else if n == 0 {
        0
    } else {
        (binom((n - 1) as nat, (k - 1) as nat) + binom((n - 1) as nat, k)) as nat
    }
}

/// Above the diagonal the coefficients vanish.
pub proof fn lemma_binom_big(n: nat, k: nat)
    requires
        k > n,
    ensures
        binom(n, k) == 0,
    decreases n,
{
    if n > 0 {
        lemma_binom_big((n - 1) as nat, (k - 1) as nat);
        lemma_binom_big((n - 1) as nat, k);
    }
}

/// On the diagonal the coefficient is 1.
pub proof fn lemma_binom_diag(n: nat)
    ensures
        binom(n, n) == 1,
    decreases n,
{
    if n > 0 {
        lemma_binom_diag((n - 1) as nat);
        lemma_binom_big((n - 1) as nat, n);
    }
}

/// Choosing one out of `n` can be done `n` ways.
pub proof fn lemma_binom_one(n: nat)
    ensures
        binom(n, 1) == n,
    decreases n,
{
    if n > 0 {
        lemma_binom_one((n - 1) as nat);
        assert(binom(n, 1) == binom((n - 1) as nat, 0nat) + binom((n - 1) as nat, 1nat));
        assert(binom((n - 1) as nat, 0nat) == 1);
    }
}

/// The absorption identity: `k * C(n, k) == n * C(n-1, k-1)`.
pub proof fn lemma_binom_absorb(n: nat, k: nat)
    requires
        1 <= k <= n,
    ensures
        k * binom(n, k) == n * binom((n - 1) as nat, (k - 1) as nat),
    decreases n,
{
    let n1 = (n - 1) as nat;
    let k1 = (k - 1) as nat;
    if k == n {
        lemma_binom_diag(n);
        lemma_binom_diag(n1);
        assert(k * 1nat == n * 1nat) by (nonlinear_arith)
            requires
                k == n,
        ;
    } else if k == 1 {
        lemma_binom_one(n);
        assert(1nat * binom(n, 1) == binom(n, 1)) by {
            vstd::arithmetic::mul::lemma_mul_basics(binom(n, 1) as int);
        }
        assert(n * binom(n1, 0nat) == n) by {
            vstd::arithmetic::mul::lemma_mul_basics(n as int);
        }
    } else {
        // 2 <= k < n, so n - 1 >= 2 and both inductive calls apply.
        let n2 = (n - 2) as nat;
        let k2 = (k - 2) as nat;
        lemma_binom_absorb(n1, k);
        lemma_binom_absorb(n1, k1);
        assert(binom(n, k) == binom(n1, k1) + binom(n1, k));
        assert(binom(n1, k1) == binom(n2, k2) + binom(n2, k1));
        // Left side.
        assert(k * binom(n, k) == k * binom(n1, k1) + k * binom(n1, k)) by (nonlinear_arith)
            requires
                binom(n, k) == binom(n1, k1) + binom(n1, k),
        ;
        assert(k * binom(n1, k1) == k1 * binom(n1, k1) + binom(n1, k1)) by (nonlinear_arith)
            requires
                k == k1 + 1,
        ;
        // Right side.
        assert(n * binom(n1, k1) == n1 * binom(n1, k1) + binom(n1, k1)) by (nonlinear_arith)
            requires
                n == n1 + 1,
        ;
        assert(n1 * binom(n1, k1) == n1 * binom(n2, k2) + n1 * binom(n2, k1))
            by (nonlinear_arith)
            requires
                binom(n1, k1) == binom(n2, k2) + binom(n2, k1),
        ;
    }
}

/// A prime divides every inner coefficient of its own row.
pub proof fn lemma_prime_divides_binom(p: nat, k: nat)
    requires
        is_prime_spec(p),
        0 < k < p,
    ensures
        divides(p, binom(p, k)),
{
    lemma_binom_absorb(p, k);
    assert(divides(p, (k * binom(p, k)) as nat)) by {
        assert(k * binom(p, k) == binom((p - 1) as nat, (k - 1) as nat) * p) by {
            vstd::arithmetic::mul::lemma_mul_is_commutative(
                p as int,
                binom((p - 1) as nat, (k - 1) as nat) as int,
            );
        }
        vstd::arithmetic::div_mod::lemma_mod_multiples_basic(
            binom((p - 1) as nat, (k - 1) as nat) as int,
            p as int,
        );
    }
    lemma_euclid(p, k, binom(p, k));
    if divides(p, k) {
        lemma_divides_le(p, k);
        assert(false);
    }
}

/// Partial binomial row sum over the integers:
/// the sum over `j` from 0 to `k` of `C(n, j) * a^j`.
pub open spec fn bsum(a: nat, n: nat, k: int) -> int
    decreases k + 1,
{
    if k < 0 {
        0
    } else {
        bsum(a, n, k - 1) + (binom(n, k as nat) as int) * pow(a as int, k as nat)
    }
}

/// Pascal's rule lifted to row sums: a row sum splits into the previous
/// row's sum and `a` times its shift.
pub proof fn lemma_bsum_pascal(a: nat, n: nat, k: int)
    requires
        n >= 1,
        0 <= k,
    ensures
        bsum(a, n, k) == bsum(a, (n - 1) as nat, k) + (a as int) * bsum(a, (n - 1) as nat, k - 1),
    decreases k,
{
    let n1 = (n - 1) as nat;
    let ai = a as int;
    if k == 0 {
        assert(pow(ai, 0) == 1) by {
            vstd::arithmetic::power::lemma_pow0(ai);
        }
        assert(bsum(a, n, 0) == 1) by {
            reveal_with_fuel(bsum, 2);
            vstd::arithmetic::mul::lemma_mul_basics(1int);
        }
        assert(bsum(a, n1, 0) == 1) by {
            reveal_with_fuel(bsum, 2);
            vstd::arithmetic::mul::lemma_mul_basics(1int);
        }
        assert(ai * bsum(a, n1, -1) == 0) by {
            vstd::arithmetic::mul::lemma_mul_by_zero_is_zero(ai);
        }
    } else {
        lemma_bsum_pascal(a, n, k - 1);
        let kk = k as nat;
        let k1 = (k - 1) as nat;
        assert(binom(n, kk) == binom(n1, k1) + binom(n1, kk));
        assert(pow(ai, kk) == ai * pow(ai, k1)) by {
            vstd::arithmetic::power::lemma_pow_adds(ai, 1, k1);
            vstd::arithmetic::power::lemma_pow1(ai);
        }
        // Expand the top term through Pascal's rule.
        assert((binom(n, kk) as int) * pow(ai, kk) == (binom(n1, kk) as int) * pow(ai, kk) + (
        binom(n1, k1) as int) * pow(ai, kk)) by (nonlinear_arith)
            requires
                binom(n, kk) == binom(n1, k1) + binom(n1, kk),
        ;
        // The shifted term folds into `a` times the previous-row sum.
        assert((binom(n1, k1) as int) * pow(ai, kk) == ai * ((binom(n1, k1) as int) * pow(
            ai,
            k1,
        ))) by (nonlinear_arith)
            requires
                pow(ai, kk) == ai * pow(ai, k1),
        ;
        assert(ai * bsum(a, n1, k - 1) == ai * bsum(a, n1, k - 2) + ai * ((binom(n1, k1) as int)
            * pow(ai, k1))) by (nonlinear_arith)
            requires
                bsum(a, n1, k - 1) == bsum(a, n1, k - 2) + (binom(n1, k1) as int) * pow(ai, k1),
        ;
    }
}

/// The binomial theorem for `(a + 1)^n`, as a row sum.
pub proof fn lemma_binomial(a: nat, n: nat)
    ensures
        pow((a + 1) as int, n) == bsum(a, n, n as int),
    decreases n,
{
    let ai = a as int;
    if n == 0 {
        assert(pow((a + 1) as int, 0) == 1) by {
            vstd::arithmetic::power::lemma_pow0((a + 1) as int);
        }
        assert(pow(ai, 0) == 1) by {
            vstd::arithmetic::power::lemma_pow0(ai);
        }
        assert(bsum(a, 0, 0) == 1) by {
            reveal_with_fuel(bsum, 2);
            vstd::arithmetic::mul::lemma_mul_basics(1int);
        }
    } else {
        let n1 = (n - 1) as nat;
        lemma_binomial(a, n1);
        assert(pow((a + 1) as int, n) == ((a + 1) as int) * pow((a + 1) as int, n1)) by {
            vstd::arithmetic::power::lemma_pow_adds((a + 1) as int, 1, n1);
            vstd::arithmetic::power::lemma_pow1((a + 1) as int);
        }
        let a1: int = ai + 1;
        assert((a + 1) as int == a1);
        let s1 = bsum(a, n1, n1 as int);
        assert(a1 * s1 == s1 + ai * s1) by (nonlinear_arith)
            requires
                a1 == ai + 1,
        ;
        lemma_bsum_pascal(a, n, n as int);
        // The previous row's sum does not change past its diagonal.
        assert(bsum(a, n1, n as int) == bsum(a, n1, n1 as int)) by {
            lemma_binom_big(n1, n);
            assert((0int) * pow(ai, n) == 0) by {
                vstd::arithmetic::mul::lemma_mul_by_zero_is_zero(pow(ai, n));
            }
        }
    }
}

/// Modulo a prime, every proper partial sum of the prime's own row
/// collapses to 1: all inner coefficients vanish.
pub proof fn lemma_bsum_mod(a: nat, p: nat, k: int)
    requires
        is_prime_spec(p),
        0 <= k < p,
    ensures
        bsum(a, p, k) % (p as int) == 1int % (p as int),
    decreases k,
{
    let pi = p as int;
    let ai = a as int;
    if k == 0 {
        assert(pow(ai, 0) == 1) by {
            vstd::arithmetic::power::lemma_pow0(ai);
        }
        assert(bsum(a, p, 0) == 1) by {
            reveal_with_fuel(bsum, 2);
            vstd::arithmetic::mul::lemma_mul_basics(1int);
        }
    } else {
        lemma_bsum_mod(a, p, k - 1);
        let kk = k as nat;
        lemma_prime_divides_binom(p, kk);
        let c = binom(p, kk);
        let q = c / p;
        lemma_fundamental_div_mod(c as int, pi);
        assert(c as int == pi * (q as int));
        let term = (c as int) * pow(ai, kk);
        assert(term == pi * ((q as int) * pow(ai, kk))) by (nonlinear_arith)
            requires
                c as int == pi * (q as int),
                term == (c as int) * pow(ai, kk),
        ;
        assert((pi * ((q as int) * pow(ai, kk)) + bsum(a, p, k - 1)) % pi == bsum(a, p, k - 1)
            % pi) by {
            vstd::arithmetic::div_mod::lemma_mod_multiples_vanish(
                (q as int) * pow(ai, kk),
                bsum(a, p, k - 1),
                pi,
            );
        }
    }
}

/// Every integer is its own `p`-th power modulo a prime `p`.
pub proof fn lemma_fermat_pow(a: nat, p: nat)
    requires
        is_prime_spec(p),
    ensures
        pow(a as int, p) % (p as int) == (a as int) % (p as int),
    decreases a,
{
    let pi = p as int;
    if a == 0 {
        assert(pow(0int, p) == 0) by {
            vstd::arithmetic::power::lemma0_pow(p);
        }
    } else {
        let b = (a - 1) as nat;
        lemma_fermat_pow(b, p);
        lemma_binomial(b, p);
        assert(bsum(b, p, p as int) == bsum(b, p, (p as int) - 1) + pow(b as int, p)) by {
            lemma_binom_diag(p);
            vstd::arithmetic::mul::lemma_mul_basics(pow(b as int, p));
        }
        lemma_bsum_mod(b, p, (p as int) - 1);
        assert((bsum(b, p, (p as int) - 1) + pow(b as int, p)) % pi == (1int + (b as int))
            % pi) by {
            vstd::arithmetic::div_mod::lemma_add_mod_noop(
                bsum(b, p, (p as int) - 1),
                pow(b as int, p),
                pi,
            );
            vstd::arithmetic::div_mod::lemma_add_mod_noop(1int, b as int, pi);
        }
    }
}

/// Fermat's little theorem: modulo a prime, every nonzero residue
/// raised to `p - 1` is 1.
pub proof fn lemma_fermat_little(a: nat, p: nat)
    requires
        is_prime_spec(p),
        0 < a < p,
    ensures
        pow_mod(a, (p - 1) as nat, p) == 1,
{
    let pi = p as int;
    let ai = a as int;
    let p1 = (p - 1) as nat;
    lemma_fermat_pow(a, p);
    assert(pow(ai, p) == ai * pow(ai, p1)) by {
        vstd::arithmetic::power::lemma_pow_adds(ai, 1, p1);
        vstd::arithmetic::power::lemma_pow1(ai);
    }
    let w = pow(ai, p1);
    assert(w >= 1) by {
        vstd::arithmetic::power::lemma_pow_positive(ai, p1);
    }
    assert((ai * w - ai) % pi == 0) by {
        vstd::arithmetic::div_mod::lemma_mod_equivalence(ai * w, ai, pi);
    }
    assert(ai * w - ai == ai * (w - 1)) by (nonlinear_arith);
    assert(divides(p, (a * ((w - 1) as nat)) as nat)) by {
        assert((a * ((w - 1) as nat)) as int == ai * (w - 1)) by (nonlinear_arith)
            requires
                w >= 1,
                ai == a as int,
        ;
    }
    lemma_euclid(p, a, (w - 1) as nat);
    if divides(p, a) {
        lemma_divides_le(p, a);
        assert(false);
    }
    assert((w - 1) % pi == 0);
    assert(w % pi == 1int % pi) by {
        vstd::arithmetic::div_mod::lemma_mod_equivalence(w, 1int, pi);
    }
    lemma_small_mod(1, p);
}

/// A divisor of a positive number is no larger than it.
pub proof fn lemma_divides_le(d: nat, n: nat)
    requires
        divides(d, n),
        n > 0,
    ensures
        d <= n,
{
    if d > n {
        lemma_small_mod(n, d);
    }
}

/// The greatest common divisor divides both of its arguments, and is
/// positive as soon as one of them is.
pub proof fn lemma_gcd_divides(a: nat, b: nat)
    ensures
        a > 0 || b > 0 ==> gcd_nat(a, b) > 0,
        a > 0 ==> divides(gcd_nat(a, b), a),
        b > 0 ==> divides(gcd_nat(a, b), b),
    decreases b,
{
    if b == 0 {
        if a > 0 {
            lemma_mod_self_0(a as int);
        }
    } else {
        lemma_gcd_divides(b, a % b);
        let g = gcd_nat(b, a % b);
        lemma_mod_bound(a as int, b as int);
        assert(g > 0);
        assert(divides(g, b));
        if a > 0 {
            lemma_fundamental_div_mod(a as int, b as int);
            assert(a == b * (a / b) + a % b);
            lemma_divides_mul(g, a / b, b);
            assert((a / b) * b == b * (a / b)) by {
                vstd::arithmetic::mul::lemma_mul_is_commutative((a / b) as int, b as int);
            }
            if a % b == 0 {
                lemma_divides_add(g, b * (a / b), 0);
                assert(a == b * (a / b) + 0);
            } else {
                lemma_divides_add(g, b * (a / b), a % b);
            }
        }
    }
}

/// For a prime `p`, every positive number below it is coprime to it.
pub proof fn lemma_prime_coprime_below(a: nat, p: nat)
    requires
        is_prime_spec(p),
        0 < a < p,
    ensures
        coprime(a, p),
{
    let g = gcd_nat(a, p);
    lemma_gcd_divides(a, p);
    lemma_divides_le(g, a);
    if g >= 2 {
        assert(divides(g, p));
        assert(2 <= g < p);
        assert(p % g != 0);
        assert(false);
    }
}

/// Divisibility is transitive.
pub proof fn lemma_divides_trans(a: nat, b: nat, c: nat)
    requires
        divides(a, b),
        divides(b, c),
    ensures
        divides(a, c),
{
    lemma_fundamental_div_mod(b as int, a as int);
    lemma_fundamental_div_mod(c as int, b as int);
    assert(b == a * (b / a));
    assert(c == b * (c / b));
    assert(c == a * ((b / a) * (c / b))) by {
        vstd::arithmetic::mul::lemma_mul_is_associative(
            a as int,
            (b / a) as int,
            (c / b) as int,
        );
    }
    lemma_divides_mul(a, (b / a) * (c / b), a);
    assert(divides(a, ((b / a) * (c / b)) * a)) by {
        lemma_mod_self_0(a as int);
        lemma_divides_mul(a, (b / a) * (c / b), a);
    }
    assert(((b / a) * (c / b)) * a == a * ((b / a) * (c / b))) by {
        vstd::arithmetic::mul::lemma_mul_is_commutative(
            (((b / a) * (c / b)) as int),
            a as int,
        );
    }
}

/// Squaring a reduced power keeps it a reduced power: doubling the
/// exponent squares the residue.
pub proof fn lemma_pow_mod_square(a: nat, e: nat, m: nat)
    requires
        m > 0,
    ensures
        (pow_mod(a, e, m) * pow_mod(a, e, m)) % m == pow_mod(a, (2 * e) as nat, m),
{
    let p = pow(a as int, e);
    assert(pow(a as int, (2 * e) as nat) == p * p) by {
        vstd::arithmetic::power::lemma_pow_adds(a as int, e, e);
    }
    assert(((p % (m as int)) * (p % (m as int))) % (m as int) == (p * p) % (m as int)) by {
        vstd::arithmetic::div_mod::lemma_mul_mod_noop_general(p, p, m as int);
    }
    assert(p % (m as int) >= 0) by {
        lemma_mod_bound(p, m as int);
    }
}

/// If `pow2(r) <= m`, the bit length of `m` exceeds `r`.
pub proof fn lemma_pow2_le_bitlen(r: nat, m: nat)
    requires
        pow2(r) <= m,
    ensures
        r < bitlen(m),
{
    lemma_pow2_pos(r);
    lemma_bitlen_bounds(m);
    if r >= bitlen(m) {
        if r > bitlen(m) {
            vstd::arithmetic::power2::lemma_pow2_strictly_increases(bitlen(m), r);
        }
        assert(pow2(r) >= pow2(bitlen(m)));
        assert(false);
    }
}

/// The bit length localises a positive number between two powers of two.
pub proof fn lemma_bitlen_bounds(n: nat)
    requires
        n > 0,
    ensures
        bitlen(n) > 0,
        pow2((bitlen(n) - 1) as nat) <= n < pow2(bitlen(n)),
    decreases n,
{
    if n / 2 == 0 {
        assert(n == 1);
        assert(bitlen(1) == 1 + bitlen(0));
        vstd::arithmetic::power2::lemma_pow2(0);
        vstd::arithmetic::power2::lemma_pow2(1);
        assert(pow(2, 0) == 1) by {
            vstd::arithmetic::power::lemma_pow0(2);
        }
        assert(pow(2, 1) == 2) by {
            vstd::arithmetic::power::lemma_pow1(2);
        }
    } else {
        lemma_bitlen_bounds(n / 2);
        let k = bitlen(n / 2);
        assert(bitlen(n) == 1 + k);
        lemma_pow2_unfold((k + 1) as nat);
        assert(pow2((k + 1) as nat) == 2 * pow2(k));
        if k >= 1 {
            lemma_pow2_unfold(k);
        }
        lemma_fundamental_div_mod(n as int, 2);
        lemma_mod_bound(n as int, 2);
        assert(n == 2 * (n / 2) + n % 2);
        assert(n < 2 * pow2(k));
        lemma_pow2_pos((k - 1) as nat);
    }
}

/// A number below `pow2(k)` needs at most `k` bits.
pub proof fn lemma_bitlen_lt_pow2(m: nat, k: nat)
    requires
        m < pow2(k),
    ensures
        bitlen(m) <= k,
{
    if bitlen(m) > k {
        assert(m > 0) by {
            if m == 0 {
                assert(bitlen(0) == 0);
            }
        }
        lemma_bitlen_bounds(m);
        if k < (bitlen(m) - 1) as nat {
            vstd::arithmetic::power2::lemma_pow2_strictly_increases(k, (bitlen(m) - 1) as nat);
        }
        assert(pow2(k) <= pow2((bitlen(m) - 1) as nat) <= m);
    }
}

/// A product needs no more bits than its factors together.
pub proof fn lemma_bitlen_mul(x: nat, y: nat)
    ensures
        bitlen(x * y) <= bitlen(x) + bitlen(y),
{
    if x == 0 || y == 0 {
        assert(x * y == 0) by {
            vstd::arithmetic::mul::lemma_mul_by_zero_is_zero(x as int);
            vstd::arithmetic::mul::lemma_mul_by_zero_is_zero(y as int);
        }
        assert(bitlen(0) == 0);
    } else {
        let bx = bitlen(x);
        let by = bitlen(y);
        lemma_bitlen_bounds(x);
        lemma_bitlen_bounds(y);
        vstd::arithmetic::power2::lemma_pow2_adds(bx, by);
        assert(x * y < pow2(bx) * pow2(by)) by (nonlinear_arith)
            requires
                0 < x < pow2(bx),
                0 < y < pow2(by),
        ;
        lemma_bitlen_lt_pow2(x * y, (bx + by) as nat);
    }
}

/// Bit length never decreases as the number grows.
pub proof fn lemma_bitlen_monotone(a: nat, b: nat)
    requires
        a <= b,
    ensures
        bitlen(a) <= bitlen(b),
{
    if a > 0 && bitlen(a) > bitlen(b) {
        lemma_bitlen_bounds(a);
        lemma_bitlen_bounds(b);
        assert(bitlen(b) <= (bitlen(a) - 1) as nat);
        if bitlen(b) < (bitlen(a) - 1) as nat {
            vstd::arithmetic::power2::lemma_pow2_strictly_increases(
                bitlen(b),
                (bitlen(a) - 1) as nat,
            );
        }
        assert(b < pow2(bitlen(b)) <= pow2((bitlen(a) - 1) as nat) <= a);
    }
}

/// Converse direction: a number between `pow2(k)` and `pow2(k + 1)` has
/// bit length `k + 1`.
pub proof fn lemma_bitlen_of_range(n: nat, k: nat)
    requires
        pow2(k) <= n < pow2((k + 1) as nat),
    ensures
        bitlen(n) == k + 1,
    decreases k,
{
    lemma_pow2_pos(k);
    lemma_pow2_unfold((k + 1) as nat);
    if k == 0 {
        assert(pow2(0) == 1) by {
            vstd::arithmetic::power2::lemma_pow2(0);
            vstd::arithmetic::power::lemma_pow0(2);
        }
        assert(n == 1);
        assert(bitlen(0) == 0);
        assert(bitlen(1) == 1);
    } else {
        lemma_pow2_unfold(k);
        lemma_fundamental_div_mod(n as int, 2);
        lemma_mod_bound(n as int, 2);
        assert(pow2((k - 1) as nat) <= n / 2 < pow2(k));
        lemma_bitlen_of_range(n / 2, (k - 1) as nat);
        assert(n > 0);
        assert(bitlen(n) == 1 + bitlen(n / 2));
    }
}

} // verus!
