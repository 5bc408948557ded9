//! Miller-Rabin primality testing, trial division and strong-prime
//! generation over arbitrary-precision integers.
//!
//! Primality of a candidate that passes the probabilistic rounds is not
//! a provable fact; the contracts instead state exactly what each
//! routine established: which divisors were excluded deterministically,
//! and which Miller-Rabin certificate was found when a number is
//! rejected. Rejection itself is proved sound — a rejected number is
//! never prime, by Fermat's little theorem — so the test errs, when it
//! errs, only by accepting a composite.

use vstd::prelude::*;
use vstd::arithmetic::power2::pow2;
use num_bigint::BigUint;
use crate::arith::{
    is_prime_spec, divides, pow_mod, bitlen, lemma_divides_trans, lemma_pow_mod_square,
    lemma_pow2_le_bitlen, lemma_bitlen_bounds, lemma_bitlen_of_range,
};
use crate::bigint::{
    big_from_u64, big_clone, big_eq, big_lt, big_add, big_sub, big_mul, big_div, big_mod,
    big_modpow, big_from_bytes_be, big_bits, big_pow2, rand_fill,
};

verus! {

/// Number of Miller-Rabin rounds used throughout.
pub const NUM_TESTS: usize = 24;

/// Retries allowed to the rejection-sampling loops before the randomness
/// source is declared unusable.
pub const RAND_RETRIES: u64 = 4096;

/// Increments tried by the prime search before giving up.
pub const SEARCH_STEPS: u64 = 1048576;

/// Largest bit length the generators accept; keeps byte counts inside
/// `usize` on every target.
pub const MAX_BITS: usize = 65536;

/// No number from 2 to 997 below `n` divides `n`.
pub open spec fn no_small_divisor(n: nat) -> bool {
    forall|d: nat| 2 <= d <= 997 && d < n ==> #[trigger] (n % d) != 0
}

/// What passing the deterministic part of the test establishes: `n` is at
/// least 2, has no divisor up to 997, and — being then exhaustive — is
/// genuinely prime whenever it is at most 997.
pub open spec fn passed_trial(n: nat) -> bool {
    &&& n >= 2
    &&& no_small_divisor(n)
    &&& (n <= 997 ==> is_prime_spec(n))
}

/// A Miller-Rabin certificate of compositeness for odd `n` with
/// `n - 1 == d * pow2(r)`, `d` odd: the witness power is neither 1 nor
/// `n - 1`, and no squaring below `r` reaches `n - 1`.
pub open spec fn mr_rejects(n: nat, d: nat, r: nat, a: nat) -> bool {
    &&& pow_mod(a, d, n) != 1
    &&& forall|i: nat| i < r ==> #[trigger] pow_mod(a, (d * pow2(i)) as nat, n) != (n - 1) as nat
}

/// Everything a `false` answer of the primality test rests on: the number
/// is below 2, or a divisor was found, or a Miller-Rabin witness rejected
/// it.
pub open spec fn composite_evidence(n: nat) -> bool {
    ||| n < 2
    ||| exists|d: nat| 2 <= d < n && #[trigger] (n % d) == 0
    ||| exists|d: nat, r: nat, a: nat|
        (n - 1) as nat == d * pow2(r) && d % 2 == 1 && 2 < a < (n - 2) as nat && mr_rejects(
            n,
            d,
            r,
            a,
        )
}

/// The squaring chain of a Miller-Rabin witness over a prime: if the
/// power at stage `j` is 1 and no earlier stage reached `n - 1`, then
/// the power at stage 0 is already 1. Rests on Euclid's lemma: over a
/// prime modulus the only square roots of 1 are 1 and `n - 1`.
proof fn lemma_mr_chain(n: nat, d: nat, a: nat, j: nat)
    requires
        is_prime_spec(n),
        n > 2,
        0 < a < n,
        pow_mod(a, (d * pow2(j)) as nat, n) == 1,
        forall|i: nat| i < j ==> #[trigger] pow_mod(a, (d * pow2(i)) as nat, n) != (n - 1) as nat,
    ensures
        pow_mod(a, d, n) == 1,
    decreases j,
{
    vstd::arithmetic::power2::lemma_pow2(0);
    vstd::arithmetic::power::lemma_pow0(2);
    if j == 0 {
        assert(d * pow2(0) == d) by {
            vstd::arithmetic::mul::lemma_mul_basics_2(d as int);
        }
    } else {
        let e = (d * pow2((j - 1) as nat)) as nat;
        let x = pow_mod(a, e, n);
        lemma_pow_mod_square(a, e, n);
        assert(2 * e == d * pow2(j as nat)) by {
            vstd::arithmetic::power2::lemma_pow2_unfold(j as nat);
            assert(pow2(j as nat) == 2 * pow2((j - 1) as nat));
            vstd::arithmetic::mul::lemma_mul_is_associative(
                d as int,
                2,
                pow2((j - 1) as nat) as int,
            );
            vstd::arithmetic::mul::lemma_mul_is_commutative(d as int, 2);
            vstd::arithmetic::mul::lemma_mul_is_associative(
                2,
                d as int,
                pow2((j - 1) as nat) as int,
            );
        }
        assert((x * x) % n == 1);
        assert(x < n) by {
            vstd::arithmetic::div_mod::lemma_mod_bound(
                vstd::arithmetic::power::pow(a as int, e),
                n as int,
            );
        }
        assert(x >= 1) by {
            if x == 0 {
                assert(x * x == 0) by {
                    vstd::arithmetic::mul::lemma_mul_by_zero_is_zero(x as int);
                }
                vstd::arithmetic::div_mod::lemma_small_mod(0, n);
            }
        }
        let q = (x * x) / n;
        assert(divides(n, ((x - 1) * (x + 1)) as nat)) by {
            assert(((x - 1) * (x + 1)) as int == (x * x) as int - 1) by (nonlinear_arith)
                requires
                    x >= 1,
            ;
            vstd::arithmetic::div_mod::lemma_fundamental_div_mod((x * x) as int, n as int);
            assert((x * x) as int == (n as int) * (q as int) + 1);
            assert(((x - 1) * (x + 1)) as int == (q as int) * (n as int)) by {
                vstd::arithmetic::mul::lemma_mul_is_commutative(n as int, q as int);
            }
            vstd::arithmetic::div_mod::lemma_mod_multiples_basic(q as int, n as int);
        }
        crate::arith::lemma_euclid(n, (x - 1) as nat, (x + 1) as nat);
        if divides(n, (x - 1) as nat) {
            assert(x == 1) by {
                if x > 1 {
                    crate::arith::lemma_divides_le(n, (x - 1) as nat);
                }
            }
            lemma_mr_chain(n, d, a, (j - 1) as nat);
        } else {
            crate::arith::lemma_divides_le(n, (x + 1) as nat);
            assert(x + 1 == n);
            assert(pow_mod(a, (d * pow2((j - 1) as nat)) as nat, n) == (n - 1) as nat);
            assert(false);
        }
    }
}

/// Rejection evidence is sound: a number carrying evidence of
/// compositeness is genuinely not prime. The witness case rests on
/// Fermat's little theorem and the squaring chain.
pub proof fn lemma_composite_evidence_sound(n: nat)
    requires
        composite_evidence(n),
    ensures
        !is_prime_spec(n),
{
    if n < 2 {
    } else if exists|d: nat| 2 <= d < n && #[trigger] (n % d) == 0 {
        let d = choose|d: nat| 2 <= d < n && #[trigger] (n % d) == 0;
        assert(!is_prime_spec(n));
    } else {
        let (d, r, a) = choose|d: nat, r: nat, a: nat|
            (n - 1) as nat == d * pow2(r) && d % 2 == 1 && 2 < a < (n - 2) as nat
                && mr_rejects(n, d, r, a);
        if is_prime_spec(n) {
            crate::arith::lemma_fermat_little(a, n);
            lemma_mr_complete(n, d, r, a);
        }
    }
}

/// Completeness of the Miller-Rabin certificate: no witness rejects a
/// prime whose units satisfy the Fermat property.
proof fn lemma_mr_complete(n: nat, d: nat, r: nat, a: nat)
    requires
        is_prime_spec(n),
        n > 2,
        (n - 1) as nat == d * pow2(r),
        0 < a < n,
        pow_mod(a, (n - 1) as nat, n) == 1,
    ensures
        !mr_rejects(n, d, r, a),
{
    if mr_rejects(n, d, r, a) {
        assert(pow_mod(a, (d * pow2(r)) as nat, n) == 1);
        lemma_mr_chain(n, d, a, r);
        assert(false);
    }
}

/// Draws a uniformly random number whose bit length is exactly `len`: the
/// top bit is forced, the rest come from the randomness source. `None`
/// means the randomness source failed.
pub fn generate_urandom(len: usize) -> (r: Option<BigUint>)
    requires
        1 <= len <= MAX_BITS,
    ensures
        r is Some ==> bitlen(crate::bigint::big_nat(r->0)) == len as nat,
{
    let nbytes: usize = (len + 7) / 8;
    let mut buf: Vec<u8> = Vec::new();
    let mut i: usize = 0;
    while i < nbytes
        invariant
            buf@.len() == i as nat,
            i <= nbytes,
        decreases nbytes - i,
    {
        buf.push(0u8);
        i = i + 1;
    }
    match rand_fill(&mut buf) {
        Ok(()) => {
            let v = big_from_bytes_be(&buf);
            let half = big_pow2(len - 1);
            proof {
                vstd::arithmetic::power2::lemma_pow2_pos((len - 1) as nat);
            }
            let low = big_mod(&v, &half);
            let r = big_add(&low, &half);
            proof {
                let rv = crate::bigint::big_nat(r);
                let k = (len - 1) as nat;
                vstd::arithmetic::power2::lemma_pow2_pos(k);
                vstd::arithmetic::power2::lemma_pow2_unfold((k + 1) as nat);
                assert(pow2(k) <= rv < pow2((k + 1) as nat));
                lemma_bitlen_of_range(rv, k);
            }
            Some(r)
        },
        Err(_) => None,
    }
}

/// Samples a value strictly between `lower` and `upper` by rejection.
/// `None` means the randomness source failed or every retry was rejected.
pub fn generate_urandom_inrange(lower: &BigUint, upper: &BigUint) -> (r: Option<BigUint>)
    requires
        crate::bigint::big_nat(*lower) + 1 < crate::bigint::big_nat(*upper),
        bitlen(crate::bigint::big_nat(*upper)) <= MAX_BITS as nat,
    ensures
        r is Some ==> crate::bigint::big_nat(*lower) < crate::bigint::big_nat(r->0)
            < crate::bigint::big_nat(*upper),
{
    let nbits64 = big_bits(upper);
    let nbits: usize = nbits64 as usize;
    proof {
        lemma_bitlen_bounds(crate::bigint::big_nat(*upper));
    }
    let mut tries: u64 = 0;
    while tries < RAND_RETRIES
        invariant
            1 <= nbits <= MAX_BITS,
            crate::bigint::big_nat(*lower) + 1 < crate::bigint::big_nat(*upper),
        decreases RAND_RETRIES - tries,
    {
        match generate_urandom(nbits) {
            Some(u) => {
                let v = big_mod(&u, upper);
                if big_lt(lower, &v) {
                    return Some(v);
                }
            },
            None => {
                return None;
            },
        }
        tries = tries + 1;
    }
    None
}

/// Splits `n - 1` as `d * 2^r` with `d` odd.
fn decompose(n: &BigUint) -> (res: (BigUint, u64))
    requires
        crate::bigint::big_nat(*n) >= 2,
    ensures
        crate::bigint::big_nat(res.0) * pow2(res.1 as nat) == crate::bigint::big_nat(*n) - 1,
        crate::bigint::big_nat(res.0) % 2 == 1,
{
    let one = big_from_u64(1);
    let two = big_from_u64(2);
    let mut d = big_sub(n, &one);
    let mut r: u64 = 0;
    let nb = big_bits(&d);
    proof {
        vstd::arithmetic::power2::lemma_pow2(0);
        vstd::arithmetic::power::lemma_pow0(2);
    }
    let ghost n1 = (crate::bigint::big_nat(*n) - 1) as nat;
    let zero = big_from_u64(0);
    let m0 = big_mod(&d, &two);
    let mut is_even = big_eq(&m0, &zero);
    while is_even
        invariant
            crate::bigint::big_nat(two) == 2,
            crate::bigint::big_nat(zero) == 0,
            is_even == (crate::bigint::big_nat(d) % 2 == 0),
            crate::bigint::big_nat(d) * pow2(r as nat) == n1,
            n1 >= 1,
            nb as nat == bitlen(n1),
            pow2(r as nat) <= n1,
        decreases crate::bigint::big_nat(d),
    {
        proof {
            let dv = crate::bigint::big_nat(d);
            assert(dv % 2 == 0);
            assert(dv > 0) by {
                if dv == 0 {
                    vstd::arithmetic::mul::lemma_mul_by_zero_is_zero(pow2(r as nat) as int);
                    assert(dv * pow2(r as nat) == 0);
                }
            }
            vstd::arithmetic::div_mod::lemma_fundamental_div_mod(dv as int, 2);
            assert(dv == 2 * (dv / 2));
            vstd::arithmetic::power2::lemma_pow2_unfold((r + 1) as nat);
            assert((dv / 2) * pow2((r + 1) as nat) == dv * pow2(r as nat)) by {
                assert(pow2((r + 1) as nat) == 2 * pow2(r as nat));
                vstd::arithmetic::mul::lemma_mul_is_associative(
                    (dv / 2) as int,
                    2,
                    pow2(r as nat) as int,
                );
            }
            assert(pow2((r + 1) as nat) <= n1) by {
                assert(dv / 2 >= 1);
                vstd::arithmetic::mul::lemma_mul_ordering(
                    (dv / 2) as int,
                    pow2((r + 1) as nat) as int,
                );
            }
            lemma_pow2_le_bitlen((r + 1) as nat, n1);
        }
        d = big_div(&d, &two);
        r = r + 1;
        let m = big_mod(&d, &two);
        is_even = big_eq(&m, &zero);
    }
    proof {
        let dv = crate::bigint::big_nat(d);
        assert(dv % 2 != 0);
        vstd::arithmetic::div_mod::lemma_mod_bound(dv as int, 2);
    }
    (d, r)
}

/// One Miller-Rabin round: reports whether witness `a` certifies that `n`
/// is composite, exactly as [`mr_rejects`] states it.
fn trial_composite(n: &BigUint, d: &BigUint, r: u64, a: &BigUint) -> (res: bool)
    requires
        crate::bigint::big_nat(*n) >= 3,
        r >= 1,
        crate::bigint::big_nat(*d) * pow2(r as nat) == crate::bigint::big_nat(*n) - 1,
    ensures
        res == mr_rejects(
            crate::bigint::big_nat(*n),
            crate::bigint::big_nat(*d),
            r as nat,
            crate::bigint::big_nat(*a),
        ),
{
    let ghost nv = crate::bigint::big_nat(*n);
    let ghost dv = crate::bigint::big_nat(*d);
    let ghost av = crate::bigint::big_nat(*a);
    let one = big_from_u64(1);
    let n1 = big_sub(n, &one);
    let mut x = big_modpow(a, d, n);
    proof {
        vstd::arithmetic::power2::lemma_pow2(0);
        vstd::arithmetic::power::lemma_pow0(2);
        assert(dv * pow2(0) == dv) by {
            vstd::arithmetic::mul::lemma_mul_basics_2(dv as int);
        }
    }
    if big_eq(&x, &one) {
        return false;
    }
    if big_eq(&x, &n1) {
        proof {
            assert(pow_mod(av, (dv * pow2(0)) as nat, nv) == (nv - 1) as nat);
        }
        return false;
    }
    let mut i: u64 = 1;
    while i < r
        invariant
            1 <= i <= r,
            crate::bigint::big_nat(*n) == nv,
            crate::bigint::big_nat(*d) == dv,
            crate::bigint::big_nat(*a) == av,
            crate::bigint::big_nat(n1) == nv - 1,
            nv >= 3,
            dv * pow2(r as nat) == nv - 1,
            crate::bigint::big_nat(x) == pow_mod(av, (dv * pow2((i - 1) as nat)) as nat, nv),
            pow_mod(av, dv, nv) != 1,
            forall|j: nat| j < i ==> #[trigger] pow_mod(av, (dv * pow2(j)) as nat, nv) != (nv
                - 1) as nat,
        decreases r - i,
    {
        let sq = big_mul(&x, &x);
        let xn = big_mod(&sq, n);
        proof {
            let e = (dv * pow2((i - 1) as nat)) as nat;
            lemma_pow_mod_square(av, e, nv);
            assert(2 * e == dv * pow2(i as nat)) by {
                vstd::arithmetic::power2::lemma_pow2_unfold(i as nat);
                assert(pow2(i as nat) == 2 * pow2((i - 1) as nat));
                vstd::arithmetic::mul::lemma_mul_is_associative(
                    dv as int,
                    2,
                    pow2((i - 1) as nat) as int,
                );
                vstd::arithmetic::mul::lemma_mul_is_commutative(dv as int, 2);
                vstd::arithmetic::mul::lemma_mul_is_associative(
                    2,
                    dv as int,
                    pow2((i - 1) as nat) as int,
                );
            }
        }
        x = xn;
        if big_eq(&x, &n1) {
            proof {
                assert(i < r);
                assert(pow_mod(av, (dv * pow2(i as nat)) as nat, nv) == (nv - 1) as nat);
            }
            return false;
        }
        i = i + 1;
    }
    true
}

/// Primality test: trial division by every odd number up to 997, then
/// `ntests` Miller-Rabin rounds with uniformly drawn witnesses.
///
/// A `true` answer is deterministically exhaustive up to 997 and
/// otherwise says exactly that no small divisor exists; a `false` answer
/// always carries evidence of compositeness. `None` means the randomness
/// source failed.
pub fn isprime(n: &BigUint, ntests: usize) -> (res: Option<bool>)
    requires
        bitlen(crate::bigint::big_nat(*n)) <= MAX_BITS as nat,
    ensures
        res == Some(true) ==> passed_trial(crate::bigint::big_nat(*n)),
        res == Some(false) ==> composite_evidence(crate::bigint::big_nat(*n)),
        res is Some && crate::bigint::big_nat(*n) <= 997 ==> res->0 == is_prime_spec(
            crate::bigint::big_nat(*n),
        ),
        crate::bigint::big_nat(*n) < 2 || crate::bigint::big_nat(*n) % 2 == 0
            || crate::bigint::big_nat(*n) <= 997 || !no_small_divisor(
            crate::bigint::big_nat(*n),
        ) ==> res is Some,
        is_prime_spec(crate::bigint::big_nat(*n)) ==> res != Some(false),
        res == Some(false) ==> !is_prime_spec(crate::bigint::big_nat(*n)),
{
    let ghost nv = crate::bigint::big_nat(*n);
    let zero = big_from_u64(0);
    let one = big_from_u64(1);
    let two = big_from_u64(2);
    if big_lt(n, &two) {
        proof {
            assert(!is_prime_spec(nv));
        }
        return Some(false);
    }
    let m2 = big_mod(n, &two);
    if big_eq(&m2, &zero) {
        let is_two = big_eq(n, &two);
        proof {
            if nv == 2 {
                assert(is_prime_spec(2nat));
            } else {
                assert(2 <= 2 < nv && nv % 2 == 0);
                assert(!is_prime_spec(nv));
            }
        }
        return Some(is_two);
    }
    let mut dd: u64 = 3;
    while dd <= 997
        invariant
            crate::bigint::big_nat(*n) == nv,
            crate::bigint::big_nat(zero) == 0,
            nv >= 3,
            nv % 2 == 1,
            3 <= dd <= 999,
            dd % 2 == 1,
            forall|j: nat| 3 <= j < dd && j % 2 == 1 ==> #[trigger] (nv % j) != 0,
        decreases 999 - dd,
    {
        let db = big_from_u64(dd);
        let md = big_mod(n, &db);
        if big_eq(&md, &zero) {
            let same = big_eq(n, &db);
            proof {
                if nv == dd as nat {
                    assert forall|j: nat| 2 <= j < nv implies #[trigger] (nv % j) != 0 by {
                        if nv % j == 0 {
                            if j % 2 == 0 {
                                assert(divides(2, j));
                                lemma_divides_trans(2, j, nv);
                            } else {
                                assert(3 <= j < dd && j % 2 == 1);
                            }
                        }
                    }
                    assert(is_prime_spec(nv));
                    assert(no_small_divisor(nv));
                } else {
                    assert(nv % (dd as nat) == 0);
                    assert(nv != dd as nat);
                    if nv < dd as nat {
                        vstd::arithmetic::div_mod::lemma_small_mod(nv, dd as nat);
                    }
                    assert(2 <= (dd as nat) && (dd as nat) < nv && nv % (dd as nat) == 0);
                    assert(!is_prime_spec(nv));
                }
            }
            return Some(same);
        }
        dd = dd + 2;
    }
    proof {
        assert(nv > 997) by {
            if nv <= 997 {
                vstd::arithmetic::div_mod::lemma_mod_self_0(nv as int);
                assert(3 <= nv < 999 && nv % 2 == 1);
                assert(nv % nv == 0);
            }
        }
        assert(no_small_divisor(nv)) by {
            assert forall|d: nat| 2 <= d <= 997 && d < nv implies #[trigger] (nv % d) != 0 by {
                if nv % d == 0 {
                    if d % 2 == 0 {
                        assert(divides(2, d));
                        lemma_divides_trans(2, d, nv);
                    } else {
                        assert(d == 2 || (3 <= d < 999 && d % 2 == 1));
                    }
                }
            }
        }
    }
    let (d, r) = decompose(n);
    proof {
        let dv = crate::bigint::big_nat(d);
        assert(r >= 1) by {
            if r == 0 {
                vstd::arithmetic::power2::lemma_pow2(0);
                vstd::arithmetic::power::lemma_pow0(2);
                assert(dv * pow2(0) == dv) by {
                    vstd::arithmetic::mul::lemma_mul_basics_2(dv as int);
                }
                assert(dv == nv - 1);
                assert((nv - 1) % 2 == 0) by {
                    vstd::arithmetic::div_mod::lemma_fundamental_div_mod(nv as int, 2);
                }
            }
        }
    }
    let n2 = big_sub(n, &two);
    proof {
        crate::arith::lemma_bitlen_monotone((nv - 2) as nat, nv);
    }
    let mut t: usize = 0;
    while t < ntests
        invariant
            crate::bigint::big_nat(*n) == nv,
            crate::bigint::big_nat(two) == 2,
            crate::bigint::big_nat(n2) == nv - 2,
            crate::bigint::big_nat(d) * pow2(r as nat) == nv - 1,
            crate::bigint::big_nat(d) % 2 == 1,
            r >= 1,
            nv >= 2,
            nv > 997,
            nv % 2 == 1,
            no_small_divisor(nv),
            bitlen((nv - 2) as nat) <= MAX_BITS as nat,
        decreases ntests - t,
    {
        match generate_urandom_inrange(&two, &n2) {
            Some(a) => {
                if trial_composite(n, &d, r, &a) {
                    proof {
                        let dv = crate::bigint::big_nat(d);
                        let av = crate::bigint::big_nat(a);
                        assert((nv - 1) as nat == dv * pow2(r as nat) && dv % 2 == 1 && 2 < av
                            < (nv - 2) as nat && mr_rejects(nv, dv, r as nat, av));
                        if is_prime_spec(nv) {
                            crate::arith::lemma_fermat_little(av, nv);
                            lemma_mr_complete(nv, dv, r as nat, av);
                            assert(false);
                        }
                    }
                    return Some(false);
                }
            },
            None => {
                return None;
            },
        }
        t = t + 1;
    }
    Some(true)
}

/// `n` made odd: the first candidate of the prime walk.
pub open spec fn made_odd(n: nat) -> nat {
    if n % 2 == 0 {
        (n + 1) as nat
    } else {
        n
    }
}

/// From `n` made odd, steps by 2 until the primality test accepts a
/// candidate whose size the test can handle; every odd value passed
/// over on the way carries evidence of compositeness. `None` means the
/// randomness source failed or the search budget ran out.
fn find_prime(n: &BigUint, ntests: usize) -> (res: Option<BigUint>)
    ensures
        res is Some ==> passed_trial(crate::bigint::big_nat(res->0)),
        res is Some ==> crate::bigint::big_nat(res->0) >= crate::bigint::big_nat(*n),
        res is Some ==> crate::bigint::big_nat(res->0) % 2 == 1,
        res is Some ==> forall|v: nat|
            made_odd(crate::bigint::big_nat(*n)) <= v < crate::bigint::big_nat(res->0) && v % 2
                == 1 ==> #[trigger] composite_evidence(v),
        res is Some ==> forall|v: nat|
            made_odd(crate::bigint::big_nat(*n)) <= v < crate::bigint::big_nat(res->0) && v % 2
                == 1 ==> !#[trigger] is_prime_spec(v),
{
    let zero = big_from_u64(0);
    let one = big_from_u64(1);
    let two = big_from_u64(2);
    let m2 = big_mod(n, &two);
    let mut p = if big_eq(&m2, &zero) {
        big_add(n, &one)
    } else {
        big_clone(n)
    };
    proof {
        vstd::arithmetic::div_mod::lemma_mod_bound(crate::bigint::big_nat(*n) as int, 2);
    }
    let mut steps: u64 = 0;
    while steps < SEARCH_STEPS
        invariant
            crate::bigint::big_nat(two) == 2,
            crate::bigint::big_nat(p) >= crate::bigint::big_nat(*n),
            crate::bigint::big_nat(p) >= made_odd(crate::bigint::big_nat(*n)),
            crate::bigint::big_nat(p) % 2 == 1,
            forall|v: nat|
                made_odd(crate::bigint::big_nat(*n)) <= v < crate::bigint::big_nat(p) && v % 2
                    == 1 ==> #[trigger] composite_evidence(v),
        decreases SEARCH_STEPS - steps,
    {
        let nb = big_bits(&p);
        if nb > MAX_BITS as u64 {
            return None;
        }
        match isprime(&p, ntests) {
            Some(true) => {
                proof {
                    assert forall|v: nat|
                        made_odd(crate::bigint::big_nat(*n)) <= v < crate::bigint::big_nat(p)
                            && v % 2 == 1 implies !#[trigger] is_prime_spec(v) by {
                        assert(composite_evidence(v));
                        lemma_composite_evidence_sound(v);
                    }
                }
                return Some(p);
            },
            Some(false) => {
                let pn = big_add(&p, &two);
                proof {
                    vstd::arithmetic::div_mod::lemma_add_mod_noop(
                        crate::bigint::big_nat(p) as int,
                        2,
                        2,
                    );
                    vstd::arithmetic::div_mod::lemma_mod_self_0(2);
                    let pv = crate::bigint::big_nat(p);
                    assert forall|v: nat|
                        made_odd(crate::bigint::big_nat(*n)) <= v < crate::bigint::big_nat(pn)
                            && v % 2 == 1 implies #[trigger] composite_evidence(v) by {
                        if v < pv {
                        } else if v == pv {
                            assert(composite_evidence(pv));
                        } else {
                            assert(v == pv + 1);
                            assert((pv + 1) % 2 == 0) by {
                                vstd::arithmetic::div_mod::lemma_add_mod_noop(pv as int, 1, 2);
                            }
                        }
                    }
                }
                p = pn;
            },
            None => {
                return None;
            },
        }
        steps = steps + 1;
    }
    None
}

/// The next probable prime at or above `nonp`: `nonp` made odd, then
/// stepped by 2 until the primality test accepts.
pub fn nextprime(nonp: &BigUint) -> (res: Option<BigUint>)
    ensures
        res is Some ==> passed_trial(crate::bigint::big_nat(res->0)),
        res is Some ==> crate::bigint::big_nat(res->0) >= crate::bigint::big_nat(*nonp),
        res is Some ==> crate::bigint::big_nat(res->0) % 2 == 1,
        res is Some ==> forall|v: nat|
            made_odd(crate::bigint::big_nat(*nonp)) <= v < crate::bigint::big_nat(res->0) && v
                % 2 == 1 ==> #[trigger] composite_evidence(v),
        res is Some ==> forall|v: nat|
            made_odd(crate::bigint::big_nat(*nonp)) <= v < crate::bigint::big_nat(res->0) && v
                % 2 == 1 ==> !#[trigger] is_prime_spec(v),
{
    find_prime(nonp, NUM_TESTS)
}

/// Law: strong-prime structure. A strong prime of `len` bits has a
/// divisor of `p - 1` no smaller than `2^(len/2 - 1)`: the half-size
/// factor's bit length forces its magnitude.
pub proof fn lemma_strong_prime_factor(p: nat, len: nat)
    requires
        len >= 8,
        exists|f: nat|
            divides(f, (p - 1) as nat) && #[trigger] bitlen(f) == len / 2 && passed_trial(f),
    ensures
        exists|f: nat|
            divides(f, (p - 1) as nat) && f >= pow2((len / 2 - 1) as nat) && #[trigger] bitlen(
                f,
            ) == len / 2,
{
    let f = choose|f: nat|
        divides(f, (p - 1) as nat) && #[trigger] bitlen(f) == len / 2 && passed_trial(f);
    assert(f >= 2);
    lemma_bitlen_bounds(f);
    assert(pow2((bitlen(f) - 1) as nat) <= f);
}

/// Draws random numbers of exactly `len` bits and walks each to the next
/// probable prime until one of exactly `len` bits is found.
pub fn generate_prime(len: usize) -> (res: Option<BigUint>)
    requires
        1 <= len <= MAX_BITS,
    ensures
        res is Some ==> passed_trial(crate::bigint::big_nat(res->0)) && bitlen(
            crate::bigint::big_nat(res->0),
        ) == len as nat,
{
    let mut tries: u64 = 0;
    while tries < RAND_RETRIES
        invariant
            1 <= len <= MAX_BITS,
        decreases RAND_RETRIES - tries,
    {
        match generate_urandom(len) {
            Some(start) => {
                match find_prime(&start, NUM_TESTS) {
                    Some(p) => {
                        let nb = big_bits(&p);
                        if nb == len as u64 {
                            return Some(p);
                        }
                    },
                    None => {
                        return None;
                    },
                }
            },
            None => {
                return None;
            },
        }
        tries = tries + 1;
    }
    None
}

/// Generates a probable prime `p` of exactly `len` bits such that
/// `p - 1` has a large probable-prime factor: a half-size prime `pp`
/// is drawn, an even offset `a` of `len - len/2 + 1` bits, and the
/// candidates `pp * (a + 2j) + 1` are walked for increasing `j`.
pub fn generate_strong_prime(len: usize) -> (res: Option<BigUint>)
    requires
        8 <= len <= MAX_BITS - 2,
    ensures
        res is Some ==> {
            &&& passed_trial(crate::bigint::big_nat(res->0))
            &&& bitlen(crate::bigint::big_nat(res->0)) == len as nat
            &&& exists|f: nat|
                divides(f, (crate::bigint::big_nat(res->0) - 1) as nat) && bitlen(f) == (len
                    / 2) as nat && passed_trial(f)
        },
{
    let one = big_from_u64(1);
    let two = big_from_u64(2);
    let mut rounds: u64 = 0;
    while rounds < 64
        invariant
            8 <= len <= MAX_BITS - 2,
            crate::bigint::big_nat(one) == 1,
            crate::bigint::big_nat(two) == 2,
        decreases 64 - rounds,
    {
        let pp = match generate_prime(len / 2) {
            Some(v) => v,
            None => {
                return None;
            },
        };
        let a0 = match generate_urandom(len - len / 2 + 1) {
            Some(v) => v,
            None => {
                return None;
            },
        };
        // An even offset keeps every candidate odd.
        let rem = big_mod(&a0, &two);
        let a = if big_eq(&rem, &one) {
            big_add(&a0, &one)
        } else {
            a0
        };
        let base = big_mul(&pp, &a);
        let mut p = big_add(&base, &one);
        let step = big_mul(&two, &pp);
        let ghost ppv = crate::bigint::big_nat(pp);
        let ghost av = crate::bigint::big_nat(a);
        proof {
            assert(crate::bigint::big_nat(p) - 1 == #[trigger] (ppv * av));
            assert(crate::bigint::big_nat(step) == ppv * 2) by {
                vstd::arithmetic::mul::lemma_mul_is_commutative(2, ppv as int);
            }
        }
        let mut j: u64 = 0;
        while j < SEARCH_STEPS
            invariant
                crate::bigint::big_nat(step) == ppv * 2,
                crate::bigint::big_nat(pp) == ppv,
                passed_trial(ppv),
                bitlen(ppv) == (len / 2) as nat,
                exists|k: nat| crate::bigint::big_nat(p) - 1 == #[trigger] (ppv * k),
                crate::bigint::big_nat(p) >= 1,
            decreases SEARCH_STEPS - j,
        {
            let nb = big_bits(&p);
            if nb > MAX_BITS as u64 {
                break ;
            }
            match isprime(&p, NUM_TESTS) {
                Some(true) => {
                    if nb == len as u64 {
                        proof {
                            let pv = crate::bigint::big_nat(p);
                            let k = choose|k: nat| pv - 1 == #[trigger] (ppv * k);
                            assert(divides(ppv, (pv - 1) as nat)) by {
                                assert(ppv > 0);
                                assert(pv - 1 == ppv * k);
                                assert(divides(ppv, ppv)) by {
                                    vstd::arithmetic::div_mod::lemma_mod_self_0(ppv as int);
                                }
                                crate::arith::lemma_divides_mul(ppv, k, ppv);
                                assert(k * ppv == ppv * k) by {
                                    vstd::arithmetic::mul::lemma_mul_is_commutative(
                                        k as int,
                                        ppv as int,
                                    );
                                }
                            }
                        }
                        return Some(p);
                    } else {
                        break ;
                    }
                },
                Some(false) => {
                    let pn = big_add(&p, &step);
                    proof {
                        let k = choose|k: nat|
                            crate::bigint::big_nat(p) - 1 == #[trigger] (ppv * k);
                        assert(crate::bigint::big_nat(pn) - 1 == ppv * (k + 2)) by {
                            vstd::arithmetic::mul::lemma_mul_is_distributive_add(
                                ppv as int,
                                k as int,
                                2,
                            );
                        }
                    }
                    p = pn;
                },
                None => {
                    return None;
                },
            }
            j = j + 1;
        }
        rounds = rounds + 1;
    }
    None
}

} // verus!
