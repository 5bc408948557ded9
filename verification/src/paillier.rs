//! The Paillier additively homomorphic cryptosystem over
//! arbitrary-precision integers: key generation from strong primes,
//! encryption, decryption, ciphertext addition and subtraction, and
//! rerandomization.

use vstd::prelude::*;
use num_bigint::BigUint;
use crate::arith::{gcd_nat, pow_mod, bitlen, divides, is_prime_spec};
use crate::primes::{
    generate_strong_prime, generate_urandom_inrange, passed_trial, NUM_TESTS, RAND_RETRIES,
    MAX_BITS,
};
use crate::bigint::{
    big_nat, big_from_u64, big_clone, big_eq, big_add, big_sub, big_mul, big_div, big_mod,
    big_modpow, big_modinv, big_gcd,
};

verus! {

/// Paillier public encryption key: the modulus `n`, its square, and the
/// generator `g = n + 1`.
pub struct PaillierEncryptionKey {
    pub n: BigUint,
    pub n2: BigUint,
    pub g: BigUint,
}

/// Paillier private decryption key: `lambda = (p-1)(q-1)` and
/// `mu = lambda^-1 mod n`.
pub struct PaillierDecryptionKey {
    pub lambda: BigUint,
    pub mu: BigUint,
}

impl PaillierEncryptionKey {
    /// The modulus as a natural number.
    pub open spec fn nv(&self) -> nat {
        big_nat(self.n)
    }

    /// Structural soundness: the square really is the square and the
    /// generator really is `n + 1`.
    pub open spec fn wf(&self) -> bool {
        &&& big_nat(self.n) >= 2
        &&& big_nat(self.n2) == big_nat(self.n) * big_nat(self.n)
        &&& big_nat(self.g) == big_nat(self.n) + 1
    }

    /// A copy holding the same numbers.
    pub fn dup(&self) -> (r: Self)
        ensures
            big_nat(r.n) == big_nat(self.n),
            big_nat(r.n2) == big_nat(self.n2),
            big_nat(r.g) == big_nat(self.g),
    {
        PaillierEncryptionKey {
            n: big_clone(&self.n),
            n2: big_clone(&self.n2),
            g: big_clone(&self.g),
        }
    }
}

impl PaillierDecryptionKey {
    pub open spec fn lambdav(&self) -> nat {
        big_nat(self.lambda)
    }

    pub open spec fn muv(&self) -> nat {
        big_nat(self.mu)
    }

    /// A copy holding the same numbers.
    pub fn dup(&self) -> (r: Self)
        ensures
            big_nat(r.lambda) == big_nat(self.lambda),
            big_nat(r.mu) == big_nat(self.mu),
    {
        PaillierDecryptionKey { lambda: big_clone(&self.lambda), mu: big_clone(&self.mu) }
    }
}

/// A decryption key fits an encryption key when `mu * lambda` is 1
/// modulo `n`.
pub open spec fn keypair_wf(dk: &PaillierDecryptionKey, ek: &PaillierEncryptionKey) -> bool {
    &&& ek.wf()
    &&& dk.lambdav() >= 1
    &&& dk.muv() < ek.nv()
    &&& (dk.lambdav() * dk.muv()) % ek.nv() == 1nat % ek.nv()
}

/// The number the decryption routine computes:
/// `L(c^lambda mod n^2) * mu mod n` with `L(x) = (x - 1) / n`.
pub open spec fn dec_spec(lambda: nat, mu: nat, n: nat, c: nat) -> nat
    recommends
        n >= 2,
{
    let n2 = n * n;
    let cl = pow_mod(c, lambda, n2);
    if cl == 0 {
        0
    } else {
        ((((cl - 1) as nat) / n) * mu) % n
    }
}

/// The ciphertext produced for plaintext `m` with randomizer `r`:
/// `(1 + m*n) * r^n mod n^2`, the closed form of `g^m * r^n` for
/// `g = n + 1`.
pub open spec fn enc_with(n: nat, m: nat, r: nat) -> nat
    recommends
        n >= 2,
{
    let n2 = n * n;
    ((1 + m * n) * pow_mod(r, n, n2)) % n2
}

/// The Paillier cryptosystem: a public key and, for the key holder, the
/// private key.
pub struct Paillier {
    pub pk: PaillierEncryptionKey,
    pub sk: Option<PaillierDecryptionKey>,
}

impl Paillier {
    /// The instance is sound: the public key is well-formed and the
    /// private key, when present, fits it.
    pub open spec fn wf(&self) -> bool {
        &&& self.pk.wf()
        &&& self.sk matches Some(dk) ==> keypair_wf(&dk, &self.pk)
    }

    /// Creates an instance holding both keys. `None` means the
    /// randomness source failed or the search budget ran out.
    pub fn new(keysize: usize) -> (res: Option<Paillier>)
        requires
            keysize % 2 == 0,
            16 <= keysize <= MAX_BITS,
        ensures
            res matches Some(p) ==> p.wf() && p.sk is Some,
    {
        match Paillier::keygen(keysize) {
            Some((pk, sk)) => Some(Paillier { pk, sk: Some(sk) }),
            None => None,
        }
    }

    /// Key generation: two distinct strong primes of `keysize / 2` bits
    /// make the modulus; `lambda = (p-1)(q-1)` and `mu` its inverse
    /// modulo `n`.
    pub fn keygen(keysize: usize) -> (res: Option<
        (PaillierEncryptionKey, PaillierDecryptionKey),
    >)
        requires
            keysize % 2 == 0,
            16 <= keysize <= MAX_BITS,
        ensures
            res matches Some(ks) ==> {
                &&& keypair_wf(&ks.1, &ks.0)
                &&& bitlen(ks.0.nv()) <= keysize as nat
                &&& exists|p: nat, q: nat|
                    {
                        &&& ks.0.nv() == p * q
                        &&& p != q
                        &&& passed_trial(p)
                        &&& passed_trial(q)
                        &&& bitlen(p) == (keysize / 2) as nat
                        &&& bitlen(q) == (keysize / 2) as nat
                        &&& ks.1.lambdav() == (p - 1) * (q - 1)
                        &&& exists|fp: nat|
                            divides(fp, (p - 1) as nat) && #[trigger] bitlen(fp) == ((keysize
                                / 2) / 2) as nat && passed_trial(fp)
                        &&& exists|fq: nat|
                            divides(fq, (q - 1) as nat) && #[trigger] bitlen(fq) == ((keysize
                                / 2) / 2) as nat && passed_trial(fq)
                    }
            },
    {
        let one = big_from_u64(1);
        let mut rounds: u64 = 0;
        while rounds < 16
            invariant
                keysize % 2 == 0,
                16 <= keysize <= MAX_BITS,
                big_nat(one) == 1,
            decreases 16 - rounds,
        {
            let p = match generate_strong_prime(keysize / 2) {
                Some(v) => v,
                None => { return None; },
            };
            let q = match generate_strong_prime(keysize / 2) {
                Some(v) => v,
                None => { return None; },
            };
            if !big_eq(&p, &q) {
                let n = big_mul(&p, &q);
                let g = big_add(&n, &one);
                let p1 = big_sub(&p, &one);
                let q1 = big_sub(&q, &one);
                let lambda = big_mul(&p1, &q1);
                proof {
                    assert(big_nat(n) >= 2 * 2) by (nonlinear_arith)
                        requires
                            big_nat(n) == big_nat(p) * big_nat(q),
                            big_nat(p) >= 2,
                            big_nat(q) >= 2,
                    ;
                    assert(big_nat(lambda) >= 1) by (nonlinear_arith)
                        requires
                            big_nat(lambda) == (big_nat(p) - 1) * (big_nat(q) - 1),
                            big_nat(p) >= 2,
                            big_nat(q) >= 2,
                    ;
                    crate::arith::lemma_bitlen_mul(big_nat(p), big_nat(q));
                }
                match big_modinv(&lambda, &n) {
                    Some(mu) => {
                        let n2 = big_mul(&n, &n);
                        let ek = PaillierEncryptionKey { n, n2, g };
                        let dk = PaillierDecryptionKey { lambda, mu };
                        proof {
                            assert((dk.lambdav() * dk.muv()) % ek.nv() == 1nat % ek.nv());
                        }
                        return Some((ek, dk));
                    },
                    None => { return None; },
                }
            }
            rounds = rounds + 1;
        }
        None
    }

    /// Encryption: draws `r` in `(0, n)` coprime to `n` by rejection and
    /// returns `(1 + m*n) * r^n mod n^2`. `None` means the randomness
    /// source failed or every retry was rejected.
    pub fn encrypt(ek: &PaillierEncryptionKey, m: &BigUint) -> (res: Option<BigUint>)
        requires
            ek.wf(),
            big_nat(*m) < ek.nv(),
            bitlen(ek.nv()) <= MAX_BITS as nat,
        ensures
            res matches Some(c) ==> {
                &&& big_nat(c) < ek.nv() * ek.nv()
                &&& exists|r: nat|
                    0 < r < ek.nv() && gcd_nat(r, ek.nv()) == 1 && big_nat(c) == enc_with(
                        ek.nv(),
                        big_nat(*m),
                        r,
                    )
            },
    {
        let zero = big_from_u64(0);
        let one = big_from_u64(1);
        let mn = big_mul(m, &ek.n);
        let gm = big_add(&mn, &one);
        proof {
            assert(ek.nv() * ek.nv() >= 2 * 2) by (nonlinear_arith)
                requires
                    ek.nv() >= 2,
            ;
        }
        let mut tries: u64 = 0;
        while tries < RAND_RETRIES
            invariant
                ek.wf(),
                bitlen(ek.nv()) <= MAX_BITS as nat,
                big_nat(zero) == 0,
                big_nat(one) == 1,
                big_nat(gm) == 1 + big_nat(*m) * ek.nv(),
                ek.nv() * ek.nv() >= 2,
            decreases RAND_RETRIES - tries,
        {
            match generate_urandom_inrange(&zero, &ek.n) {
                Some(r) => {
                    let gc = big_gcd(&r, &ek.n);
                    if big_eq(&gc, &one) {
                        let rn = big_modpow(&r, &ek.n, &ek.n2);
                        let prod = big_mul(&gm, &rn);
                        let c = big_mod(&prod, &ek.n2);
                        proof {
                            let rv = big_nat(r);
                            assert(0 < rv < ek.nv() && gcd_nat(rv, ek.nv()) == 1 && big_nat(c)
                                == enc_with(ek.nv(), big_nat(*m), rv));
                        }
                        return Some(c);
                    }
                },
                None => { return None; },
            }
            tries = tries + 1;
        }
        None
    }

    /// Decryption: `L(c^lambda mod n^2) * mu mod n`, exactly the number
    /// [`dec_spec`] names.
    pub fn decrypt(dk: &PaillierDecryptionKey, ek: &PaillierEncryptionKey, c: &BigUint) -> (res:
        BigUint)
        requires
            ek.wf(),
        ensures
            big_nat(res) == dec_spec(dk.lambdav(), dk.muv(), ek.nv(), big_nat(*c)),
    {
        let zero = big_from_u64(0);
        let one = big_from_u64(1);
        proof {
            assert(ek.nv() * ek.nv() >= 2 * 2) by (nonlinear_arith)
                requires
                    ek.nv() >= 2,
            ;
        }
        let cl = big_modpow(c, &dk.lambda, &ek.n2);
        if big_eq(&cl, &zero) {
            return zero;
        }
        let cl1 = big_sub(&cl, &one);
        let lc = big_div(&cl1, &ek.n);
        let prod = big_mul(&lc, &dk.mu);
        big_mod(&prod, &ek.n)
    }

    /// Ciphertext addition: `c1 * c2 mod n^2`; decrypts to the sum of
    /// the plaintexts modulo `n`.
    pub fn add(ek: &PaillierEncryptionKey, c1: &BigUint, c2: &BigUint) -> (res: BigUint)
        requires
            ek.wf(),
        ensures
            big_nat(res) == (big_nat(*c1) * big_nat(*c2)) % (ek.nv() * ek.nv()),
            big_nat(res) < ek.nv() * ek.nv(),
    {
        proof {
            assert(ek.nv() * ek.nv() >= 2 * 2) by (nonlinear_arith)
                requires
                    ek.nv() >= 2,
            ;
        }
        let prod = big_mul(c1, c2);
        big_mod(&prod, &ek.n2)
    }

    /// Ciphertext subtraction: `c1 * c2^-1 mod n^2` when the inverse
    /// exists, absent otherwise.
    pub fn sub(ek: &PaillierEncryptionKey, c1: &BigUint, c2: &BigUint) -> (res: Option<BigUint>)
        requires
            ek.wf(),
        ensures
            res is Some <==> gcd_nat(big_nat(*c2), ek.nv() * ek.nv()) == 1,
            res matches Some(c) ==> {
                &&& big_nat(c) < ek.nv() * ek.nv()
                &&& exists|iv: nat|
                    {
                        &&& iv < ek.nv() * ek.nv()
                        &&& #[trigger] (big_nat(*c2) * iv) % (ek.nv() * ek.nv()) == 1nat % (
                        ek.nv() * ek.nv())
                        &&& big_nat(c) == (big_nat(*c1) * iv) % (ek.nv() * ek.nv())
                    }
            },
    {
        proof {
            assert(ek.nv() * ek.nv() >= 2 * 2) by (nonlinear_arith)
                requires
                    ek.nv() >= 2,
            ;
        }
        match Paillier::mult_inv(ek, c2) {
            Some(inv) => {
                let prod = big_mul(c1, &inv);
                let c = big_mod(&prod, &ek.n2);
                proof {
                    let iv = big_nat(inv);
                    assert(iv < ek.nv() * ek.nv() && (big_nat(*c2) * iv) % (ek.nv() * ek.nv())
                        == 1nat % (ek.nv() * ek.nv()) && big_nat(c) == (big_nat(*c1) * iv) % (
                    ek.nv() * ek.nv()));
                }
                Some(c)
            },
            None => None,
        }
    }

    /// Modular inverse of a ciphertext modulo `n^2`, through the
    /// extended Euclidean algorithm of the bignum crate.
    pub fn mult_inv(ek: &PaillierEncryptionKey, c1: &BigUint) -> (res: Option<BigUint>)
        requires
            ek.wf(),
        ensures
            res is Some <==> gcd_nat(big_nat(*c1), ek.nv() * ek.nv()) == 1,
            res matches Some(i) ==> big_nat(i) < ek.nv() * ek.nv() && (big_nat(*c1) * big_nat(
                i,
            )) % (ek.nv() * ek.nv()) == 1nat % (ek.nv() * ek.nv()),
    {
        proof {
            assert(ek.nv() * ek.nv() >= 2 * 2) by (nonlinear_arith)
                requires
                    ek.nv() >= 2,
            ;
        }
        big_modinv(c1, &ek.n2)
    }

    /// Rerandomization: `c * r^n mod n^2` for a fresh `r` in `(0, n)`
    /// coprime to `n`; decrypts to the same plaintext. `None` means the
    /// randomness source failed or every retry was rejected.
    pub fn rerandomize(ek: &PaillierEncryptionKey, c: &BigUint) -> (res: Option<BigUint>)
        requires
            ek.wf(),
            bitlen(ek.nv()) <= MAX_BITS as nat,
        ensures
            res matches Some(cr) ==> {
                &&& big_nat(cr) < ek.nv() * ek.nv()
                &&& exists|r: nat|
                    0 < r < ek.nv() && gcd_nat(r, ek.nv()) == 1 && big_nat(cr) == (big_nat(*c)
                        * pow_mod(r, ek.nv(), ek.nv() * ek.nv())) % (ek.nv() * ek.nv())
            },
    {
        let zero = big_from_u64(0);
        let one = big_from_u64(1);
        proof {
            assert(ek.nv() * ek.nv() >= 2 * 2) by (nonlinear_arith)
                requires
                    ek.nv() >= 2,
            ;
        }
        let mut tries: u64 = 0;
        while tries < RAND_RETRIES
            invariant
                ek.wf(),
                bitlen(ek.nv()) <= MAX_BITS as nat,
                big_nat(zero) == 0,
                big_nat(one) == 1,
                ek.nv() * ek.nv() >= 2,
            decreases RAND_RETRIES - tries,
        {
            match generate_urandom_inrange(&zero, &ek.n) {
                Some(r) => {
                    let gc = big_gcd(&r, &ek.n);
                    if big_eq(&gc, &one) {
                        let rn = big_modpow(&r, &ek.n, &ek.n2);
                        let prod = big_mul(c, &rn);
                        let cr = big_mod(&prod, &ek.n2);
                        proof {
                            let rv = big_nat(r);
                            assert(0 < rv < ek.nv() && gcd_nat(rv, ek.nv()) == 1 && big_nat(cr)
                                == (big_nat(*c) * pow_mod(rv, ek.nv(), ek.nv() * ek.nv())) % (
                            ek.nv() * ek.nv()));
                        }
                        return Some(cr);
                    }
                },
                None => { return None; },
            }
            tries = tries + 1;
        }
        None
    }

    /// Adds the constant `m` inside the ciphertext: `c * g^m mod n^2`.
    pub fn add_const(ek: &PaillierEncryptionKey, c: &BigUint, m: &BigUint) -> (res: BigUint)
        requires
            ek.wf(),
        ensures
            big_nat(res) == (big_nat(*c) * pow_mod(big_nat(ek.g), big_nat(*m), ek.nv() * ek.nv()))
                % (ek.nv() * ek.nv()),
            big_nat(res) < ek.nv() * ek.nv(),
    {
        proof {
            assert(ek.nv() * ek.nv() >= 2 * 2) by (nonlinear_arith)
                requires
                    ek.nv() >= 2,
            ;
        }
        let gm = big_modpow(&ek.g, m, &ek.n2);
        Paillier::add(ek, c, &gm)
    }

    /// Multiplies the plaintext by the constant `m`: `c^m mod n^2`.
    pub fn mul_const(ek: &PaillierEncryptionKey, c: &BigUint, m: &BigUint) -> (res: BigUint)
        requires
            ek.wf(),
        ensures
            big_nat(res) == pow_mod(big_nat(*c), big_nat(*m), ek.nv() * ek.nv()),
            big_nat(res) < ek.nv() * ek.nv(),
    {
        proof {
            assert(ek.nv() * ek.nv() >= 2 * 2) by (nonlinear_arith)
                requires
                    ek.nv() >= 2,
            ;
        }
        big_modpow(c, m, &ek.n2)
    }
}

/// The reduced `lambda`-th power of a ciphertext built with plaintext
/// `m` and randomizer `r` has the linear form `1 + (m*lambda mod n)*n`,
/// provided the randomizer satisfies the group identity
/// `r^(n*lambda) == 1 mod n^2`.
proof fn lemma_cl_is_linear(n: nat, lambda: nat, m: nat, r: nat)
    requires
        n >= 2,
        pow_mod(r, (n * lambda) as nat, (n * n) as nat) == 1,
    ensures
        pow_mod(enc_with(n, m, r), lambda, (n * n) as nat) == 1 + ((m * lambda) % n) * n,
{
    let nn = (n * n) as nat;
    assert(nn >= 4) by (nonlinear_arith)
        requires
            nn == (n * n) as nat,
            n >= 2,
    ;
    let a = (1 + m * n) as nat;
    let rr = pow_mod(r, n, nn);
    crate::arith::lemma_pow_mod_mul(a, rr, lambda, nn);
    crate::arith::lemma_pow_mod_compose(r, n, lambda, nn);
    crate::arith::lemma_one_plus_mn_pow(n, m, lambda);
    let t = (m * lambda) % n;
    assert(pow_mod(enc_with(n, m, r), lambda, nn) == ((1 + t * n) * 1) % nn);
    assert((1 + t * n) * 1 == 1 + t * n) by {
        vstd::arithmetic::mul::lemma_mul_basics_2((1 + t * n) as int);
    }
    assert(t < n) by {
        vstd::arithmetic::div_mod::lemma_mod_bound((m * lambda) as int, n as int);
    }
    assert(1 + t * n < nn) by (nonlinear_arith)
        requires
            nn == (n * n) as nat,
            n >= 2,
            t < n,
    ;
    vstd::arithmetic::div_mod::lemma_small_mod((1 + t * n) as nat, nn);
}

/// Decryption of a ciphertext whose reduced `lambda`-th power has the
/// linear form `1 + t*n` yields `t * mu mod n`.
proof fn lemma_dec_from_cl(n: nat, lambda: nat, mu: nat, c: nat, t: nat)
    requires
        n >= 2,
        t < n,
        pow_mod(c, lambda, (n * n) as nat) == 1 + t * n,
    ensures
        dec_spec(lambda, mu, n, c) == (t * mu) % n,
{
    let cl = pow_mod(c, lambda, (n * n) as nat);
    assert(cl != 0);
    assert((cl - 1) as nat == t * n);
    assert(((t * n) as nat) / n == t) by {
        vstd::arithmetic::div_mod::lemma_div_by_multiple(t as int, n as int);
    }
}

/// With `lambda * mu == 1 mod n`, the decryption factor collapses:
/// `((m*lambda mod n) * mu) mod n == m mod n`.
proof fn lemma_tmu(n: nat, lambda: nat, mu: nat, m: nat)
    requires
        n >= 2,
        (lambda * mu) % n == 1nat % n,
    ensures
        (((m * lambda) % n) * mu) % n == m % n,
{
    let ni = n as int;
    let t = (m * lambda) % n;
    assert((t * mu) % n == ((m * lambda) * mu) % n) by {
        vstd::arithmetic::div_mod::lemma_mul_mod_noop_left(
            (m * lambda) as int,
            mu as int,
            ni,
        );
    }
    assert((m * lambda) * mu == m * (lambda * mu)) by (nonlinear_arith);
    assert((m * (lambda * mu)) % n == (m * ((lambda * mu) % n)) % n) by {
        vstd::arithmetic::div_mod::lemma_mul_mod_noop_right(
            m as int,
            (lambda * mu) as int,
            ni,
        );
    }
    vstd::arithmetic::div_mod::lemma_small_mod(1, n);
    assert(m * 1 == m) by {
        vstd::arithmetic::mul::lemma_mul_basics_2(m as int);
    }
}

/// The Paillier group-order identity, from genuine primality: for
/// distinct primes `p`, `q` with `n = p*q`, every positive `r` coprime
/// to `n` satisfies `r^(n*(p-1)*(q-1)) == 1 mod n^2`. Rests on
/// Fermat's little theorem for each prime and the binomial collapse.
pub proof fn lemma_randomizer_identity(p: nat, q: nat, r: nat)
    requires
        is_prime_spec(p),
        is_prime_spec(q),
        p != q,
        r > 0,
        gcd_nat(r, (p * q) as nat) == 1,
    ensures
        pow_mod(
            r,
            ((p * q) * ((p - 1) * (q - 1))) as nat,
            ((p * q) * (p * q)) as nat,
        ) == 1,
{
    let n = (p * q) as nat;
    let lam = ((p - 1) * (q - 1)) as nat;
    let nn = (n * n) as nat;
    assert(n >= 4 && nn >= 4) by (nonlinear_arith)
        requires
            n == p * q,
            nn == n * n,
            p >= 2,
            q >= 2,
    ;
    assert(divides(p, n) && divides(q, n)) by {
        vstd::arithmetic::div_mod::lemma_mod_multiples_basic(q as int, p as int);
        assert(q * p == p * q) by {
            vstd::arithmetic::mul::lemma_mul_is_commutative(q as int, p as int);
        }
        vstd::arithmetic::div_mod::lemma_mod_multiples_basic(p as int, q as int);
    }
    // r is a unit modulo each prime factor.
    assert(gcd_nat(r, p) == 1) by {
        let g = gcd_nat(r, p);
        crate::arith::lemma_gcd_divides(r, p);
        crate::arith::lemma_divides_trans(g, p, n);
        crate::arith::lemma_common_divisor_divides_gcd(g, r, n);
        crate::arith::lemma_divides_le(g, 1);
    }
    assert(gcd_nat(r, q) == 1) by {
        let g = gcd_nat(r, q);
        crate::arith::lemma_gcd_divides(r, q);
        crate::arith::lemma_divides_trans(g, q, n);
        crate::arith::lemma_common_divisor_divides_gcd(g, r, n);
        crate::arith::lemma_divides_le(g, 1);
    }
    assert(r % p != 0) by {
        if r % p == 0 {
            vstd::arithmetic::div_mod::lemma_mod_self_0(p as int);
            crate::arith::lemma_common_divisor_divides_gcd(p, r, p);
            crate::arith::lemma_divides_le(p, 1);
        }
    }
    assert(r % q != 0) by {
        if r % q == 0 {
            vstd::arithmetic::div_mod::lemma_mod_self_0(q as int);
            crate::arith::lemma_common_divisor_divides_gcd(q, r, q);
            crate::arith::lemma_divides_le(q, 1);
        }
    }
    // Fermat at each prime, lifted to r itself.
    assert(pow_mod(r, (p - 1) as nat, p) == 1) by {
        vstd::arithmetic::div_mod::lemma_mod_bound(r as int, p as int);
        crate::arith::lemma_fermat_little(r % p, p);
        vstd::arithmetic::power::lemma_pow_mod_noop(r as int, (p - 1) as nat, p as int);
    }
    assert(pow_mod(r, (q - 1) as nat, q) == 1) by {
        vstd::arithmetic::div_mod::lemma_mod_bound(r as int, q as int);
        crate::arith::lemma_fermat_little(r % q, q);
        vstd::arithmetic::power::lemma_pow_mod_noop(r as int, (q - 1) as nat, q as int);
    }
    // r^lam is 1 modulo each prime.
    assert(pow_mod(r, lam, p) == 1) by {
        crate::arith::lemma_pow_mod_compose(r, (p - 1) as nat, (q - 1) as nat, p);
        assert(vstd::arithmetic::power::pow(1int, (q - 1) as nat) == 1) by {
            vstd::arithmetic::power::lemma1_pow((q - 1) as nat);
        }
        vstd::arithmetic::div_mod::lemma_small_mod(1, p);
    }
    assert(pow_mod(r, lam, q) == 1) by {
        crate::arith::lemma_pow_mod_compose(r, (q - 1) as nat, (p - 1) as nat, q);
        assert((q - 1) * (p - 1) == (p - 1) * (q - 1)) by {
            vstd::arithmetic::mul::lemma_mul_is_commutative((q - 1) as int, (p - 1) as int);
        }
        assert(vstd::arithmetic::power::pow(1int, (p - 1) as nat) == 1) by {
            vstd::arithmetic::power::lemma1_pow((p - 1) as nat);
        }
        vstd::arithmetic::div_mod::lemma_small_mod(1, q);
    }
    // The two prime congruences combine over the coprime product.
    let x = vstd::arithmetic::power::pow(r as int, lam);
    assert(x >= 1) by {
        vstd::arithmetic::power::lemma_pow_positive(r as int, lam);
    }
    let w1 = (x - 1) as nat;
    assert(divides(p, w1)) by {
        vstd::arithmetic::div_mod::lemma_small_mod(1, p);
        vstd::arithmetic::div_mod::lemma_mod_equivalence(x, 1int, p as int);
    }
    assert(divides(q, w1)) by {
        vstd::arithmetic::div_mod::lemma_small_mod(1, q);
        vstd::arithmetic::div_mod::lemma_mod_equivalence(x, 1int, q as int);
    }
    assert(gcd_nat(p, q) == 1) by {
        let g = gcd_nat(p, q);
        crate::arith::lemma_gcd_divides(p, q);
        crate::arith::lemma_divides_le(g, p);
        if g >= 2 {
            if g < p {
                assert(p % g != 0);
                assert(false);
            } else {
                assert(g == p);
                assert(divides(p, q));
                crate::arith::lemma_divides_le(p, q);
                if p < q {
                    assert(q % p != 0);
                    assert(false);
                }
            }
        }
    }
    assert(divides(n, w1)) by {
        let k = w1 / p;
        vstd::arithmetic::div_mod::lemma_fundamental_div_mod(w1 as int, p as int);
        assert(w1 == p * k);
        assert(divides(q, (p * k) as nat));
        crate::arith::lemma_euclid(q, p, k);
        if divides(q, p) {
            crate::arith::lemma_divides_le(q, p);
            if q < p {
                assert(p % q != 0);
                assert(false);
            }
            assert(false);
        }
        let k2 = k / q;
        vstd::arithmetic::div_mod::lemma_fundamental_div_mod(k as int, q as int);
        assert(k == q * k2);
        assert(w1 == n * k2) by (nonlinear_arith)
            requires
                w1 == p * k,
                k == q * k2,
                n == p * q,
        ;
        assert(k2 * n == n * k2) by {
            vstd::arithmetic::mul::lemma_mul_is_commutative(k2 as int, n as int);
        }
        vstd::arithmetic::div_mod::lemma_mod_multiples_basic(k2 as int, n as int);
    }
    // Reduce modulo n^2 and apply the binomial collapse.
    let t = w1 / n;
    vstd::arithmetic::div_mod::lemma_fundamental_div_mod(w1 as int, n as int);
    assert(w1 == n * t);
    assert(x == 1 + t * n) by {
        vstd::arithmetic::mul::lemma_mul_is_commutative(n as int, t as int);
    }
    assert(pow_mod(r, lam, nn) == 1 + (t % n) * n) by {
        crate::arith::lemma_mod_one_plus_sn(n, t);
    }
    let t2 = t % n;
    assert(pow_mod(pow_mod(r, lam, nn), n, nn) == pow_mod(r, (lam * n) as nat, nn)) by {
        crate::arith::lemma_pow_mod_compose(r, lam, n, nn);
    }
    assert(pow_mod((1 + t2 * n) as nat, n, nn) == 1 + ((t2 * n) % n) * n) by {
        crate::arith::lemma_one_plus_mn_pow(n, t2, n);
    }
    assert((t2 * n) % n == 0) by {
        vstd::arithmetic::div_mod::lemma_mod_multiples_basic(t2 as int, n as int);
    }
    assert(0nat * n == 0) by {
        vstd::arithmetic::mul::lemma_mul_basics(n as int);
    }
    assert(lam * n == n * lam) by {
        vstd::arithmetic::mul::lemma_mul_is_commutative(lam as int, n as int);
    }
}

/// Law: decryption undoes encryption. For a key pair with
/// `lambda * mu == 1 mod n`, a plaintext below `n`, and a randomizer
/// satisfying the group identity `r^(n*lambda) == 1 mod n^2`, the
/// ciphertext `(1 + m*n) * r^n mod n^2` decrypts to exactly `m`.
pub proof fn lemma_encrypt_decrypt(n: nat, lambda: nat, mu: nat, m: nat, r: nat)
    requires
        n >= 2,
        (lambda * mu) % n == 1nat % n,
        m < n,
        pow_mod(r, (n * lambda) as nat, (n * n) as nat) == 1,
    ensures
        dec_spec(lambda, mu, n, enc_with(n, m, r)) == m,
{
    lemma_cl_is_linear(n, lambda, m, r);
    let t = (m * lambda) % n;
    assert(t < n) by {
        vstd::arithmetic::div_mod::lemma_mod_bound((m * lambda) as int, n as int);
    }
    lemma_dec_from_cl(n, lambda, mu, enc_with(n, m, r), t);
    lemma_tmu(n, lambda, mu, m);
    vstd::arithmetic::div_mod::lemma_small_mod(m, n);
}

/// Law: ciphertext multiplication adds plaintexts. Multiplying the
/// ciphertexts of `m1` and `m2` modulo `n^2` yields a ciphertext that
/// decrypts to `(m1 + m2) mod n`, under the same key and randomizer
/// hypotheses as the round-trip law.
pub proof fn lemma_add_homomorphic(
    n: nat,
    lambda: nat,
    mu: nat,
    m1: nat,
    m2: nat,
    r1: nat,
    r2: nat,
)
    requires
        n >= 2,
        (lambda * mu) % n == 1nat % n,
        m1 < n,
        m2 < n,
        pow_mod(r1, (n * lambda) as nat, (n * n) as nat) == 1,
        pow_mod(r2, (n * lambda) as nat, (n * n) as nat) == 1,
    ensures
        dec_spec(
            lambda,
            mu,
            n,
            (enc_with(n, m1, r1) * enc_with(n, m2, r2)) % ((n * n) as nat),
        ) == (m1 + m2) % n,
{
    let nn = (n * n) as nat;
    let ni = n as int;
    assert(nn >= 4) by (nonlinear_arith)
        requires
            nn == (n * n) as nat,
            n >= 2,
    ;
    let e1 = enc_with(n, m1, r1);
    let e2 = enc_with(n, m2, r2);
    lemma_cl_is_linear(n, lambda, m1, r1);
    lemma_cl_is_linear(n, lambda, m2, r2);
    let t1 = (m1 * lambda) % n;
    let t2 = (m2 * lambda) % n;
    assert(t1 < n && t2 < n) by {
        vstd::arithmetic::div_mod::lemma_mod_bound((m1 * lambda) as int, ni);
        vstd::arithmetic::div_mod::lemma_mod_bound((m2 * lambda) as int, ni);
    }
    crate::arith::lemma_pow_mod_mul(e1, e2, lambda, nn);
    assert(pow_mod((e1 * e2) % nn, lambda, nn) == ((1 + t1 * n) * (1 + t2 * n)) % nn);
    crate::arith::lemma_one_plus_tn_mul(n, t1, t2);
    let s = (t1 + t2) % n;
    assert(s < n) by {
        vstd::arithmetic::div_mod::lemma_mod_bound((t1 + t2) as int, ni);
    }
    lemma_dec_from_cl(n, lambda, mu, (e1 * e2) % nn, s);
    assert((s * mu) % n == ((t1 + t2) * mu) % n) by {
        vstd::arithmetic::div_mod::lemma_mul_mod_noop_left((t1 + t2) as int, mu as int, ni);
    }
    assert((t1 + t2) * mu == t1 * mu + t2 * mu) by (nonlinear_arith);
    assert((t1 * mu + t2 * mu) % n == ((t1 * mu) % n + (t2 * mu) % n) % n) by {
        vstd::arithmetic::div_mod::lemma_add_mod_noop((t1 * mu) as int, (t2 * mu) as int, ni);
    }
    lemma_tmu(n, lambda, mu, m1);
    lemma_tmu(n, lambda, mu, m2);
    vstd::arithmetic::div_mod::lemma_small_mod(m1, n);
    vstd::arithmetic::div_mod::lemma_small_mod(m2, n);
}

/// Law: dividing by a ciphertext subtracts plaintexts. If `iv` inverts
/// the ciphertext of `m2` modulo `n^2`, then `c1 * iv mod n^2` decrypts
/// to the value that, added to `m2`, gives back `m1` modulo `n`; for
/// `m1 >= m2` that value is exactly `m1 - m2`.
pub proof fn lemma_sub_homomorphic(
    n: nat,
    lambda: nat,
    mu: nat,
    m1: nat,
    m2: nat,
    r1: nat,
    r2: nat,
    iv: nat,
)
    requires
        n >= 2,
        (lambda * mu) % n == 1nat % n,
        m1 < n,
        m2 < n,
        pow_mod(r1, (n * lambda) as nat, (n * n) as nat) == 1,
        pow_mod(r2, (n * lambda) as nat, (n * n) as nat) == 1,
        (enc_with(n, m2, r2) * iv) % ((n * n) as nat) == 1nat % ((n * n) as nat),
    ensures
        (dec_spec(lambda, mu, n, (enc_with(n, m1, r1) * iv) % ((n * n) as nat)) + m2) % n
            == m1,
        m1 >= m2 ==> dec_spec(lambda, mu, n, (enc_with(n, m1, r1) * iv) % ((n * n) as nat))
            == m1 - m2,
{
    let nn = (n * n) as nat;
    let ni = n as int;
    assert(nn >= 4) by (nonlinear_arith)
        requires
            nn == (n * n) as nat,
            n >= 2,
    ;
    let e1 = enc_with(n, m1, r1);
    let e2 = enc_with(n, m2, r2);
    lemma_cl_is_linear(n, lambda, m1, r1);
    lemma_cl_is_linear(n, lambda, m2, r2);
    let t1 = (m1 * lambda) % n;
    let t2 = (m2 * lambda) % n;
    assert(t1 < n && t2 < n) by {
        vstd::arithmetic::div_mod::lemma_mod_bound((m1 * lambda) as int, ni);
        vstd::arithmetic::div_mod::lemma_mod_bound((m2 * lambda) as int, ni);
    }
    let cl2 = pow_mod(e2, lambda, nn);
    let cliv = pow_mod(iv, lambda, nn);
    // The lambda-th power of the inversion identity.
    vstd::arithmetic::div_mod::lemma_small_mod(1, nn);
    crate::arith::lemma_pow_mod_mul(e2, iv, lambda, nn);
    assert(pow_mod(1, lambda, nn) == 1) by {
        vstd::arithmetic::power::lemma1_pow(lambda);
        vstd::arithmetic::div_mod::lemma_small_mod(1, nn);
    }
    assert((cl2 * cliv) % nn == 1);
    // Reduce it modulo n to learn the linear form of cliv.
    assert((cl2 * cliv) % n == 1) by {
        vstd::arithmetic::div_mod::lemma_mod_mod((cl2 * cliv) as int, ni, ni);
        vstd::arithmetic::div_mod::lemma_small_mod(1, n);
    }
    assert(cl2 % n == 1) by {
        assert(cl2 == n * t2 + 1) by (nonlinear_arith)
            requires
                cl2 == 1 + t2 * n,
        ;
        vstd::arithmetic::div_mod::lemma_mod_multiples_vanish(t2 as int, 1, ni);
        vstd::arithmetic::div_mod::lemma_small_mod(1, n);
    }
    assert(cliv % n == 1) by {
        vstd::arithmetic::div_mod::lemma_mul_mod_noop_general(cl2 as int, cliv as int, ni);
        vstd::arithmetic::div_mod::lemma_mod_twice(cliv as int, ni);
        assert((1 * (cliv % n)) % n == cliv % n % n) by {
            vstd::arithmetic::mul::lemma_mul_basics_1((cliv % n) as int);
        }
    }
    let u = cliv / n;
    assert(cliv < nn) by {
        vstd::arithmetic::div_mod::lemma_mod_bound(
            vstd::arithmetic::power::pow(iv as int, lambda),
            nn as int,
        );
    }
    assert(u < n) by {
        assert(cliv < n * n);
        vstd::arithmetic::div_mod::lemma_multiply_divide_lt(cliv as int, ni, ni);
    }
    assert(cliv == 1 + u * n) by {
        vstd::arithmetic::div_mod::lemma_fundamental_div_mod(cliv as int, ni);
        assert(n * u == u * n) by {
            vstd::arithmetic::mul::lemma_mul_is_commutative(ni, u as int);
        }
    }
    // The inversion identity forces t2 + u to vanish modulo n.
    crate::arith::lemma_one_plus_tn_mul(n, t2, u);
    assert(((t2 + u) % n) * n == 0);
    assert((t2 + u) % n == 0) by {
        if (t2 + u) % n >= 1 {
            assert(((t2 + u) % n) * n >= n) by (nonlinear_arith)
                requires
                    (t2 + u) % n >= 1,
                    n >= 2,
            ;
        }
    }
    // The quotient ciphertext has the linear form with t1 + u.
    crate::arith::lemma_pow_mod_mul(e1, iv, lambda, nn);
    crate::arith::lemma_one_plus_tn_mul(n, t1, u);
    let s = (t1 + u) % n;
    assert(s < n) by {
        vstd::arithmetic::div_mod::lemma_mod_bound((t1 + u) as int, ni);
    }
    lemma_dec_from_cl(n, lambda, mu, (e1 * iv) % nn, s);
    let dsub = dec_spec(lambda, mu, n, (e1 * iv) % nn);
    assert(dsub == (s * mu) % n);
    assert((s * mu) % n == ((t1 + u) * mu) % n) by {
        vstd::arithmetic::div_mod::lemma_mul_mod_noop_left((t1 + u) as int, mu as int, ni);
    }
    // (dsub + m2) % n == m1.
    lemma_tmu(n, lambda, mu, m2);
    vstd::arithmetic::div_mod::lemma_small_mod(m2, n);
    assert((dsub + m2) % n == ((t1 + u) * mu + t2 * mu) % n) by {
        vstd::arithmetic::div_mod::lemma_add_mod_noop(
            ((t1 + u) * mu) as int,
            (t2 * mu) as int,
            ni,
        );
        vstd::arithmetic::div_mod::lemma_mod_twice(((t1 + u) * mu) as int, ni);
        vstd::arithmetic::div_mod::lemma_mod_twice((t2 * mu) as int, ni);
    }
    assert((t1 + u) * mu + t2 * mu == (t1 + u + t2) * mu) by (nonlinear_arith);
    assert(((t1 + u + t2) * mu) % n == (((t1 + u + t2) % n) * mu) % n) by {
        vstd::arithmetic::div_mod::lemma_mul_mod_noop_left((t1 + u + t2) as int, mu as int, ni);
    }
    assert((t1 + u + t2) % n == t1 % n) by {
        vstd::arithmetic::div_mod::lemma_add_mod_noop(t1 as int, (t2 + u) as int, ni);
        vstd::arithmetic::div_mod::lemma_mod_twice(t1 as int, ni);
        vstd::arithmetic::div_mod::lemma_small_mod(0, n);
    }
    vstd::arithmetic::div_mod::lemma_small_mod(t1, n);
    assert(((t1 % n) * mu) % n == m1) by {
        lemma_tmu(n, lambda, mu, m1);
        vstd::arithmetic::div_mod::lemma_small_mod(m1, n);
    }
    assert((dsub + m2) % n == m1);
    // For m1 >= m2 the decrypted difference is exact.
    if m1 >= m2 {
        assert(dsub < n) by {
            vstd::arithmetic::div_mod::lemma_mod_bound((s * mu) as int, ni);
        }
        if dsub + m2 < n {
            vstd::arithmetic::div_mod::lemma_small_mod((dsub + m2) as nat, n);
        } else {
            assert((dsub + m2) % n == (dsub + m2 - n) as nat % n) by {
                vstd::arithmetic::div_mod::lemma_mod_sub_multiples_vanish(
                    (dsub + m2) as int,
                    ni,
                );
            }
            vstd::arithmetic::div_mod::lemma_small_mod((dsub + m2 - n) as nat, n);
        }
    }
}

/// Law: adding a constant inside the ciphertext adds it to the
/// plaintext. When the reduced `lambda`-th power of `c` is 1 modulo
/// `n` — as it is for every ciphertext of the group — multiplying `c`
/// by `g^m mod n^2` (with `g = n + 1`) yields a ciphertext that
/// decrypts to `(dec(c) + m) mod n`.
pub proof fn lemma_add_const_homomorphic(n: nat, lambda: nat, mu: nat, c: nat, m: nat)
    requires
        n >= 2,
        (lambda * mu) % n == 1nat % n,
        pow_mod(c, lambda, (n * n) as nat) % n == 1nat % n,
    ensures
        dec_spec(
            lambda,
            mu,
            n,
            (c * pow_mod((n + 1) as nat, m, (n * n) as nat)) % ((n * n) as nat),
        ) == (dec_spec(lambda, mu, n, c) + m) % n,
{
    let nn = (n * n) as nat;
    let ni = n as int;
    assert(nn >= 4) by (nonlinear_arith)
        requires
            nn == (n * n) as nat,
            n >= 2,
    ;
    vstd::arithmetic::div_mod::lemma_small_mod(1, n);
    // The power of the generator collapses to a linear form.
    let gm = pow_mod((n + 1) as nat, m, nn);
    let u = m % n;
    assert(gm == 1 + u * n) by {
        crate::arith::lemma_one_plus_mn_pow(n, 1, m);
        assert(1 * n == n && 1 * m == m) by {
            vstd::arithmetic::mul::lemma_mul_basics_1(n as int);
            vstd::arithmetic::mul::lemma_mul_basics_1(m as int);
        }
    }
    assert(u < n) by {
        vstd::arithmetic::div_mod::lemma_mod_bound(m as int, ni);
    }
    // The linear form of c's reduced power.
    let clc = pow_mod(c, lambda, nn);
    let t = clc / n;
    assert(clc < nn) by {
        vstd::arithmetic::div_mod::lemma_mod_bound(
            vstd::arithmetic::power::pow(c as int, lambda),
            nn as int,
        );
    }
    assert(clc % n == 1);
    assert(t < n) by {
        assert(clc < n * n);
        vstd::arithmetic::div_mod::lemma_multiply_divide_lt(clc as int, ni, ni);
    }
    assert(clc == 1 + t * n) by {
        vstd::arithmetic::div_mod::lemma_fundamental_div_mod(clc as int, ni);
        assert(n * t == t * n) by {
            vstd::arithmetic::mul::lemma_mul_is_commutative(ni, t as int);
        }
    }
    lemma_dec_from_cl(n, lambda, mu, c, t);
    // The product's reduced power adds the linear coefficients.
    crate::arith::lemma_pow_mod_mul(c, gm, lambda, nn);
    let w = (u * lambda) % n;
    assert(pow_mod(gm, lambda, nn) == 1 + w * n) by {
        crate::arith::lemma_one_plus_mn_pow(n, u, lambda);
    }
    crate::arith::lemma_one_plus_tn_mul(n, t, w);
    assert(pow_mod((c * gm) % nn, lambda, nn) == 1 + ((t + w) % n) * n);
    let s = (t + w) % n;
    assert(s < n) by {
        vstd::arithmetic::div_mod::lemma_mod_bound((t + w) as int, ni);
    }
    lemma_dec_from_cl(n, lambda, mu, (c * gm) % nn, s);
    // Collapse the decryption factor.
    assert((s * mu) % n == ((t + w) * mu) % n) by {
        vstd::arithmetic::div_mod::lemma_mul_mod_noop_left((t + w) as int, mu as int, ni);
    }
    assert((t + w) * mu == t * mu + w * mu) by (nonlinear_arith);
    assert((t * mu + w * mu) % n == ((t * mu) % n + (w * mu) % n) % n) by {
        vstd::arithmetic::div_mod::lemma_add_mod_noop((t * mu) as int, (w * mu) as int, ni);
    }
    assert((w * mu) % n == u) by {
        lemma_tmu(n, lambda, mu, u);
        vstd::arithmetic::div_mod::lemma_small_mod(u, n);
    }
    assert(((t * mu) % n + u) % n == ((t * mu) % n + m) % n) by {
        crate::arith::lemma_mod_add_right(((t * mu) % n) as nat, m, n);
    }
}

/// Law: raising a ciphertext to a constant multiplies the plaintext.
/// Under the same hypothesis on `c`, the ciphertext `c^m mod n^2`
/// decrypts to `(m * dec(c)) mod n`.
pub proof fn lemma_mul_const_homomorphic(n: nat, lambda: nat, mu: nat, c: nat, m: nat)
    requires
        n >= 2,
        (lambda * mu) % n == 1nat % n,
        pow_mod(c, lambda, (n * n) as nat) % n == 1nat % n,
    ensures
        dec_spec(lambda, mu, n, pow_mod(c, m, (n * n) as nat)) == (m * dec_spec(
            lambda,
            mu,
            n,
            c,
        )) % n,
{
    let nn = (n * n) as nat;
    let ni = n as int;
    assert(nn >= 4) by (nonlinear_arith)
        requires
            nn == (n * n) as nat,
            n >= 2,
    ;
    vstd::arithmetic::div_mod::lemma_small_mod(1, n);
    let clc = pow_mod(c, lambda, nn);
    let t = clc / n;
    assert(clc < nn) by {
        vstd::arithmetic::div_mod::lemma_mod_bound(
            vstd::arithmetic::power::pow(c as int, lambda),
            nn as int,
        );
    }
    assert(clc % n == 1);
    assert(t < n) by {
        assert(clc < n * n);
        vstd::arithmetic::div_mod::lemma_multiply_divide_lt(clc as int, ni, ni);
    }
    assert(clc == 1 + t * n) by {
        vstd::arithmetic::div_mod::lemma_fundamental_div_mod(clc as int, ni);
        assert(n * t == t * n) by {
            vstd::arithmetic::mul::lemma_mul_is_commutative(ni, t as int);
        }
    }
    lemma_dec_from_cl(n, lambda, mu, c, t);
    // Exponent towers commute: (c^m)^lambda is (c^lambda)^m.
    crate::arith::lemma_pow_mod_compose(c, m, lambda, nn);
    crate::arith::lemma_pow_mod_compose(c, lambda, m, nn);
    assert(m * lambda == lambda * m) by {
        vstd::arithmetic::mul::lemma_mul_is_commutative(m as int, lambda as int);
    }
    assert(pow_mod(pow_mod(c, m, nn), lambda, nn) == pow_mod(clc, m, nn));
    assert(pow_mod(clc, m, nn) == 1 + ((t * m) % n) * n) by {
        crate::arith::lemma_one_plus_mn_pow(n, t, m);
    }
    let s = (t * m) % n;
    assert(s < n) by {
        vstd::arithmetic::div_mod::lemma_mod_bound((t * m) as int, ni);
    }
    lemma_dec_from_cl(n, lambda, mu, pow_mod(c, m, nn), s);
    assert((s * mu) % n == ((t * m) * mu) % n) by {
        vstd::arithmetic::div_mod::lemma_mul_mod_noop_left((t * m) as int, mu as int, ni);
    }
    assert((t * m) * mu == m * (t * mu)) by (nonlinear_arith);
    assert((m * (t * mu)) % n == (m * ((t * mu) % n)) % n) by {
        vstd::arithmetic::div_mod::lemma_mul_mod_noop_right(m as int, (t * mu) as int, ni);
    }
}

/// Law: rerandomization preserves the plaintext. Multiplying a
/// ciphertext by `r^n mod n^2`, for a randomizer satisfying the group
/// identity, leaves the decrypted value unchanged.
pub proof fn lemma_rerandomize_preserves(n: nat, lambda: nat, mu: nat, c: nat, r: nat)
    requires
        n >= 2,
        pow_mod(r, (n * lambda) as nat, (n * n) as nat) == 1,
    ensures
        dec_spec(lambda, mu, n, (c * pow_mod(r, n, (n * n) as nat)) % ((n * n) as nat))
            == dec_spec(lambda, mu, n, c),
{
    let nn = (n * n) as nat;
    assert(nn >= 4) by (nonlinear_arith)
        requires
            nn == (n * n) as nat,
            n >= 2,
    ;
    let rr = pow_mod(r, n, nn);
    crate::arith::lemma_pow_mod_mul(c, rr, lambda, nn);
    crate::arith::lemma_pow_mod_compose(r, n, lambda, nn);
    let clc = pow_mod(c, lambda, nn);
    assert(pow_mod((c * rr) % nn, lambda, nn) == (clc * 1) % nn);
    assert(clc * 1 == clc) by {
        vstd::arithmetic::mul::lemma_mul_basics_2(clc as int);
    }
    assert(clc < nn) by {
        vstd::arithmetic::div_mod::lemma_mod_bound(
            vstd::arithmetic::power::pow(c as int, lambda),
            nn as int,
        );
    }
    vstd::arithmetic::div_mod::lemma_small_mod(clc, nn);
}

/// Law under genuine primality: for distinct primes `p`, `q` making
/// the modulus, decryption inverts encryption, with no hypothesis on
/// the randomizer beyond positivity and coprimality.
pub proof fn lemma_encrypt_decrypt_primes(p: nat, q: nat, mu: nat, m: nat, r: nat)
    requires
        is_prime_spec(p),
        is_prime_spec(q),
        p != q,
        ((((p - 1) * (q - 1)) as nat) * mu) % ((p * q) as nat) == 1nat % ((p * q) as nat),
        m < p * q,
        r > 0,
        gcd_nat(r, (p * q) as nat) == 1,
    ensures
        dec_spec(
            ((p - 1) * (q - 1)) as nat,
            mu,
            (p * q) as nat,
            enc_with((p * q) as nat, m, r),
        ) == m,
{
    let n = (p * q) as nat;
    assert(n >= 4) by (nonlinear_arith)
        requires
            n == p * q,
            p >= 2,
            q >= 2,
    ;
    lemma_randomizer_identity(p, q, r);
    lemma_encrypt_decrypt(n, ((p - 1) * (q - 1)) as nat, mu, m, r);
}

/// Law under genuine primality: ciphertext multiplication decrypts to
/// plaintext addition modulo `n`.
pub proof fn lemma_add_homomorphic_primes(
    p: nat,
    q: nat,
    mu: nat,
    m1: nat,
    m2: nat,
    r1: nat,
    r2: nat,
)
    requires
        is_prime_spec(p),
        is_prime_spec(q),
        p != q,
        ((((p - 1) * (q - 1)) as nat) * mu) % ((p * q) as nat) == 1nat % ((p * q) as nat),
        m1 < p * q,
        m2 < p * q,
        r1 > 0,
        r2 > 0,
        gcd_nat(r1, (p * q) as nat) == 1,
        gcd_nat(r2, (p * q) as nat) == 1,
    ensures
        dec_spec(
            ((p - 1) * (q - 1)) as nat,
            mu,
            (p * q) as nat,
            (enc_with((p * q) as nat, m1, r1) * enc_with((p * q) as nat, m2, r2)) % (((p * q)
                * (p * q)) as nat),
        ) == (m1 + m2) % ((p * q) as nat),
{
    let n = (p * q) as nat;
    assert(n >= 4) by (nonlinear_arith)
        requires
            n == p * q,
            p >= 2,
            q >= 2,
    ;
    lemma_randomizer_identity(p, q, r1);
    lemma_randomizer_identity(p, q, r2);
    lemma_add_homomorphic(n, ((p - 1) * (q - 1)) as nat, mu, m1, m2, r1, r2);
}

/// Law under genuine primality: dividing by a ciphertext subtracts
/// plaintexts; for `m1 >= m2` the decrypted difference is exact.
pub proof fn lemma_sub_homomorphic_primes(
    p: nat,
    q: nat,
    mu: nat,
    m1: nat,
    m2: nat,
    r1: nat,
    r2: nat,
    iv: nat,
)
    requires
        is_prime_spec(p),
        is_prime_spec(q),
        p != q,
        ((((p - 1) * (q - 1)) as nat) * mu) % ((p * q) as nat) == 1nat % ((p * q) as nat),
        m1 < p * q,
        m2 < p * q,
        r1 > 0,
        r2 > 0,
        gcd_nat(r1, (p * q) as nat) == 1,
        gcd_nat(r2, (p * q) as nat) == 1,
        (enc_with((p * q) as nat, m2, r2) * iv) % (((p * q) * (p * q)) as nat) == 1nat % (((p
            * q) * (p * q)) as nat),
    ensures
        (dec_spec(
            ((p - 1) * (q - 1)) as nat,
            mu,
            (p * q) as nat,
            (enc_with((p * q) as nat, m1, r1) * iv) % (((p * q) * (p * q)) as nat),
        ) + m2) % ((p * q) as nat) == m1,
        m1 >= m2 ==> dec_spec(
            ((p - 1) * (q - 1)) as nat,
            mu,
            (p * q) as nat,
            (enc_with((p * q) as nat, m1, r1) * iv) % (((p * q) * (p * q)) as nat),
        ) == m1 - m2,
{
    let n = (p * q) as nat;
    assert(n >= 4) by (nonlinear_arith)
        requires
            n == p * q,
            p >= 2,
            q >= 2,
    ;
    lemma_randomizer_identity(p, q, r1);
    lemma_randomizer_identity(p, q, r2);
    lemma_sub_homomorphic(n, ((p - 1) * (q - 1)) as nat, mu, m1, m2, r1, r2, iv);
}

/// Law under genuine primality: rerandomization preserves the
/// decrypted plaintext of any ciphertext.
pub proof fn lemma_rerandomize_preserves_primes(p: nat, q: nat, mu: nat, c: nat, r: nat)
    requires
        is_prime_spec(p),
        is_prime_spec(q),
        p != q,
        r > 0,
        gcd_nat(r, (p * q) as nat) == 1,
    ensures
        dec_spec(
            ((p - 1) * (q - 1)) as nat,
            mu,
            (p * q) as nat,
            (c * pow_mod(r, (p * q) as nat, ((p * q) * (p * q)) as nat)) % (((p * q) * (p
                * q)) as nat),
        ) == dec_spec(((p - 1) * (q - 1)) as nat, mu, (p * q) as nat, c),
{
    let n = (p * q) as nat;
    assert(n >= 4) by (nonlinear_arith)
        requires
            n == p * q,
            p >= 2,
            q >= 2,
    ;
    lemma_randomizer_identity(p, q, r);
    lemma_rerandomize_preserves(n, ((p - 1) * (q - 1)) as nat, mu, c, r);
}

} // verus!
