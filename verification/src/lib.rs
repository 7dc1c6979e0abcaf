//! ElGamal public-key encryption over the multiplicative group modulo a
//! safe prime, restricted to the quadratic-residue subgroup.
//!
//! Keys and ciphertexts carry their integers as decimal strings; the
//! arbitrary-precision arithmetic itself is delegated to OpenSSL big
//! numbers behind the small trusted boundary in `bignum`.

mod bignum;
pub mod decimal;
pub mod elgamal;
pub mod keys;

use vstd::prelude::*;
use vstd::arithmetic::div_mod::{
    lemma_mod_multiples_vanish,
    lemma_mul_mod_noop_general,
    lemma_small_mod,
};
use vstd::arithmetic::power::{
    lemma1_pow,
    lemma_pow_adds,
    lemma_pow_mod_noop,
    lemma_pow_multiplies,
    lemma_square_is_pow2,
    pow,
};
use vstd::arithmetic::power2::{lemma2_to64, lemma_pow2_strictly_increases, pow2};
use crate::decimal::{
    dec_check,
    dec_lt,
    dec_value,
    is_dec_string,
    is_signed_dec_string,
    lemma_dec_string_parses_itself,
    lemma_dec_value_single,
    lemma_signed_dec_string_no_nul,
    lemma_signed_nonneg_is_canonical,
    no_nul,
    parsed_int,
    parses_as_int,
    signed_dec_value,
};
use openssl::error::ErrorStack;

verus! {

/// Smallest supported bit length for key generation.
pub const MIN_BITS: i32 = 6;

/// Largest supported bit length for key generation.
pub const MAX_BITS: i32 = 1024;

/// Ceiling on the rejection-sampling loop of the generator search. The
/// expected number of draws is about two; the ceiling only guards against a
/// corrupted entropy source making the loop spin forever.
const ROOT_SEARCH_CAP: usize = 100000;

/// Errors of this library: a rejected argument, or a failure surfaced by
/// the big-number backend.
#[derive(Debug, Clone)]
pub enum ElgamalError {
    InvalidArgument,
    Parse(ErrorStack),
}

impl From<ErrorStack> for ElgamalError {
    fn from(err: ErrorStack) -> ElgamalError {
        ElgamalError::Parse(err)
    }
}

impl vstd::std_specs::convert::FromSpecImpl<ErrorStack> for ElgamalError {
    open spec fn obeys_from_spec() -> bool {
        true
    }

    open spec fn from_spec(err: ErrorStack) -> ElgamalError {
        ElgamalError::Parse(err)
    }
}

/// `n` has no divisor strictly between 1 and itself.
pub open spec fn is_prime(n: int) -> bool {
    n >= 2 && forall|d: int| 2 <= d < n ==> #[trigger] (n % d) != 0
}

/// The order of the quadratic-residue subgroup modulo an odd prime `p`.
pub open spec fn subgroup_order(p: int) -> int {
    (p - 1) / 2
}

/// Well-formed group parameters: an odd modulus of at least 5 and a
/// generator that lies in the subgroup of order `(p-1)/2`.
pub open spec fn group_params_wf(p: int, g: int) -> bool {
    &&& p >= 5
    &&& p % 2 == 1
    &&& 2 <= g <= p - 1
    &&& pow(g, subgroup_order(p) as nat) % p == 1
}

/// Well-formed public key: canonical fields, well-formed group parameters,
/// and a public value reduced modulo `p`.
pub open spec fn public_key_wf(k: keys::PublicKey) -> bool {
    &&& is_dec_string(k.p@)
    &&& is_dec_string(k.g@)
    &&& is_dec_string(k.h@)
    &&& group_params_wf(dec_value(k.p@), dec_value(k.g@))
    &&& 0 <= dec_value(k.h@) < dec_value(k.p@)
}

/// Well-formed key pair: both halves share the group parameters, the
/// secret exponent is in [2, p-2], and the public value is `g^x mod p`.
pub open spec fn key_pair_wf(pk: keys::PublicKey, sk: keys::PrivateKey) -> bool {
    &&& public_key_wf(pk)
    &&& is_dec_string(sk.p@)
    &&& is_dec_string(sk.g@)
    &&& is_dec_string(sk.x@)
    &&& sk.p@ == pk.p@
    &&& sk.g@ == pk.g@
    &&& 2 <= dec_value(sk.x@) <= dec_value(sk.p@) - 2
    &&& dec_value(pk.h@) == pow(dec_value(pk.g@), dec_value(sk.x@) as nat) % dec_value(pk.p@)
}

/// A key pair as produced by `generate_keys` for the requested bit length:
/// well formed, with a safe-prime modulus of exactly that bit length.
pub open spec fn generated_pair_wf(pk: keys::PublicKey, sk: keys::PrivateKey, bits: i32) -> bool {
    &&& key_pair_wf(pk, sk)
    &&& is_prime(dec_value(pk.p@))
    &&& is_prime(subgroup_order(dec_value(pk.p@)))
    &&& pow2((bits - 1) as nat) <= dec_value(pk.p@) < pow2(bits as nat)
}

/// `(c1, c2)` is the encryption of `m` under `(p, g, h)` with ephemeral
/// exponent `r`.
pub open spec fn encrypts(p: int, g: int, h: int, m: int, r: int, c1: int, c2: int) -> bool {
    &&& c1 == pow(g, r as nat) % p
    &&& c2 == (pow(h, r as nat) % p) * m % p
}

/// The value `decrypt` computes from a ciphertext: the shared secret
/// `s = c1^x mod p` is inverted through Fermat's little theorem as
/// `s^(p-2) mod p`, and multiplied into `c2`.
pub open spec fn decrypt_value(p: int, x: int, c1: int, c2: int) -> int
    recommends
        p >= 2,
        x >= 0,
{
    let s = pow(c1, x as nat) % p;
    (c2 * (pow(s, (p - 2) as nat) % p)) % p
}

/// The string has a leading minus sign.
fn is_negative(s: &str) -> (b: bool)
    ensures
        b == (s@.len() >= 1 && s@[0] == '-'),
{
    if s.unicode_len() == 0 {
        false
    } else {
        s.get_char(0) == '-'
    }
}

/// The string contains a NUL character, which the big-number parser
/// cannot take.
fn has_nul(s: &str) -> (b: bool)
    ensures
        b == exists|i: int| 0 <= i < s@.len() && s@[i] == '\0',
{
    let n = s.unicode_len();
    let mut i: usize = 0;
    while i < n
        invariant
            i <= n,
            n == s@.len(),
            forall|j: int| 0 <= j < i ==> s@[j] != '\0',
        decreases n - i,
    {
        if s.get_char(i) == '\0' {
            return true;
        }
        i += 1;
    }
    false
}

/// Canonical decimal form of `s`: `s` itself when it is already canonical,
/// and otherwise whatever the big-number parser makes of it, so that inputs
/// such as a redundant leading zero keep the reference behavior.
fn to_canonical(s: &str) -> (r: Result<String, ElgamalError>)
    ensures
        is_dec_string(s@) ==> (r matches Ok(t) && t@ == s@),
        r matches Ok(t) ==> is_signed_dec_string(t@),
        r matches Ok(t) ==> parses_as_int(s@) && signed_dec_value(t@) == parsed_int(s@),
        no_nul(s@) ==> (r matches Err(e) ==> e is Parse),
{
    broadcast use lemma_signed_dec_string_no_nul;

    if dec_check(s) {
        proof {
            lemma_dec_string_parses_itself(s@);
        }
        Ok(s.to_owned())
    } else if has_nul(s) {
        Err(ElgamalError::InvalidArgument)
    } else {
        match bignum::bn_from_dec(s) {
            Ok(t) => Ok(t),
            Err(e) => Err(ElgamalError::from(e)),
        }
    }
}

/// If a witness `w` satisfies `w^q ≡ p-1 (mod p)`, then its square modulo
/// `p` lies in the subgroup of order `q`, because `(p-1)^2 ≡ 1 (mod p)`.
proof fn lemma_squared_witness_in_subgroup(p: int, q: int, w: int, g: int)
    requires
        p >= 2,
        q >= 0,
        pow(w, q as nat) % p == p - 1,
        g == pow(w, 2) % p,
    ensures
        pow(g, q as nat) % p == 1,
{
    let qn = q as nat;
    lemma_pow_mod_noop(pow(w, 2), qn, p);
    assert(pow(g, qn) % p == pow(pow(w, 2), qn) % p);
    lemma_pow_multiplies(w, 2, qn);
    lemma_pow_multiplies(w, qn, 2);
    assert(2 * qn == qn * 2);
    assert(pow(pow(w, 2), qn) == pow(pow(w, qn), 2));
    lemma_pow_mod_noop(pow(w, qn), 2, p);
    assert(pow(pow(w, qn), 2) % p == pow(p - 1, 2) % p);
    lemma_square_is_pow2(p - 1);
    assert((p - 1) * (p - 1) == p * (p - 2) + 1) by (nonlinear_arith);
    lemma_mod_multiples_vanish(p - 2, 1, p);
    lemma_small_mod(1, p as nat);
}

/// Finds a generator of the quadratic-residue subgroup of the group
/// modulo the safe prime `p` by rejection sampling: a random `w` in
/// [2, p-1] is accepted when `w^q mod p == p - 1`, and its square modulo
/// `p` is returned. For a genuine safe prime, `w^q mod p` is always 1 or
/// p-1, so this acceptance test is the usual `w^q mod p != 1`; testing for
/// p-1 makes the subgroup identity `g^q ≡ (p-1)^2 ≡ 1 (mod p)` checkable
/// without appeal to primality.
fn find_primitive_root_mod_exp(p: &str) -> (r: Result<String, ElgamalError>)
    requires
        is_dec_string(p@),
        dec_value(p@) == 2 || (dec_value(p@) >= 5 && dec_value(p@) % 2 == 1),
    ensures
        r matches Ok(g) ==> {
            &&& is_dec_string(g@)
            &&& dec_value(p@) == 2 ==> dec_value(g@) == 0
            &&& dec_value(p@) >= 5 ==> group_params_wf(dec_value(p@), dec_value(g@))
        },
        r matches Err(e) ==> e is Parse,
{
    broadcast use lemma_signed_dec_string_no_nul;

    proof {
        reveal_strlit("1");
        reveal_strlit("2");
        reveal_strlit("5");
        lemma_dec_value_single("1"@);
        lemma_dec_value_single("2"@);
        lemma_dec_value_single("5"@);
    }
    if dec_lt(p, "5") {
        // the degenerate boundary p = 2: return 2^2 mod 2
        let g = match bignum::bn_mod_exp(p, "2", p) {
            Ok(v) => v,
            Err(e) => {
                return Err(ElgamalError::from(e));
            },
        };
        proof {
            lemma_square_is_pow2(2);
        }
        return Ok(g);
    }
    let ghost pv = dec_value(p@);
    // the prime divisors of p-1 are 2 and q = (p-1)/2, since p is safe
    let p_1 = match bignum::bn_sub(p, "1") {
        Ok(v) => v,
        Err(e) => {
            return Err(ElgamalError::from(e));
        },
    };
    let q = match bignum::bn_div(p_1.as_str(), "2") {
        Ok(v) => v,
        Err(e) => {
            return Err(ElgamalError::from(e));
        },
    };
    let p_2 = match bignum::bn_sub(p, "2") {
        Ok(v) => v,
        Err(e) => {
            return Err(ElgamalError::from(e));
        },
    };
    let mut attempts: usize = 0;
    while attempts < ROOT_SEARCH_CAP
        invariant
            is_dec_string(p@),
            pv == dec_value(p@),
            pv >= 5,
            pv % 2 == 1,
            is_dec_string(p_1@),
            dec_value(p_1@) == pv - 1,
            is_dec_string(q@),
            dec_value(q@) == (pv - 1) / 2,
            is_dec_string(p_2@),
            dec_value(p_2@) == pv - 2,
        decreases ROOT_SEARCH_CAP - attempts,
    {
        proof {
            reveal_strlit("2");
            lemma_dec_value_single("2"@);
        }
        // w is random with 2 <= w <= p - 1, drawn as 0 <= w < p - 2 plus 2
        let w0 = match bignum::bn_rand_below(p_2.as_str()) {
            Ok(v) => v,
            Err(e) => {
                return Err(ElgamalError::from(e));
            },
        };
        let w = match bignum::bn_add(w0.as_str(), "2") {
            Ok(v) => v,
            Err(e) => {
                return Err(ElgamalError::from(e));
            },
        };
        let r = match bignum::bn_mod_exp(w.as_str(), q.as_str(), p) {
            Ok(v) => v,
            Err(e) => {
                return Err(ElgamalError::from(e));
            },
        };
        if r == p_1 {
            let g = match bignum::bn_mod_exp(w.as_str(), "2", p) {
                Ok(v) => v,
                Err(e) => {
                    return Err(ElgamalError::from(e));
                },
            };
            if !dec_lt(g.as_str(), "2") {
                proof {
                    lemma_squared_witness_in_subgroup(
                        pv,
                        (pv - 1) / 2,
                        dec_value(w@),
                        dec_value(g@),
                    );
                }
                return Ok(g);
            }
        }
        attempts += 1;
    }
    Err(ElgamalError::Parse(bignum::bn_error()))
}

/// Generates a key pair over a fresh safe-prime group of the requested bit
/// length. Fails with `InvalidArgument` exactly when `bits` is outside
/// [6, 1024]; any other failure comes from the big-number backend.
pub fn generate_keys(bits: i32) -> (r: Result<(keys::PublicKey, keys::PrivateKey), ElgamalError>)
    ensures
        (r matches Err(e) && e is InvalidArgument) <==> !(MIN_BITS <= bits <= MAX_BITS),
        r matches Ok(ks) ==> generated_pair_wf(ks.0, ks.1, bits),
{
    broadcast use lemma_signed_dec_string_no_nul;

    if bits < MIN_BITS || bits > MAX_BITS {
        return Err(ElgamalError::InvalidArgument);
    }
    // p is a safe prime: p and (p-1)/2 are both prime
    let p = match bignum::bn_generate_safe_prime(bits) {
        Ok(v) => v,
        Err(e) => {
            return Err(ElgamalError::from(e));
        },
    };
    proof {
        lemma2_to64();
        if bits > 6 {
            lemma_pow2_strictly_increases(5, (bits - 1) as nat);
        }
        assert(dec_value(p@) >= 32);
        lemma_odd_prime_mod(dec_value(p@));
    }
    let g = match find_primitive_root_mod_exp(p.as_str()) {
        Ok(v) => v,
        Err(e) => {
            return Err(e);
        },
    };
    proof {
        reveal_strlit("2");
        reveal_strlit("3");
        lemma_dec_value_single("2"@);
        lemma_dec_value_single("3"@);
    }
    // x is random with 2 <= x <= p - 2, drawn as 0 <= x < p - 3 plus 2
    let p_3 = match bignum::bn_sub(p.as_str(), "3") {
        Ok(v) => v,
        Err(e) => {
            return Err(ElgamalError::from(e));
        },
    };
    let x0 = match bignum::bn_rand_below(p_3.as_str()) {
        Ok(v) => v,
        Err(e) => {
            return Err(ElgamalError::from(e));
        },
    };
    let x = match bignum::bn_add(x0.as_str(), "2") {
        Ok(v) => v,
        Err(e) => {
            return Err(ElgamalError::from(e));
        },
    };
    // h = g ^ x mod p
    let h = match bignum::bn_mod_exp(g.as_str(), x.as_str(), p.as_str()) {
        Ok(v) => v,
        Err(e) => {
            return Err(ElgamalError::from(e));
        },
    };
    Ok(
        (
            keys::PublicKey::new(p.clone(), g.clone(), h),
            keys::PrivateKey::new(p, g, x),
        ),
    )
}

/// An odd number's remainder modulo 2 is 1; stated for the safe-prime
/// modulus so that `subgroup_order` is exact.
proof fn lemma_odd_prime_mod(p: int)
    requires
        p >= 2,
        p % 2 == 1,
    ensures
        2 * subgroup_order(p) == p - 1,
{
    assert(p == 2 * ((p - 1) / 2) + 1);
}

/// Encrypts a plaintext integer, given as a decimal string, under a public
/// key. For a well-formed key and a canonical message the call fails with
/// `InvalidArgument` exactly when the message is outside [1, p]; on success
/// the ciphertext is `(g^r mod p, (h^r mod p) * m mod p)` for some fresh
/// ephemeral exponent `r` in [0, p-1).
pub fn encrypt(key: &keys::PublicKey, message: &str) -> (r: Result<keys::Cipher, ElgamalError>)
    ensures
        public_key_wf(*key) && is_dec_string(message@) ==> {
            let pv = dec_value(key.p@);
            let mv = dec_value(message@);
            &&& ((r matches Err(e) && e is InvalidArgument) <==> (mv < 1 || mv > pv))
            &&& (r matches Ok(c) ==> {
                &&& 1 <= mv <= pv
                &&& is_dec_string(c.c1@)
                &&& is_dec_string(c.c2@)
                &&& exists|rr: int|
                    0 <= rr < pv - 1 && encrypts(
                        pv,
                        dec_value(key.g@),
                        dec_value(key.h@),
                        mv,
                        rr,
                        dec_value(c.c1@),
                        dec_value(c.c2@),
                    )
            })
        },
        public_key_wf(*key) && parses_as_int(message@) && no_nul(message@) ==> {
            let pv = dec_value(key.p@);
            let mv = parsed_int(message@);
            &&& ((r matches Err(e) && e is InvalidArgument) ==> (mv < 1 || mv > pv))
            &&& (r matches Ok(c) ==> {
                &&& 1 <= mv <= pv
                &&& is_dec_string(c.c1@)
                &&& is_dec_string(c.c2@)
                &&& exists|rr: int|
                    0 <= rr < pv - 1 && encrypts(
                        pv,
                        dec_value(key.g@),
                        dec_value(key.h@),
                        mv,
                        rr,
                        dec_value(c.c1@),
                        dec_value(c.c2@),
                    )
            })
        },
{
    broadcast use lemma_signed_dec_string_no_nul;

    proof {
        reveal_strlit("1");
        lemma_dec_value_single("1"@);
    }
    let p = match to_canonical(key.p.as_str()) {
        Ok(v) => v,
        Err(e) => {
            return Err(e);
        },
    };
    let g = match to_canonical(key.g.as_str()) {
        Ok(v) => v,
        Err(e) => {
            return Err(e);
        },
    };
    let h = match to_canonical(key.h.as_str()) {
        Ok(v) => v,
        Err(e) => {
            return Err(e);
        },
    };
    let m = match to_canonical(message) {
        Ok(v) => v,
        Err(e) => {
            return Err(e);
        },
    };
    // m must satisfy 1 <= m <= p
    if is_negative(m.as_str()) {
        return Err(ElgamalError::InvalidArgument);
    }
    if dec_lt(m.as_str(), "1") {
        return Err(ElgamalError::InvalidArgument);
    }
    if is_negative(p.as_str()) {
        return Err(ElgamalError::InvalidArgument);
    }
    if dec_lt(p.as_str(), m.as_str()) {
        return Err(ElgamalError::InvalidArgument);
    }
    encrypt_with(p.as_str(), g.as_str(), h.as_str(), m.as_str())
}

/// Forms the ciphertext for a plaintext already validated to 1 <= m <= p:
/// draws the ephemeral exponent and computes `(g^r mod p, h^r * m mod p)`.
fn encrypt_with(p: &str, g: &str, h: &str, m: &str) -> (r: Result<keys::Cipher, ElgamalError>)
    requires
        is_dec_string(p@),
        is_dec_string(m@),
        is_signed_dec_string(g@),
        is_signed_dec_string(h@),
        1 <= dec_value(m@) <= dec_value(p@),
    ensures
        r matches Err(e) ==> e is Parse,
        r matches Ok(c) ==> is_dec_string(g@) && is_dec_string(h@) ==> {
            &&& is_dec_string(c.c1@)
            &&& is_dec_string(c.c2@)
            &&& exists|rr: int|
                0 <= rr < dec_value(p@) - 1 && encrypts(
                    dec_value(p@),
                    dec_value(g@),
                    dec_value(h@),
                    dec_value(m@),
                    rr,
                    dec_value(c.c1@),
                    dec_value(c.c2@),
                )
        },
{
    broadcast use lemma_signed_dec_string_no_nul;

    proof {
        reveal_strlit("1");
        lemma_dec_value_single("1"@);
    }
    // r is random in [0, p-1)
    let p_1 = match bignum::bn_sub(p, "1") {
        Ok(v) => v,
        Err(e) => {
            return Err(ElgamalError::from(e));
        },
    };
    let rr = match bignum::bn_rand_below(p_1.as_str()) {
        Ok(v) => v,
        Err(e) => {
            return Err(ElgamalError::from(e));
        },
    };
    // c1 = g^r mod p
    let c1 = match bignum::bn_mod_exp(g, rr.as_str(), p) {
        Ok(v) => v,
        Err(e) => {
            return Err(ElgamalError::from(e));
        },
    };
    // c2 = (h^r * m) mod p
    let c2_temp = match bignum::bn_mod_exp(h, rr.as_str(), p) {
        Ok(v) => v,
        Err(e) => {
            return Err(ElgamalError::from(e));
        },
    };
    let c2 = match bignum::bn_mod_mul(c2_temp.as_str(), m, p) {
        Ok(v) => v,
        Err(e) => {
            return Err(ElgamalError::from(e));
        },
    };
    proof {
        if is_dec_string(g@) && is_dec_string(h@) {
            assert(encrypts(
                dec_value(p@),
                dec_value(g@),
                dec_value(h@),
                dec_value(m@),
                dec_value(rr@),
                dec_value(c1@),
                dec_value(c2@),
            ));
        }
    }
    Ok(keys::Cipher::new(c1, c2))
}

/// Decrypts a ciphertext under a private key. For canonical key and
/// ciphertext fields with p >= 2, a successful result is the decimal
/// string of `c2 * (c1^x)^(p-2) mod p`.
pub fn decrypt(key: &keys::PrivateKey, cipher: &keys::Cipher) -> (r: Result<String, ElgamalError>)
    ensures
        (is_dec_string(key.p@) && is_dec_string(key.x@) && is_dec_string(cipher.c1@)
            && is_dec_string(cipher.c2@) && dec_value(key.p@) >= 2) ==> (r matches Ok(m) ==> {
            &&& is_dec_string(m@)
            &&& dec_value(m@) == decrypt_value(
                dec_value(key.p@),
                dec_value(key.x@),
                dec_value(cipher.c1@),
                dec_value(cipher.c2@),
            )
        }),
        (is_dec_string(key.p@) && is_dec_string(key.x@) && is_dec_string(cipher.c1@)
            && is_dec_string(cipher.c2@)) ==> (r matches Err(e) ==> e is Parse),
        (parses_as_int(key.p@) && parses_as_int(key.x@) && parses_as_int(cipher.c1@)
            && parses_as_int(cipher.c2@) && no_nul(key.p@) && no_nul(key.x@) && no_nul(cipher.c1@)
            && no_nul(cipher.c2@) && parsed_int(key.p@) >= 2 && parsed_int(key.x@) >= 0
            && parsed_int(cipher.c1@) >= 0 && parsed_int(cipher.c2@) >= 0) ==> (r matches Ok(m)
            ==> {
            &&& is_dec_string(m@)
            &&& dec_value(m@) == decrypt_value(
                parsed_int(key.p@),
                parsed_int(key.x@),
                parsed_int(cipher.c1@),
                parsed_int(cipher.c2@),
            )
        }),
{
    broadcast use lemma_signed_dec_string_no_nul;

    proof {
        reveal_strlit("2");
        lemma_dec_value_single("2"@);
    }
    let p = match to_canonical(key.p.as_str()) {
        Ok(v) => v,
        Err(e) => {
            return Err(e);
        },
    };
    let x = match to_canonical(key.x.as_str()) {
        Ok(v) => v,
        Err(e) => {
            return Err(e);
        },
    };
    let c1 = match to_canonical(cipher.c1.as_str()) {
        Ok(v) => v,
        Err(e) => {
            return Err(e);
        },
    };
    let c2 = match to_canonical(cipher.c2.as_str()) {
        Ok(v) => v,
        Err(e) => {
            return Err(e);
        },
    };
    proof {
        if parses_as_int(key.p@) && parses_as_int(key.x@) && parses_as_int(cipher.c1@)
            && parses_as_int(cipher.c2@) && no_nul(key.p@) && no_nul(key.x@) && no_nul(cipher.c1@)
            && no_nul(cipher.c2@) && parsed_int(key.p@) >= 2 && parsed_int(key.x@) >= 0
            && parsed_int(cipher.c1@) >= 0 && parsed_int(cipher.c2@) >= 0 {
            lemma_signed_nonneg_is_canonical(p@);
            lemma_signed_nonneg_is_canonical(x@);
            lemma_signed_nonneg_is_canonical(c1@);
            lemma_signed_nonneg_is_canonical(c2@);
        }
    }
    let p_2 = match bignum::bn_sub(p.as_str(), "2") {
        Ok(v) => v,
        Err(e) => {
            return Err(ElgamalError::from(e));
        },
    };
    // s = c1^x mod p
    let s = match bignum::bn_mod_exp(c1.as_str(), x.as_str(), p.as_str()) {
        Ok(v) => v,
        Err(e) => {
            return Err(ElgamalError::from(e));
        },
    };
    // m = (c2 * s^(p-2)) mod p, by Fermat s^(p-2) is the inverse of s mod p
    let s_inv = match bignum::bn_mod_exp(s.as_str(), p_2.as_str(), p.as_str()) {
        Ok(v) => v,
        Err(e) => {
            return Err(ElgamalError::from(e));
        },
    };
    let res = match bignum::bn_mod_mul(c2.as_str(), s_inv.as_str(), p.as_str()) {
        Ok(v) => v,
        Err(e) => {
            return Err(ElgamalError::from(e));
        },
    };
    Ok(res)
}

/// Round-trip law over the group values: a ciphertext formed as `encrypt`
/// forms it, under parameters whose generator lies in the subgroup of
/// order `(p-1)/2`, decrypts to the plaintext for every plaintext
/// 1 <= m <= p - 1 and every ephemeral exponent r >= 0.
pub proof fn lemma_round_trip(p: int, g: int, x: int, h: int, m: int, r: int, c1: int, c2: int)
    requires
        p >= 3,
        p % 2 == 1,
        g >= 0,
        x >= 0,
        r >= 0,
        pow(g, subgroup_order(p) as nat) % p == 1,
        h == pow(g, x as nat) % p,
        1 <= m <= p - 1,
        c1 == pow(g, r as nat) % p,
        c2 == (pow(h, r as nat) % p) * m % p,
    ensures
        decrypt_value(p, x, c1, c2) == m,
{
    let xn = x as nat;
    let rn = r as nat;
    let qi = subgroup_order(p);
    let qn = qi as nat;
    let e2 = (p - 2) as nat;
    lemma_odd_prime_mod(p);

    // s = c1^x mod p = g^(r*x) mod p
    let s = pow(c1, xn) % p;
    lemma_pow_mod_noop(pow(g, rn), xn, p);
    lemma_pow_multiplies(g, rn, xn);
    assert(s == pow(g, rn * xn) % p);

    // s^(p-2) mod p = g^(r*x*(p-2)) mod p
    lemma_pow_mod_noop(pow(g, rn * xn), e2, p);
    lemma_pow_multiplies(g, rn * xn, e2);
    assert(pow(s, e2) % p == pow(g, (rn * xn) * e2) % p);

    // c2 = (g^(x*r) * m) mod p
    lemma_pow_mod_noop(pow(g, xn), rn, p);
    lemma_pow_multiplies(g, xn, rn);
    assert(pow(h, rn) % p == pow(g, xn * rn) % p);
    let a = pow(g, xn * rn);
    lemma_mul_mod_noop_general(a, m, p);
    assert(c2 == (a * m) % p);

    // (c2 * s^(p-2)) mod p = (m * g^(r*x*(p-1))) mod p
    let b = pow(g, (rn * xn) * e2);
    lemma_mul_mod_noop_general(a * m, b, p);
    assert(decrypt_value(p, x, c1, c2) == ((a * m) * b) % p);
    assert((a * m) * b == m * (a * b)) by (nonlinear_arith);
    lemma_pow_adds(g, xn * rn, (rn * xn) * e2);
    assert(a * b == pow(g, xn * rn + (rn * xn) * e2));
    assert(xn * rn + (rn * xn) * e2 == qn * (2 * (xn * rn))) by (nonlinear_arith)
        requires
            2 * qi == p - 1,
            qn == qi,
            e2 == p - 2,
            p >= 3,
            xn >= 0,
            rn >= 0,
    ;

    // g^(q * even) mod p = 1, since g^q mod p = 1
    let c = 2 * (xn * rn);
    lemma_pow_multiplies(g, qn, c as nat);
    lemma_pow_mod_noop(pow(g, qn), c as nat, p);
    assert(pow(g, qn * (c as nat)) % p == pow(pow(g, qn) % p, c as nat) % p);
    lemma1_pow(c as nat);
    lemma_small_mod(1, p as nat);
    assert(pow(g, xn * rn + (rn * xn) * e2) % p == 1);

    // so the decryption is (m * 1) mod p = m
    lemma_mul_mod_noop_general(m, pow(g, xn * rn + (rn * xn) * e2), p);
    assert(decrypt_value(p, x, c1, c2) == (m * 1) % p);
    lemma_small_mod(m as nat, p as nat);
}

/// Round-trip law over key pairs: any ciphertext that `encrypt` can return
/// for a message `1 <= m <= p - 1` under a well-formed key pair decrypts
/// to that message under the paired private key.
pub proof fn lemma_encrypt_then_decrypt(
    pk: keys::PublicKey,
    sk: keys::PrivateKey,
    m: int,
    r: int,
    c1: int,
    c2: int,
)
    requires
        key_pair_wf(pk, sk),
        1 <= m <= dec_value(pk.p@) - 1,
        0 <= r,
        encrypts(dec_value(pk.p@), dec_value(pk.g@), dec_value(pk.h@), m, r, c1, c2),
    ensures
        decrypt_value(dec_value(sk.p@), dec_value(sk.x@), c1, c2) == m,
{
    lemma_round_trip(
        dec_value(pk.p@),
        dec_value(pk.g@),
        dec_value(sk.x@),
        dec_value(pk.h@),
        m,
        r,
        c1,
        c2,
    );
}

/// Encryption is randomized, but harmlessly so: two ciphertexts of the
/// same plaintext under the same well-formed key pair, formed with any two
/// ephemeral exponents, decrypt to the same value.
pub proof fn lemma_reencryption_decrypts_alike(
    pk: keys::PublicKey,
    sk: keys::PrivateKey,
    m: int,
    r1: int,
    c1a: int,
    c2a: int,
    r2: int,
    c1b: int,
    c2b: int,
)
    requires
        key_pair_wf(pk, sk),
        1 <= m <= dec_value(pk.p@) - 1,
        0 <= r1,
        0 <= r2,
        encrypts(dec_value(pk.p@), dec_value(pk.g@), dec_value(pk.h@), m, r1, c1a, c2a),
        encrypts(dec_value(pk.p@), dec_value(pk.g@), dec_value(pk.h@), m, r2, c1b, c2b),
    ensures
        decrypt_value(dec_value(sk.p@), dec_value(sk.x@), c1a, c2a) == decrypt_value(
            dec_value(sk.p@),
            dec_value(sk.x@),
            c1b,
            c2b,
        ),
{
    lemma_encrypt_then_decrypt(pk, sk, m, r1, c1a, c2a);
    lemma_encrypt_then_decrypt(pk, sk, m, r2, c1b, c2b);
}

} // verus!
