//! Trusted boundary to OpenSSL's arbitrary-precision integers.
//!
//! Every function here converts between canonical decimal strings (see
//! `crate::decimal`) and `openssl::bn::BigNum`, makes one big-number
//! operation, and converts the result back. Verus believes the stated
//! contracts; nothing else in the crate is trusted.

use vstd::prelude::*;
use vstd::arithmetic::power::pow;
use vstd::arithmetic::power2::pow2;
use crate::decimal::{
    dec_value,
    is_dec_string,
    is_signed_dec_string,
    no_nul,
    parsed_int,
    parses_as_int,
    signed_dec_value,
};
use crate::is_prime;
use openssl::bn::{BigNum, BigNumContext};
use openssl::error::ErrorStack;

verus! {

#[verifier::external_type_specification]
#[verifier::external_body]
pub struct ExErrorStack(ErrorStack);

/// Relies on `ErrorStack`'s derived `Clone`; nothing is claimed of the
/// copy, it only lets the error enum of this crate be cloned.
pub assume_specification[ <ErrorStack as Clone>::clone ](e: &ErrorStack) -> ErrorStack;


/// Relies on `ErrorStack::get`, which drains OpenSSL's thread-local error
/// queue, to materialize an error value for reporting a failure of the
/// arithmetic backend.
#[verifier::external_body]
pub(crate) fn bn_error() -> ErrorStack {
    ErrorStack::get()
}

/// Relies on `BigNum::from_dec_str` (BN_dec2bn) and `to_dec_str`
/// (BN_bn2dec). BN_dec2bn reads an optional minus sign and then the
/// longest run of digits at the front of the string, and fails when that
/// run is empty; a canonical decimal string therefore parses to the number
/// it denotes and prints back unchanged. BN_bn2dec always prints an
/// optional minus sign (never on zero) followed by digits without leading
/// zeros. `from_dec_str` aborts on an interior NUL byte, so those inputs
/// are excluded.
#[verifier::external_body]
pub(crate) fn bn_from_dec(s: &str) -> (r: Result<String, ErrorStack>)
    requires
        no_nul(s@),
    ensures
        r matches Ok(v) ==> is_dec_string(s@) ==> v@ == s@,
        r matches Ok(v) ==> is_signed_dec_string(v@),
        r matches Ok(v) ==> parses_as_int(s@) && signed_dec_value(v@) == parsed_int(s@),
{
    let n = BigNum::from_dec_str(s)?;
    Ok(n.to_dec_str()?.to_string())
}

/// Relies on `BigNum::generate_prime` (BN_generate_prime_ex) with
/// `safe = true`: the result is a safe prime of exactly `bits` bits, that
/// is, a prime p with 2^(bits-1) <= p < 2^bits such that (p-1)/2 is also
/// prime. Primality is certified probabilistically by OpenSSL
/// (Miller-Rabin); this contract treats it as exact.
#[verifier::external_body]
pub(crate) fn bn_generate_safe_prime(bits: i32) -> (r: Result<String, ErrorStack>)
    requires
        6 <= bits <= 1024,
    ensures
        r matches Ok(v) ==> {
            &&& is_dec_string(v@)
            &&& pow2((bits - 1) as nat) <= dec_value(v@) < pow2(bits as nat)
            &&& dec_value(v@) % 2 == 1
            &&& is_prime(dec_value(v@))
            &&& is_prime((dec_value(v@) - 1) / 2)
        },
{
    let mut p = BigNum::new()?;
    p.generate_prime(bits, true, None, None)?;
    Ok(p.to_dec_str()?.to_string())
}

/// Relies on `BigNumRef::rand_range` (BN_rand_range): on success the
/// result is a cryptographically secure uniform draw from [0, upper), and
/// BN_rand_range fails when the range is zero or negative.
#[verifier::external_body]
pub(crate) fn bn_rand_below(upper: &str) -> (r: Result<String, ErrorStack>)
    requires
        no_nul(upper@),
    ensures
        r matches Ok(v) ==> is_signed_dec_string(v@),
        r matches Ok(v) ==> is_dec_string(upper@) ==> {
            &&& dec_value(upper@) >= 1
            &&& is_dec_string(v@)
            &&& 0 <= dec_value(v@) < dec_value(upper@)
        },
{
    let u = BigNum::from_dec_str(upper)?;
    let mut v = BigNum::new()?;
    u.rand_range(&mut v)?;
    Ok(v.to_dec_str()?.to_string())
}

/// Relies on `BigNumRef::checked_add` (BN_add): the result is the sum.
#[verifier::external_body]
pub(crate) fn bn_add(a: &str, b: &str) -> (r: Result<String, ErrorStack>)
    requires
        no_nul(a@),
        no_nul(b@),
    ensures
        r matches Ok(v) ==> is_signed_dec_string(v@),
        r matches Ok(v) ==> is_dec_string(a@) && is_dec_string(b@) ==> {
            &&& is_dec_string(v@)
            &&& dec_value(v@) == dec_value(a@) + dec_value(b@)
        },
{
    let an = BigNum::from_dec_str(a)?;
    let bn = BigNum::from_dec_str(b)?;
    let mut v = BigNum::new()?;
    v.checked_add(&an, &bn)?;
    Ok(v.to_dec_str()?.to_string())
}

/// Relies on `BigNumRef::checked_sub` (BN_sub): the result is the
/// difference.
#[verifier::external_body]
pub(crate) fn bn_sub(a: &str, b: &str) -> (r: Result<String, ErrorStack>)
    requires
        no_nul(a@),
        no_nul(b@),
    ensures
        r matches Ok(v) ==> is_signed_dec_string(v@),
        r matches Ok(v) ==> is_dec_string(a@) && is_dec_string(b@) && dec_value(a@) >= dec_value(
            b@,
        ) ==> {
            &&& is_dec_string(v@)
            &&& dec_value(v@) == dec_value(a@) - dec_value(b@)
        },
{
    let an = BigNum::from_dec_str(a)?;
    let bn = BigNum::from_dec_str(b)?;
    let mut v = BigNum::new()?;
    v.checked_sub(&an, &bn)?;
    Ok(v.to_dec_str()?.to_string())
}

/// Relies on `BigNumRef::checked_div` (BN_div): the result is the quotient
/// with the remainder discarded, which for nonnegative operands is the
/// floor; BN_div fails on a zero divisor.
#[verifier::external_body]
pub(crate) fn bn_div(a: &str, b: &str) -> (r: Result<String, ErrorStack>)
    requires
        no_nul(a@),
        no_nul(b@),
    ensures
        r matches Ok(v) ==> is_signed_dec_string(v@),
        r matches Ok(v) ==> is_dec_string(a@) && is_dec_string(b@) && dec_value(b@) >= 1 ==> {
            &&& is_dec_string(v@)
            &&& dec_value(v@) == dec_value(a@) / dec_value(b@)
        },
{
    let an = BigNum::from_dec_str(a)?;
    let bn = BigNum::from_dec_str(b)?;
    let mut ctx = BigNumContext::new()?;
    let mut v = BigNum::new()?;
    v.checked_div(&an, &bn, &mut ctx)?;
    Ok(v.to_dec_str()?.to_string())
}

/// Relies on `BigNumRef::mod_exp` (BN_mod_exp): the result is
/// base^exponent mod modulus, reduced to [0, modulus).
#[verifier::external_body]
pub(crate) fn bn_mod_exp(base: &str, exponent: &str, modulus: &str) -> (r: Result<
    String,
    ErrorStack,
>)
    requires
        no_nul(base@),
        no_nul(exponent@),
        no_nul(modulus@),
    ensures
        r matches Ok(v) ==> is_signed_dec_string(v@),
        r matches Ok(v) ==> is_dec_string(base@) && is_dec_string(exponent@) && is_dec_string(
            modulus@,
        ) && dec_value(modulus@) >= 1 ==> {
            &&& is_dec_string(v@)
            &&& dec_value(v@) == pow(dec_value(base@), dec_value(exponent@) as nat) % dec_value(
                modulus@,
            )
        },
{
    let bn = BigNum::from_dec_str(base)?;
    let en = BigNum::from_dec_str(exponent)?;
    let mn = BigNum::from_dec_str(modulus)?;
    let mut ctx = BigNumContext::new()?;
    let mut v = BigNum::new()?;
    v.mod_exp(&bn, &en, &mn, &mut ctx)?;
    Ok(v.to_dec_str()?.to_string())
}

/// Relies on `BigNumRef::mod_mul` (BN_mod_mul): the result is
/// (a * b) mod modulus, reduced to [0, modulus).
#[verifier::external_body]
pub(crate) fn bn_mod_mul(a: &str, b: &str, modulus: &str) -> (r: Result<String, ErrorStack>)
    requires
        no_nul(a@),
        no_nul(b@),
        no_nul(modulus@),
    ensures
        r matches Ok(v) ==> is_signed_dec_string(v@),
        r matches Ok(v) ==> is_dec_string(a@) && is_dec_string(b@) && is_dec_string(modulus@)
            && dec_value(modulus@) >= 1 ==> {
            &&& is_dec_string(v@)
            &&& dec_value(v@) == (dec_value(a@) * dec_value(b@)) % dec_value(modulus@)
        },
{
    let an = BigNum::from_dec_str(a)?;
    let bn = BigNum::from_dec_str(b)?;
    let mn = BigNum::from_dec_str(modulus)?;
    let mut ctx = BigNumContext::new()?;
    let mut v = BigNum::new()?;
    v.mod_mul(&an, &bn, &mn, &mut ctx)?;
    Ok(v.to_dec_str()?.to_string())
}

} // verus!
