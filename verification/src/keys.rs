//! Key and ciphertext value objects.
//!
//! All integer fields are decimal strings; see `crate::decimal` for the
//! canonical form and `crate` for the invariants a generated pair satisfies.

use vstd::prelude::*;

verus! {

/// The public half of a key pair: modulus `p`, generator `g`, and the
/// public value `h = g^x mod p`.
#[derive(Debug)]
pub struct PublicKey {
    pub p: String,
    pub g: String,
    pub h: String,
}

impl PublicKey {
    /// A key with all fields empty, to be filled in by the caller.
    pub fn empty() -> (k: PublicKey)
        ensures
            k.p@ == Seq::<char>::empty(),
            k.g@ == Seq::<char>::empty(),
            k.h@ == Seq::<char>::empty(),
    {
        PublicKey { p: String::new(), g: String::new(), h: String::new() }
    }

    /// A key with the given field values.
    pub fn new(p: String, g: String, h: String) -> (k: PublicKey)
        ensures
            k.p == p,
            k.g == g,
            k.h == h,
    {
        PublicKey { p, g, h }
    }
}

/// The private half of a key pair: the group parameters of the paired
/// public key together with the secret exponent `x`.
#[derive(Debug)]
pub struct PrivateKey {
    pub p: String,
    pub g: String,
    pub x: String,
}

impl PrivateKey {
    /// A key with all fields empty, to be filled in by the caller.
    pub fn empty() -> (k: PrivateKey)
        ensures
            k.p@ == Seq::<char>::empty(),
            k.g@ == Seq::<char>::empty(),
            k.x@ == Seq::<char>::empty(),
    {
        PrivateKey { p: String::new(), g: String::new(), x: String::new() }
    }

    /// A key with the given field values.
    pub fn new(p: String, g: String, x: String) -> (k: PrivateKey)
        ensures
            k.p == p,
            k.g == g,
            k.x == x,
    {
        PrivateKey { p, g, x }
    }
}

/// Sanity check on a key pair: the group parameters of the two halves
/// agree and the public value is not literally the secret exponent.
pub fn check(pair: (PublicKey, PrivateKey)) -> (r: bool)
    ensures
        r == (pair.0.p@ == pair.1.p@ && pair.0.g@ == pair.1.g@ && pair.0.h@ != pair.1.x@),
{
    let (public_key, private_key) = pair;

    public_key.p == private_key.p && public_key.g == private_key.g && !(public_key.h
        == private_key.x)
}

/// A ciphertext pair `(c1, c2) = (g^r mod p, h^r * m mod p)`.
#[derive(Debug)]
pub struct Cipher {
    pub c1: String,
    pub c2: String,
}

impl Cipher {
    /// A ciphertext with both fields empty, to be filled in by the caller.
    pub fn empty() -> (c: Cipher)
        ensures
            c.c1@ == Seq::<char>::empty(),
            c.c2@ == Seq::<char>::empty(),
    {
        Cipher { c1: String::new(), c2: String::new() }
    }

    /// A ciphertext with the given components.
    pub fn new(c1: String, c2: String) -> (c: Cipher)
        ensures
            c.c1 == c1,
            c.c2 == c2,
    {
        Cipher { c1, c2 }
    }
}

} // verus!
