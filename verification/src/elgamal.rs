//! Key generation with caller-provided key slots.
//!
//! This module keeps an older shape of the key-generation interface: its
//! key types start out empty and `generate_keys` fills both halves of the
//! pair in place. The group arithmetic is the same as the crate root's.

use vstd::prelude::*;
use crate::{generated_pair_wf, MAX_BITS, MIN_BITS};
pub use crate::ElgamalError;

verus! {

/// The public half of a key pair, filled in by `generate_keys`.
#[derive(Debug)]
pub struct PublicKey {
    pub p: String,
    pub g: String,
    pub h: String,
}

impl PublicKey {
    /// A key with all fields empty, to be filled in by `generate_keys`.
    pub fn new() -> (k: PublicKey)
        ensures
            k.p@ == Seq::<char>::empty(),
            k.g@ == Seq::<char>::empty(),
            k.h@ == Seq::<char>::empty(),
    {
        PublicKey { p: String::new(), g: String::new(), h: String::new() }
    }
}

/// The private half of a key pair, filled in by `generate_keys`.
#[derive(Debug)]
pub struct PrivateKey {
    pub p: String,
    pub g: String,
    pub x: String,
}

impl PrivateKey {
    /// A key with all fields empty, to be filled in by `generate_keys`.
    pub fn new() -> (k: PrivateKey)
        ensures
            k.p@ == Seq::<char>::empty(),
            k.g@ == Seq::<char>::empty(),
            k.x@ == Seq::<char>::empty(),
    {
        PrivateKey { p: String::new(), g: String::new(), x: String::new() }
    }
}

/// Generates a key pair into the two caller-provided slots. On failure
/// both slots are left as they were.
pub fn generate_keys(bits: i32, public_key: &mut PublicKey, private_key: &mut PrivateKey) -> (r:
    Result<(), ElgamalError>)
    ensures
        (r matches Err(e) && e is InvalidArgument) <==> !(MIN_BITS <= bits <= MAX_BITS),
        r matches Ok(v) ==> {
            let pk = (crate::keys::PublicKey {
                p: final(public_key).p,
                g: final(public_key).g,
                h: final(public_key).h,
            });
            let sk = (crate::keys::PrivateKey {
                p: final(private_key).p,
                g: final(private_key).g,
                x: final(private_key).x,
            });
            generated_pair_wf(pk, sk, bits)
        },
        r matches Err(e) ==> *final(public_key) == *old(public_key) && *final(private_key) == *old(
            private_key,
        ),
{
    match crate::generate_keys(bits) {
        Ok(pair) => {
            let (pk, sk) = pair;
            public_key.p = pk.p;
            public_key.g = pk.g;
            public_key.h = pk.h;
            private_key.p = sk.p;
            private_key.g = sk.g;
            private_key.x = sk.x;
            Ok(())
        },
        Err(e) => Err(e),
    }
}

} // verus!
