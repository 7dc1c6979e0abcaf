use elgamal_encryption::{decrypt, encrypt, generate_keys, keys, ElgamalError};
use openssl::bn::{BigNum, BigNumContext};

#[test]
fn generate_keys_accepts_whole_bit_range() {
    for bits in [6, 7, 16, 32, 47, 64].iter() {
        let (public_key, private_key) = generate_keys(*bits).unwrap();
        assert_eq!(public_key.p, private_key.p);
        assert_eq!(public_key.g, private_key.g);
        // for a handful of group elements h may collide with x by chance,
        // so the inequality is only meaningful once the group is large
        if *bits >= 16 {
            assert_ne!(public_key.h, private_key.x);
        }
    }
}

#[test]
fn generate_keys_rejects_bits_below_minimum() {
    for bits in [-1, 0, 1, 5].iter() {
        let r = generate_keys(*bits);
        assert!(matches!(r, Err(ElgamalError::InvalidArgument)));
    }
}

#[test]
fn generate_keys_rejects_bits_above_maximum() {
    for bits in [1025, 2048, i32::MAX].iter() {
        let r = generate_keys(*bits);
        assert!(matches!(r, Err(ElgamalError::InvalidArgument)));
    }
}

#[test]
fn encrypt_rejects_zero_message() {
    let (public_key, _private_key) = generate_keys(8).unwrap();
    let r = encrypt(&public_key, "0");
    assert!(matches!(r, Err(ElgamalError::InvalidArgument)));
}

#[test]
fn encrypt_rejects_message_above_modulus() {
    let (public_key, _private_key) = generate_keys(8).unwrap();
    let p = BigNum::from_dec_str(&public_key.p).unwrap();
    let one = BigNum::from_u32(1).unwrap();
    let p_plus_1 = &p + &one;
    let r = encrypt(&public_key, &p_plus_1.to_dec_str().unwrap().to_string());
    assert!(matches!(r, Err(ElgamalError::InvalidArgument)));
}

#[test]
fn encrypt_accepts_message_equal_to_modulus() {
    // the reference behavior keeps the inclusive bound m <= p
    let (public_key, _private_key) = generate_keys(8).unwrap();
    let message = public_key.p.clone();
    let r = encrypt(&public_key, &message);
    assert!(r.is_ok());
}

#[test]
fn encrypt_rejects_negative_message() {
    let (public_key, _private_key) = generate_keys(8).unwrap();
    let r = encrypt(&public_key, "-3");
    assert!(matches!(r, Err(ElgamalError::InvalidArgument)));
}

#[test]
fn encrypt_rejects_garbage_message() {
    let (public_key, _private_key) = generate_keys(8).unwrap();
    let r = encrypt(&public_key, "not a number");
    assert!(r.is_err());
}

#[test]
fn encrypt_is_randomized_but_decrypts_the_same() {
    let (public_key, private_key) = generate_keys(47).unwrap();
    let message = "595858478";
    let first = encrypt(&public_key, message).unwrap();
    let second = encrypt(&public_key, message).unwrap();
    // fresh ephemeral randomness: a repeated ciphertext is overwhelmingly unlikely
    assert!(first.c1 != second.c1 || first.c2 != second.c2);
    assert_eq!(decrypt(&private_key, &first).unwrap(), message);
    assert_eq!(decrypt(&private_key, &second).unwrap(), message);
}

#[test]
fn generator_lies_in_subgroup_of_order_q() {
    for bits in [6, 8, 32].iter() {
        let (public_key, _private_key) = generate_keys(*bits).unwrap();
        let p = BigNum::from_dec_str(&public_key.p).unwrap();
        let g = BigNum::from_dec_str(&public_key.g).unwrap();
        let one = BigNum::from_u32(1).unwrap();
        let two = BigNum::from_u32(2).unwrap();
        let p_1 = &p - &one;
        let q = &p_1 / &two;
        let mut ctx = BigNumContext::new().unwrap();
        let mut r = BigNum::new().unwrap();
        r.mod_exp(&g, &q, &p, &mut ctx).unwrap();
        assert_eq!(r, one);
    }
}

#[test]
fn round_trip_smallest_and_largest_valid_plaintexts() {
    let (public_key, private_key) = generate_keys(16).unwrap();
    let p = BigNum::from_dec_str(&public_key.p).unwrap();
    let one = BigNum::from_u32(1).unwrap();
    let p_1 = &p - &one;
    let largest = p_1.to_dec_str().unwrap().to_string();
    for message in ["1", largest.as_str()].iter() {
        let cipher = encrypt(&public_key, message).unwrap();
        assert_eq!(decrypt(&private_key, &cipher).unwrap(), *message);
    }
}

#[test]
fn encrypt_accepts_leading_zero_message_like_the_parser() {
    let (public_key, private_key) = generate_keys(8).unwrap();
    let cipher = encrypt(&public_key, "007").unwrap();
    assert_eq!(decrypt(&private_key, &cipher).unwrap(), "7");
}

#[test]
fn encrypt_reads_the_longest_digit_prefix() {
    // the big-number parser stops at the first non-digit, as BN_dec2bn does
    let (public_key, private_key) = generate_keys(8).unwrap();
    let cipher = encrypt(&public_key, "27abc").unwrap();
    assert_eq!(decrypt(&private_key, &cipher).unwrap(), "27");
}

#[test]
fn check_reports_mismatched_pairs() {
    let pk = keys::PublicKey::new("23".to_string(), "4".to_string(), "9".to_string());
    let sk = keys::PrivateKey::new("23".to_string(), "4".to_string(), "5".to_string());
    assert_eq!(keys::check((pk, sk)), true);
    let pk2 = keys::PublicKey::new("23".to_string(), "4".to_string(), "9".to_string());
    let sk2 = keys::PrivateKey::new("29".to_string(), "4".to_string(), "5".to_string());
    assert_eq!(keys::check((pk2, sk2)), false);
    let pk3 = keys::PublicKey::new("23".to_string(), "4".to_string(), "9".to_string());
    let sk3 = keys::PrivateKey::new("23".to_string(), "4".to_string(), "9".to_string());
    assert_eq!(keys::check((pk3, sk3)), false);
}

#[test]
fn empty_key_slots_start_empty() {
    let pk = keys::PublicKey::empty();
    assert_eq!(pk.p, "");
    assert_eq!(pk.g, "");
    assert_eq!(pk.h, "");
    let sk = keys::PrivateKey::empty();
    assert_eq!(sk.p, "");
    assert_eq!(sk.g, "");
    assert_eq!(sk.x, "");
    let c = keys::Cipher::empty();
    assert_eq!(c.c1, "");
    assert_eq!(c.c2, "");
}

#[test]
fn encrypt_fails_on_empty_key() {
    let pk = keys::PublicKey::empty();
    let r = encrypt(&pk, "5");
    assert!(r.is_err());
}
