use elgamal_encryption::elgamal::{generate_keys, PrivateKey, PublicKey};

#[test]
fn it_works_2() {
    let mut public_key = PublicKey::new();
    let mut private_key = PrivateKey::new();
    generate_keys(6, &mut public_key, &mut private_key).unwrap();
    println!("{:?}", public_key);
    println!("{:?}", private_key);
    assert_eq!(public_key.p, private_key.p);
    assert_eq!(public_key.g, private_key.g);
    assert_ne!(public_key.h, private_key.x);
}

#[test]
fn rejected_bits_leave_key_slots_untouched() {
    let mut public_key = PublicKey::new();
    let mut private_key = PrivateKey::new();
    let r = generate_keys(5, &mut public_key, &mut private_key);
    assert!(r.is_err());
    assert_eq!(public_key.p, "");
    assert_eq!(public_key.g, "");
    assert_eq!(public_key.h, "");
    assert_eq!(private_key.p, "");
    assert_eq!(private_key.g, "");
    assert_eq!(private_key.x, "");
}
