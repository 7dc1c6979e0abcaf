use elgamal_encryption::elgamal::{generate_keys, PrivateKey, PublicKey};

#[test]
fn it_works() {
    let mut public_key = PublicKey::new();
    let mut private_key = PrivateKey::new();
    generate_keys(6, &mut public_key, &mut private_key).unwrap();
    println!("{:?}", public_key);
    println!("{:?}", private_key);
}
