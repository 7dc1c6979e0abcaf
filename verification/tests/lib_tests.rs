use elgamal_encryption::{decrypt, encrypt, generate_keys, keys};

#[test]
fn test_generate_keys() {
    let (public_key, private_key) = generate_keys(6).unwrap();
    println!("{:?}", public_key);
    println!("{:?}", private_key);
    assert_eq!(keys::check((public_key, private_key)), true);
}

#[test]
fn test_encrypt() {
    let encryption_tests = [(6, "27"), (8, "127"), (47, "595858478")];

    for test in encryption_tests.iter() {
        let (bits, message) = *test;
        let (public_key, private_key) = generate_keys(bits).unwrap();
        let cipher = encrypt(&public_key, message).unwrap();
        println!("{:?}", public_key);
        println!("{:?}", cipher);
        let decrypted = decrypt(&private_key, &cipher).unwrap();
        println!("{:?}", decrypted);
        assert_eq!(message, decrypted);
    }
}
