use blockdag::elgamal::{
    amount_point, AddressType, Ciphertext, KeyPair, PedersenCommitment, PedersenOpening,
    PrivateKey, PublicKey,
};

fn scalar(n: u8) -> [u8; 32] {
    let mut bytes = [0u8; 32];
    bytes[0] = n;
    bytes
}

fn hex(s: &str) -> [u8; 32] {
    let mut bytes = [0u8; 32];
    for i in 0..32 {
        bytes[i] = u8::from_str_radix(&s[2 * i..2 * i + 2], 16).unwrap();
    }
    bytes
}

#[test]
fn test_encrypt_decrypt() {
    let keypair = KeyPair::new().unwrap();
    let public_key = keypair.get_public_key();
    let private_key = keypair.get_private_key();

    let amount = 10u64;
    let ciphertext = public_key.encrypt(amount);

    let decrypted = private_key.decrypt_to_point(&ciphertext);
    assert_eq!(decrypted, amount_point(amount));
}

#[test]
fn test_identity() {
    let keypair = KeyPair::new().unwrap();
    let public_key = keypair.get_public_key();
    let private_key = keypair.get_private_key();

    let amount = 0u64;
    let ciphertext = public_key.encrypt(amount);
    let decrypted = private_key.decrypt_to_point(&ciphertext);
    assert_eq!(decrypted, [0u8; 32]);
}

#[test]
fn test_universal_identity() {
    let keypair = KeyPair::new().unwrap();
    let private_key = keypair.get_private_key();

    let ciphertext = Ciphertext::zero().unwrap();
    let decrypted = private_key.decrypt_to_point(&ciphertext);
    assert_eq!(decrypted, [0u8; 32]);
}

#[test]
fn test_homomorphic_add() {
    let keypair = KeyPair::new().unwrap();
    let public_key = keypair.get_public_key();
    let private_key = keypair.get_private_key();

    let amount1 = 10u64;
    let amount2 = 20u64;
    let c1 = public_key.encrypt(amount1);
    let c2 = public_key.encrypt(amount2);

    let sum = c1.plus(&c2);
    let decrypted = private_key.decrypt_to_point(&sum);
    assert_eq!(decrypted, amount_point(amount1 + amount2));
}

#[test]
fn test_homomorphic_add_scalar() {
    let keypair = KeyPair::new().unwrap();
    let public_key = keypair.get_public_key();
    let private_key = keypair.get_private_key();

    let amount1 = 10u64;
    let amount2 = 20u64;
    let c1 = public_key.encrypt(amount1);

    let sum = c1.plus_amount(amount2);
    let decrypted = private_key.decrypt_to_point(&sum);
    assert_eq!(decrypted, amount_point(amount1 + amount2));
}

#[test]
fn test_homomorphic_sub() {
    let keypair = KeyPair::new().unwrap();
    let public_key = keypair.get_public_key();
    let private_key = keypair.get_private_key();

    let amount1 = 20u64;
    let amount2 = 10u64;
    let c1 = public_key.encrypt(amount1);
    let c2 = public_key.encrypt(amount2);

    let sub = c1.minus(&c2);
    let decrypted = private_key.decrypt_to_point(&sub);
    assert_eq!(decrypted, amount_point(amount1 - amount2));
}

#[test]
fn test_homomorphic_sub_scalar() {
    let keypair = KeyPair::new().unwrap();
    let public_key = keypair.get_public_key();
    let private_key = keypair.get_private_key();

    let amount1 = 20u64;
    let amount2 = 10u64;
    let c1 = public_key.encrypt(amount1);

    let sub = c1.minus_amount(amount2);
    let decrypted = private_key.decrypt_to_point(&sub);
    assert_eq!(decrypted, amount_point(amount1 - amount2));
}

#[test]
fn multiples_of_the_base_point_have_their_known_encodings() {
    assert_eq!(amount_point(0), [0u8; 32]);
    assert_eq!(amount_point(1), hex("e2f2ae0a6abc4e71a884a961c500515f58e30b6aa582dd8db6a65945e08d2d76"));
    assert_eq!(amount_point(2), hex("6a493210f7499cd17fecb510ae0cea23a110e8d5b901f8acadd3095c73a3b919"));
    assert_eq!(amount_point(3), hex("94741f5d5d52755ece4f23f044ee27d5d1ea1e2bd196b462166b16152a9d0259"));
    assert_ne!(amount_point(256), amount_point(1));
}

#[test]
fn keys_are_taken_from_valid_encodings_only() {
    assert!(PrivateKey::from_scalar([0u8; 32]).is_none());
    assert!(PrivateKey::from_scalar([0xffu8; 32]).is_none());
    let secret = PrivateKey::from_scalar(scalar(5)).unwrap();
    assert_eq!(secret.as_scalar(), &scalar(5));
    assert!(PublicKey::from_point([0xffu8; 32]).is_none());
    // The encodings of points are even numbers under the field size: a one is none.
    assert!(PublicKey::from_point(scalar(1)).is_none());
    let point = amount_point(7);
    let key = PublicKey::from_point(point).unwrap();
    assert_eq!(key.as_point(), &point);
    assert_eq!(key.compress().to_bytes(), point);
    let address = key.to_address(true);
    assert!(address.mainnet);
    assert!(matches!(address.addr_type, AddressType::Normal));
    assert_eq!(address.key.to_bytes(), point);
    let with_data = key.to_address_with(false, vec![1, 2, 3]);
    assert!(matches!(with_data.addr_type, AddressType::Data(data) if data == vec![1, 2, 3]));
    assert!(PedersenOpening::from_scalar([0xffu8; 32]).is_none());
}

#[test]
fn public_key_is_the_second_generator_times_the_inverse_of_the_secret() {
    let one = KeyPair::from_private_key(PrivateKey::from_scalar(scalar(1)).unwrap());
    let generator = *one.get_public_key().as_point();
    let opening = PedersenOpening::from_scalar(scalar(1)).unwrap();
    // Nothing committed under the opening one is the second generator itself.
    assert_eq!(PedersenCommitment::new_with_opening(0, &opening).as_point(), &generator);
    assert_ne!(generator, amount_point(1));
    let two = KeyPair::from_private_key(PrivateKey::from_scalar(scalar(2)).unwrap());
    // Twice the key of the secret two is the generator: the handle of the opening two.
    let double = PedersenOpening::from_scalar(scalar(2)).unwrap();
    assert_eq!(two.get_public_key().decrypt_handle(&double).as_point(), &generator);
    let pair = KeyPair::from_keys(*one.get_public_key(), PrivateKey::from_scalar(scalar(2)).unwrap());
    assert_eq!(pair.get_public_key().as_point(), &generator);
    assert_eq!(pair.get_private_key().as_scalar(), &scalar(2));
}

#[test]
fn ciphertext_is_the_commitment_and_the_handle_of_its_opening() {
    let keypair = KeyPair::new().unwrap();
    let opening = PedersenOpening::from_scalar(scalar(9)).unwrap();
    let ciphertext = keypair.get_public_key().encrypt_with_opening(33, &opening);
    assert_eq!(
        ciphertext.get_commitment().as_point(),
        PedersenCommitment::new_with_opening(33, &opening).as_point()
    );
    assert_eq!(
        ciphertext.get_handle().as_point(),
        keypair.get_public_key().decrypt_handle(&opening).as_point()
    );
    assert_eq!(keypair.get_private_key().decrypt_to_point(&ciphertext), amount_point(33));
    let (commitment, fresh) = PedersenCommitment::new(33);
    assert_eq!(commitment.as_point(), PedersenCommitment::new_with_opening(33, &fresh).as_point());
    let again = Ciphertext::new(commitment, keypair.get_public_key().decrypt_handle(&fresh));
    assert_eq!(keypair.get_private_key().decrypt_to_point(&again), amount_point(33));
}
