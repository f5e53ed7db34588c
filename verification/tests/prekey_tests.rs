use connect_core::curve::KeyPair;
use connect_core::prekey::PreKeyRecord;

fn sample_key_pair() -> KeyPair {
    let mut public = vec![5u8];
    public.extend(std::iter::repeat(9u8).take(32));
    let private = vec![1u8; 32];
    KeyPair::from_public_and_private(&public, &private).expect("well-formed key material")
}

#[test]
fn key_pairs_validate_their_material() {
    let good_public: Vec<u8> = {
        let mut v = vec![5u8];
        v.extend(std::iter::repeat(0u8).take(32));
        v
    };
    let good_private = vec![0u8; 32];
    assert!(KeyPair::from_public_and_private(&good_public, &good_private).is_ok());
    // Wrong lengths are rejected.
    assert!(KeyPair::from_public_and_private(&good_public[..32].to_vec(), &good_private).is_err());
    assert!(KeyPair::from_public_and_private(&good_public, &vec![0u8; 31]).is_err());
    // A wrong type byte is rejected.
    let mut bad_type = good_public.clone();
    bad_type[0] = 6;
    assert!(KeyPair::from_public_and_private(&bad_type, &good_private).is_err());
}

#[test]
fn record_keeps_its_id_and_keys() {
    let key = sample_key_pair();
    let record = PreKeyRecord::new(7, &key);
    assert_eq!(record.id().expect("id"), 7);
    let round = record.key_pair().expect("key pair");
    assert_eq!(round.public_key_bytes(), key.public_key_bytes());
    assert_eq!(round.private_key_bytes(), key.private_key_bytes());
}

#[test]
fn record_serializes_to_the_tagged_layout() {
    let key = sample_key_pair();
    let record = PreKeyRecord::new(7, &key);
    let bytes = record.serialize().expect("serializes");

    let mut expected = vec![0x08u8, 7];
    expected.push(0x12);
    expected.push(33);
    expected.extend(key.public_key_bytes());
    expected.push(0x1A);
    expected.push(32);
    expected.extend(key.private_key_bytes());
    assert_eq!(bytes, expected);
}

#[test]
fn large_ids_serialize_as_varints() {
    let key = sample_key_pair();
    let record = PreKeyRecord::new(300, &key);
    let bytes = record.serialize().expect("serializes");
    assert_eq!(&bytes[..3], &[0x08, 0xAC, 0x02]);
}
