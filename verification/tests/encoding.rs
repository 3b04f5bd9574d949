use cosmos_multisig::address::{CanonicalAddr, ADDRESS_LEN};
use cosmos_multisig::error::EncodingError;
use cosmos_multisig::multisig::{
    MultisigThresholdPubKey, MULTISIG_THRESHOLD_PREFIX, PUBKEY_PREFIX, THRESHOLD_PREFIX,
};
use cosmos_multisig::traits::CosmosAminoPubkey;

/// A key whose canonical bytes are given, or that has none.
#[derive(Debug, Clone, PartialEq)]
struct RawKey(Option<Vec<u8>>);

impl CosmosAminoPubkey for RawKey {
    fn amino(&self) -> Option<vstd::seq::Seq<u8>> {
        panic!("only stands in contracts")
    }

    fn amino_bytes(&self) -> Result<Vec<u8>, EncodingError> {
        match &self.0 {
            Some(bytes) => Ok(bytes.clone()),
            None => Err(EncodingError),
        }
    }
}

fn single(first: u8) -> RawKey {
    let mut bytes: Vec<u8> = vec![0xeb, 0x5a, 0xe9, 0x87, 0x21];
    bytes.extend(first..first + 33);
    RawKey(Some(bytes))
}

fn two_of_two_bytes() -> Vec<u8> {
    let mut expected: Vec<u8> = vec![34, 193, 247, 226, 8, 2];
    expected.extend_from_slice(&[18, 38, 235, 90, 233, 135, 33]);
    expected.extend(1..=33u8);
    expected.extend_from_slice(&[18, 38, 235, 90, 233, 135, 33]);
    expected.extend(101..=133u8);
    expected
}

#[test]
fn constants_of_the_encoding() {
    assert_eq!(MULTISIG_THRESHOLD_PREFIX, [0x22, 0xc1, 0xf7, 0xe2]);
    assert_eq!(THRESHOLD_PREFIX, 0x08);
    assert_eq!(PUBKEY_PREFIX, 0x12);
    assert_eq!(ADDRESS_LEN, 20);
}

#[test]
fn new_keeps_threshold_and_members() {
    let members = vec![single(1), single(101), single(50)];
    let key = MultisigThresholdPubKey::new(2, members.clone());
    assert_eq!(key.threshold(), 2);
    assert_eq!(key.public_keys(), &members);
    let oversized = MultisigThresholdPubKey::new(9, members.clone());
    assert_eq!(oversized.threshold(), 9);
    assert_eq!(oversized.public_keys().len(), 3);
}

#[test]
fn amino_bytes_of_two_members() {
    let key = MultisigThresholdPubKey::new(2, vec![single(1), single(101)]);
    assert_eq!(key.amino_bytes(), Ok(two_of_two_bytes()));
}

#[test]
fn amino_bytes_without_members() {
    let key: MultisigThresholdPubKey<RawKey> = MultisigThresholdPubKey::new(0, Vec::new());
    assert_eq!(key.amino_bytes(), Ok(vec![0x22, 0xc1, 0xf7, 0xe2, 0x08, 0x00]));
}

#[test]
fn amino_bytes_with_an_empty_member() {
    let key = MultisigThresholdPubKey::new(1, vec![RawKey(Some(Vec::new()))]);
    assert_eq!(
        key.amino_bytes(),
        Ok(vec![0x22, 0xc1, 0xf7, 0xe2, 0x08, 0x01, 0x12, 0x00])
    );
}

#[test]
fn amino_bytes_write_the_threshold_as_a_varint() {
    let key = MultisigThresholdPubKey::new(300, vec![RawKey(Some(vec![5]))]);
    assert_eq!(
        key.amino_bytes(),
        Ok(vec![0x22, 0xc1, 0xf7, 0xe2, 0x08, 0xac, 0x02, 0x12, 0x01, 0x05])
    );
    let key = MultisigThresholdPubKey::new(u32::MAX, vec![RawKey(Some(vec![5]))]);
    assert_eq!(
        key.amino_bytes(),
        Ok(vec![0x22, 0xc1, 0xf7, 0xe2, 0x08, 0xff, 0xff, 0xff, 0xff, 0x0f, 0x12, 0x01, 0x05])
    );
    let key = MultisigThresholdPubKey::new(127, vec![RawKey(Some(vec![5]))]);
    assert_eq!(
        key.amino_bytes(),
        Ok(vec![0x22, 0xc1, 0xf7, 0xe2, 0x08, 0x7f, 0x12, 0x01, 0x05])
    );
}

#[test]
fn amino_bytes_write_long_member_lengths_in_several_bytes() {
    let key = MultisigThresholdPubKey::new(1, vec![RawKey(Some(vec![9u8; 200]))]);
    let bytes = key.amino_bytes().unwrap();
    assert_eq!(&bytes[..9], &[0x22, 0xc1, 0xf7, 0xe2, 0x08, 0x01, 0x12, 200, 1]);
    assert_eq!(&bytes[9..], &[9u8; 200][..]);
}

#[test]
fn amino_bytes_depend_on_the_order_of_members() {
    let forward = MultisigThresholdPubKey::new(2, vec![single(1), single(101)]);
    let backward = MultisigThresholdPubKey::new(2, vec![single(101), single(1)]);
    assert_ne!(forward.amino_bytes(), backward.amino_bytes());
    assert_ne!(
        forward.get_address().unwrap().as_slice(),
        backward.get_address().unwrap().as_slice()
    );
}

#[test]
fn amino_bytes_are_the_same_every_time() {
    let key = MultisigThresholdPubKey::new(2, vec![single(1), single(101)]);
    let twin = MultisigThresholdPubKey::new(2, vec![single(1), single(101)]);
    let first = key.amino_bytes();
    assert_eq!(first, key.amino_bytes());
    assert_eq!(first, twin.amino_bytes());
    assert_eq!(first, key.clone().amino_bytes());
    assert_eq!(
        key.get_address().unwrap().as_slice(),
        twin.get_address().unwrap().as_slice()
    );
}

#[test]
fn amino_bytes_fail_where_a_member_has_none() {
    let key = MultisigThresholdPubKey::new(1, vec![single(1), RawKey(None), single(101)]);
    assert_eq!(key.amino_bytes(), Err(EncodingError));
    assert!(key.get_address().is_err());
    let last = MultisigThresholdPubKey::new(1, vec![single(1), RawKey(None)]);
    assert_eq!(last.amino_bytes(), Err(EncodingError));
}

#[test]
fn amino_bytes_of_a_nested_key() {
    let inner = MultisigThresholdPubKey::new(1, vec![single(1)]);
    let inner_bytes = inner.amino_bytes().unwrap();
    assert_eq!(inner_bytes.len(), 46);
    let outer = MultisigThresholdPubKey::new(1, vec![inner.clone(), inner]);
    let mut expected: Vec<u8> = vec![0x22, 0xc1, 0xf7, 0xe2, 0x08, 0x01];
    for _ in 0..2 {
        expected.push(0x12);
        expected.push(46);
        expected.extend_from_slice(&inner_bytes);
    }
    assert_eq!(outer.amino_bytes(), Ok(expected));
}

#[test]
fn amino_bytes_of_a_nested_key_fail_with_its_member() {
    let inner = MultisigThresholdPubKey::new(1, vec![RawKey(None)]);
    let outer = MultisigThresholdPubKey::new(1, vec![inner]);
    assert_eq!(outer.amino_bytes(), Err(EncodingError));
}

#[test]
fn address_is_the_head_of_the_digest() {
    let key = MultisigThresholdPubKey::new(2, vec![single(1), single(101)]);
    let address = key.get_address().unwrap();
    assert_eq!(
        address.as_slice(),
        &[
            117, 253, 183, 221, 10, 17, 200, 190, 173, 224, 71, 35, 179, 71, 141, 235, 143, 175,
            225, 23
        ]
    );
    assert_eq!(address.as_slice().len(), ADDRESS_LEN);
}

#[test]
fn address_of_a_key_without_members() {
    let key: MultisigThresholdPubKey<RawKey> = MultisigThresholdPubKey::new(0, Vec::new());
    let address = key.get_address().unwrap();
    assert_eq!(
        address.as_slice(),
        &[
            3, 249, 23, 142, 156, 97, 113, 12, 67, 243, 170, 225, 254, 95, 81, 206, 225, 52, 149,
            235
        ]
    );
}

#[test]
fn address_from_digest_takes_twenty_bytes() {
    let mut digest = [0u8; 32];
    for (i, byte) in digest.iter_mut().enumerate() {
        *byte = 100 + i as u8;
    }
    let address = CanonicalAddr::from_digest(&digest);
    assert_eq!(address.as_slice(), &digest[..20]);
    assert_eq!(address, CanonicalAddr::from_vec((100..120).collect()));
}

#[test]
fn address_from_vec_keeps_the_bytes() {
    let address = CanonicalAddr::from_vec(vec![1, 2, 3]);
    assert_eq!(address.as_slice(), &[1, 2, 3]);
    assert_eq!(address.0, vec![1, 2, 3]);
}

#[test]
fn keys_compare_by_threshold_and_members() {
    let key = MultisigThresholdPubKey::new(2, vec![single(1), single(101)]);
    assert_eq!(key.clone(), key);
    assert_ne!(key, MultisigThresholdPubKey::new(1, vec![single(1), single(101)]));
    assert_ne!(key, MultisigThresholdPubKey::new(2, vec![single(101), single(1)]));
    assert!(format!("{:?}", key).contains("threshold: 2"));
}
