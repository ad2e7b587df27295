use kad_dht::hashing::{clone_into_array, get_key, get_key_sha, hash_to_key};
use kad_dht::key::{bucket_index, closer, distance, key_in_bucket, Key};

fn key_with(first: u8, last: u8) -> Key {
    let mut bytes = [0u8; 32];
    bytes[0] = first;
    bytes[31] = last;
    Key(bytes)
}

fn hex(bytes: &[u8]) -> String {
    let mut out = String::new();
    for b in bytes {
        out.push_str(&format!("{:02x}", b));
    }
    out
}

#[test]
fn clone_into_array_copies_every_byte() {
    let bytes: Vec<u8> = (0u8..32).collect();
    let array = clone_into_array(&bytes);
    assert_eq!(&array[..], &bytes[..]);
}

#[test]
fn blake3_of_empty_input() {
    let key = hash_to_key(b"");
    assert_eq!(
        hex(&key.0),
        "af1349b9f5f9a1a6a0404dea36dcc9499bcb25c9adc112b7cc9a93cae41f3262"
    );
}

#[test]
fn get_key_hashes_the_utf8_bytes() {
    assert_eq!(get_key("alice"), hash_to_key(b"alice"));
    assert_ne!(get_key("alice"), get_key("bob"));
    assert_ne!(get_key("alice").0, {
        let mut padded = [0u8; 32];
        padded[..5].copy_from_slice(b"alice");
        padded
    });
}

#[test]
fn hash_to_key_is_stable() {
    let first = hash_to_key(b"the same input");
    let second = hash_to_key(b"the same input");
    assert_eq!(first, second);
}

#[test]
fn sha3_of_known_inputs() {
    assert_eq!(
        hex(&get_key_sha("").0),
        "a7ffc6f8bf1ed76651c14756a061d662f580ff4de43b49fa82d80a4b80f8434a"
    );
    assert_eq!(
        hex(&get_key_sha("abc").0),
        "3a985da74fe225b2045c172d6bd390bd855f086e3e9d525b46bfe24511431532"
    );
}

#[test]
fn distance_is_bytewise_xor() {
    let a = key_with(0b1010_0000, 0x0f);
    let b = key_with(0b0110_0000, 0xf0);
    let d = distance(&a, &b);
    assert_eq!(d, key_with(0b1100_0000, 0xff));
}

#[test]
fn distance_is_symmetric_and_zero_only_to_self() {
    let a = hash_to_key(b"a");
    let b = hash_to_key(b"b");
    assert_eq!(distance(&a, &b), distance(&b, &a));
    assert_eq!(distance(&a, &a), Key([0u8; 32]));
    assert_ne!(distance(&a, &b), Key([0u8; 32]));
}

#[test]
fn keys_compare_as_big_endian_numbers() {
    let low = key_with(0, 0xff);
    let high = key_with(1, 0);
    assert!(low.less_than(&high));
    assert!(!high.less_than(&low));
    assert!(!low.less_than(&low));
    assert!(low.equals(&low));
    assert!(!low.equals(&high));
}

#[test]
fn closer_compares_distances_to_the_target() {
    let target = key_with(0, 0);
    let near = key_with(0, 1);
    let far = key_with(0x80, 0);
    assert!(closer(&near, &far, &target));
    assert!(!closer(&far, &near, &target));
    assert!(!closer(&near, &near, &target));
}

#[test]
fn bucket_index_counts_leading_zero_bits() {
    let local = Key([0u8; 32]);
    assert_eq!(bucket_index(&local, &local), None);
    assert_eq!(bucket_index(&local, &key_with(0x80, 0)), Some(0));
    assert_eq!(bucket_index(&local, &key_with(0x40, 0)), Some(1));
    assert_eq!(bucket_index(&local, &key_with(0x01, 0xff)), Some(7));
    assert_eq!(bucket_index(&local, &key_with(0, 0x80)), Some(248));
    assert_eq!(bucket_index(&local, &key_with(0, 0x01)), Some(255));
    let mut ninth = [0u8; 32];
    ninth[1] = 0x80;
    assert_eq!(bucket_index(&local, &Key(ninth)), Some(8));
}

#[test]
fn bucket_index_is_relative_to_the_local_key() {
    let local = key_with(0xff, 0xff);
    let other = key_with(0xff, 0xfe);
    assert_eq!(bucket_index(&local, &other), Some(255));
    assert_eq!(bucket_index(&other, &local), Some(255));
}

#[test]
fn key_in_bucket_falls_into_every_bucket() {
    let local = hash_to_key(b"local");
    let noise = hash_to_key(b"noise");
    for index in 0..256usize {
        let key = key_in_bucket(&local, index, &noise);
        assert_eq!(bucket_index(&local, &key), Some(index));
    }
}

#[test]
fn key_in_bucket_keeps_the_noise_below_the_bucket_bit() {
    let local = Key([0u8; 32]);
    let noise = Key([0xabu8; 32]);
    let key = key_in_bucket(&local, 12, &noise);
    let mut expected = [0xabu8; 32];
    expected[0] = 0;
    expected[1] = 0x0b;
    assert_eq!(key, Key(expected));
}
