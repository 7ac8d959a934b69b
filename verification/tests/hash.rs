use rhabarberbar::hash::{compute_bdx_hashes, compute_hmac};
use rhabarberbar::CodecError;

/// The checksum, written down once more in the plainest way.
fn checksum_by_hand(data: &[u8]) -> (u16, u16) {
    let mut check0: u16 = 0x1EA;
    let mut check1: u16 = 0;
    for i in 12..data.len() {
        if i == 0x1E8 {
            check1 = check0;
        }
        check0 = check0.rotate_left(1) ^ data[i] as u16;
    }
    (check0, check1)
}

fn pattern(len: usize) -> Vec<u8> {
    (0..len).map(|i| (i * 31 + 7) as u8).collect()
}

#[test]
fn checksum_of_a_buffer_that_ends_before_the_start() {
    assert_eq!(compute_bdx_hashes(&[]), (0x1EA, 0));
    assert_eq!(compute_bdx_hashes(&[0xFF; 12]), (0x1EA, 0));
}

#[test]
fn checksum_of_one_byte() {
    let mut data = vec![0u8; 13];
    data[12] = 0x01;
    // 0x1EA rotated left by one is 0x3D4.
    assert_eq!(compute_bdx_hashes(&data), (0x3D5, 0));
}

#[test]
fn checksum_rotates_the_high_bit_round() {
    // Seventeen zero bytes rotate the start value once round and one on.
    let data = vec![0u8; 12 + 17];
    assert_eq!(compute_bdx_hashes(&data), (0x3D4, 0));
    let data = vec![0u8; 12 + 16];
    assert_eq!(compute_bdx_hashes(&data), (0x1EA, 0));
    let data = vec![0u8; 12 + 8];
    assert_eq!(compute_bdx_hashes(&data), (0xEA01, 0));
}

#[test]
fn checksum_is_the_same_for_the_same_bytes() {
    let data = pattern(2000);
    let copy = data.clone();
    assert_eq!(compute_bdx_hashes(&data), compute_bdx_hashes(&copy));
    assert_eq!(compute_bdx_hashes(&data), checksum_by_hand(&data));
}

#[test]
fn checksum_does_not_look_at_the_first_twelve_bytes() {
    let data = pattern(1000);
    let mut other = data.clone();
    for byte in other.iter_mut().take(12) {
        *byte = !*byte;
    }
    assert_eq!(compute_bdx_hashes(&data), compute_bdx_hashes(&other));
    other[12] ^= 1;
    assert_ne!(compute_bdx_hashes(&data), compute_bdx_hashes(&other));
}

#[test]
fn checksum_sample_stays_zero_up_to_the_split() {
    let data = pattern(0x1E7);
    let (check0, check1) = compute_bdx_hashes(&data);
    assert_eq!(check1, 0);
    assert_eq!((check0, check1), checksum_by_hand(&data));

    let data = pattern(0x1E8);
    let (_, check1) = compute_bdx_hashes(&data);
    assert_eq!(check1, 0);
}

#[test]
fn checksum_sample_is_taken_on_reaching_the_split() {
    let data = pattern(0x1E8 + 1);
    let (check0, check1) = compute_bdx_hashes(&data);
    // The sample is the running value over the bytes before index 0x1E8.
    let (before, _) = compute_bdx_hashes(&data[..0x1E8]);
    assert_eq!(check1, before);
    assert_eq!(check0, before.rotate_left(1) ^ data[0x1E8] as u16);

    let longer = pattern(5000);
    let (_, sample) = compute_bdx_hashes(&longer);
    assert_eq!(sample, compute_bdx_hashes(&longer[..0x1E8]).0);
    assert_eq!(compute_bdx_hashes(&longer), checksum_by_hand(&longer));
}

#[test]
fn hmac_of_a_known_message() {
    let message = b"The quick brown fox jumps over the lazy dog";
    let mut data = vec![0xEE; 0x1E8];
    data.extend_from_slice(message);
    data.extend_from_slice(&[0x55; 10]);
    let expected = [
        0xde, 0x7c, 0x9b, 0x85, 0xb8, 0xb7, 0x8a, 0xa6, 0xbc, 0x8a, 0x7a, 0x36, 0xf7, 0x0a, 0x90,
        0x70, 0x1c, 0x9d, 0xb4, 0xd9,
    ];
    assert_eq!(compute_hmac(b"key", message.len(), &data), Ok(expected.to_vec()));
}

#[test]
fn hmac_of_the_empty_range() {
    let data = vec![0u8; 0x1E8];
    // HMAC-SHA1 of the empty message under the empty key.
    let expected = [
        0xfb, 0xdb, 0x1d, 0x1b, 0x18, 0xaa, 0x6c, 0x08, 0x32, 0x4b, 0x7d, 0x64, 0xb7, 0x1f, 0xb7,
        0x63, 0x70, 0x69, 0x0e, 0x1d,
    ];
    assert_eq!(compute_hmac(&[], 0, &data), Ok(expected.to_vec()));
}

#[test]
fn hmac_covers_the_range_and_nothing_else() {
    let mut data = pattern(0x1E8 + 100);
    let code = compute_hmac(b"secret", 50, &data).unwrap();
    assert_eq!(code.len(), 20);
    data[0] ^= 0xFF;
    data[0x1E7] ^= 0xFF;
    data[0x1E8 + 50] ^= 0xFF;
    assert_eq!(compute_hmac(b"secret", 50, &data).unwrap(), code);
    data[0x1E8] ^= 0x01;
    assert_ne!(compute_hmac(b"secret", 50, &data).unwrap(), code);
    data[0x1E8] ^= 0x01;
    data[0x1E8 + 49] ^= 0x01;
    assert_ne!(compute_hmac(b"secret", 50, &data).unwrap(), code);
}

#[test]
fn hmac_depends_on_the_key() {
    let data = pattern(0x1E8 + 64);
    let one = compute_hmac(b"key one", 64, &data).unwrap();
    let two = compute_hmac(b"key two", 64, &data).unwrap();
    assert_ne!(one, two);
}

#[test]
fn hmac_takes_a_key_longer_than_a_block() {
    let data = pattern(0x1E8 + 8);
    let key = [0x0Bu8; 200];
    assert_eq!(compute_hmac(&key, 8, &data).unwrap().len(), 20);
}

#[test]
fn hmac_fails_when_the_buffer_is_too_short() {
    let data = vec![0u8; 0x1E8 + 10];
    assert_eq!(compute_hmac(b"key", 11, &data), Err(CodecError::MalformedInput));
    assert_eq!(compute_hmac(b"key", 10, &data).map(|code| code.len()), Ok(20));
    assert_eq!(compute_hmac(b"key", 0, &data[..0x1E7]), Err(CodecError::MalformedInput));
    assert_eq!(compute_hmac(b"key", usize::MAX, &data), Err(CodecError::MalformedInput));
}
