//! The two integrity codes of a slot: a rotating checksum pair and a keyed
//! authentication code.

use vstd::prelude::*;
use crate::error::CodecError;
use hmac::Mac;

verus! {

/// Length of an authentication code.
pub const HMAC_SIZE: usize = 20;

/// Index of the first byte that the rotating checksum covers.
pub const CHECKSUM_START: usize = 12;

/// Index at which the running checksum is sampled, and at which the
/// authenticated range begins.
pub const SPLIT_OFFSET: usize = 0x1E8;

/// Start value of the rotating checksum.
pub const CHECKSUM_SEED: u16 = 0x1EA;

/// `x` rotated left by one bit.
pub open spec fn rotl16(x: u16) -> u16 {
    (x << 1u16) | (x >> 15u16)
}

/// One step of the rotating checksum: rotate, then mix in one byte.
pub open spec fn checksum_step(acc: u16, byte: u8) -> u16 {
    rotl16(acc) ^ (byte as u16)
}

/// The running checksum after the bytes `data[12..n]` have been mixed in.
pub open spec fn checksum_upto(data: Seq<u8>, n: int) -> u16
    decreases n,
{
    if n <= CHECKSUM_START {
        CHECKSUM_SEED
    } else {
        checksum_step(checksum_upto(data, n - 1), data[n - 1])
    }
}

/// The checksum pair of a buffer: the running checksum over all of it, and
/// the value it had on reaching index `0x1E8` (zero when the buffer ends
/// at or before that index).
pub open spec fn checksum_pair(data: Seq<u8>) -> (u16, u16) {
    (
        checksum_upto(data, data.len() as int),
        if data.len() > SPLIT_OFFSET {
            checksum_upto(data, SPLIT_OFFSET as int)
        } else {
            0u16
        },
    )
}

/// Computes the rotating checksum pair of `data`.
pub fn compute_bdx_hashes(data: &[u8]) -> (checks: (u16, u16))
    ensures
        checks == checksum_pair(data@),
{
    let mut check0: u16 = CHECKSUM_SEED;
    let mut check1: u16 = 0;
    let mut i: usize = CHECKSUM_START;
    while i < data.len()
        invariant
            CHECKSUM_START <= i,
            i <= data.len() || i == CHECKSUM_START,
            check0 == checksum_upto(data@, i as int),
            check1 == if i > SPLIT_OFFSET {
                checksum_upto(data@, SPLIT_OFFSET as int)
            } else {
                0u16
            },
        decreases data.len() - i,
    {
        if i == SPLIT_OFFSET {
            check1 = check0;
        }
        check0 = ((check0 << 1) | (check0 >> 15)) ^ (data[i] as u16);
        i += 1;
    }
    (check0, check1)
}

/// The HMAC-SHA1 authentication code of `message` under `key`, as the
/// `hmac` and `sha1` crates compute it.
pub uninterp spec fn hmac_sha1(key: Seq<u8>, message: Seq<u8>) -> Seq<u8>;

/// Runs `Hmac<Sha1>` of the `hmac` crate over `message`: `new_from_slice`
/// with the key, which takes a key of any length, `update` with the message
/// and `finalize`. Trusted: the code returned is the HMAC-SHA1 of the message
/// under the key and, SHA-1 having a 20-byte output, is 20 bytes long.
#[verifier::external_body]
fn hmac_sha1_digest(key: &[u8], message: &[u8]) -> (mac: Vec<u8>)
    ensures
        mac@ == hmac_sha1(key@, message@),
        mac@.len() == HMAC_SIZE,
{
    let mut state = hmac::Hmac::<sha1::Sha1>::new_from_slice(key).unwrap();
    state.update(message);
    state.finalize().into_bytes().to_vec()
}

/// The part of `data` that is authenticated when `len` bytes are asked
/// for: it starts at index `0x1E8`.
pub open spec fn authenticated_range(data: Seq<u8>, len: nat) -> Seq<u8> {
    data.subrange(SPLIT_OFFSET as int, SPLIT_OFFSET + len)
}

/// Computes the authentication code of `data[0x1E8..0x1E8 + len]` under
/// `key`. Fails when `data` does not reach that far.
pub fn compute_hmac(key: &[u8], len: usize, data: &[u8]) -> (result: Result<Vec<u8>, CodecError>)
    ensures
        match result {
            Ok(mac) => {
                &&& SPLIT_OFFSET + len <= data@.len()
                &&& mac@ == hmac_sha1(key@, authenticated_range(data@, len as nat))
                &&& mac@.len() == HMAC_SIZE
            },
            Err(e) => e == CodecError::MalformedInput && SPLIT_OFFSET + len > data@.len(),
        },
{
    if data.len() < SPLIT_OFFSET || len > data.len() - SPLIT_OFFSET {
        return Err(CodecError::MalformedInput);
    }
    let message = vstd::slice::slice_subrange(data, SPLIT_OFFSET, SPLIT_OFFSET + len);
    Ok(hmac_sha1_digest(key, message))
}

/// The checksum does not look at the first twelve bytes: two buffers that
/// agree from index 12 up to index `n` have the same running checksum
/// there.
pub proof fn lemma_checksum_skips_prefix(a: Seq<u8>, b: Seq<u8>, n: int)
    requires
        n <= a.len(),
        n <= b.len(),
        forall|i: int| CHECKSUM_START <= i < n ==> a[i] == b[i],
    ensures
        checksum_upto(a, n) == checksum_upto(b, n),
    decreases n,
{
    if n > CHECKSUM_START {
        lemma_checksum_skips_prefix(a, b, n - 1);
    }
}

/// Buffers that hold the same bytes have the same checksum pair, and so
/// have buffers of one length that differ only in their first twelve
/// bytes.
pub proof fn lemma_checksum_pair_skips_prefix(a: Seq<u8>, b: Seq<u8>)
    requires
        a.len() == b.len(),
        forall|i: int| CHECKSUM_START <= i < a.len() ==> a[i] == b[i],
    ensures
        checksum_pair(a) == checksum_pair(b),
{
    lemma_checksum_skips_prefix(a, b, a.len() as int);
    if a.len() > SPLIT_OFFSET {
        lemma_checksum_skips_prefix(a, b, SPLIT_OFFSET as int);
    }
}

/// The second value of the pair is the first value of the pair of the
/// buffer cut off at index `0x1E8`: what the running checksum was on
/// reaching that index. A buffer that ends there or earlier is never cut
/// off, and its second value is zero.
pub proof fn lemma_checksum_sample(data: Seq<u8>)
    ensures
        data.len() > SPLIT_OFFSET ==> checksum_pair(data).1 == checksum_pair(
            data.take(SPLIT_OFFSET as int),
        ).0,
        data.len() <= SPLIT_OFFSET ==> checksum_pair(data).1 == 0,
{
    if data.len() > SPLIT_OFFSET {
        lemma_checksum_skips_prefix(data, data.take(SPLIT_OFFSET as int), SPLIT_OFFSET as int);
    }
}

} // verus!
