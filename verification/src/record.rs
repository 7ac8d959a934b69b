//! One song: its header and its payload, in a slot of the container or in a
//! standalone file.

use vstd::prelude::*;
use crate::endian::{
    le16, le16_value, le32, le32_value, lemma_le16_value, lemma_le32_value, write_bytes,
    write_u16, write_u32,
};
use crate::error::CodecError;
use crate::hash::{
    authenticated_range, checksum_pair, compute_bdx_hashes, compute_hmac, hmac_sha1,
    lemma_checksum_pair_skips_prefix, HMAC_SIZE, SPLIT_OFFSET,
};
use crate::lzss::{
    compress, compressed, decompress, decompressed, lemma_decoded_len, lemma_round_trip_upto,
};
use crate::structs::{
    BdxHeader, BdxSavHeader, COMPRESSED_LENGTH_OFFSET, CONTRIBUTOR_OFFSET, CONTRIBUTOR_SIZE,
    HEADER_SIZE, HMAC_OFFSET, LABEL_OFFSET, LABEL_SIZE, PAYLOAD_SIZE, SAV_HEADER_SIZE, SAV_MARKER,
    SLOT_OCCUPIED, SLOT_SIZE, SLOT_USED_OFFSET,
};
use crate::text::{decode, decode_text};

verus! {

/// The byte that fills the unused end of a slot.
pub const SLOT_FILL: u8 = 0xFF;

/// The byte that fills the unused end of a standalone file.
pub const FILE_FILL: u8 = 0x00;

/// Where the packed payload begins in a slot.
pub const PACKED_OFFSET: usize = 472;

/// What a record is: the 460 bytes of its header and its payload.
pub struct RecordView {
    pub header: Seq<u8>,
    pub data: Seq<u8>,
}

/// `bytes` filled up to `size` with `fill`; `bytes` itself when it is that
/// long already, or longer.
pub open spec fn padded(bytes: Seq<u8>, size: nat, fill: u8) -> Seq<u8> {
    if bytes.len() >= size {
        bytes
    } else {
        bytes + Seq::new((size - bytes.len()) as nat, |i: int| fill)
    }
}

/// `bytes` with `patch` written over it from index `at` on.
pub open spec fn overwritten(bytes: Seq<u8>, at: int, patch: Seq<u8>) -> Seq<u8> {
    Seq::new(
        bytes.len(),
        |i: int|
            if at <= i < at + patch.len() {
                patch[i - at]
            } else {
                bytes[i]
            },
    )
}

/// The sub-header of every slot written: the marker, the length of an
/// unpacked payload, and zero.
pub open spec fn sav_header_bytes() -> Seq<u8> {
    le32(SAV_MARKER) + le32(PAYLOAD_SIZE) + le32(0)
}

/// Where the record of a slot ends when its packed payload has `packed`
/// bytes.
pub open spec fn record_end(packed: nat) -> nat {
    PACKED_OFFSET as nat + packed
}

/// A slot before its stamps are set: header, sub-header and packed payload,
/// filled up with `0xFF`, and the compressed length, four more than the
/// packed payload has bytes, written into the header.
pub open spec fn assembled_slot(header: Seq<u8>, packed: Seq<u8>) -> Seq<u8> {
    overwritten(
        padded(header + sav_header_bytes() + packed, SLOT_SIZE as nat, SLOT_FILL),
        COMPRESSED_LENGTH_OFFSET as int,
        le32((packed.len() + 4) as u32),
    )
}

/// A slot with its stamps set, in this order: the authentication code goes
/// into the header, then the checksum pair of the first `end` bytes, as
/// they then are, goes to the front.
pub open spec fn stamped_slot(slot: Seq<u8>, mac: Seq<u8>, end: int) -> Seq<u8> {
    let authenticated = overwritten(slot, HMAC_OFFSET as int, mac);
    let checks = checksum_pair(authenticated.subrange(0, end));
    overwritten(authenticated, 0, le16(checks.0) + le16(checks.1))
}

/// A record as a slot, stamped with the authentication code `mac`.
pub open spec fn sealed_slot(record: RecordView, mac: Seq<u8>) -> Seq<u8> {
    let packed = compressed(record.data);
    stamped_slot(assembled_slot(record.header, packed), mac, record_end(packed.len()) as int)
}

/// The authentication code of the slot that holds `record` under `key`:
/// the code, under that key, of the range that starts at `0x1E8` and is as
/// long as the compressed length says. The range is read from the slot as
/// it is assembled, so it takes in the `0xFF` that fills the slot where it
/// reaches past the record. It does not depend on the key.
pub open spec fn slot_code(record: RecordView, key: Seq<u8>) -> Seq<u8> {
    let packed = compressed(record.data);
    hmac_sha1(
        key,
        authenticated_range(assembled_slot(record.header, packed), packed.len() + 4),
    )
}

/// The slot that holds `record` under `key`, or why there is none: the
/// record must end within the slot, or capacity is exceeded; and so must
/// the range that is authenticated, which ends 20 bytes behind the record,
/// or the slot is too short for it.
pub open spec fn encoded_slot(record: RecordView, key: Seq<u8>) -> Result<Seq<u8>, CodecError> {
    let packed = compressed(record.data);
    if record_end(packed.len()) > SLOT_SIZE {
        Err(CodecError::CapacityExceeded)
    } else if SPLIT_OFFSET + packed.len() + 4 > SLOT_SIZE {
        Err(CodecError::MalformedInput)
    } else {
        Ok(sealed_slot(record, slot_code(record, key)))
    }
}

/// Whether the header at the start of `slot` marks it as holding a record.
pub open spec fn slot_is_occupied(slot: Seq<u8>) -> bool {
    le32_value(slot.subrange(SLOT_USED_OFFSET as int, SLOT_USED_OFFSET + 4)) == SLOT_OCCUPIED
}

/// The length of the unpacked payload that the sub-header of `slot` states.
pub open spec fn stated_length(slot: Seq<u8>) -> nat {
    le32_value(slot.subrange(HEADER_SIZE + 4, HEADER_SIZE + 8)) as nat
}

/// What a slot holds: no record when its marker is anything but
/// `0x80000001`, else the header and the payload unpacked from what follows
/// the sub-header, to the length stated there.
pub open spec fn decoded_slot(slot: Seq<u8>) -> Result<Option<RecordView>, CodecError> {
    if slot.len() < HEADER_SIZE {
        Err(CodecError::MalformedInput)
    } else if !slot_is_occupied(slot) {
        Ok(None)
    } else if slot.len() < PACKED_OFFSET {
        Err(CodecError::MalformedInput)
    } else {
        match decompressed(slot.skip(PACKED_OFFSET as int), stated_length(slot)) {
            Some(data) => Ok(
                Some(RecordView { header: slot.subrange(0, HEADER_SIZE as int), data }),
            ),
            None => Err(CodecError::MalformedInput),
        }
    }
}

/// What a standalone file holds: the header, and all that follows it as
/// payload.
pub open spec fn decoded_file(file: Seq<u8>) -> Result<RecordView, CodecError> {
    if file.len() < HEADER_SIZE {
        Err(CodecError::MalformedInput)
    } else {
        Ok(
            RecordView {
                header: file.subrange(0, HEADER_SIZE as int),
                data: file.skip(HEADER_SIZE as int),
            },
        )
    }
}

/// The standalone file that holds `record`: header and payload, filled up
/// with zeros to the size of a file. What is more than a file holds is cut
/// off.
pub open spec fn encoded_file(record: RecordView) -> Seq<u8> {
    padded(record.header + record.data, SLOT_SIZE as nat, FILE_FILL).take(SLOT_SIZE as int)
}

/// The label of a header: its three label fields, each decoded on its own,
/// one after another.
pub open spec fn label_text(header: Seq<u8>) -> Seq<char> {
    decode_text(header.subrange(LABEL_OFFSET as int, LABEL_OFFSET + LABEL_SIZE)) + decode_text(
        header.subrange(LABEL_OFFSET + LABEL_SIZE, LABEL_OFFSET + 2 * LABEL_SIZE),
    ) + decode_text(header.subrange(LABEL_OFFSET + 2 * LABEL_SIZE, LABEL_OFFSET + 3 * LABEL_SIZE))
}

/// The contributor of a header.
pub open spec fn contributor_text(header: Seq<u8>) -> Seq<char> {
    decode_text(header.subrange(CONTRIBUTOR_OFFSET as int, CONTRIBUTOR_OFFSET + CONTRIBUTOR_SIZE))
}

/// Whether index `i` of a header lies in one of the stamps that are set
/// anew whenever the record is written to a slot: the checksum pair, the
/// compressed length and the authentication code.
pub open spec fn is_stamp(i: int) -> bool {
    0 <= i < 4 || COMPRESSED_LENGTH_OFFSET <= i < HMAC_OFFSET + HMAC_SIZE
}

/// A header with its stamps blanked.
pub open spec fn unstamped(header: Seq<u8>) -> Seq<u8> {
    Seq::new(
        header.len(),
        |i: int|
            if is_stamp(i) {
                0u8
            } else {
                header[i]
            },
    )
}

/// What a slot keeps of a payload: the 32096 bytes that every slot states.
/// A payload read from a standalone file is longer, since all that follows
/// the header counts as payload there, the zeros that fill the file too;
/// of such a payload the slot keeps the beginning.
pub open spec fn kept_payload(data: Seq<u8>) -> Seq<u8> {
    if data.len() >= PAYLOAD_SIZE {
        data.take(PAYLOAD_SIZE as int)
    } else {
        data
    }
}

/// What of a record is its own and not the slot's, and comes back from a
/// slot: the payload as far as a slot keeps it, and the header but for the
/// stamps.
pub open spec fn content(record: RecordView) -> RecordView {
    RecordView { header: unstamped(record.header), data: kept_payload(record.data) }
}

/// Whether a record can be read back from the slot that it is written to:
/// it is marked as occupied, and its payload has at least the 32096 bytes
/// that every slot states.
pub open spec fn is_storable(record: RecordView) -> bool {
    &&& record.header.len() == HEADER_SIZE
    &&& slot_is_occupied(record.header)
    &&& record.data.len() >= PAYLOAD_SIZE
}

/// Whether a record is as a slot gives it: it is marked as occupied, and
/// its payload has exactly the 32096 bytes that every slot states.
pub open spec fn is_regular(record: RecordView) -> bool {
    &&& record.header.len() == HEADER_SIZE
    &&& slot_is_occupied(record.header)
    &&& record.data.len() == PAYLOAD_SIZE
}

/// Whether `slot` is read as a record with the content of `record`, and
/// with no more payload than a slot states.
pub open spec fn slot_holds(slot: Seq<u8>, record: RecordView) -> bool {
    match decoded_slot(slot) {
        Ok(Some(found)) => content(found) == content(record) && is_regular(found),
        _ => false,
    }
}

/// Records with one content have one label and one contributor.
pub proof fn lemma_content_keeps_texts(a: Seq<u8>, b: Seq<u8>)
    requires
        a.len() == HEADER_SIZE,
        b.len() == HEADER_SIZE,
        unstamped(a) == unstamped(b),
    ensures
        label_text(a) == label_text(b),
        contributor_text(a) == contributor_text(b),
        slot_is_occupied(a) == slot_is_occupied(b),
{
    assert forall|i: int| 0 <= i < HEADER_SIZE && !is_stamp(i) implies #[trigger] a[i] == b[i] by {
        assert(unstamped(a)[i] == a[i]);
        assert(unstamped(b)[i] == b[i]);
    }
    assert(a.subrange(LABEL_OFFSET as int, LABEL_OFFSET + LABEL_SIZE) =~= b.subrange(
        LABEL_OFFSET as int,
        LABEL_OFFSET + LABEL_SIZE,
    ));
    assert(a.subrange(LABEL_OFFSET + LABEL_SIZE, LABEL_OFFSET + 2 * LABEL_SIZE) =~= b.subrange(
        LABEL_OFFSET + LABEL_SIZE,
        LABEL_OFFSET + 2 * LABEL_SIZE,
    ));
    assert(a.subrange(LABEL_OFFSET + 2 * LABEL_SIZE, LABEL_OFFSET + 3 * LABEL_SIZE) =~= b.subrange(
        LABEL_OFFSET + 2 * LABEL_SIZE,
        LABEL_OFFSET + 3 * LABEL_SIZE,
    ));
    assert(a.subrange(CONTRIBUTOR_OFFSET as int, CONTRIBUTOR_OFFSET + CONTRIBUTOR_SIZE)
        =~= b.subrange(CONTRIBUTOR_OFFSET as int, CONTRIBUTOR_OFFSET + CONTRIBUTOR_SIZE));
    assert(a.subrange(SLOT_USED_OFFSET as int, SLOT_USED_OFFSET + 4) =~= b.subrange(
        SLOT_USED_OFFSET as int,
        SLOT_USED_OFFSET + 4,
    ));
}

/// The payload of the record that a slot holds has the length that the
/// sub-header of the slot states.
pub proof fn lemma_decoded_slot_len(slot: Seq<u8>)
    requires
        decoded_slot(slot) is Ok,
        decoded_slot(slot)->Ok_0 is Some,
    ensures
        decoded_slot(slot)->Ok_0->Some_0.header.len() == HEADER_SIZE,
        decoded_slot(slot)->Ok_0->Some_0.data.len() == stated_length(slot),
{
    lemma_decoded_len(
        slot.skip(PACKED_OFFSET as int),
        0,
        8,
        Seq::empty(),
        stated_length(slot),
    );
}

/// A slot whose marker is anything but `0x80000001` holds no record,
/// whatever else it holds.
pub proof fn lemma_unmarked_slot_is_empty(slot: Seq<u8>)
    requires
        slot.len() >= HEADER_SIZE,
        !slot_is_occupied(slot),
    ensures
        decoded_slot(slot) == Ok::<Option<RecordView>, CodecError>(None),
{
}

/// The stamps of a slot hold of the slot as it ends up: the authentication
/// code lies in the header, the checksum pair at the front is that of the
/// first `end` bytes of the finished slot, and from index 44 on, so
/// throughout the authenticated range, nothing has changed.
pub proof fn lemma_stamps_hold(slot: Seq<u8>, mac: Seq<u8>, end: int)
    requires
        mac.len() == HMAC_SIZE,
        HEADER_SIZE <= end <= slot.len(),
    ensures
        stamped_slot(slot, mac, end).len() == slot.len(),
        stamped_slot(slot, mac, end).subrange(HMAC_OFFSET as int, HMAC_OFFSET + HMAC_SIZE) == mac,
        checksum_pair(stamped_slot(slot, mac, end).subrange(0, end)) == (
            le16_value(stamped_slot(slot, mac, end).subrange(0, 2)),
            le16_value(stamped_slot(slot, mac, end).subrange(2, 4)),
        ),
        forall|i: int|
            4 <= i < slot.len() && !(HMAC_OFFSET <= i < HMAC_OFFSET + HMAC_SIZE) ==> stamped_slot(
                slot,
                mac,
                end,
            )[i] == slot[i],
        forall|len: nat|
            SPLIT_OFFSET + len <= slot.len() ==> #[trigger] authenticated_range(
                stamped_slot(slot, mac, end),
                len,
            ) == authenticated_range(slot, len),
{
    let authenticated = overwritten(slot, HMAC_OFFSET as int, mac);
    let checks = checksum_pair(authenticated.subrange(0, end));
    let done = stamped_slot(slot, mac, end);
    lemma_le16_value(checks.0);
    lemma_le16_value(checks.1);
    assert(done.subrange(HMAC_OFFSET as int, HMAC_OFFSET + HMAC_SIZE) =~= mac);
    assert(done.subrange(0, 2) =~= le16(checks.0));
    assert(done.subrange(2, 4) =~= le16(checks.1));
    lemma_checksum_pair_skips_prefix(done.subrange(0, end), authenticated.subrange(0, end));
    assert forall|len: nat| SPLIT_OFFSET + len <= slot.len() implies #[trigger] authenticated_range(
        done,
        len,
    ) == authenticated_range(slot, len) by {
        assert(authenticated_range(done, len) =~= authenticated_range(slot, len));
    }
}

/// The code that a slot is stamped with is the code that it carries, so
/// slots of one record that are stamped with different codes differ in
/// their bytes 24 to 44.
pub proof fn lemma_codes_apart(record: RecordView, one: Seq<u8>, other: Seq<u8>)
    requires
        record.header.len() == HEADER_SIZE,
        record_end(compressed(record.data).len()) <= SLOT_SIZE,
        one.len() == HMAC_SIZE,
        other.len() == HMAC_SIZE,
    ensures
        sealed_slot(record, one).subrange(HMAC_OFFSET as int, HMAC_OFFSET + HMAC_SIZE) == one,
        sealed_slot(record, other).subrange(HMAC_OFFSET as int, HMAC_OFFSET + HMAC_SIZE) == other,
        one != other ==> sealed_slot(record, one).subrange(
            HMAC_OFFSET as int,
            HMAC_OFFSET + HMAC_SIZE,
        ) != sealed_slot(record, other).subrange(HMAC_OFFSET as int, HMAC_OFFSET + HMAC_SIZE),
{
    let packed = compressed(record.data);
    let assembled = assembled_slot(record.header, packed);
    lemma_le32_value(SAV_MARKER);
    lemma_le32_value(PAYLOAD_SIZE);
    lemma_le32_value(0);
    assert(assembled.len() == SLOT_SIZE);
    lemma_stamps_hold(assembled, one, record_end(packed.len()) as int);
    lemma_stamps_hold(assembled, other, record_end(packed.len()) as int);
}

/// A record that was written to a slot is read back from it with its
/// content as it was: the first 32096 bytes of its payload, given that it
/// has as many, and the header but for the stamps.
pub proof fn lemma_slot_round_trip(record: RecordView, mac: Seq<u8>)
    requires
        is_storable(record),
        record_end(compressed(record.data).len()) <= SLOT_SIZE,
        mac.len() == HMAC_SIZE,
    ensures
        slot_holds(sealed_slot(record, mac), record),
{
    let packed = compressed(record.data);
    let end = record_end(packed.len()) as int;
    let plain = record.header + sav_header_bytes() + packed;
    let filled = padded(plain, SLOT_SIZE as nat, SLOT_FILL);
    let assembled = assembled_slot(record.header, packed);
    let slot = sealed_slot(record, mac);
    lemma_le32_value(SAV_MARKER);
    lemma_le32_value(PAYLOAD_SIZE);
    lemma_le32_value(0);
    lemma_le32_value((packed.len() + 4) as u32);
    lemma_stamps_hold(assembled, mac, end);
    assert(sav_header_bytes().len() == SAV_HEADER_SIZE);
    assert(slot == stamped_slot(assembled, mac, end));
    assert(slot.len() == SLOT_SIZE);
    assert forall|i: int| 0 <= i < SLOT_SIZE && !is_stamp(i) implies #[trigger] slot[i]
        == filled[i] by {
        assert(stamped_slot(assembled, mac, end)[i] == assembled[i]);
    }
    assert(slot.subrange(SLOT_USED_OFFSET as int, SLOT_USED_OFFSET + 4) =~= record.header.subrange(
        SLOT_USED_OFFSET as int,
        SLOT_USED_OFFSET + 4,
    ));
    assert(slot.subrange(HEADER_SIZE + 4, HEADER_SIZE + 8) =~= sav_header_bytes().subrange(4, 8));
    assert(sav_header_bytes().subrange(4, 8) =~= le32(PAYLOAD_SIZE));
    let suffix = Seq::new((SLOT_SIZE - plain.len()) as nat, |i: int| SLOT_FILL);
    assert(slot.skip(PACKED_OFFSET as int) =~= packed + suffix);
    lemma_round_trip_upto(record.data, suffix, PAYLOAD_SIZE as nat);
    assert(unstamped(slot.subrange(0, HEADER_SIZE as int)) =~= unstamped(record.header));
    assert(kept_payload(record.data.take(PAYLOAD_SIZE as int)) =~= kept_payload(record.data));
}

/// A record that fits a standalone file and was written to one is read
/// back from it: the header as it was, and the payload as it was with the
/// zeros behind it that fill the file.
pub proof fn lemma_file_round_trip(record: RecordView)
    requires
        record.header.len() == HEADER_SIZE,
        record.header.len() + record.data.len() <= SLOT_SIZE,
    ensures
        encoded_file(record).len() == SLOT_SIZE,
        decoded_file(encoded_file(record)) is Ok,
        decoded_file(encoded_file(record))->Ok_0.header == record.header,
        decoded_file(encoded_file(record))->Ok_0.data == padded(
            record.data,
            (SLOT_SIZE - HEADER_SIZE) as nat,
            FILE_FILL,
        ),
{
    let file = encoded_file(record);
    assert(file.subrange(0, HEADER_SIZE as int) =~= record.header);
    assert(file.skip(HEADER_SIZE as int) =~= padded(
        record.data,
        (SLOT_SIZE - HEADER_SIZE) as nat,
        FILE_FILL,
    ));
}

/// Fills `buf` up to `size` bytes with `fill`.
pub fn pad_to(buf: &mut Vec<u8>, size: usize, fill: u8)
    requires
        old(buf).len() <= size,
    ensures
        final(buf)@ == padded(old(buf)@, size as nat, fill),
{
    while buf.len() < size
        invariant
            old(buf)@.len() <= buf@.len() <= size,
            buf@.subrange(0, old(buf)@.len() as int) == old(buf)@,
            forall|i: int| old(buf)@.len() <= i < buf@.len() ==> buf@[i] == fill,
        decreases size - buf.len(),
    {
        let ghost before = buf@;
        buf.push(fill);
        assert(buf@.subrange(0, old(buf)@.len() as int) =~= before.subrange(
            0,
            old(buf)@.len() as int,
        ));
    }
    assert(buf@ =~= padded(old(buf)@, size as nat, fill));
}

/// Writes `patch` over `buf` from index `at` on.
pub fn overwrite(buf: &mut Vec<u8>, at: usize, patch: &[u8])
    requires
        at + patch.len() <= old(buf).len(),
    ensures
        final(buf)@ == overwritten(old(buf)@, at as int, patch@),
{
    let mut i: usize = 0;
    while i < patch.len()
        invariant
            i <= patch.len(),
            at + patch.len() <= buf.len(),
            buf@ == overwritten(old(buf)@, at as int, patch@.take(i as int)),
        decreases patch.len() - i,
    {
        let ghost before = buf@;
        buf[at + i] = patch[i];
        assert(buf@ =~= overwritten(old(buf)@, at as int, patch@.take(i + 1)));
        i += 1;
    }
    assert(patch@.take(patch@.len() as int) =~= patch@);
}

/// Builds a slot up to the point where its stamps are due: header,
/// sub-header and packed payload, filled up with `0xFF`, with the
/// compressed length set. Fails when the three do not fit a slot.
pub fn assemble_slot(header: &BdxHeader, packed: &[u8]) -> (result: Result<Vec<u8>, CodecError>)
    ensures
        match result {
            Ok(slot) => {
                &&& record_end(packed@.len()) <= SLOT_SIZE
                &&& slot@ == assembled_slot(header.bytes(), packed@)
                &&& slot@.len() == SLOT_SIZE
            },
            Err(e) => e == CodecError::CapacityExceeded && record_end(packed@.len()) > SLOT_SIZE,
        },
{
    if packed.len() > SLOT_SIZE - PACKED_OFFSET {
        return Err(CodecError::CapacityExceeded);
    }
    let sav_header = BdxSavHeader { sixteen: SAV_MARKER, length: PAYLOAD_SIZE, zero: 0 };
    let mut slot: Vec<u8> = Vec::new();
    header.write(&mut slot);
    sav_header.write(&mut slot);
    write_bytes(&mut slot, packed);
    proof {
        header.lemma_layout();
        lemma_le32_value(SAV_MARKER);
        lemma_le32_value(PAYLOAD_SIZE);
        lemma_le32_value(0);
        assert(slot@ =~= header.bytes() + sav_header_bytes() + packed@);
    }
    pad_to(&mut slot, SLOT_SIZE, SLOT_FILL);
    let mut length: Vec<u8> = Vec::new();
    write_u32(&mut length, packed.len() as u32 + 4);
    proof {
        lemma_le32_value((packed@.len() + 4) as u32);
        assert(length@ =~= le32((packed@.len() + 4) as u32));
    }
    overwrite(&mut slot, COMPRESSED_LENGTH_OFFSET, length.as_slice());
    Ok(slot)
}

/// Sets the stamps of a slot, in the order that they depend on each other:
/// first the authentication code `mac`, then the checksum pair of the first
/// `end` bytes, which takes in the code just written.
pub fn stamp_slot(slot: &mut Vec<u8>, mac: &[u8], end: usize)
    requires
        mac@.len() == HMAC_SIZE,
        HEADER_SIZE <= end <= old(slot).len(),
    ensures
        final(slot)@ == stamped_slot(old(slot)@, mac@, end as int),
        final(slot)@.len() == old(slot)@.len(),
{
    overwrite(slot, HMAC_OFFSET, mac);
    let covered = vstd::slice::slice_subrange(slot.as_slice(), 0, end);
    let (check0, check1) = compute_bdx_hashes(covered);
    let mut checks: Vec<u8> = Vec::new();
    write_u16(&mut checks, check0);
    write_u16(&mut checks, check1);
    proof {
        lemma_le16_value(check0);
        lemma_le16_value(check1);
        assert(checks@ =~= le16(check0) + le16(check1));
    }
    overwrite(slot, 0, checks.as_slice());
}

/// One song: the header that describes it and its payload.
#[derive(Debug, Clone, PartialEq, Eq)]
pub struct BdxRecord {
    header: BdxHeader,
    data: Vec<u8>,
}

impl View for BdxRecord {
    type V = RecordView;

    closed spec fn view(&self) -> RecordView {
        RecordView { header: self.header.bytes(), data: self.data@ }
    }
}

/// The records of a list, each taken by its view.
pub open spec fn record_views(records: Seq<BdxRecord>) -> Seq<RecordView> {
    records.map_values(|record: BdxRecord| record@)
}

/// What became of reading a slot, with the record, if there is one, taken
/// by its view.
pub open spec fn slot_outcome(result: Result<Option<BdxRecord>, CodecError>) -> Result<
    Option<RecordView>,
    CodecError,
> {
    match result {
        Ok(Some(record)) => Ok(Some(record@)),
        Ok(None) => Ok(None),
        Err(e) => Err(e),
    }
}

/// What became of reading a file, with the record taken by its view.
pub open spec fn file_outcome(result: Result<BdxRecord, CodecError>) -> Result<
    RecordView,
    CodecError,
> {
    match result {
        Ok(record) => Ok(record@),
        Err(e) => Err(e),
    }
}

/// What became of writing a record, with the bytes taken by their view.
pub open spec fn bytes_outcome(result: Result<Vec<u8>, CodecError>) -> Result<Seq<u8>, CodecError> {
    match result {
        Ok(bytes) => Ok(bytes@),
        Err(e) => Err(e),
    }
}

impl BdxRecord {
    /// Puts a header and a payload together.
    pub fn new(header: BdxHeader, data: Vec<u8>) -> (record: BdxRecord)
        ensures
            record@ == (RecordView { header: header.bytes(), data: data@ }),
    {
        BdxRecord { header, data }
    }

    /// The header of the record.
    pub fn header(&self) -> (header: &BdxHeader)
        ensures
            header.bytes() == self@.header,
    {
        &self.header
    }

    /// The payload of the record.
    pub fn data(&self) -> (data: &Vec<u8>)
        ensures
            data@ == self@.data,
    {
        &self.data
    }

    /// The header of a record has 460 bytes.
    pub proof fn lemma_header_len(&self)
        ensures
            self@.header.len() == HEADER_SIZE,
    {
        self.header.lemma_layout();
    }

    /// Reads the record of a slot. A slot whose marker is not `0x80000001`
    /// holds none, which is no error. The payload of a record that is
    /// there has the length that the sub-header states, neither less nor
    /// more.
    pub fn from_sav_bytes(bytes: &[u8]) -> (result: Result<Option<BdxRecord>, CodecError>)
        ensures
            slot_outcome(result) == decoded_slot(bytes@),
            result matches Ok(Some(record)) ==> {
                &&& record@.header.len() == HEADER_SIZE
                &&& record@.data.len() == stated_length(bytes@)
            },
    {
        let header = match BdxHeader::parse(bytes) {
            Ok(header) => header,
            Err(e) => {
                return Err(e);
            },
        };
        proof {
            header.lemma_layout();
            lemma_le32_value(header.slot_used);
            assert(bytes@.subrange(SLOT_USED_OFFSET as int, SLOT_USED_OFFSET + 4)
                =~= header.bytes().subrange(SLOT_USED_OFFSET as int, SLOT_USED_OFFSET + 4));
        }
        if header.slot_used != SLOT_OCCUPIED {
            return Ok(None);
        }
        let sav_header = match BdxSavHeader::parse(bytes, HEADER_SIZE) {
            Ok(sav_header) => sav_header,
            Err(e) => {
                return Err(e);
            },
        };
        proof {
            lemma_le32_value(sav_header.sixteen);
            lemma_le32_value(sav_header.length);
            lemma_le32_value(sav_header.zero);
            assert(bytes@.subrange(HEADER_SIZE + 4, HEADER_SIZE + 8)
                =~= sav_header.bytes().subrange(4, 8));
            assert(sav_header.bytes().subrange(4, 8) =~= le32(sav_header.length));
        }
        let packed = vstd::slice::slice_subrange(bytes, PACKED_OFFSET, bytes.len());
        assert(packed@ =~= bytes@.skip(PACKED_OFFSET as int));
        match decompress(sav_header.length as usize, packed) {
            Ok(data) => {
                let record = BdxRecord { header, data };
                assert(record@.header =~= bytes@.subrange(0, HEADER_SIZE as int));
                Ok(Some(record))
            },
            Err(e) => Err(e),
        }
    }

    /// Reads the record of a standalone file: the header, and all the bytes
    /// behind it as the payload, unpacked as they are.
    pub fn from_bdx_bytes(bytes: &[u8]) -> (result: Result<BdxRecord, CodecError>)
        ensures
            file_outcome(result) == decoded_file(bytes@),
    {
        let header = match BdxHeader::parse(bytes) {
            Ok(header) => header,
            Err(e) => {
                return Err(e);
            },
        };
        let mut data: Vec<u8> = Vec::new();
        write_bytes(&mut data, vstd::slice::slice_subrange(bytes, HEADER_SIZE, bytes.len()));
        assert(data@ =~= bytes@.skip(HEADER_SIZE as int));
        Ok(BdxRecord { header, data })
    }

    /// Writes the record as a slot of the container, stamped under `key`.
    ///
    /// The slot is header, sub-header and packed payload, filled up to
    /// 32768 bytes with `0xFF`. The authentication code is taken under
    /// `key` over the range that starts at `0x1E8` and is four bytes longer
    /// than the packed payload. That range ends 20 bytes behind the
    /// record, so the code covers 20 bytes of what follows the record in
    /// the slot: the fill.
    ///
    /// There are two ways to fail. A record that does not end within the
    /// slot, its packed payload being longer than 32296 bytes, gives
    /// `CapacityExceeded`. A record that does, but whose authenticated range
    /// does not, its packed payload having 32277 to 32296 bytes, gives
    /// `MalformedInput`: the slot is too short for the range.
    ///
    /// A record that is marked as occupied and whose payload has at least
    /// the 32096 bytes that the sub-header states is read back from the
    /// slot by `from_sav_bytes` with its content as it was: the header but
    /// for the stamps, and the first 32096 bytes of the payload.
    pub fn to_sav_bytes(&self, key: &[u8]) -> (result: Result<Vec<u8>, CodecError>)
        ensures
            bytes_outcome(result) == encoded_slot(self@, key@),
            result is Err ==> {
                &&& result->Err_0 == CodecError::CapacityExceeded <==> record_end(
                    compressed(self@.data).len(),
                ) > SLOT_SIZE
                &&& result->Err_0 == CodecError::MalformedInput <==> record_end(
                    compressed(self@.data).len(),
                ) <= SLOT_SIZE
            },
            result is Ok ==> {
                &&& result->Ok_0@.len() == SLOT_SIZE
                &&& SPLIT_OFFSET + compressed(self@.data).len() + 4 <= SLOT_SIZE
                &&& result->Ok_0@.subrange(HMAC_OFFSET as int, HMAC_OFFSET + HMAC_SIZE)
                    == slot_code(self@, key@)
            },
            result is Ok && is_storable(self@) ==> slot_holds(result->Ok_0@, self@),
    {
        proof {
            self.header.lemma_layout();
        }
        let packed = compress(self.data.as_slice());
        let mut slot = match assemble_slot(&self.header, packed.as_slice()) {
            Ok(slot) => slot,
            Err(e) => {
                return Err(e);
            },
        };
        let mac = match compute_hmac(key, packed.len() + 4, slot.as_slice()) {
            Ok(mac) => mac,
            Err(e) => {
                return Err(e);
            },
        };
        stamp_slot(&mut slot, mac.as_slice(), PACKED_OFFSET + packed.len());
        proof {
            lemma_codes_apart(self@, mac@, mac@);
            if is_storable(self@) {
                lemma_slot_round_trip(self@, mac@);
            }
        }
        Ok(slot)
    }

    /// Writes the record as a standalone file: header and payload, filled
    /// up with zeros to 32768 bytes. A payload that reaches beyond that
    /// size is cut off there.
    pub fn to_bdx_bytes(&self) -> (bytes: Vec<u8>)
        ensures
            bytes@ == encoded_file(self@),
            bytes@.len() == SLOT_SIZE,
    {
        proof {
            self.header.lemma_layout();
        }
        let mut bytes: Vec<u8> = Vec::new();
        self.header.write(&mut bytes);
        write_bytes(&mut bytes, self.data.as_slice());
        assert(bytes@ =~= self@.header + self@.data);
        if bytes.len() > SLOT_SIZE {
            bytes.truncate(SLOT_SIZE);
        } else {
            pad_to(&mut bytes, SLOT_SIZE, FILE_FILL);
            assert(bytes@.take(SLOT_SIZE as int) =~= bytes@);
        }
        bytes
    }

    /// The label of the song, for display.
    pub fn label(&self) -> (text: String)
        ensures
            text@ == label_text(self@.header),
    {
        proof {
            self.header.lemma_layout();
        }
        let mut text = decode(self.header.label[0].as_slice());
        let second = decode(self.header.label[1].as_slice());
        let third = decode(self.header.label[2].as_slice());
        text.append(second.as_str());
        text.append(third.as_str());
        text
    }

    /// The contributor of the song, for display.
    pub fn contributor(&self) -> (text: String)
        ensures
            text@ == contributor_text(self@.header),
    {
        proof {
            self.header.lemma_layout();
        }
        decode(self.header.contributor.as_slice())
    }
}

} // verus!
