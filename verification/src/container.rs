//! The container: the 150 song slots of a save image, and the common key
//! from which the key of each slot is derived.

use vstd::prelude::*;
use crate::endian::{le32_value, lemma_le32_value, read_array, write_bytes};
use crate::error::CodecError;
use crate::packing::{ordered_by_label, sort_by_label};
use crate::hash::HMAC_SIZE;
use crate::record::{
    bytes_outcome, content, decoded_slot, encoded_slot, is_regular, is_storable,
    lemma_unmarked_slot_is_empty, overwrite, overwritten, pad_to, padded, record_views,
    slot_code, slot_holds, BdxRecord, RecordView, SLOT_FILL,
};
use crate::structs::{
    HEADER_SIZE, HMAC_OFFSET, PAYLOAD_SIZE, SAV_MARKER, SLOT_SIZE, SLOT_USED_OFFSET,
};

verus! {

/// Number of slots in the container.
pub const SLOT_COUNT: usize = 150;

/// Where the first slot lies in a save image.
pub const SONG_OFFSET: usize = 0x190000;

/// Size of all slots together: 150 times 32768.
pub const SONG_SIZE: usize = 0x4B0000;

/// Where the common key lies in a save image.
pub const KEY_OFFSET: usize = 0x7F0000;

/// Size of the common key.
pub const KEY_SIZE: usize = 40;

/// Size of the key of a slot.
pub const SLOT_KEY_SIZE: usize = 42;

/// The least size of a save image: it must hold the common key.
pub const IMAGE_MIN: usize = 0x7F0028;

/// The key of slot `index`: the common key between two bytes that both
/// hold the index plus one.
pub open spec fn slot_key_bytes(common_key: Seq<u8>, index: int) -> Seq<u8> {
    seq![(index + 1) as u8] + common_key + seq![(index + 1) as u8]
}

/// The keys of two different slots differ, whatever the common key, and
/// the key of a slot is two bytes longer than the common key: 42 bytes for
/// a common key of 40.
pub proof fn lemma_slot_keys_differ(common_key: Seq<u8>, i: int, j: int)
    requires
        0 <= i < SLOT_COUNT,
        0 <= j < SLOT_COUNT,
        i != j,
    ensures
        slot_key_bytes(common_key, i) != slot_key_bytes(common_key, j),
        slot_key_bytes(common_key, i).len() == common_key.len() + 2,
        common_key.len() == KEY_SIZE ==> slot_key_bytes(common_key, i).len() == SLOT_KEY_SIZE,
{
    assert(slot_key_bytes(common_key, i)[0] == (i + 1) as u8);
    assert(slot_key_bytes(common_key, j)[0] == (j + 1) as u8);
}

/// Derives the key of slot `index` from the common key. Fails for an index
/// that names no slot.
pub fn slot_key(common_key: &[u8; 40], index: usize) -> (result: Result<[u8; 42], CodecError>)
    ensures
        match result {
            Ok(key) => index < SLOT_COUNT && key@ == slot_key_bytes(common_key@, index as int),
            Err(e) => e == CodecError::UnsupportedSlot && index >= SLOT_COUNT,
        },
{
    if index >= SLOT_COUNT {
        return Err(CodecError::UnsupportedSlot);
    }
    let tag: u8 = (index + 1) as u8;
    let mut key = [0u8; 42];
    key[0] = tag;
    key[41] = tag;
    let mut i: usize = 0;
    while i < KEY_SIZE
        invariant
            i <= KEY_SIZE,
            key@[0] == tag,
            key@[41] == tag,
            forall|j: int| 0 <= j < i ==> key@[j + 1] == common_key@[j],
        decreases KEY_SIZE - i,
    {
        key[i + 1] = common_key[i];
        i += 1;
    }
    assert(key@ =~= slot_key_bytes(common_key@, index as int));
    Ok(key)
}

/// What a container is: its records in slot order, and its common key.
pub struct SavView {
    pub records: Seq<RecordView>,
    pub common_key: Seq<u8>,
}

/// The bytes of slot `index` in a save image.
pub open spec fn slot_bytes(image: Seq<u8>, index: int) -> Seq<u8> {
    image.subrange(SONG_OFFSET + index * SLOT_SIZE, SONG_OFFSET + (index + 1) * SLOT_SIZE)
}

/// Whether each of the first `n` slots of a save image can be read.
pub open spec fn slots_readable(image: Seq<u8>, n: int) -> bool {
    forall|i: int| 0 <= i < n ==> (#[trigger] decoded_slot(slot_bytes(image, i))) is Ok
}

/// The records that the first `n` slots of a save image hold, in slot
/// order. Slots that hold none leave no gap.
pub open spec fn records_upto(image: Seq<u8>, n: nat) -> Seq<RecordView>
    decreases n,
{
    if n == 0 {
        Seq::empty()
    } else {
        let earlier = records_upto(image, (n - 1) as nat);
        match decoded_slot(slot_bytes(image, n - 1)) {
            Ok(Some(record)) => earlier.push(record),
            _ => earlier,
        }
    }
}

/// What a save image holds, or that it cannot be read: it must reach to
/// the end of the common key, and every slot must be readable.
pub open spec fn decoded_image(image: Seq<u8>) -> Result<SavView, CodecError> {
    if image.len() < IMAGE_MIN || !slots_readable(image, SLOT_COUNT as int) {
        Err(CodecError::MalformedInput)
    } else {
        Ok(
            SavView {
                records: records_upto(image, SLOT_COUNT as nat),
                common_key: image.subrange(KEY_OFFSET as int, KEY_OFFSET + KEY_SIZE),
            },
        )
    }
}

/// The first `n` records written as slots one after another, each under
/// the key of the place that it has in the list, or the error of the first
/// record that cannot be written.
pub open spec fn slots_upto(records: Seq<RecordView>, common_key: Seq<u8>, n: nat) -> Result<
    Seq<u8>,
    CodecError,
>
    decreases n,
{
    if n == 0 {
        Ok(Seq::empty())
    } else {
        match slots_upto(records, common_key, (n - 1) as nat) {
            Err(e) => Err(e),
            Ok(earlier) => match encoded_slot(records[n - 1], slot_key_bytes(common_key, n - 1)) {
                Err(e) => Err(e),
                Ok(slot) => Ok(earlier + slot),
            },
        }
    }
}

/// The slot region of a container: its records as slots in list order, and
/// `0xFF` in every slot left over. There is no region for more than 150
/// records, nor when a record cannot be written.
pub open spec fn encoded_region(sav: SavView) -> Result<Seq<u8>, CodecError> {
    if sav.records.len() > SLOT_COUNT {
        Err(CodecError::UnsupportedSlot)
    } else {
        match slots_upto(sav.records, sav.common_key, sav.records.len()) {
            Err(e) => Err(e),
            Ok(slots) => Ok(padded(slots, SONG_SIZE as nat, SLOT_FILL)),
        }
    }
}

/// A slot that was written has 32768 bytes.
pub proof fn lemma_encoded_slot_len(record: RecordView, key: Seq<u8>)
    requires
        record.header.len() == HEADER_SIZE,
        encoded_slot(record, key) is Ok,
    ensures
        encoded_slot(record, key)->Ok_0.len() == SLOT_SIZE,
{
    lemma_le32_value(SAV_MARKER);
    lemma_le32_value(PAYLOAD_SIZE);
    lemma_le32_value(0);
}

/// Records written as slots take 32768 bytes each.
pub proof fn lemma_slots_upto_len(records: Seq<RecordView>, common_key: Seq<u8>, n: nat)
    requires
        n <= records.len(),
        forall|i: int| 0 <= i < n ==> (#[trigger] records[i]).header.len() == HEADER_SIZE,
        slots_upto(records, common_key, n) is Ok,
    ensures
        slots_upto(records, common_key, n)->Ok_0.len() == n * SLOT_SIZE,
    decreases n,
{
    if n > 0 {
        lemma_slots_upto_len(records, common_key, (n - 1) as nat);
        lemma_encoded_slot_len(records[n - 1], slot_key_bytes(common_key, n - 1));
    }
}

/// Once a record cannot be written, taking more records changes nothing:
/// the error of the first failure stays.
pub proof fn lemma_slots_upto_err(records: Seq<RecordView>, common_key: Seq<u8>, m: nat, n: nat)
    requires
        m <= n,
        slots_upto(records, common_key, m) is Err,
    ensures
        slots_upto(records, common_key, n) == slots_upto(records, common_key, m),
    decreases n,
{
    if m < n {
        lemma_slots_upto_err(records, common_key, m, (n - 1) as nat);
    }
}

/// The slot region of a container is 150 times 32768 bytes long, and
/// behind the slots of its records every byte of it is `0xFF`.
pub proof fn lemma_region_size(sav: SavView)
    requires
        forall|i: int|
            0 <= i < sav.records.len() ==> (#[trigger] sav.records[i]).header.len()
                == HEADER_SIZE,
        encoded_region(sav) is Ok,
    ensures
        encoded_region(sav)->Ok_0.len() == SONG_SIZE,
        forall|j: int|
            sav.records.len() * SLOT_SIZE <= j < SONG_SIZE ==> encoded_region(sav)->Ok_0[j]
                == SLOT_FILL,
{
    lemma_slots_upto_len(sav.records, sav.common_key, sav.records.len());
}

/// A save image with a slot region written over its own. Nothing else of
/// the image changes.
pub open spec fn written_back(image: Seq<u8>, region: Seq<u8>) -> Seq<u8> {
    overwritten(image, SONG_OFFSET as int, region)
}

/// The bytes of slot `index` in a slot region.
pub open spec fn region_slot(region: Seq<u8>, index: int) -> Seq<u8> {
    region.subrange(index * SLOT_SIZE, (index + 1) * SLOT_SIZE)
}

/// The authentication code that slot `index` of a slot region carries.
pub open spec fn region_code(region: Seq<u8>, index: int) -> Seq<u8> {
    region_slot(region, index).subrange(HMAC_OFFSET as int, HMAC_OFFSET + HMAC_SIZE)
}

/// Whether every record of a list can be read back from the slot that it
/// is written to.
pub open spec fn all_storable(records: Seq<RecordView>) -> bool {
    forall|i: int| 0 <= i < records.len() ==> is_storable(#[trigger] records[i])
}

/// Whether every record of a list is as a slot gives it.
pub open spec fn all_regular(records: Seq<RecordView>) -> bool {
    forall|i: int| 0 <= i < records.len() ==> is_regular(#[trigger] records[i])
}

/// The contents of the records of a list.
pub open spec fn contents(records: Seq<RecordView>) -> Seq<RecordView> {
    records.map_values(|record: RecordView| content(record))
}

/// Whether a slot region is read as `records`: slot after slot holds
/// record after record, and the slots left over hold none.
pub open spec fn region_holds(region: Seq<u8>, records: Seq<RecordView>) -> bool {
    &&& region.len() == SONG_SIZE
    &&& records.len() <= SLOT_COUNT
    &&& forall|j: int|
        0 <= j < records.len() ==> slot_holds(#[trigger] region_slot(region, j), records[j])
    &&& forall|j: int|
        records.len() <= j < SLOT_COUNT ==> decoded_slot(#[trigger] region_slot(region, j)) == Ok::<
            Option<RecordView>,
            CodecError,
        >(None)
}

/// A slot that holds nothing but `0xFF` holds no record.
pub proof fn lemma_fill_is_empty(slot: Seq<u8>)
    requires
        slot.len() == SLOT_SIZE,
        forall|i: int| 0 <= i < slot.len() ==> slot[i] == SLOT_FILL,
    ensures
        decoded_slot(slot) == Ok::<Option<RecordView>, CodecError>(None),
{
    let marker = slot.subrange(SLOT_USED_OFFSET as int, SLOT_USED_OFFSET + 4);
    assert(marker[0] == 0xFF && marker[1] == 0xFF && marker[2] == 0xFF && marker[3] == 0xFF);
    assert(le32_value(marker) == 0xFFFF_FFFFu32);
    lemma_unmarked_slot_is_empty(slot);
}

/// The records read from the first `m` slots of an image whose slot region
/// holds `records`: as many of `records` as there are slots, content for
/// content.
proof fn lemma_records_upto(image: Seq<u8>, region: Seq<u8>, records: Seq<RecordView>, m: nat)
    requires
        m <= SLOT_COUNT,
        image.len() >= SONG_OFFSET + SONG_SIZE,
        region_holds(region, records),
        image.subrange(SONG_OFFSET as int, SONG_OFFSET + SONG_SIZE) == region,
    ensures
        slots_readable(image, m as int),
        m <= records.len() ==> contents(records_upto(image, m)) == contents(
            records.take(m as int),
        ),
        m > records.len() ==> contents(records_upto(image, m)) == contents(records),
        all_regular(records_upto(image, m)),
    decreases m,
{
    if m == 0 {
        assert(contents(records_upto(image, 0)) =~= contents(records.take(0)));
    } else {
        let j = m - 1;
        lemma_records_upto(image, region, records, j as nat);
        let earlier = records_upto(image, j as nat);
        assert(slot_bytes(image, j) =~= region_slot(region, j));
        if j < records.len() {
            let found = decoded_slot(slot_bytes(image, j))->Ok_0->Some_0;
            assert(contents(earlier.push(found)) =~= contents(records.take(j)).push(
                content(records[j]),
            ));
            assert(contents(records.take(j)).push(content(records[j])) =~= contents(
                records.take(m as int),
            ));
            if m == records.len() {
                assert(records.take(m as int) =~= records);
            }
        } else if j == records.len() {
            assert(records.take(j) =~= records);
        }
    }
}

/// An image whose slot region was written over with one that holds
/// `records` is read as a container of these records, content for content,
/// with the common key that the image had.
pub proof fn lemma_image_round_trip(image: Seq<u8>, region: Seq<u8>, records: Seq<RecordView>)
    requires
        image.len() >= IMAGE_MIN,
        region_holds(region, records),
    ensures
        decoded_image(written_back(image, region)) is Ok,
        contents(decoded_image(written_back(image, region))->Ok_0.records) == contents(records),
        all_regular(decoded_image(written_back(image, region))->Ok_0.records),
        decoded_image(written_back(image, region))->Ok_0.common_key == image.subrange(
            KEY_OFFSET as int,
            KEY_OFFSET + KEY_SIZE,
        ),
{
    let written = written_back(image, region);
    assert(written.subrange(SONG_OFFSET as int, SONG_OFFSET + SONG_SIZE) =~= region);
    assert(written.subrange(KEY_OFFSET as int, KEY_OFFSET + KEY_SIZE) =~= image.subrange(
        KEY_OFFSET as int,
        KEY_OFFSET + KEY_SIZE,
    ));
    lemma_records_upto(written, region, records, SLOT_COUNT as nat);
    if records.len() == SLOT_COUNT {
        assert(records.take(SLOT_COUNT as int) =~= records);
    }
}

/// A container read from a save image, or put together to be written into
/// one.
#[derive(Debug, Clone)]
pub struct SavFile {
    /// The records, in the order of their slots.
    pub records: Vec<BdxRecord>,
    common_key: [u8; 40],
}

impl View for SavFile {
    type V = SavView;

    closed spec fn view(&self) -> SavView {
        SavView { records: record_views(self.records@), common_key: self.common_key@ }
    }
}

/// What became of reading a save image, with the container taken by its
/// view.
pub open spec fn image_outcome(result: Result<SavFile, CodecError>) -> Result<SavView, CodecError> {
    match result {
        Ok(sav) => Ok(sav@),
        Err(e) => Err(e),
    }
}

impl SavFile {
    /// The common key of a container has 40 bytes, and the header of each
    /// of its records 460.
    pub proof fn lemma_view(&self)
        ensures
            self@.common_key.len() == KEY_SIZE,
            forall|i: int|
                0 <= i < self@.records.len() ==> (#[trigger] self@.records[i]).header.len()
                    == HEADER_SIZE,
    {
        assert forall|i: int| 0 <= i < self@.records.len() implies (
        #[trigger] self@.records[i]).header.len() == HEADER_SIZE by {
            self.records@[i].lemma_header_len();
        }
    }

    /// The records of the container, in the order of their slots.
    pub fn records(&self) -> (records: &Vec<BdxRecord>)
        ensures
            record_views(records@) == self@.records,
    {
        &self.records
    }

    /// A container without records.
    pub fn new(common_key: [u8; 40]) -> (sav: SavFile)
        ensures
            sav@ == (SavView { records: Seq::empty(), common_key: common_key@ }),
    {
        let sav = SavFile { records: Vec::new(), common_key };
        assert(sav@.records =~= Seq::<RecordView>::empty());
        sav
    }

    /// Replaces the records of the container by `records`, ordered by
    /// label: the place of a record in the container then depends on the
    /// labels alone, not on the order in which the records were found.
    pub fn pack(&mut self, records: Vec<BdxRecord>)
        ensures
            final(self)@ == (SavView {
                records: ordered_by_label(record_views(records@)),
                common_key: old(self)@.common_key,
            }),
    {
        self.records = sort_by_label(records);
    }

    /// The common key of the container.
    pub fn common_key(&self) -> (key: &[u8; 40])
        ensures
            key@ == self@.common_key,
    {
        &self.common_key
    }

    /// Reads the container of a save image: the records of the occupied
    /// slots in slot order, and the common key. The slot that a record came
    /// from is not kept.
    pub fn from_bytes(bytes: &[u8]) -> (result: Result<SavFile, CodecError>)
        ensures
            image_outcome(result) == decoded_image(bytes@),
    {
        if bytes.len() < IMAGE_MIN {
            return Err(CodecError::MalformedInput);
        }
        let mut records: Vec<BdxRecord> = Vec::new();
        let mut i: usize = 0;
        while i < SLOT_COUNT
            invariant
                i <= SLOT_COUNT,
                bytes.len() >= IMAGE_MIN,
                slots_readable(bytes@, i as int),
                record_views(records@) == records_upto(bytes@, i as nat),
            decreases SLOT_COUNT - i,
        {
            let position = SONG_OFFSET + i * SLOT_SIZE;
            let slot = vstd::slice::slice_subrange(bytes, position, position + SLOT_SIZE);
            assert(slot@ == slot_bytes(bytes@, i as int));
            let ghost before = records@;
            match BdxRecord::from_sav_bytes(slot) {
                Ok(Some(record)) => {
                    records.push(record);
                    assert(record_views(records@) =~= record_views(before).push(record@));
                },
                Ok(None) => {},
                Err(e) => {
                    assert(!slots_readable(bytes@, SLOT_COUNT as int));
                    return Err(e);
                },
            }
            i += 1;
        }
        let common_key = read_array::<40>(bytes, KEY_OFFSET);
        Ok(SavFile { records, common_key })
    }

    /// Writes the slot region: every record as a slot, under the key of the
    /// place that it has in the list, and `0xFF` in the slots left over.
    /// Fails for more than 150 records and when a record cannot be written;
    /// nothing is cut short.
    ///
    /// The code that a slot carries is the code of its record under the key
    /// of its place. The keys of two places differ, so two slots that hold
    /// one record carry the codes of one range under two keys.
    pub fn to_song_bytes(&self) -> (result: Result<Vec<u8>, CodecError>)
        ensures
            bytes_outcome(result) == encoded_region(self@),
            result is Ok ==> {
                &&& result->Ok_0@.len() == SONG_SIZE
                &&& forall|j: int|
                    self@.records.len() * SLOT_SIZE <= j < SONG_SIZE ==> result->Ok_0@[j]
                        == SLOT_FILL
            },
            result is Ok ==> forall|j: int|
                0 <= j < self@.records.len() ==> #[trigger] region_code(result->Ok_0@, j)
                    == slot_code(self@.records[j], slot_key_bytes(self@.common_key, j)),
            result is Ok && all_storable(self@.records) ==> region_holds(
                result->Ok_0@,
                self@.records,
            ),
    {
        if self.records.len() > SLOT_COUNT {
            return Err(CodecError::UnsupportedSlot);
        }
        let count = self.records.len();
        let mut bytes: Vec<u8> = Vec::new();
        let mut i: usize = 0;
        while i < count
            invariant
                i <= count <= SLOT_COUNT,
                count == self.records@.len(),
                slots_upto(self@.records, self@.common_key, i as nat) == Ok::<Seq<u8>, CodecError>(
                    bytes@,
                ),
                bytes@.len() == i * SLOT_SIZE,
                forall|j: int|
                    0 <= j < i ==> #[trigger] region_code(bytes@, j) == slot_code(
                        self@.records[j],
                        slot_key_bytes(self@.common_key, j),
                    ),
                all_storable(self@.records) ==> forall|j: int|
                    0 <= j < i ==> slot_holds(#[trigger] region_slot(bytes@, j), self@.records[j]),
            decreases count - i,
        {
            let ghost before = bytes@;
            let key = match slot_key(&self.common_key, i) {
                Ok(key) => key,
                Err(e) => {
                    return Err(e);
                },
            };
            match self.records[i].to_sav_bytes(key.as_slice()) {
                Ok(slot) => {
                    write_bytes(&mut bytes, slot.as_slice());
                    proof {
                        assert(region_slot(bytes@, i as int) =~= slot@);
                        assert forall|j: int| 0 <= j < i implies #[trigger] region_slot(bytes@, j)
                            == region_slot(before, j) by {
                            assert(region_slot(bytes@, j) =~= region_slot(before, j));
                        }
                        assert forall|j: int| 0 <= j < i + 1 implies #[trigger] region_code(
                            bytes@,
                            j,
                        ) == slot_code(self@.records[j], slot_key_bytes(self@.common_key, j)) by {
                            if j < i {
                                assert(region_slot(bytes@, j) == region_slot(before, j));
                                assert(region_code(bytes@, j) == region_code(before, j));
                            }
                        }
                    }
                },
                Err(e) => {
                    proof {
                        lemma_slots_upto_err(
                            self@.records,
                            self@.common_key,
                            (i + 1) as nat,
                            count as nat,
                        );
                    }
                    return Err(e);
                },
            }
            i += 1;
        }
        let ghost slots = bytes@;
        pad_to(&mut bytes, SONG_SIZE, SLOT_FILL);
        proof {
            assert forall|j: int| 0 <= j < count implies #[trigger] region_slot(bytes@, j)
                == region_slot(slots, j) by {
                assert(region_slot(bytes@, j) =~= region_slot(slots, j));
            }
            assert forall|j: int| 0 <= j < count implies #[trigger] region_code(bytes@, j)
                == region_code(slots, j) by {
                assert(region_slot(bytes@, j) == region_slot(slots, j));
            }
            assert forall|j: int| count <= j < SLOT_COUNT implies decoded_slot(
                #[trigger] region_slot(bytes@, j),
            ) == Ok::<Option<RecordView>, CodecError>(None) by {
                lemma_fill_is_empty(region_slot(bytes@, j));
            }
        }
        Ok(bytes)
    }

    /// Writes the slot region of this container over that of a save image.
    /// All other bytes of the image, the common key among them, stay as
    /// they are. On failure the image is left untouched.
    ///
    /// When every record is marked as occupied and has a payload of at
    /// least 32096 bytes, `from_bytes` reads from the image that comes of
    /// it a container with the same common key and the same records,
    /// content for content.
    pub fn write_back(&self, image: &mut Vec<u8>) -> (result: Result<(), CodecError>)
        ensures
            match result {
                Ok(()) => {
                    &&& old(image)@.len() >= SONG_OFFSET + SONG_SIZE
                    &&& encoded_region(self@) is Ok
                    &&& final(image)@ == written_back(old(image)@, encoded_region(self@)->Ok_0)
                    &&& final(image)@.len() == old(image)@.len()
                    &&& forall|i: int|
                        0 <= i < old(image)@.len() && !(SONG_OFFSET <= i < SONG_OFFSET + SONG_SIZE)
                            ==> final(image)@[i] == old(image)@[i]
                    &&& old(image)@.len() >= IMAGE_MIN && all_storable(self@.records) ==> {
                        &&& decoded_image(final(image)@) is Ok
                        &&& contents(decoded_image(final(image)@)->Ok_0.records) == contents(
                            self@.records,
                        )
                        &&& decoded_image(final(image)@)->Ok_0.common_key == old(image)@.subrange(
                            KEY_OFFSET as int,
                            KEY_OFFSET + KEY_SIZE,
                        )
                    }
                },
                Err(e) => {
                    &&& final(image)@ == old(image)@
                    &&& if old(image)@.len() < SONG_OFFSET + SONG_SIZE {
                        e == CodecError::MalformedInput
                    } else {
                        encoded_region(self@) == Err::<Seq<u8>, CodecError>(e)
                    }
                },
            },
    {
        if image.len() < SONG_OFFSET + SONG_SIZE {
            return Err(CodecError::MalformedInput);
        }
        match self.to_song_bytes() {
            Ok(region) => {
                proof {
                    if old(image)@.len() >= IMAGE_MIN && all_storable(self@.records) {
                        lemma_image_round_trip(old(image)@, region@, self@.records);
                    }
                }
                overwrite(image, SONG_OFFSET, region.as_slice());
                Ok(())
            },
            Err(e) => Err(e),
        }
    }
}

} // verus!
