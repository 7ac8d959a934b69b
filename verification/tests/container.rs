use rhabarberbar::container::{
    slot_key, IMAGE_MIN, KEY_OFFSET, SLOT_COUNT, SONG_OFFSET, SONG_SIZE,
};
use rhabarberbar::hash::compute_hmac;
use rhabarberbar::lzss::compress;
use rhabarberbar::structs::BdxHeader;
use rhabarberbar::{BdxRecord, CodecError, SavFile};

const SLOT: usize = 0x8000;

fn common_key() -> [u8; 40] {
    let mut key = [0u8; 40];
    for (i, byte) in key.iter_mut().enumerate() {
        *byte = 0x40 + i as u8;
    }
    key
}

fn tune(seed: u32, len: usize) -> Vec<u8> {
    let mut state = seed;
    let mut out = Vec::with_capacity(len);
    while out.len() < len {
        state = state.wrapping_mul(1664525).wrapping_add(1013904223);
        let byte = (state >> 24) as u8 & 0x0F;
        let count = 1 + ((state >> 16) as usize & 0x7F);
        for _ in 0..count {
            if out.len() < len {
                out.push(byte);
            }
        }
    }
    out
}

fn noise(seed: u32, len: usize) -> Vec<u8> {
    let mut state = seed;
    let mut out = Vec::with_capacity(len);
    for _ in 0..len {
        state = state.wrapping_mul(1664525).wrapping_add(1013904223);
        out.push((state >> 24) as u8);
    }
    out
}

fn header(label: &[u8]) -> BdxHeader {
    let mut bytes: Vec<u8> = (0..460).map(|i| (i % 241) as u8).collect();
    bytes[16..20].copy_from_slice(&0x80000001u32.to_le_bytes());
    for byte in &mut bytes[72..168] {
        *byte = 0;
    }
    bytes[72..72 + label.len()].copy_from_slice(label);
    BdxHeader::parse(&bytes).unwrap()
}

fn record(label: &[u8], data: Vec<u8>) -> BdxRecord {
    BdxRecord::new(header(label), data)
}

/// A save image without records: every byte outside the common key is the
/// low byte of its own index, so that any change shows.
fn blank_image(len: usize) -> Vec<u8> {
    let mut image: Vec<u8> = (0..len).map(|i| (i % 199) as u8).collect();
    for slot in 0..150 {
        let at = SONG_OFFSET + slot * SLOT + 16;
        image[at..at + 4].copy_from_slice(&[0, 0, 0, 0]);
    }
    image[KEY_OFFSET..KEY_OFFSET + 40].copy_from_slice(&common_key());
    image
}

fn labels(sav: &SavFile) -> Vec<String> {
    sav.records.iter().map(|record| record.label()).collect()
}

#[test]
fn places_in_the_image_are_fixed() {
    assert_eq!(SLOT_COUNT, 150);
    assert_eq!(SONG_OFFSET, 0x190000);
    assert_eq!(SONG_SIZE, 150 * 32768);
    assert_eq!(KEY_OFFSET, 0x7F0000);
    assert_eq!(IMAGE_MIN, KEY_OFFSET + 40);
    assert!(SONG_OFFSET + SONG_SIZE <= KEY_OFFSET);
}

#[test]
fn key_of_a_slot_wraps_the_common_key() {
    let common = common_key();
    let key = slot_key(&common, 0).unwrap();
    assert_eq!(key.len(), 42);
    assert_eq!(key[0], 1);
    assert_eq!(key[41], 1);
    assert_eq!(key[1..41], common);
    let key = slot_key(&common, 149).unwrap();
    assert_eq!((key[0], key[41]), (150, 150));
    assert_eq!(key[1..41], common);
    let key = slot_key(&common, 7).unwrap();
    assert_eq!((key[0], key[41]), (8, 8));
}

#[test]
fn keys_of_different_slots_differ() {
    let common = common_key();
    for i in 0..150 {
        for j in 0..i {
            assert_ne!(slot_key(&common, i).unwrap(), slot_key(&common, j).unwrap());
        }
    }
}

#[test]
fn key_of_a_slot_that_is_not_there() {
    let common = common_key();
    assert_eq!(slot_key(&common, 150), Err(CodecError::UnsupportedSlot));
    assert_eq!(slot_key(&common, 255), Err(CodecError::UnsupportedSlot));
    assert_eq!(slot_key(&common, usize::MAX), Err(CodecError::UnsupportedSlot));
}

#[test]
fn image_must_hold_the_common_key() {
    let image = blank_image(IMAGE_MIN);
    let sav = SavFile::from_bytes(&image).unwrap();
    assert_eq!(sav.records.len(), 0);
    assert_eq!(sav.common_key(), &common_key());
    assert_eq!(
        SavFile::from_bytes(&image[..IMAGE_MIN - 1]).map(|sav| sav.records.len()),
        Err(CodecError::MalformedInput)
    );
    assert_eq!(
        SavFile::from_bytes(&[]).map(|sav| sav.records.len()),
        Err(CodecError::MalformedInput)
    );
}

#[test]
fn image_gives_its_records_in_slot_order_without_gaps() {
    let mut image = blank_image(IMAGE_MIN + 100);
    let first = record(b"first", tune(1, 32096));
    let second = record(b"second", tune(2, 32096));
    let third = record(b"third", tune(3, 32096));
    for (slot, record) in [(149usize, &third), (3, &first), (70, &second)] {
        let key = slot_key(&common_key(), slot).unwrap();
        let bytes = record.to_sav_bytes(&key).unwrap();
        image[SONG_OFFSET + slot * SLOT..SONG_OFFSET + (slot + 1) * SLOT].copy_from_slice(&bytes);
    }
    let sav = SavFile::from_bytes(&image).unwrap();
    assert_eq!(labels(&sav), vec!["first", "second", "third"]);
    assert_eq!(sav.records[0].data(), first.data());
    assert_eq!(sav.records[1].data(), second.data());
    assert_eq!(sav.records[2].data(), third.data());
    assert_eq!(sav.records().len(), 3);
}

#[test]
fn image_with_a_slot_that_cannot_be_read_is_malformed() {
    let mut image = blank_image(IMAGE_MIN);
    let good = record(b"good", tune(1, 32096)).to_sav_bytes(&slot_key(&common_key(), 0).unwrap());
    image[SONG_OFFSET..SONG_OFFSET + SLOT].copy_from_slice(&good.unwrap());
    // Slot 5 is marked, but its stream is all flag bits and no bytes to go
    // with them: a backreference with nothing out yet.
    let at = SONG_OFFSET + 5 * SLOT;
    image[at + 16..at + 20].copy_from_slice(&0x80000001u32.to_le_bytes());
    image[at + 464..at + 468].copy_from_slice(&32096u32.to_le_bytes());
    for byte in &mut image[at + 472..at + SLOT] {
        *byte = 0xFF;
    }
    assert_eq!(
        SavFile::from_bytes(&image).map(|sav| sav.records.len()),
        Err(CodecError::MalformedInput)
    );
}

#[test]
fn region_of_no_records_is_all_fill() {
    let sav = SavFile::new(common_key());
    let region = sav.to_song_bytes().unwrap();
    assert_eq!(region.len(), 150 * 32768);
    assert!(region.iter().all(|&byte| byte == 0xFF));
}

#[test]
fn region_has_its_size_and_fill_behind_the_records() {
    let mut sav = SavFile::new(common_key());
    sav.records.push(record(b"a", tune(1, 32096)));
    sav.records.push(record(b"b", tune(2, 32096)));
    sav.records.push(record(b"c", tune(3, 1000)));
    let region = sav.to_song_bytes().unwrap();
    assert_eq!(region.len(), 150 * 32768);
    assert!(region[3 * SLOT..].iter().all(|&byte| byte == 0xFF));
    for i in 0..3 {
        let key = slot_key(&common_key(), i).unwrap();
        let slot = sav.records[i].to_sav_bytes(&key).unwrap();
        assert_eq!(region[i * SLOT..(i + 1) * SLOT], slot[..]);
    }
}

#[test]
fn region_keys_go_by_the_place_in_the_list() {
    let payload = tune(4, 32096);
    let packed = compress(&payload).len();
    let mut sav = SavFile::new(common_key());
    for _ in 0..3 {
        sav.records.push(record(b"same", payload.clone()));
    }
    let region = sav.to_song_bytes().unwrap();
    let mut codes = Vec::new();
    for i in 0..3 {
        let slot = &region[i * SLOT..(i + 1) * SLOT];
        let mut key = vec![i as u8 + 1];
        key.extend_from_slice(&common_key());
        key.push(i as u8 + 1);
        assert_eq!(slot[24..44], compute_hmac(&key, packed + 4, slot).unwrap()[..]);
        codes.push(slot[24..44].to_vec());
    }
    // One payload, one common key, three places: three codes.
    assert_ne!(codes[0], codes[1]);
    assert_ne!(codes[1], codes[2]);
    assert_ne!(codes[0], codes[2]);
    // All else is the same from the code on.
    assert_eq!(region[44..SLOT], region[SLOT + 44..2 * SLOT]);
}

#[test]
fn region_takes_a_hundred_and_fifty_records() {
    let mut sav = SavFile::new(common_key());
    for i in 0..150u32 {
        sav.records.push(record(b"full", vec![i as u8; 40]));
    }
    let region = sav.to_song_bytes().unwrap();
    assert_eq!(region.len(), 150 * 32768);
    assert_eq!(region[149 * SLOT + 16..149 * SLOT + 20], [0x01, 0x00, 0x00, 0x80]);
    let last_key = slot_key(&common_key(), 149).unwrap();
    assert_eq!(region[149 * SLOT..], sav.records[149].to_sav_bytes(&last_key).unwrap()[..]);
}

#[test]
fn region_does_not_take_one_record_more() {
    let mut sav = SavFile::new(common_key());
    for _ in 0..151 {
        sav.records.push(record(b"over", Vec::new()));
    }
    assert_eq!(sav.to_song_bytes(), Err(CodecError::UnsupportedSlot));
}

#[test]
fn region_fails_as_a_whole_when_one_record_does_not_fit() {
    let mut sav = SavFile::new(common_key());
    sav.records.push(record(b"fits", tune(1, 32096)));
    sav.records.push(record(b"too much", noise(5, 32096)));
    sav.records.push(record(b"fits too", tune(2, 32096)));
    assert_eq!(sav.to_song_bytes(), Err(CodecError::CapacityExceeded));
}

#[test]
fn packing_puts_apple_before_banana() {
    let apple = record(b"Apple", tune(1, 32096));
    let banana = record(b"Banana", tune(2, 32096));

    let mut one = SavFile::new(common_key());
    one.pack(vec![banana.clone(), apple.clone()]);
    assert_eq!(labels(&one), vec!["Apple", "Banana"]);

    let mut other = SavFile::new(common_key());
    other.pack(vec![apple.clone(), banana.clone()]);
    assert_eq!(labels(&other), vec!["Apple", "Banana"]);

    // Whichever way they came, the slots are the same.
    let region = one.to_song_bytes().unwrap();
    assert_eq!(region, other.to_song_bytes().unwrap());
    let first = BdxRecord::from_sav_bytes(&region[..SLOT]).unwrap().unwrap();
    let second = BdxRecord::from_sav_bytes(&region[SLOT..2 * SLOT]).unwrap().unwrap();
    assert_eq!(first.label(), "Apple");
    assert_eq!(second.label(), "Banana");
}

#[test]
fn packing_takes_the_place_of_the_records_there_were() {
    let mut sav = SavFile::new(common_key());
    sav.records.push(record(b"old", Vec::new()));
    sav.pack(vec![record(b"new", Vec::new())]);
    assert_eq!(labels(&sav), vec!["new"]);
    assert_eq!(sav.common_key(), &common_key());
    sav.pack(Vec::new());
    assert_eq!(sav.records.len(), 0);
}

#[test]
fn write_back_changes_the_region_and_nothing_else() {
    let image = blank_image(IMAGE_MIN + 1000);
    let mut sav = SavFile::from_bytes(&image).unwrap();
    sav.pack(vec![record(b"Banana", tune(1, 32096)), record(b"Apple", tune(2, 32096))]);
    let mut written = image.clone();
    assert_eq!(sav.write_back(&mut written), Ok(()));
    assert_eq!(written.len(), image.len());
    assert_eq!(written[..SONG_OFFSET], image[..SONG_OFFSET]);
    assert_eq!(written[SONG_OFFSET + SONG_SIZE..], image[SONG_OFFSET + SONG_SIZE..]);
    assert_eq!(written[KEY_OFFSET..KEY_OFFSET + 40], common_key());
    assert_eq!(written[SONG_OFFSET..SONG_OFFSET + SONG_SIZE], sav.to_song_bytes().unwrap()[..]);

    let back = SavFile::from_bytes(&written).unwrap();
    assert_eq!(labels(&back), vec!["Apple", "Banana"]);
    assert_eq!(back.records[0].data(), &tune(2, 32096));
    assert_eq!(back.records[1].data(), &tune(1, 32096));
    assert_eq!(back.common_key(), &common_key());
}

#[test]
fn records_go_from_files_through_the_image_and_back() {
    let image = blank_image(IMAGE_MIN);
    let files: Vec<Vec<u8>> = [(b"Banana", 5u32), (b"Cherry", 6), (b"Apples", 7)]
        .iter()
        .map(|(label, seed)| record(&label[..], tune(*seed, 32096)).to_bdx_bytes())
        .collect();
    let records: Vec<BdxRecord> =
        files.iter().map(|file| BdxRecord::from_bdx_bytes(file).unwrap()).collect();
    let mut sav = SavFile::from_bytes(&image).unwrap();
    sav.pack(records);
    let mut written = image.clone();
    assert_eq!(sav.write_back(&mut written), Ok(()));

    let back = SavFile::from_bytes(&written).unwrap();
    assert_eq!(labels(&back), vec!["Apples", "Banana", "Cherry"]);
    assert_eq!(back.records[0].data(), &tune(7, 32096));
    assert_eq!(back.records[1].data(), &tune(5, 32096));
    assert_eq!(back.records[2].data(), &tune(6, 32096));
    // Written out as files again, they are the files that came in.
    assert_eq!(back.records[0].to_bdx_bytes()[4..20], files[2][4..20]);
    assert_eq!(back.records[0].to_bdx_bytes()[44..], files[2][44..]);
}

#[test]
fn write_back_needs_the_whole_region() {
    let sav = SavFile::new(common_key());
    let mut image = vec![0x11u8; SONG_OFFSET + SONG_SIZE - 1];
    assert_eq!(sav.write_back(&mut image), Err(CodecError::MalformedInput));
    assert!(image.iter().all(|&byte| byte == 0x11));
    let mut image = vec![0x11u8; SONG_OFFSET + SONG_SIZE];
    assert_eq!(sav.write_back(&mut image), Ok(()));
    assert!(image[..SONG_OFFSET].iter().all(|&byte| byte == 0x11));
    assert!(image[SONG_OFFSET..].iter().all(|&byte| byte == 0xFF));
}

#[test]
fn write_back_that_fails_leaves_the_image_as_it_was() {
    let image = blank_image(IMAGE_MIN);
    let mut sav = SavFile::from_bytes(&image).unwrap();
    sav.pack(vec![record(b"fits", tune(1, 32096)), record(b"too much", noise(5, 32096))]);
    let mut written = image.clone();
    assert_eq!(sav.write_back(&mut written), Err(CodecError::CapacityExceeded));
    assert_eq!(written, image);
}
