use rhabarberbar::hash::{compute_bdx_hashes, compute_hmac};
use rhabarberbar::lzss::compress;
use rhabarberbar::record::{assemble_slot, overwrite, pad_to, stamp_slot};
use rhabarberbar::endian::{read_u16, read_u32};
use rhabarberbar::structs::BdxHeader;
use rhabarberbar::{BdxRecord, CodecError};

fn noise(seed: u32, len: usize) -> Vec<u8> {
    let mut state = seed;
    let mut out = Vec::with_capacity(len);
    for _ in 0..len {
        state = state.wrapping_mul(1664525).wrapping_add(1013904223);
        out.push((state >> 24) as u8);
    }
    out
}

fn tune(seed: u32, len: usize) -> Vec<u8> {
    let mut state = seed;
    let mut out = Vec::with_capacity(len);
    while out.len() < len {
        state = state.wrapping_mul(1664525).wrapping_add(1013904223);
        let byte = (state >> 24) as u8 & 0x0F;
        let count = 1 + ((state >> 16) as usize & 0x7F);
        for _ in 0..count {
            if out.len() < len {
                out.push(byte);
            }
        }
    }
    out
}

/// The bytes of a header with the given label and contributor, marked as
/// occupied.
fn header_bytes(label: &[u8], contributor: &[u8]) -> Vec<u8> {
    let mut bytes: Vec<u8> = (0..460).map(|i| (i % 251) as u8).collect();
    bytes[16..20].copy_from_slice(&0x80000001u32.to_le_bytes());
    for byte in &mut bytes[72..168] {
        *byte = 0;
    }
    bytes[72..72 + label.len()].copy_from_slice(label);
    for byte in &mut bytes[332..460] {
        *byte = 0;
    }
    bytes[332..332 + contributor.len()].copy_from_slice(contributor);
    bytes
}

fn record(label: &[u8], data: Vec<u8>) -> BdxRecord {
    BdxRecord::new(BdxHeader::parse(&header_bytes(label, b"someone")).unwrap(), data)
}

fn key(index: u8) -> Vec<u8> {
    let mut key = vec![index + 1];
    key.extend((0..40).map(|i| 0xA0 ^ i as u8));
    key.push(index + 1);
    key
}

#[test]
fn slot_that_is_not_marked_holds_no_record() {
    let mut slot = vec![0xFFu8; 0x8000];
    let markers = [0u32, 1, 0x80000000, 0x80000002, 0x7FFFFFFF, 0xFFFFFFFF, 0x01000080];
    for marker in markers {
        slot[16..20].copy_from_slice(&marker.to_le_bytes());
        assert_eq!(BdxRecord::from_sav_bytes(&slot), Ok(None));
    }
}

#[test]
fn slot_that_is_not_marked_needs_no_more_than_a_header() {
    let slot = vec![0u8; 460];
    assert_eq!(BdxRecord::from_sav_bytes(&slot), Ok(None));
}

#[test]
fn slot_shorter_than_a_header_is_malformed() {
    assert_eq!(BdxRecord::from_sav_bytes(&[0u8; 459]), Err(CodecError::MalformedInput));
    assert_eq!(BdxRecord::from_sav_bytes(&[]), Err(CodecError::MalformedInput));
}

#[test]
fn marked_slot_without_sub_header_is_malformed() {
    let slot = header_bytes(b"x", b"y");
    assert_eq!(BdxRecord::from_sav_bytes(&slot), Err(CodecError::MalformedInput));
    let mut slot = header_bytes(b"x", b"y");
    slot.extend_from_slice(&[0u8; 11]);
    assert_eq!(BdxRecord::from_sav_bytes(&slot), Err(CodecError::MalformedInput));
}

#[test]
fn marked_slot_whose_stream_ends_early_is_malformed() {
    let mut slot = header_bytes(b"x", b"y");
    slot.extend_from_slice(&0x10u32.to_le_bytes());
    slot.extend_from_slice(&100u32.to_le_bytes());
    slot.extend_from_slice(&0u32.to_le_bytes());
    slot.extend_from_slice(&[0x00, 1, 2, 3]);
    assert_eq!(BdxRecord::from_sav_bytes(&slot), Err(CodecError::MalformedInput));
}

#[test]
fn marked_slot_is_read_to_the_length_that_it_states() {
    let mut slot = header_bytes(b"Tune", b"Me");
    slot.extend_from_slice(&0x10u32.to_le_bytes());
    slot.extend_from_slice(&5u32.to_le_bytes());
    slot.extend_from_slice(&0u32.to_le_bytes());
    slot.extend_from_slice(&[0x00, 1, 2, 3, 4, 5, 6, 7, 8]);
    let record = BdxRecord::from_sav_bytes(&slot).unwrap().unwrap();
    assert_eq!(record.data(), &vec![1, 2, 3, 4, 5]);
    assert_eq!(record.label(), "Tune");
    assert_eq!(record.contributor(), "Me");
    let mut header = Vec::new();
    record.header().write(&mut header);
    assert_eq!(header[..], slot[..460]);
}

#[test]
fn file_is_header_and_raw_payload() {
    let mut file = header_bytes(b"Raw", b"Who");
    file.extend_from_slice(&[9, 8, 7]);
    let record = BdxRecord::from_bdx_bytes(&file).unwrap();
    assert_eq!(record.data(), &vec![9, 8, 7]);
    assert_eq!(record.label(), "Raw");

    let whole = {
        let mut whole = header_bytes(b"Raw", b"Who");
        whole.extend(tune(3, 0x8000 - 460));
        whole
    };
    let record = BdxRecord::from_bdx_bytes(&whole).unwrap();
    assert_eq!(record.data().len(), 0x8000 - 460);
    assert_eq!(record.data()[..], whole[460..]);
}

#[test]
fn file_does_not_ask_for_the_marker() {
    let mut file = header_bytes(b"Raw", b"Who");
    file[16..20].copy_from_slice(&[0, 0, 0, 0]);
    assert!(BdxRecord::from_bdx_bytes(&file).is_ok());
}

#[test]
fn file_shorter_than_a_header_is_malformed() {
    assert_eq!(
        BdxRecord::from_bdx_bytes(&[0u8; 459]).map(|record| record.data().len()),
        Err(CodecError::MalformedInput)
    );
}

#[test]
fn file_written_is_header_payload_and_zeros() {
    let payload = tune(5, 32096);
    let record = record(b"Song", payload.clone());
    let file = record.to_bdx_bytes();
    assert_eq!(file.len(), 0x8000);
    assert_eq!(file[..460], header_bytes(b"Song", b"someone")[..]);
    assert_eq!(file[460..460 + 32096], payload[..]);
    assert!(file[460 + 32096..].iter().all(|&byte| byte == 0x00));
}

#[test]
fn file_written_is_read_back() {
    let payload = tune(6, 32096);
    let record = record(b"Song", payload.clone());
    let file = record.to_bdx_bytes();
    let back = BdxRecord::from_bdx_bytes(&file).unwrap();
    assert_eq!(back.header(), record.header());
    assert_eq!(back.data()[..32096], payload[..]);
    assert!(back.data()[32096..].iter().all(|&byte| byte == 0));
    assert_eq!(back.data().len(), 0x8000 - 460);
    assert_eq!(back.to_bdx_bytes(), file);
}

#[test]
fn file_holds_no_more_than_its_size() {
    let fits = record(b"a", vec![1u8; 0x8000 - 460]);
    let file = fits.to_bdx_bytes();
    assert_eq!(file.len(), 0x8000);
    assert!(file[460..].iter().all(|&byte| byte == 1));

    // What is more than the file holds is cut off.
    let mut payload = vec![1u8; 0x8000 - 460];
    payload.extend_from_slice(&[2, 3, 4]);
    let over = record(b"a", payload);
    assert_eq!(over.to_bdx_bytes(), file);
}

#[test]
fn file_of_a_record_without_payload_is_header_and_zeros() {
    let file = record(b"a", Vec::new()).to_bdx_bytes();
    assert_eq!(file.len(), 0x8000);
    assert_eq!(file[..460], header_bytes(b"a", b"someone")[..]);
    assert!(file[460..].iter().all(|&byte| byte == 0));
}

#[test]
fn slot_written_has_header_sub_header_stream_and_fill() {
    let payload = tune(8, 32096);
    let record = record(b"Song", payload.clone());
    let slot = record.to_sav_bytes(&key(0)).unwrap();
    let packed = compress(&payload);
    let given = header_bytes(b"Song", b"someone");
    assert_eq!(slot.len(), 0x8000);
    // The header, but for the stamps.
    assert_eq!(slot[4..20], given[4..20]);
    assert_eq!(slot[44..460], given[44..460]);
    // The sub-header.
    assert_eq!(slot[460..472], [0x10, 0, 0, 0, 0x60, 0x7D, 0, 0, 0, 0, 0, 0]);
    // The packed payload and the fill.
    assert_eq!(slot[472..472 + packed.len()], packed[..]);
    assert!(slot[472 + packed.len()..].iter().all(|&byte| byte == 0xFF));
}

#[test]
fn slot_written_carries_its_stamps() {
    let payload = tune(9, 32096);
    let record = record(b"Song", payload.clone());
    let slot = record.to_sav_bytes(&key(4)).unwrap();
    let packed = compress(&payload);
    // The compressed length is four more than the stream has bytes.
    assert_eq!(read_u32(&slot, 20) as usize, packed.len() + 4);
    // The code is that of the range which the length names.
    let code = compute_hmac(&key(4), packed.len() + 4, &slot).unwrap();
    assert_eq!(slot[24..44], code[..]);
    // The checksum pair is that of the record with the code in it.
    let (check0, check1) = compute_bdx_hashes(&slot[..472 + packed.len()]);
    assert_eq!(read_u16(&slot, 0), check0);
    assert_eq!(read_u16(&slot, 2), check1);
    assert_ne!(check1, 0);
}

#[test]
fn slot_written_is_read_back() {
    let payload = tune(10, 32096);
    let record = record(b"Song", payload.clone());
    let slot = record.to_sav_bytes(&key(1)).unwrap();
    let back = BdxRecord::from_sav_bytes(&slot).unwrap().unwrap();
    assert_eq!(back.data(), &payload);
    assert_eq!(back.label(), "Song");
    assert_eq!(back.contributor(), "someone");
    assert_eq!(back.header().karaoke_stuff, record.header().karaoke_stuff);
    assert_eq!(back.header().instrument_headers, record.header().instrument_headers);
    assert_eq!(back.header().hmac_sha1[..], slot[24..44]);
    // Written again under the same key it is the same slot.
    assert_eq!(back.to_sav_bytes(&key(1)).unwrap(), slot);
}

#[test]
fn slot_keeps_the_beginning_of_a_payload_read_from_a_file() {
    // A full file gives 32308 bytes of payload: 32096 of the song, and the
    // zeros that fill the file. The slot states 32096 and gives back these.
    let song = tune(14, 32096);
    let file = record(b"Song", song.clone()).to_bdx_bytes();
    let from_file = BdxRecord::from_bdx_bytes(&file).unwrap();
    assert_eq!(from_file.data().len(), 32308);
    let slot = from_file.to_sav_bytes(&key(2)).unwrap();
    let back = BdxRecord::from_sav_bytes(&slot).unwrap().unwrap();
    assert_eq!(back.data(), &song);
    assert_eq!(back.label(), "Song");
    assert_eq!(back.header().karaoke_stuff, from_file.header().karaoke_stuff);
}

#[test]
fn slot_gives_no_more_payload_than_it_states() {
    // The stream goes on behind the length stated; the last run is cut.
    let mut slot = header_bytes(b"Cut", b"Me");
    slot.extend_from_slice(&0x10u32.to_le_bytes());
    slot.extend_from_slice(&5u32.to_le_bytes());
    slot.extend_from_slice(&0u32.to_le_bytes());
    slot.extend_from_slice(&[0x40, b'z', 0xF0, 0x00, 1, 2, 3]);
    let record = BdxRecord::from_sav_bytes(&slot).unwrap().unwrap();
    assert_eq!(record.data(), &vec![b'z'; 5]);
}

#[test]
fn slot_code_depends_on_the_key() {
    let record = record(b"Song", tune(11, 32096));
    let one = record.to_sav_bytes(&key(0)).unwrap();
    let two = record.to_sav_bytes(&key(1)).unwrap();
    assert_ne!(one[24..44], two[24..44]);
    // And with the code the checksum changes, which covers it.
    assert_ne!(one[0..2], two[0..2]);
    assert_eq!(one[44..], two[44..]);
    assert_eq!(one[4..24], two[4..24]);
}

#[test]
fn slot_does_not_take_a_record_that_does_not_fit() {
    let record = record(b"Noise", noise(12, 32096));
    assert!(compress(record.data()).len() + 472 > 0x8000);
    assert_eq!(record.to_sav_bytes(&key(0)), Err(CodecError::CapacityExceeded));
}

/// Bytes in which no three in a row come twice: a counter, two bytes at a
/// time. They pack into literals only, one flag byte for every eight.
fn counting(len: usize) -> Vec<u8> {
    (0..len).map(|i| if i % 2 == 0 { (i / 2 / 256) as u8 } else { (i / 2 % 256) as u8 }).collect()
}

#[test]
fn slot_takes_what_fits_to_the_last_byte_of_its_range() {
    // 28689 literals pack into 32276 bytes: the authenticated range, which
    // ends 20 bytes behind the stream, ends with the slot.
    let payload = counting(28689);
    let packed = compress(&payload);
    assert_eq!(packed.len(), 28689 + 3587);
    assert_eq!(492 + packed.len(), 0x8000);
    let slot = record(b"n", payload).to_sav_bytes(&key(0)).unwrap();
    assert_eq!(slot.len(), 0x8000);
    assert_eq!(read_u32(&slot, 20) as usize, packed.len() + 4);
    assert_eq!(slot[472..472 + packed.len()], packed[..]);
    assert_eq!(slot[0x8000 - 20..], [0xFF; 20]);
}

#[test]
fn slot_whose_authenticated_range_ends_outside_is_malformed() {
    // One literal more: the record still fits, but the range that its
    // compressed length names does not end within the slot.
    let payload = counting(28690);
    let packed = compress(&payload);
    assert_eq!(packed.len(), 28690 + 3587);
    assert_eq!(record(b"n", payload).to_sav_bytes(&key(0)), Err(CodecError::MalformedInput));

    // So it is up to the last stream that fits the slot.
    let payload = counting(28707);
    assert_eq!(472 + compress(&payload).len(), 0x8000);
    assert_eq!(record(b"n", payload).to_sav_bytes(&key(0)), Err(CodecError::MalformedInput));

    // Beyond that the record itself does not fit.
    let payload = counting(28708);
    assert_eq!(record(b"n", payload).to_sav_bytes(&key(0)), Err(CodecError::CapacityExceeded));
}

#[test]
fn assemble_sets_the_length_and_fills_the_slot() {
    let header = BdxHeader::parse(&header_bytes(b"a", b"b")).unwrap();
    let slot = assemble_slot(&header, &[1, 2, 3]).unwrap();
    assert_eq!(slot.len(), 0x8000);
    assert_eq!(slot[20..24], [7, 0, 0, 0]);
    assert_eq!(slot[..20], header_bytes(b"a", b"b")[..20]);
    assert_eq!(slot[24..460], header_bytes(b"a", b"b")[24..]);
    assert_eq!(slot[460..475], [0x10, 0, 0, 0, 0x60, 0x7D, 0, 0, 0, 0, 0, 0, 1, 2, 3]);
    assert!(slot[475..].iter().all(|&byte| byte == 0xFF));
}

#[test]
fn assemble_takes_a_stream_that_just_fits() {
    let header = BdxHeader::parse(&header_bytes(b"a", b"b")).unwrap();
    let most = vec![0x33u8; 0x8000 - 472];
    let slot = assemble_slot(&header, &most).unwrap();
    assert_eq!(slot[472..], most[..]);
    let over = vec![0x33u8; 0x8000 - 471];
    assert_eq!(assemble_slot(&header, &over), Err(CodecError::CapacityExceeded));
}

#[test]
fn stamp_sets_code_then_checksums() {
    let mut slot: Vec<u8> = (0..0x8000).map(|i| (i % 253) as u8).collect();
    let before = slot.clone();
    let code = [0xC0u8; 20];
    stamp_slot(&mut slot, &code, 600);
    assert_eq!(slot[24..44], code);
    let mut with_code = before.clone();
    with_code[24..44].copy_from_slice(&code);
    let (check0, check1) = compute_bdx_hashes(&with_code[..600]);
    assert_eq!(slot[0..2], check0.to_le_bytes());
    assert_eq!(slot[2..4], check1.to_le_bytes());
    assert_eq!(slot[4..24], before[4..24]);
    assert_eq!(slot[44..], before[44..]);
    // The checksums hold of the slot as it now is.
    assert_eq!(compute_bdx_hashes(&slot[..600]), (check0, check1));
    // With another code the checksum is another.
    let mut other = before.clone();
    stamp_slot(&mut other, &[0xC1u8; 20], 600);
    assert_ne!(other[0..2], slot[0..2]);
}

#[test]
fn pad_fills_to_the_size() {
    let mut buf = vec![1, 2, 3];
    pad_to(&mut buf, 6, 0xFF);
    assert_eq!(buf, vec![1, 2, 3, 0xFF, 0xFF, 0xFF]);
    pad_to(&mut buf, 6, 0x00);
    assert_eq!(buf, vec![1, 2, 3, 0xFF, 0xFF, 0xFF]);
}

#[test]
fn overwrite_changes_the_patch_and_nothing_else() {
    let mut buf = vec![0, 1, 2, 3, 4, 5];
    overwrite(&mut buf, 2, &[9, 8]);
    assert_eq!(buf, vec![0, 1, 9, 8, 4, 5]);
    overwrite(&mut buf, 6, &[]);
    overwrite(&mut buf, 4, &[7, 7]);
    assert_eq!(buf, vec![0, 1, 9, 8, 7, 7]);
}

#[test]
fn label_is_the_three_fields_one_after_another() {
    let mut bytes = header_bytes(b"", b"");
    bytes[72..76].copy_from_slice(b"One\0");
    bytes[76] = b'x';
    bytes[104..108].copy_from_slice(b"Two\x10");
    bytes[136..141].copy_from_slice(b"Three");
    let record = BdxRecord::new(BdxHeader::parse(&bytes).unwrap(), Vec::new());
    assert_eq!(record.label(), "OneTwoThree");
}

#[test]
fn label_field_without_terminator_ends_with_the_field() {
    let mut bytes = header_bytes(b"", b"");
    for byte in &mut bytes[72..104] {
        *byte = b'a';
    }
    bytes[104] = b'b';
    let record = BdxRecord::new(BdxHeader::parse(&bytes).unwrap(), Vec::new());
    assert_eq!(record.label(), format!("{}b", "a".repeat(32)));
}

#[test]
fn label_escape_does_not_reach_into_the_next_field() {
    let mut bytes = header_bytes(b"", b"");
    bytes[103] = 0x80;
    for byte in &mut bytes[72..103] {
        *byte = b' ';
    }
    bytes[104] = 0x4A;
    let record = BdxRecord::new(BdxHeader::parse(&bytes).unwrap(), Vec::new());
    assert_eq!(record.label(), format!("{}\u{FFFD}J", " ".repeat(31)));
}

#[test]
fn contributor_is_decoded() {
    let record = BdxRecord::new(
        BdxHeader::parse(&header_bytes(b"t", &[b'J', 0xF6, b'r', b'g', 0x00, b'!'])).unwrap(),
        Vec::new(),
    );
    assert_eq!(record.contributor(), "J\u{00F6}rg");
}
