use rhabarberbar::text::{decode, HIGH, PLACEHOLDER, SYMBOLS};

#[test]
fn decode_plain_text_up_to_the_terminator() {
    assert_eq!(decode(&[0x48, 0x49, 0x00]), "HI");
}

#[test]
fn decode_stops_at_either_terminator() {
    assert_eq!(decode(&[0x41, 0x00, 0x42]), "A");
    assert_eq!(decode(&[0x41, 0x10, 0x42]), "A");
    assert_eq!(decode(&[0x00]), "");
    assert_eq!(decode(&[0x10, 0x41]), "");
}

#[test]
fn decode_of_nothing() {
    assert_eq!(decode(&[]), "");
}

#[test]
fn decode_without_terminator_reads_to_the_end() {
    assert_eq!(decode(b"Song"), "Song");
}

#[test]
fn decode_passes_ascii_through() {
    let bytes: Vec<u8> = (0x20..=0x7E).collect();
    let expected: String = (0x20u8..=0x7E).map(|b| b as char).collect();
    assert_eq!(decode(&bytes), expected);
}

#[test]
fn decode_symbol_escape() {
    // 0x4A is the eleventh symbol: a note.
    assert_eq!(decode(&[0x80, 0x4A]), SYMBOLS[0x4A - 0x40].to_string());
    assert_eq!(decode(&[0x80, 0x4A]), "\u{266A}");
    assert_eq!(decode(&[0x80, 0x40]), "\u{00D7}");
    assert_eq!(decode(&[0x80, 0x67]), "\u{221A}");
    assert_eq!(decode(&[0x80, 0x6F]), "\u{FFFD}");
}

#[test]
fn decode_every_symbol_escape() {
    for second in 0x40u8..=0x6F {
        assert_eq!(decode(&[0x80, second]), SYMBOLS[(second - 0x40) as usize].to_string());
    }
}

#[test]
fn decode_punctuation_escapes() {
    assert_eq!(decode(&[0x80, 0x1E]), "\u{FF0F}");
    assert_eq!(decode(&[0x80, 0x1F]), "\u{FF3C}");
    assert_eq!(decode(&[0x80, 0x22]), "\u{FF5C}");
}

#[test]
fn decode_lone_escape_at_the_end() {
    assert_eq!(decode(&[0x80]), PLACEHOLDER.to_string());
    assert_eq!(decode(&[0x41, 0x80]), "A\u{FFFD}");
}

#[test]
fn decode_unknown_escape_gives_nothing() {
    assert_eq!(decode(&[0x41, 0x80, 0x00, 0x42]), "AB");
    assert_eq!(decode(&[0x41, 0x80, 0x3F, 0x42]), "AB");
    assert_eq!(decode(&[0x41, 0x80, 0x70, 0x42]), "AB");
    assert_eq!(decode(&[0x41, 0x80, 0x80, 0x42]), "AB");
    assert_eq!(decode(&[0x41, 0x80, 0xFF, 0x42]), "AB");
}

#[test]
fn decode_escape_takes_a_terminator_with_it() {
    // The byte behind 0x80 is the second half of the escape, whatever it is.
    assert_eq!(decode(&[0x80, 0x10, 0x41]), "A");
}

#[test]
fn decode_high_bytes_through_the_table() {
    assert_eq!(decode(&[0x81]), "\u{20AC}");
    assert_eq!(decode(&[0xC4]), "\u{00C4}");
    assert_eq!(decode(&[0xE9]), "\u{00E9}");
    assert_eq!(decode(&[0xFF]), "\u{00A9}");
    assert_eq!(decode(&[0x98]), "\u{301C}");
    for byte in 0x81u8..=0xFF {
        assert_eq!(decode(&[byte]), HIGH[(byte - 0x81) as usize].to_string());
    }
}

#[test]
fn decode_unmapped_high_bytes_as_placeholder() {
    assert_eq!(decode(&[0x82]), "\u{FFFD}");
    assert_eq!(decode(&[0xC3, 0x41]), "\u{FFFD}A");
}

#[test]
fn decode_other_bytes_as_hex_in_brackets() {
    assert_eq!(decode(&[0x01]), "[01]");
    assert_eq!(decode(&[0x0F]), "[0F]");
    assert_eq!(decode(&[0x11]), "[11]");
    assert_eq!(decode(&[0x1F]), "[1F]");
    assert_eq!(decode(&[0x7F]), "[7F]");
    assert_eq!(decode(&[0x41, 0x0A, 0x42]), "A[0A]B");
    for byte in (0x01u8..0x20).chain([0x7F]) {
        if byte != 0x10 {
            assert_eq!(decode(&[byte]), format!("[{:02X}]", byte));
        }
    }
}

#[test]
fn decode_a_mixed_title() {
    let bytes = [b'C', b'a', b'f', 0xE9, b' ', 0x80, 0x4A, b' ', 0x80, 0x1E, 0x02, 0x00, b'x'];
    assert_eq!(decode(&bytes), "Caf\u{00E9} \u{266A} \u{FF0F}[02]");
}

#[test]
fn tables_have_their_sizes() {
    assert_eq!(HIGH.len(), 127);
    assert_eq!(SYMBOLS.len(), 48);
    assert_eq!(PLACEHOLDER, '\u{FFFD}');
}
