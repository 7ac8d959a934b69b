use rhabarberbar::filename::{filename_of, is_space, is_valid_filename_char};

#[test]
fn letters_digits_and_spaces_are_valid() {
    for c in ['a', 'Z', '0', ' ', '-', '.', '_', '\u{00E9}', '\u{266A}', '\u{FFFD}'] {
        assert!(is_valid_filename_char(c));
    }
}

#[test]
fn reserved_characters_are_not_valid() {
    for c in "*\"/\\<>:|?".chars() {
        assert!(!is_valid_filename_char(c));
    }
}

#[test]
fn control_characters_are_not_valid() {
    for n in (0u32..0x20).chain(0x7F..=0x9F) {
        let c = char::from_u32(n).unwrap();
        assert!(!is_valid_filename_char(c));
        assert!(c.is_control());
    }
    assert!(is_valid_filename_char('\u{00A0}'));
    assert!(is_valid_filename_char('\u{7E}'));
}

#[test]
fn validity_agrees_with_the_plain_rule_on_every_character() {
    for n in 0u32..=0x10FFFF {
        if let Some(c) = char::from_u32(n) {
            let expected = !c.is_control() && "*\"/\\<>:|?".chars().all(|bad| c != bad);
            assert_eq!(is_valid_filename_char(c), expected);
        }
    }
}

#[test]
fn white_space_is_what_the_standard_library_takes_for_it() {
    let mut count = 0;
    for n in 0u32..=0x10FFFF {
        if let Some(c) = char::from_u32(n) {
            assert_eq!(is_space(c), c.is_whitespace());
            if is_space(c) {
                count += 1;
            }
        }
    }
    assert_eq!(count, 25);
}

#[test]
fn filename_replaces_what_is_not_valid() {
    assert_eq!(filename_of("My Song"), "My Song");
    assert_eq!(filename_of("A/B: C?"), "A_B_ C_");
    assert_eq!(filename_of("tab\there"), "tab_here");
    assert_eq!(filename_of(""), "");
    assert_eq!(filename_of("\u{266A} caf\u{00E9} *"), "\u{266A} caf\u{00E9} _");
}

#[test]
fn filename_drops_the_white_space_around_the_label() {
    assert_eq!(filename_of("  My Song  "), "My Song");
    assert_eq!(filename_of("\t\n My  Song \r\n"), "My  Song");
    assert_eq!(filename_of("\u{3000}Song\u{00A0}"), "Song");
    assert_eq!(filename_of("   "), "");
    assert_eq!(filename_of(" "), "");
    assert_eq!(filename_of(" a"), "a");
    assert_eq!(filename_of("a "), "a");
    // White space goes before anything is replaced: a tab inside stays as
    // an underscore, a tab at the end is dropped.
    assert_eq!(filename_of("a\tb\t"), "a_b");
    assert_eq!(filename_of(" ? "), "_");
}

#[test]
fn filename_is_the_trimmed_label_with_replacements() {
    let labels = ["  x/y  ", "\u{2003}\u{266A}: z\u{85}", "plain", " \u{1F}a\u{1F} ", "\u{0}"];
    for label in labels {
        let expected: String = label
            .trim()
            .chars()
            .map(|c| if is_valid_filename_char(c) { c } else { '_' })
            .collect();
        assert_eq!(filename_of(label), expected);
    }
}
