//! The game's text encoding, read for display.
//!
//! Titles and contributor names are stored in a single-byte encoding with a
//! two-byte escape for symbols. Decoding goes one way only: the stored
//! bytes stay the truth, and the text made of them is for showing.

use vstd::prelude::*;

verus! {

/// Stands for a byte, or an escape, that has no known character.
pub const PLACEHOLDER: char = '\u{FFFD}';

/// The byte that opens a two-byte escape.
pub const ESCAPE: u8 = 0x80;

/// Characters of the bytes `0x81..=0xFF`, in that order.
pub const HIGH: [char; 127] = [
    // 0x81
    '\u{20AC}', '\u{FFFD}', '\u{FFFD}', '\u{201D}', '\u{FFFD}', '\u{FFFD}', '\u{FFFD}', '\u{FFFD}',
    // 0x89
    '\u{FFFD}', '\u{FFFD}', '\u{FFFD}', '\u{0152}', '\u{FFFD}', '\u{FFFD}', '\u{FFFD}', '\u{FFFD}',
    // 0x91
    '\u{FFFD}', '\u{FFFD}', '\u{201C}', '\u{FFFD}', '\u{2022}', '\u{FFFD}', '\u{FFFD}', '\u{301C}',
    // 0x99
    '\u{FFFD}', '\u{FFFD}', '\u{FFFD}', '\u{0153}', '\u{FFFD}', '\u{FFFD}', '\u{FFFD}', '\u{FFFD}',
    // 0xA1
    '\u{00A1}', '\u{00A2}', '\u{00A3}', '\u{FFFD}', '\u{FFFD}', '\u{FFFD}', '\u{FFFD}', '\u{FFFD}',
    // 0xA9
    '\u{FFFD}', '\u{FFFD}', '\u{FFFD}', '\u{FFFD}', '\u{FFFD}', '\u{FFFD}', '\u{FFFD}', '\u{FFFD}',
    // 0xB1
    '\u{FFFD}', '\u{FFFD}', '\u{FFFD}', '\u{FFFD}', '\u{FFFD}', '\u{FFFD}', '\u{FFFD}', '\u{FFFD}',
    // 0xB9
    '\u{FFFD}', '\u{FFFD}', '\u{FFFD}', '\u{FFFD}', '\u{FFFD}', '\u{00DF}', '\u{00BF}', '\u{00C0}',
    // 0xC1
    '\u{00C1}', '\u{00C2}', '\u{FFFD}', '\u{00C4}', '\u{FFFD}', '\u{FFFD}', '\u{00C7}', '\u{00C8}',
    // 0xC9
    '\u{00C9}', '\u{00CA}', '\u{00CB}', '\u{00CC}', '\u{00CD}', '\u{00CE}', '\u{00CF}', '\u{FFFD}',
    // 0xD1
    '\u{00D1}', '\u{00D2}', '\u{00D3}', '\u{00D4}', '\u{FFFD}', '\u{00D6}', '\u{FFFD}', '\u{FFFD}',
    // 0xD9
    '\u{00D9}', '\u{00DA}', '\u{00DB}', '\u{00DC}', '\u{FFFD}', '\u{FFFD}', '\u{FFFD}', '\u{00E0}',
    // 0xE1
    '\u{00E1}', '\u{00E2}', '\u{FFFD}', '\u{00E4}', '\u{FFFD}', '\u{FFFD}', '\u{00E7}', '\u{00E8}',
    // 0xE9
    '\u{00E9}', '\u{00EA}', '\u{00EB}', '\u{00EC}', '\u{00ED}', '\u{00EE}', '\u{00EF}', '\u{FFFD}',
    // 0xF1
    '\u{00F1}', '\u{00F2}', '\u{00F3}', '\u{00F4}', '\u{FFFD}', '\u{00F6}', '\u{FFFD}', '\u{FFFD}',
    // 0xF9
    '\u{00F9}', '\u{00FA}', '\u{00FB}', '\u{00FC}', '\u{FFFD}', '\u{FFFD}', '\u{00A9}',
];

/// Characters of the escapes whose second byte is `0x40..=0x6F`, in that
/// order.
pub const SYMBOLS: [char; 48] = [
    // 0x40
    '\u{00D7}', '\u{00F7}', '\u{2260}', '\u{2192}', '\u{2193}', '\u{2190}', '\u{2191}', '\u{203B}',
    // 0x48
    '\u{FFFD}', '\u{266D}', '\u{266A}', '\u{00B1}', '\u{2103}', '\u{25CB}', '\u{25CF}', '\u{25CE}',
    // 0x50
    '\u{25B3}', '\u{25B2}', '\u{25BD}', '\u{25BC}', '\u{25A1}', '\u{25A0}', '\u{25C7}', '\u{25C6}',
    // 0x58
    '\u{2606}', '\u{2605}', '\u{00B0}', '\u{221E}', '\u{2234}', '\u{2026}', '\u{2122}', '\u{00AE}',
    // 0x60
    '\u{2642}', '\u{2640}', '\u{03B1}', '\u{03B2}', '\u{03B3}', '\u{03C0}', '\u{03A3}', '\u{221A}',
    // 0x68
    '\u{FFFD}', '\u{FFFD}', '\u{FFFD}', '\u{FFFD}', '\u{FFFD}', '\u{FFFD}', '\u{FFFD}', '\u{FFFD}',
];

/// Whether `byte` ends a text.
pub open spec fn is_terminator(byte: u8) -> bool {
    byte == 0x00 || byte == 0x10
}

/// The upper-case hexadecimal digit of a value below 16.
pub open spec fn hex_digit(n: u8) -> char {
    if n < 10 {
        (0x30 + n) as char
    } else {
        (0x41 + (n - 10)) as char
    }
}

/// What a byte outside every rule turns into: its two hexadecimal digits
/// in square brackets.
pub open spec fn hex_marker(byte: u8) -> Seq<char> {
    seq!['[', hex_digit(byte / 16), hex_digit(byte % 16), ']']
}

/// What the escape with second byte `byte` turns into: three full-width
/// punctuation marks, the symbol table, and otherwise nothing.
pub open spec fn escape_text(byte: u8) -> Seq<char> {
    if byte == 0x1E {
        seq!['\u{FF0F}']
    } else if byte == 0x1F {
        seq!['\u{FF3C}']
    } else if byte == 0x22 {
        seq!['\u{FF5C}']
    } else if 0x40 <= byte <= 0x6F {
        seq![SYMBOLS[byte - 0x40]]
    } else {
        Seq::empty()
    }
}

/// The text that `bytes` stand for.
///
/// Reading stops at the first terminator. Bytes `0x20..=0x7E` are ASCII;
/// bytes from `0x81` on go through the table `HIGH`; `0x80` opens an
/// escape that takes the next byte with it, or stands for one placeholder
/// when it is the last byte; any other byte is shown as its hexadecimal
/// value in brackets.
pub open spec fn decode_text(bytes: Seq<u8>) -> Seq<char>
    decreases bytes.len(),
{
    if bytes.len() == 0 || is_terminator(bytes[0]) {
        Seq::empty()
    } else if 0x20 <= bytes[0] <= 0x7E {
        seq![bytes[0] as char] + decode_text(bytes.drop_first())
    } else if bytes[0] > ESCAPE {
        seq![HIGH[bytes[0] - 0x81]] + decode_text(bytes.drop_first())
    } else if bytes[0] == ESCAPE {
        if bytes.len() == 1 {
            seq![PLACEHOLDER]
        } else {
            escape_text(bytes[1]) + decode_text(bytes.skip(2))
        }
    } else {
        hex_marker(bytes[0]) + decode_text(bytes.drop_first())
    }
}

/// Trusted, not proved: `String::push` of the standard library appends one
/// character to the end of the string and leaves the rest as it was.
pub assume_specification[ String::push ](s: &mut String, c: char)
    ensures
        final(s)@ == old(s)@.push(c),
;

/// The upper-case hexadecimal digit of `n`.
fn hex_char(n: u8) -> (c: char)
    requires
        n < 16,
    ensures
        c == hex_digit(n),
{
    if n < 10 {
        (0x30 + n) as char
    } else {
        (0x41 + (n - 10)) as char
    }
}

/// Decodes `bytes` into text for display.
pub fn decode(bytes: &[u8]) -> (decoded: String)
    ensures
        decoded@ == decode_text(bytes@),
{
    let mut decoded = String::new();
    let mut i: usize = 0;
    assert(bytes@.skip(0) =~= bytes@);
    while i < bytes.len()
        invariant
            i <= bytes.len(),
            decoded@ + decode_text(bytes@.skip(i as int)) == decode_text(bytes@),
        decreases bytes.len() - i,
    {
        let ghost rest = bytes@.skip(i as int);
        let ghost before = decoded@;
        assert(rest[0] == bytes@[i as int]);
        assert(rest.drop_first() =~= bytes@.skip(i + 1));
        let byte = bytes[i];
        if byte == 0x00 || byte == 0x10 {
            assert(before + Seq::<char>::empty() =~= before);
            return decoded;
        } else if 0x20 <= byte && byte <= 0x7E {
            decoded.push(byte as char);
            i += 1;
        } else if byte > ESCAPE {
            decoded.push(HIGH[(byte - 0x81) as usize]);
            i += 1;
        } else if byte == ESCAPE {
            if i + 1 < bytes.len() {
                let second = bytes[i + 1];
                assert(rest[1] == second);
                assert(rest.skip(2) =~= bytes@.skip(i + 2));
                if second == 0x1E {
                    decoded.push('\u{FF0F}');
                } else if second == 0x1F {
                    decoded.push('\u{FF3C}');
                } else if second == 0x22 {
                    decoded.push('\u{FF5C}');
                } else if 0x40 <= second && second <= 0x6F {
                    decoded.push(SYMBOLS[(second - 0x40) as usize]);
                }
                assert(decoded@ =~= before + escape_text(second));
                i += 2;
            } else {
                decoded.push(PLACEHOLDER);
                assert(decode_text(rest) =~= seq![PLACEHOLDER]);
                return decoded;
            }
        } else {
            decoded.push('[');
            decoded.push(hex_char(byte / 16));
            decoded.push(hex_char(byte % 16));
            decoded.push(']');
            assert(decoded@ =~= before + hex_marker(byte));
            i += 1;
        }
        assert(decoded@ + decode_text(bytes@.skip(i as int)) =~= before + decode_text(rest));
    }
    assert(decode_text(bytes@.skip(i as int)) =~= Seq::<char>::empty());
    assert(decoded@ + Seq::<char>::empty() =~= decoded@);
    decoded
}

} // verus!
