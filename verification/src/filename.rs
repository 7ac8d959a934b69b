//! Names for the files that records are exported to.

use vstd::prelude::*;

verus! {

/// What takes the place of a character that a file name cannot hold.
pub const REPLACEMENT: char = '_';

/// Whether `c` is a control character: `U+0000..=U+001F` or
/// `U+007F..=U+009F`.
pub open spec fn is_control(c: char) -> bool {
    (c as u32) <= 0x1F || 0x7F <= (c as u32) <= 0x9F
}

/// Whether `c` is one of the characters that file systems reserve:
/// `* " / \ < > : | ?`.
pub open spec fn is_reserved(c: char) -> bool {
    c == '*' || c == '"' || c == '/' || c == '\\' || c == '<' || c == '>' || c == ':' || c == '|'
        || c == '?'
}

/// Whether a file name can hold `c`.
pub open spec fn valid_in_filename(c: char) -> bool {
    !is_control(c) && !is_reserved(c)
}

/// Whether `c` is white space: one of the 25 characters that Unicode
/// gives the property `White_Space`.
pub open spec fn is_white_space(c: char) -> bool {
    let n = c as u32;
    0x09 <= n <= 0x0D || n == 0x20 || n == 0x85 || n == 0xA0 || n == 0x1680 || 0x2000 <= n
        <= 0x200A || n == 0x2028 || n == 0x2029 || n == 0x202F || n == 0x205F || n == 0x3000
}

/// The number of white-space characters at the start of `text`.
pub open spec fn leading_space(text: Seq<char>) -> nat
    decreases text.len(),
{
    if text.len() > 0 && is_white_space(text[0]) {
        1 + leading_space(text.drop_first())
    } else {
        0
    }
}

/// The number of white-space characters at the end of `text`.
pub open spec fn trailing_space(text: Seq<char>) -> nat
    decreases text.len(),
{
    if text.len() > 0 && is_white_space(text.last()) {
        1 + trailing_space(text.drop_last())
    } else {
        0
    }
}

/// `text` without the white space at its start and at its end.
pub open spec fn trimmed(text: Seq<char>) -> Seq<char> {
    let rest = text.skip(leading_space(text) as int);
    rest.take(rest.len() - trailing_space(rest))
}

/// `text` with every character that a file name cannot hold replaced by an
/// underscore.
pub open spec fn replaced(text: Seq<char>) -> Seq<char> {
    Seq::new(
        text.len(),
        |i: int|
            if valid_in_filename(text[i]) {
                text[i]
            } else {
                REPLACEMENT
            },
    )
}

/// The file name made of a label: the label without the white space
/// around it, and with an underscore for every character that a file name
/// cannot hold.
pub open spec fn filename_text(label: Seq<char>) -> Seq<char> {
    replaced(trimmed(label))
}

/// Tells whether a file name can hold `c`.
pub fn is_valid_filename_char(c: char) -> (valid: bool)
    ensures
        valid == valid_in_filename(c),
{
    let n = c as u32;
    let control = n <= 0x1F || (0x7F <= n && n <= 0x9F);
    let reserved = c == '*' || c == '"' || c == '/' || c == '\\' || c == '<' || c == '>' || c
        == ':' || c == '|' || c == '?';
    !control && !reserved
}

/// Tells whether `c` is white space.
pub fn is_space(c: char) -> (space: bool)
    ensures
        space == is_white_space(c),
{
    let n = c as u32;
    (0x09 <= n && n <= 0x0D) || n == 0x20 || n == 0x85 || n == 0xA0 || n == 0x1680 || (0x2000 <= n
        && n <= 0x200A) || n == 0x2028 || n == 0x2029 || n == 0x202F || n == 0x205F || n == 0x3000
}

/// Makes a file name of a label: the white space around the label is
/// dropped, and each character that a file name cannot hold becomes an
/// underscore.
pub fn filename_of(label: &str) -> (name: String)
    ensures
        name@ == filename_text(label@),
{
    let n = label.unicode_len();
    let mut start: usize = 0;
    assert(label@.skip(0) =~= label@);
    while start < n && is_space(label.get_char(start))
        invariant
            start <= n == label@.len(),
            leading_space(label@) == start + leading_space(label@.skip(start as int)),
        decreases n - start,
    {
        assert(label@.skip(start as int).drop_first() =~= label@.skip(start + 1));
        start += 1;
    }
    let ghost rest = label@.skip(start as int);
    let mut end: usize = n;
    assert(rest.take(rest.len() as int) =~= rest);
    while end > start && is_space(label.get_char(end - 1))
        invariant
            start <= end <= n == label@.len(),
            rest == label@.skip(start as int),
            trailing_space(rest) == (n - end) + trailing_space(rest.take(end - start)),
        decreases end - start,
    {
        assert(rest.take(end - start).drop_last() =~= rest.take(end - start - 1));
        end -= 1;
    }
    let ghost kept = rest.take(end - start);
    proof {
        assert(kept =~= trimmed(label@));
    }
    let mut name = String::new();
    let mut i: usize = start;
    while i < end
        invariant
            start <= i <= end <= n == label@.len(),
            kept == label@.skip(start as int).take(end - start),
            name@ == replaced(kept).take(i - start),
        decreases end - i,
    {
        let c = label.get_char(i);
        assert(kept[i - start] == c);
        if is_valid_filename_char(c) {
            name.push(c);
        } else {
            name.push(REPLACEMENT);
        }
        assert(name@ =~= replaced(kept).take(i + 1 - start));
        i += 1;
    }
    assert(replaced(kept).take(end - start) =~= replaced(kept));
    name
}

} // verus!
