//! Text decoding that the standard library does.
use vstd::prelude::*;
use vstd::string::StrSliceExecFns;
use vstd::utf8::*;

verus! {

/// What `String::from_utf8_lossy` makes of `bytes`.
pub uninterp spec fn lossy_utf8(bytes: Seq<u8>) -> Seq<char>;

/// What `String::from_utf16` makes of `units`; `None` where it reports an error.
pub uninterp spec fn utf16_text(units: Seq<u16>) -> Option<Seq<char>>;

/// The characters that Unicode lists as white space.
pub open spec fn is_white_space(c: char) -> bool {
    let u = c as u32;
    (0x09 <= u <= 0x0D) || u == 0x20 || u == 0x85 || u == 0xA0 || u == 0x1680 || (0x2000 <= u
        <= 0x200A) || u == 0x2028 || u == 0x2029 || u == 0x202F || u == 0x205F || u == 0x3000
}

/// The first place at or after `from` that holds no white space; the end
/// of the text if there is none.
pub open spec fn solid_from(text: Seq<char>, from: int) -> int
    decreases text.len() - from,
{
    if 0 <= from < text.len() && is_white_space(text[from]) {
        solid_from(text, from + 1)
    } else {
        from
    }
}

/// The last place at or before `to` that no white space stands right
/// before; the start of the text if there is none.
pub open spec fn solid_to(text: Seq<char>, to: int) -> int
    decreases to,
{
    if 0 < to <= text.len() && is_white_space(text[to - 1]) {
        solid_to(text, to - 1)
    } else {
        to
    }
}

/// The text without the white space at its two ends.
pub open spec fn trim_text(text: Seq<char>) -> Seq<char> {
    let from = solid_from(text, 0);
    let to = solid_to(text, text.len() as int);
    if from >= to {
        Seq::empty()
    } else {
        text.subrange(from, to)
    }
}

/// The text that `bytes` hold as UTF-8: valid bytes decode to their
/// characters, and anything else is repaired as the standard library does.
pub open spec fn utf8_text(bytes: Seq<u8>) -> Seq<char> {
    if valid_utf8(bytes) {
        decode_utf8(bytes)
    } else {
        lossy_utf8(bytes)
    }
}

/// Calls `String::from_utf8_lossy`. Believed: the result is a function of
/// the bytes alone, and valid UTF-8 is decoded as it stands, with nothing
/// replaced.
#[verifier::external_body]
pub(crate) fn string_from_utf8_lossy(bytes: &[u8]) -> (text: String)
    ensures
        text@ == lossy_utf8(bytes@),
        valid_utf8(bytes@) ==> text@ == decode_utf8(bytes@),
{
    String::from_utf8_lossy(bytes).into_owned()
}

/// Calls `String::from_utf16`. Believed: whether it succeeds, and with what
/// text, is a function of the code units alone.
#[verifier::external_body]
pub(crate) fn string_from_utf16(units: &Vec<u16>) -> (text: Option<String>)
    ensures
        match text {
            Some(s) => utf16_text(units@) == Some(s@),
            None => utf16_text(units@) is None,
        },
{
    String::from_utf16(units).ok()
}

/// Whether the character is white space.
pub fn white_space(c: char) -> (yes: bool)
    ensures
        yes == is_white_space(c),
{
    let u = c as u32;
    (0x09 <= u && u <= 0x0D) || u == 0x20 || u == 0x85 || u == 0xA0 || u == 0x1680 || (0x2000 <= u
        && u <= 0x200A) || u == 0x2028 || u == 0x2029 || u == 0x202F || u == 0x205F || u == 0x3000
}

/// The text without the white space at its two ends.
pub fn trimmed(text: &str) -> (rest: String)
    ensures
        rest@ == trim_text(text@),
{
    let len = text.unicode_len();
    let mut from: usize = 0;
    while from < len && white_space(text.get_char(from))
        invariant
            from <= len,
            len == text@.len(),
            solid_from(text@, 0) == solid_from(text@, from as int),
        decreases len - from,
    {
        from += 1;
    }
    let mut to: usize = len;
    while to > from && white_space(text.get_char(to - 1))
        invariant
            from <= to <= len,
            len == text@.len(),
            solid_to(text@, len as int) == solid_to(text@, to as int),
        decreases to,
    {
        to -= 1;
    }
    proof {
        lemma_solid_to_bound(text@, to as int);
    }
    if from >= to {
        let empty = String::new();
        assert(empty@ =~= Seq::<char>::empty());
        empty
    } else {
        text.substring_char(from, to).to_owned()
    }
}

pub proof fn lemma_solid_to_bound(text: Seq<char>, to: int)
    requires
        0 <= to <= text.len(),
    ensures
        0 <= solid_to(text, to) <= to,
    decreases to,
{
    if 0 < to && is_white_space(text[to - 1]) {
        lemma_solid_to_bound(text, to - 1);
    }
}

} // verus!
