//! Reading the markup form.
//!
//! A document is a `plist` element around one dictionary. Values are
//! elements: `dict` holds `key` elements, each followed by a value;
//! `array` holds values; `string`, `integer`, `real`, `date` and `data`
//! hold text; `true` and `false` are empty. White space may stand between
//! elements. The text of an element runs up to the next `<` and is taken
//! as it stands.
//!
//! Real numbers are written in decimal, and turning decimal text into a
//! double takes floating point. So the reader hands out the texts of the
//! real numbers, and takes their values, in the order of the document.
use vstd::prelude::*;
use vstd::slice::{slice_subrange, slice_to_vec};
use vstd::string::StringSliceAdditionalSpecFns;
use vstd::utf8::encode_utf8;
use crate::date::{representable, rfc3339_instant, timestamp_exists, timestamp_from_rfc3339};
use crate::error::Error;
use crate::plist::{
    all_values_well_formed, all_well_formed, entries_insert, entries_view, insert_entry,
    items_view, key_index, keys_unique, lemma_entries_view, lemma_insert_keeps_unique,
    lemma_items_view, lemma_key_index, well_formed, Entries, Plist, Value,
};
use crate::stream::binary_reader::viewed;
use crate::stream::markup::{
    after_space, at_begin, at_close, at_empty, at_open, begin_tag, close_tag, element, empty_tag,
    find_byte, find_tag, first_byte, first_tag, lemma_find_byte, lemma_skip_space, name_array,
    name_data, name_date, name_dict, name_false, name_integer, name_key, name_plist, name_real,
    name_string, name_true, open_tag, skip_space, starts, text_element, Names,
};
use crate::text::{string_from_utf8_lossy, trim_text, trimmed, utf8_text};

verus! {

/// What was read at a place: the value, the place after it, and the
/// texts of the real numbers in it.
pub struct Found {
    pub value: Value,
    pub next: int,
    pub reals: Seq<Seq<char>>,
}

/// The entries read at a place, as they stand, and the place after them.
pub struct FoundEntries {
    pub pairs: Entries,
    pub next: int,
    pub reals: Seq<Seq<char>>,
}

/// The values read at a place, and the place after them.
pub struct FoundItems {
    pub items: Seq<Value>,
    pub next: int,
    pub reals: Seq<Seq<char>>,
}

pub open spec fn is_digit(b: u8) -> bool {
    '0' as u8 <= b <= '9' as u8
}

/// The first place at or after `pos` that holds no digit.
pub open spec fn skip_digits(buf: Seq<u8>, pos: int) -> int
    decreases buf.len() - pos,
{
    if 0 <= pos < buf.len() && is_digit(buf[pos]) {
        skip_digits(buf, pos + 1)
    } else {
        pos
    }
}

/// The number that decimal digits spell.
pub open spec fn decimal_value(digits: Seq<u8>) -> nat
    decreases digits.len(),
{
    if digits.len() == 0 {
        0
    } else {
        decimal_value(digits.drop_last()) * 10 + (digits.last() - '0' as u8) as nat
    }
}

/// A string: `<string/>`, or `<string>` around its text.
pub open spec fn string_at(buf: Seq<u8>, pos: int) -> Result<Found, Error> {
    if starts(buf, pos, empty_tag(name_string())) {
        Ok(
            Found {
                value: Value::String(Seq::empty()),
                next: pos + empty_tag(name_string()).len(),
                reals: Seq::empty(),
            },
        )
    } else {
        match text_element(buf, pos, name_string()) {
            Some((from, to, next)) => Ok(
                Found {
                    value: Value::String(utf8_text(buf.subrange(from, to))),
                    next,
                    reals: Seq::empty(),
                },
            ),
            None => Err(Error::InvalidMarkup),
        }
    }
}

/// What is left of the given values once `n` of them are used.
pub open spec fn left<T>(given: Seq<T>, n: nat) -> Seq<T> {
    if n >= given.len() {
        Seq::empty()
    } else {
        given.skip(n as int)
    }
}

/// A real number: `<real>` around its text. The value is the first of
/// the given ones; where none is given, it is the bits of zero.
pub open spec fn real_at(buf: Seq<u8>, pos: int, given: Seq<u64>) -> Result<Found, Error> {
    match text_element(buf, pos, name_real()) {
        Some((from, to, next)) => Ok(
            Found {
                value: Value::Float(
                    if 0 < given.len() {
                        given[0]
                    } else {
                        0
                    },
                ),
                next,
                reals: seq![utf8_text(buf.subrange(from, to))],
            },
        ),
        None => Err(Error::InvalidMarkup),
    }
}

/// A date: `<date>` around an instant as RFC 3339 writes it. The date
/// is the Unix timestamp of that instant, with all its nanoseconds.
pub open spec fn date_at(buf: Seq<u8>, pos: int) -> Result<Found, Error> {
    match text_element(buf, pos, name_date()) {
        Some((from, to, next)) => match rfc3339_instant(utf8_text(buf.subrange(from, to))) {
            Some((secs, nanos)) => if !representable(secs as int, nanos as int) {
                Err(Error::InvalidDate)
            } else {
                Ok(Found { value: Value::Date(secs, nanos), next, reals: Seq::empty() })
            },
            None => Err(Error::InvalidMarkup),
        },
        None => Err(Error::InvalidMarkup),
    }
}

/// Data: `<data/>`, or `<data>` around text, whose bytes are the data
/// once the white space at both ends is taken off.
pub open spec fn data_at(buf: Seq<u8>, pos: int) -> Result<Found, Error> {
    if starts(buf, pos, empty_tag(name_data())) {
        Ok(
            Found {
                value: Value::Data(Seq::empty()),
                next: pos + empty_tag(name_data()).len(),
                reals: Seq::empty(),
            },
        )
    } else {
        match text_element(buf, pos, name_data()) {
            Some((from, to, next)) => Ok(
                Found {
                    value: Value::Data(encode_utf8(trim_text(utf8_text(buf.subrange(from, to))))),
                    next,
                    reals: Seq::empty(),
                },
            ),
            None => Err(Error::InvalidMarkup),
        }
    }
}

/// An integer: `<integer>` around a sign, if any, and decimal digits
/// that spell a number of 64 bits.
pub open spec fn integer_at(buf: Seq<u8>, pos: int) -> Result<Found, Error> {
    if !starts(buf, pos, open_tag(name_integer())) {
        Err(Error::InvalidMarkup)
    } else {
        let from = pos + open_tag(name_integer()).len();
        let minus = from < buf.len() && buf[from] == '-' as u8;
        let plus = from < buf.len() && buf[from] == '+' as u8;
        let first = if minus || plus {
            from + 1
        } else {
            from
        };
        let last = skip_digits(buf, first);
        let size = decimal_value(buf.subrange(first, last));
        if last == first || !starts(buf, last, close_tag(name_integer())) {
            Err(Error::InvalidMarkup)
        } else if minus && size > 0x8000_0000_0000_0000 {
            Err(Error::InvalidMarkup)
        } else if !minus && size > 0x7FFF_FFFF_FFFF_FFFF {
            Err(Error::InvalidMarkup)
        } else {
            Ok(
                Found {
                    value: Value::Integer(
                        if minus {
                            (-(size as int)) as i64
                        } else {
                            size as i64
                        },
                    ),
                    next: last + close_tag(name_integer()).len(),
                    reals: Seq::empty(),
                },
            )
        }
    }
}

/// A boolean: `<true/>` or `<false/>`.
pub open spec fn boolean_at(buf: Seq<u8>, pos: int) -> Result<Found, Error> {
    if starts(buf, pos, empty_tag(name_true())) {
        Ok(
            Found {
                value: Value::Boolean(true),
                next: pos + empty_tag(name_true()).len(),
                reals: Seq::empty(),
            },
        )
    } else if starts(buf, pos, empty_tag(name_false())) {
        Ok(
            Found {
                value: Value::Boolean(false),
                next: pos + empty_tag(name_false()).len(),
                reals: Seq::empty(),
            },
        )
    } else {
        Err(Error::InvalidMarkup)
    }
}

/// The entries made by inserting the first `n` pairs in order: a key that
/// comes again keeps its first place and takes the later value.
pub open spec fn merged(pairs: Entries, n: nat) -> Entries
    decreases n,
{
    if n == 0 || n > pairs.len() {
        Seq::empty()
    } else {
        entries_insert(merged(pairs, (n - 1) as nat), pairs[n - 1].0, pairs[n - 1].1)
    }
}

/// The value at `pos`, after white space. The kind is told by the tag
/// that stands there; what starts with no other tag must be an array.
pub open spec fn value_at(buf: Seq<u8>, pos: int, given: Seq<u64>) -> Result<Found, Error>
    decreases buf.len() - pos, 1nat,
{
    let p = skip_space(buf, pos);
    if !(0 <= pos <= buf.len()) {
        Err(Error::InvalidMarkup)
    } else if starts(buf, p, open_tag(name_string())) || starts(
        buf,
        p,
        empty_tag(name_string()),
    ) {
        string_at(buf, p)
    } else if starts(buf, p, open_tag(name_real())) {
        real_at(buf, p, given)
    } else if starts(buf, p, open_tag(name_date())) {
        date_at(buf, p)
    } else if starts(buf, p, open_tag(name_data())) || starts(buf, p, empty_tag(name_data())) {
        data_at(buf, p)
    } else if starts(buf, p, open_tag(name_integer())) {
        integer_at(buf, p)
    } else if starts(buf, p, begin_tag(name_true())) || starts(buf, p, begin_tag(name_false())) {
        boolean_at(buf, p)
    } else if starts(buf, p, open_tag(name_dict())) || starts(buf, p, empty_tag(name_dict())) {
        proof {
            lemma_skip_space(buf, pos);
        }
        dict_at(buf, p, given)
    } else {
        proof {
            lemma_skip_space(buf, pos);
        }
        array_at(buf, p, given)
    }
}

/// A dictionary at `pos`: `<dict/>`, or `<dict>`, entries, and `</dict>`.
pub open spec fn dict_at(buf: Seq<u8>, pos: int, given: Seq<u64>) -> Result<Found, Error>
    decreases buf.len() - pos, 0nat,
{
    if starts(buf, pos, empty_tag(name_dict())) {
        Ok(
            Found {
                value: Value::Dictionary(Seq::empty()),
                next: pos + empty_tag(name_dict()).len(),
                reals: Seq::empty(),
            },
        )
    } else if !starts(buf, pos, open_tag(name_dict())) {
        Err(Error::InvalidMarkup)
    } else {
        match entries_from(buf, pos + open_tag(name_dict()).len(), given) {
            Err(e) => Err(e),
            Ok(found) => {
                let end = skip_space(buf, found.next);
                if starts(buf, end, close_tag(name_dict())) {
                    Ok(
                        Found {
                            value: Value::Dictionary(merged(found.pairs, found.pairs.len())),
                            next: end + close_tag(name_dict()).len(),
                            reals: found.reals,
                        },
                    )
                } else {
                    Err(Error::InvalidMarkup)
                }
            },
        }
    }
}

/// The entries from `pos` on, up to the closing tag of the dictionary:
/// each is a `key` element and the value after it.
pub open spec fn entries_from(buf: Seq<u8>, pos: int, given: Seq<u64>) -> Result<
    FoundEntries,
    Error,
>
    decreases buf.len() - pos, 2nat,
{
    let at = skip_space(buf, pos);
    if !(0 <= pos <= buf.len()) {
        Err(Error::InvalidMarkup)
    } else if starts(buf, at, close_tag(name_dict())) {
        Ok(FoundEntries { pairs: Seq::empty(), next: pos, reals: Seq::empty() })
    } else {
        match text_element(buf, at, name_key()) {
            None => Err(Error::InvalidMarkup),
            Some((from, to, after_key)) => {
                proof {
                    lemma_skip_space(buf, pos);
                    lemma_find_byte(buf, at + open_tag(name_key()).len(), '<' as u8);
                }
                match value_at(buf, after_key, given) {
                    Err(e) => Err(e),
                    Ok(found) => if found.next <= pos || found.next > buf.len() {
                        Err(Error::InvalidMarkup)
                    } else {
                        match entries_from(buf, found.next, left(given, found.reals.len())) {
                            Err(e) => Err(e),
                            Ok(rest) => Ok(
                                FoundEntries {
                                    pairs: seq![
                                        (utf8_text(buf.subrange(from, to)), found.value),
                                    ] + rest.pairs,
                                    next: rest.next,
                                    reals: found.reals + rest.reals,
                                },
                            ),
                        }
                    },
                }
            },
        }
    }
}

/// An array at `pos`: `<array/>`, or `<array>`, values, and `</array>`.
pub open spec fn array_at(buf: Seq<u8>, pos: int, given: Seq<u64>) -> Result<Found, Error>
    decreases buf.len() - pos, 0nat,
{
    if starts(buf, pos, empty_tag(name_array())) {
        Ok(
            Found {
                value: Value::Array(Seq::empty()),
                next: pos + empty_tag(name_array()).len(),
                reals: Seq::empty(),
            },
        )
    } else if !starts(buf, pos, open_tag(name_array())) {
        Err(Error::InvalidMarkup)
    } else {
        proof {
            lemma_skip_space(buf, pos + open_tag(name_array()).len());
        }
        match items_from(buf, skip_space(buf, pos + open_tag(name_array()).len()), given) {
            Err(e) => Err(e),
            Ok(found) => {
                let end = skip_space(buf, found.next);
                if starts(buf, end, close_tag(name_array())) {
                    Ok(
                        Found {
                            value: Value::Array(found.items),
                            next: skip_space(buf, end + close_tag(name_array()).len()),
                            reals: found.reals,
                        },
                    )
                } else {
                    Err(Error::InvalidMarkup)
                }
            },
        }
    }
}

/// The values from `pos` on, up to the closing tag of the array.
pub open spec fn items_from(buf: Seq<u8>, pos: int, given: Seq<u64>) -> Result<
    FoundItems,
    Error,
>
    decreases buf.len() - pos, 2nat,
{
    if !(0 <= pos <= buf.len()) {
        Err(Error::InvalidMarkup)
    } else if starts(buf, skip_space(buf, pos), close_tag(name_array())) {
        Ok(FoundItems { items: Seq::empty(), next: pos, reals: Seq::empty() })
    } else {
        match value_at(buf, pos, given) {
            Err(e) => Err(e),
            Ok(found) => if found.next <= pos || found.next > buf.len() {
                Err(Error::InvalidMarkup)
            } else {
                match items_from(buf, found.next, left(given, found.reals.len())) {
                    Err(e) => Err(e),
                    Ok(rest) => Ok(
                        FoundItems {
                            items: seq![found.value] + rest.items,
                            next: rest.next,
                            reals: found.reals + rest.reals,
                        },
                    ),
                }
            },
        }
    }
}

/// The bytes of a document as they are read: its text, with what is not
/// UTF-8 repaired, as UTF-8 again.
pub open spec fn document_bytes(input: Seq<u8>) -> Seq<u8> {
    encode_utf8(utf8_text(input))
}

/// A whole document: anything up to `<plist`, the rest of that tag up to
/// `>`, one dictionary, and `</plist>`. What follows is not looked at.
pub open spec fn document(input: Seq<u8>, given: Seq<u64>) -> Result<Found, Error> {
    let buf = document_bytes(input);
    let start = find_tag(buf, 0, begin_tag(name_plist()));
    let end = find_byte(buf, start, '>' as u8);
    if start >= buf.len() || end >= buf.len() {
        Err(Error::InvalidMarkup)
    } else {
        match dict_at(buf, skip_space(buf, end + 1), given) {
            Err(e) => Err(e),
            Ok(found) => if starts(buf, skip_space(buf, found.next), close_tag(name_plist())) {
                Ok(found)
            } else {
                Err(Error::InvalidMarkup)
            },
        }
    }
}

/// What a document says, given the values of its real numbers.
pub open spec fn spec_parse_markup(input: Seq<u8>, given: Seq<u64>) -> Result<Value, Error> {
    match document(input, given) {
        Err(e) => Err(e),
        Ok(found) => if found.reals.len() == given.len() {
            Ok(found.value)
        } else {
            Err(Error::RealCount)
        },
    }
}

/// The texts of the real numbers of a document, in its order.
pub open spec fn spec_real_texts(input: Seq<u8>) -> Result<Seq<Seq<char>>, Error> {
    match document(input, Seq::empty()) {
        Err(e) => Err(e),
        Ok(found) => Ok(found.reals),
    }
}

pub proof fn lemma_skip_digits(buf: Seq<u8>, pos: int)
    requires
        0 <= pos <= buf.len(),
    ensures
        pos <= skip_digits(buf, pos) <= buf.len(),
    decreases buf.len() - pos,
{
    if pos < buf.len() && is_digit(buf[pos]) {
        lemma_skip_digits(buf, pos + 1);
    }
}

/// A value ends after the place where it starts, and inside the buffer.
/// (The definitions above test this where they go on after a value, so
/// that they are seen to come to an end; the test never fails.)
pub proof fn law_value_advances(buf: Seq<u8>, pos: int, given: Seq<u64>)
    ensures
        value_at(buf, pos, given) matches Ok(found) ==> pos < found.next <= buf.len(),
    decreases buf.len() - pos, 1nat,
{
    let p = skip_space(buf, pos);
    if 0 <= pos <= buf.len() {
        lemma_skip_space(buf, pos);
        lemma_dict_advances(buf, p, given);
        lemma_array_advances(buf, p, given);
        if starts(buf, p, open_tag(name_string())) {
            lemma_find_byte(buf, p + open_tag(name_string()).len(), '<' as u8);
        }
        if starts(buf, p, open_tag(name_real())) {
            lemma_find_byte(buf, p + open_tag(name_real()).len(), '<' as u8);
        }
        if starts(buf, p, open_tag(name_date())) {
            lemma_find_byte(buf, p + open_tag(name_date()).len(), '<' as u8);
        }
        if starts(buf, p, open_tag(name_data())) {
            lemma_find_byte(buf, p + open_tag(name_data()).len(), '<' as u8);
        }
        if starts(buf, p, open_tag(name_integer())) {
            let from = p + open_tag(name_integer()).len();
            lemma_skip_digits(buf, from);
            if from < buf.len() {
                lemma_skip_digits(buf, from + 1);
            }
        }
    }
}

pub proof fn lemma_dict_advances(buf: Seq<u8>, pos: int, given: Seq<u64>)
    ensures
        dict_at(buf, pos, given) matches Ok(found) ==> pos < found.next <= buf.len(),
    decreases buf.len() - pos, 0nat,
{
    if starts(buf, pos, empty_tag(name_dict())) {
    } else if starts(buf, pos, open_tag(name_dict())) {
        let start = pos + open_tag(name_dict()).len();
        lemma_entries_advance(buf, start, given);
        if let Ok(found) = entries_from(buf, start, given) {
            lemma_skip_space(buf, found.next);
        }
    }
}

pub proof fn lemma_entries_advance(buf: Seq<u8>, pos: int, given: Seq<u64>)
    ensures
        entries_from(buf, pos, given) matches Ok(found) ==> pos <= found.next <= buf.len(),
    decreases buf.len() - pos, 2nat,
{
    let at = skip_space(buf, pos);
    if 0 <= pos <= buf.len() && !starts(buf, at, close_tag(name_dict())) {
        if let Some((from, to, after_key)) = text_element(buf, at, name_key()) {
            if let Ok(found) = value_at(buf, after_key, given) {
                if !(found.next <= pos || found.next > buf.len()) {
                    lemma_entries_advance(buf, found.next, left(given, found.reals.len()));
                }
            }
        }
    }
}

pub proof fn lemma_array_advances(buf: Seq<u8>, pos: int, given: Seq<u64>)
    ensures
        array_at(buf, pos, given) matches Ok(found) ==> pos < found.next <= buf.len(),
    decreases buf.len() - pos, 0nat,
{
    if starts(buf, pos, empty_tag(name_array())) {
    } else if starts(buf, pos, open_tag(name_array())) {
        let start = pos + open_tag(name_array()).len();
        lemma_skip_space(buf, start);
        lemma_items_advance(buf, skip_space(buf, start), given);
        if let Ok(found) = items_from(buf, skip_space(buf, start), given) {
            lemma_skip_space(buf, found.next);
            let end = skip_space(buf, found.next);
            if starts(buf, end, close_tag(name_array())) {
                lemma_skip_space(buf, end + close_tag(name_array()).len());
            }
        }
    }
}

pub proof fn lemma_items_advance(buf: Seq<u8>, pos: int, given: Seq<u64>)
    ensures
        items_from(buf, pos, given) matches Ok(found) ==> pos <= found.next <= buf.len(),
    decreases buf.len() - pos, 2nat,
{
    if 0 <= pos <= buf.len() && !starts(buf, skip_space(buf, pos), close_tag(name_array())) {
        if let Ok(found) = value_at(buf, pos, given) {
            if !(found.next <= pos || found.next > buf.len()) {
                lemma_items_advance(buf, found.next, left(given, found.reals.len()));
            }
        }
    }
}

/// Merging pairs with well-formed values gives well-formed entries.
pub proof fn lemma_merged_well_formed(pairs: Entries, n: nat)
    requires
        n <= pairs.len(),
        all_values_well_formed(pairs),
    ensures
        keys_unique(merged(pairs, n)),
        all_values_well_formed(merged(pairs, n)),
    decreases n,
{
    if n > 0 {
        lemma_merged_well_formed(pairs, (n - 1) as nat);
        let before = merged(pairs, (n - 1) as nat);
        let after = merged(pairs, n);
        lemma_insert_keeps_unique(before, pairs[n - 1].0, pairs[n - 1].1);
        lemma_key_index(before, pairs[n - 1].0);
        assert forall|i: int| 0 <= i < after.len() implies well_formed((#[trigger] after[i]).1) by {
            match key_index(before, pairs[n - 1].0) {
                Some(at) => {
                    if i != at {
                        assert(after[i] == before[i]);
                    }
                },
                None => {
                    if i < before.len() {
                        assert(after[i] == before[i]);
                    }
                },
            }
        }
    }
}

/// Whatever is read is well formed.
pub proof fn lemma_value_well_formed(buf: Seq<u8>, pos: int, given: Seq<u64>)
    ensures
        value_at(buf, pos, given) matches Ok(found) ==> well_formed(found.value),
    decreases buf.len() - pos, 1nat,
{
    let p = skip_space(buf, pos);
    if 0 <= pos <= buf.len() {
        lemma_skip_space(buf, pos);
        lemma_dict_well_formed(buf, p, given);
        lemma_array_well_formed(buf, p, given);
    }
}

pub proof fn lemma_dict_well_formed(buf: Seq<u8>, pos: int, given: Seq<u64>)
    ensures
        dict_at(buf, pos, given) matches Ok(found) ==> well_formed(found.value),
    decreases buf.len() - pos, 0nat,
{
    if starts(buf, pos, empty_tag(name_dict())) {
    } else if starts(buf, pos, open_tag(name_dict())) {
        let start = pos + open_tag(name_dict()).len();
        lemma_entries_well_formed(buf, start, given);
        if let Ok(found) = entries_from(buf, start, given) {
            lemma_merged_well_formed(found.pairs, found.pairs.len());
        }
    }
}

pub proof fn lemma_entries_well_formed(buf: Seq<u8>, pos: int, given: Seq<u64>)
    ensures
        entries_from(buf, pos, given) matches Ok(found) ==> all_values_well_formed(found.pairs),
    decreases buf.len() - pos, 2nat,
{
    let at = skip_space(buf, pos);
    if 0 <= pos <= buf.len() && !starts(buf, at, close_tag(name_dict())) {
        if let Some((from, to, after_key)) = text_element(buf, at, name_key()) {
            lemma_skip_space(buf, pos);
            lemma_find_byte(buf, at + open_tag(name_key()).len(), '<' as u8);
            lemma_value_well_formed(buf, after_key, given);
            if let Ok(found) = value_at(buf, after_key, given) {
                if !(found.next <= pos || found.next > buf.len()) {
                    let rest_given = left(given, found.reals.len());
                    lemma_entries_well_formed(buf, found.next, rest_given);
                    if let Ok(rest) = entries_from(buf, found.next, rest_given) {
                        let first = (utf8_text(buf.subrange(from, to)), found.value);
                        let all = seq![first] + rest.pairs;
                        assert forall|i: int| 0 <= i < all.len() implies well_formed(
                            (#[trigger] all[i]).1,
                        ) by {
                            if i > 0 {
                                assert(all[i] == rest.pairs[i - 1]);
                            }
                        }
                    }
                }
            }
        }
    }
}

pub proof fn lemma_array_well_formed(buf: Seq<u8>, pos: int, given: Seq<u64>)
    ensures
        array_at(buf, pos, given) matches Ok(found) ==> well_formed(found.value),
    decreases buf.len() - pos, 0nat,
{
    if starts(buf, pos, empty_tag(name_array())) {
    } else if starts(buf, pos, open_tag(name_array())) {
        let start = pos + open_tag(name_array()).len();
        lemma_skip_space(buf, start);
        lemma_items_well_formed(buf, skip_space(buf, start), given);
    }
}

pub proof fn lemma_items_well_formed(buf: Seq<u8>, pos: int, given: Seq<u64>)
    ensures
        items_from(buf, pos, given) matches Ok(found) ==> all_well_formed(found.items),
    decreases buf.len() - pos, 2nat,
{
    if 0 <= pos <= buf.len() && !starts(buf, skip_space(buf, pos), close_tag(name_array())) {
        lemma_value_well_formed(buf, pos, given);
        if let Ok(found) = value_at(buf, pos, given) {
            if !(found.next <= pos || found.next > buf.len()) {
                let rest_given = left(given, found.reals.len());
                lemma_items_well_formed(buf, found.next, rest_given);
                if let Ok(rest) = items_from(buf, found.next, rest_given) {
                    let all = seq![found.value] + rest.items;
                    assert forall|i: int| 0 <= i < all.len() implies well_formed(
                        #[trigger] all[i],
                    ) by {
                        if i > 0 {
                            assert(all[i] == rest.items[i - 1]);
                        }
                    }
                }
            }
        }
    }
}

/// What a document says is well formed.
pub proof fn lemma_markup_well_formed(input: Seq<u8>, given: Seq<u64>)
    ensures
        spec_parse_markup(input, given) matches Ok(v) ==> well_formed(v),
{
    let buf = document_bytes(input);
    let start = find_tag(buf, 0, begin_tag(name_plist()));
    let end = find_byte(buf, start, '>' as u8);
    lemma_dict_well_formed(buf, skip_space(buf, end + 1), given);
}

/// What was read at a place: the value, the place after it, and the
/// texts of the real numbers in it.
pub struct Read {
    pub value: Plist,
    pub next: usize,
    pub reals: Vec<String>,
}

/// The texts as sequences of characters.
pub open spec fn texts(reals: Seq<String>) -> Seq<Seq<char>> {
    Seq::new(reals.len(), |i: int| reals[i]@)
}

/// What was read, as mathematical values; or the error.
pub open spec fn read_as(r: Result<Read, Error>) -> Result<Found, Error> {
    match r {
        Ok(read) => Ok(
            Found { value: read.value@, next: read.next as int, reals: texts(read.reals@) },
        ),
        Err(e) => Err(e),
    }
}

/// What was read goes on: it ends after `pos`, inside the buffer, and
/// every real number in it took up room.
pub open spec fn advanced(r: Result<Read, Error>, buf: Seq<u8>, pos: int) -> bool {
    r matches Ok(read) ==> pos < read.next <= buf.len() && read.reals@.len() <= read.next - pos
}

pub proof fn lemma_decimal_push(digits: Seq<u8>, d: u8)
    ensures
        decimal_value(digits.push(d)) == decimal_value(digits) * 10 + (d - '0' as u8) as nat,
{
    assert(digits.push(d).drop_last() =~= digits);
}

/// Values read first, in front of what the rest reads.
pub open spec fn items_after(
    front: Seq<Value>,
    reals: Seq<Seq<char>>,
    rest: Result<FoundItems, Error>,
) -> Result<FoundItems, Error> {
    match rest {
        Ok(found) => Ok(
            FoundItems {
                items: front + found.items,
                next: found.next,
                reals: reals + found.reals,
            },
        ),
        Err(e) => Err(e),
    }
}

/// Entries read first, in front of what the rest reads.
pub open spec fn entries_after(
    front: Entries,
    reals: Seq<Seq<char>>,
    rest: Result<FoundEntries, Error>,
) -> Result<FoundEntries, Error> {
    match rest {
        Ok(found) => Ok(
            FoundEntries {
                pairs: front + found.pairs,
                next: found.next,
                reals: reals + found.reals,
            },
        ),
        Err(e) => Err(e),
    }
}

/// Merging the first `n` pairs looks at no pair beyond them.
pub proof fn lemma_merged_prefix(a: Entries, b: Entries, n: nat)
    requires
        n <= a.len(),
        n <= b.len(),
        forall|i: int| 0 <= i < n ==> a[i] == b[i],
    ensures
        merged(a, n) == merged(b, n),
    decreases n,
{
    if n > 0 {
        lemma_merged_prefix(a, b, (n - 1) as nat);
    }
}

/// Using up values one group after the other uses up their sum.
pub proof fn lemma_left_twice<T>(given: Seq<T>, a: nat, b: nat)
    ensures
        left(left(given, a), b) == left(given, a + b),
{
    if a + b < given.len() {
        assert(given.skip(a as int).skip(b as int) =~= given.skip((a + b) as int));
    } else if a < given.len() {
        assert(left(given.skip(a as int), b) =~= Seq::<T>::empty());
    }
}

/// What is left of `given` once `n` values are used.
pub fn rest_of<T>(given: &[T], n: usize) -> (rest: &[T])
    ensures
        rest@ == left(given@, n as nat),
{
    let len = given.len();
    if n >= len {
        let rest = slice_subrange(given, len, len);
        assert(rest@ =~= Seq::<T>::empty());
        rest
    } else {
        let rest = slice_subrange(given, n, len);
        assert(rest@ =~= given@.skip(n as int));
        rest
    }
}

pub struct XmlReader {}

impl XmlReader {
    /// Reads a `key` element; gives its text and the place after it.
    pub fn parse_key(buf: &[u8], pos: usize, names: &Names) -> (r: Option<(String, usize)>)
        requires
            names.spelled(),
        ensures
            match r {
                Some((key, next)) => text_element(buf@, pos as int, name_key()) matches Some(
                    (from, to, after),
                ) && key@ == utf8_text(buf@.subrange(from, to)) && next == after && pos < next
                    <= buf@.len(),
                None => text_element(buf@, pos as int, name_key()) is None,
            },
    {
        match element(buf, pos, &names.key) {
            Some((from, to, next)) => Some(
                (string_from_utf8_lossy(slice_subrange(buf, from, to)), next),
            ),
            None => None,
        }
    }

    /// Reads a string.
    pub fn parse_string(buf: &[u8], pos: usize, names: &Names) -> (r: Result<Read, Error>)
        requires
            names.spelled(),
        ensures
            read_as(r) == string_at(buf@, pos as int),
            advanced(r, buf@, pos as int),
    {
        let len = buf.len();
        if at_empty(buf, pos, &names.string) {
            assert(texts(Seq::<String>::empty()) =~= Seq::<Seq<char>>::empty());
            return Ok(
                Read { value: Plist::String(String::new()), next: pos + 9, reals: Vec::new() },
            );
        }
        match element(buf, pos, &names.string) {
            Some((from, to, next)) => {
                assert(texts(Seq::<String>::empty()) =~= Seq::<Seq<char>>::empty());
                Ok(
                    Read {
                        value: Plist::String(
                            string_from_utf8_lossy(slice_subrange(buf, from, to)),
                        ),
                        next,
                        reals: Vec::new(),
                    },
                )
            },
            None => Err(Error::InvalidMarkup),
        }
    }

    /// Reads a real number: its text, and as its value the first of the
    /// given values.
    pub fn parse_float(buf: &[u8], pos: usize, names: &Names, given: &[u64]) -> (r: Result<
        Read,
        Error,
    >)
        requires
            names.spelled(),
        ensures
            read_as(r) == real_at(buf@, pos as int, given@),
            advanced(r, buf@, pos as int),
    {
        match element(buf, pos, &names.real) {
            Some((from, to, next)) => {
                let bits = if given.len() > 0 {
                    given[0]
                } else {
                    0
                };
                let mut reals: Vec<String> = Vec::new();
                reals.push(string_from_utf8_lossy(slice_subrange(buf, from, to)));
                assert(texts(reals@) =~= seq![utf8_text(buf@.subrange(from as int, to as int))]);
                Ok(Read { value: Plist::Float(bits), next, reals })
            },
            None => Err(Error::InvalidMarkup),
        }
    }

    /// Reads a date.
    pub fn parse_date(buf: &[u8], pos: usize, names: &Names) -> (r: Result<Read, Error>)
        requires
            names.spelled(),
        ensures
            read_as(r) == date_at(buf@, pos as int),
            advanced(r, buf@, pos as int),
    {
        match element(buf, pos, &names.date) {
            Some((from, to, next)) => {
                let text = string_from_utf8_lossy(slice_subrange(buf, from, to));
                match timestamp_from_rfc3339(text.as_str()) {
                    Some((secs, nanos)) => {
                        assert(texts(Seq::<String>::empty()) =~= Seq::<Seq<char>>::empty());
                        if !timestamp_exists(secs, nanos) {
                            return Err(Error::InvalidDate);
                        }
                        Ok(Read { value: Plist::Date(secs, nanos), next, reals: Vec::new() })
                    },
                    None => Err(Error::InvalidMarkup),
                }
            },
            None => Err(Error::InvalidMarkup),
        }
    }

    /// Reads data.
    pub fn parse_data(buf: &[u8], pos: usize, names: &Names) -> (r: Result<Read, Error>)
        requires
            names.spelled(),
        ensures
            read_as(r) == data_at(buf@, pos as int),
            advanced(r, buf@, pos as int),
    {
        let len = buf.len();
        if at_empty(buf, pos, &names.data) {
            assert(texts(Seq::<String>::empty()) =~= Seq::<Seq<char>>::empty());
            return Ok(Read { value: Plist::Data(Vec::new()), next: pos + 7, reals: Vec::new() });
        }
        match element(buf, pos, &names.data) {
            Some((from, to, next)) => {
                let text = string_from_utf8_lossy(slice_subrange(buf, from, to));
                let rest = trimmed(text.as_str());
                let bytes = slice_to_vec(rest.as_str().as_bytes());
                assert(texts(Seq::<String>::empty()) =~= Seq::<Seq<char>>::empty());
                Ok(Read { value: Plist::Data(bytes), next, reals: Vec::new() })
            },
            None => Err(Error::InvalidMarkup),
        }
    }

    /// Reads an integer.
    pub fn parse_integer(buf: &[u8], pos: usize, names: &Names) -> (r: Result<Read, Error>)
        requires
            names.spelled(),
        ensures
            read_as(r) == integer_at(buf@, pos as int),
            advanced(r, buf@, pos as int),
    {
        let len = buf.len();
        if !at_open(buf, pos, &names.integer) {
            return Err(Error::InvalidMarkup);
        }
        let from = pos + 9;
        let minus = from < len && buf[from] == '-' as u8;
        let plus = from < len && buf[from] == '+' as u8;
        let first = if minus || plus {
            from + 1
        } else {
            from
        };
        let mut at = first;
        let mut size: u128 = 0;
        let mut big = false;
        assert(buf@.subrange(first as int, first as int) =~= Seq::<u8>::empty());
        while at < len && '0' as u8 <= buf[at] && buf[at] <= '9' as u8
            invariant
                first <= at <= len,
                len == buf@.len(),
                skip_digits(buf@, first as int) == skip_digits(buf@, at as int),
                !big ==> size == decimal_value(buf@.subrange(first as int, at as int)) && size
                    <= 0x8000_0000_0000_0000,
                big ==> decimal_value(buf@.subrange(first as int, at as int))
                    > 0x8000_0000_0000_0000,
            decreases len - at,
        {
            proof {
                let before = buf@.subrange(first as int, at as int);
                assert(buf@.subrange(first as int, at + 1) =~= before.push(buf@[at as int]));
                lemma_decimal_push(before, buf@[at as int]);
            }
            if !big {
                size = size * 10 + (buf[at] - '0' as u8) as u128;
                if size > 0x8000_0000_0000_0000 {
                    big = true;
                }
            }
            at += 1;
        }
        let last = at;
        if last == first || !at_close(buf, last, &names.integer) {
            return Err(Error::InvalidMarkup);
        }
        if big || (!minus && size > 0x7FFF_FFFF_FFFF_FFFF) {
            return Err(Error::InvalidMarkup);
        }
        let value: i64 = if minus {
            if size == 0x8000_0000_0000_0000 {
                i64::MIN
            } else {
                -(size as i64)
            }
        } else {
            size as i64
        };
        assert(texts(Seq::<String>::empty()) =~= Seq::<Seq<char>>::empty());
        Ok(Read { value: Plist::Integer(value), next: last + 10, reals: Vec::new() })
    }

    /// Reads a boolean.
    pub fn parse_boolean(buf: &[u8], pos: usize, names: &Names) -> (r: Result<Read, Error>)
        requires
            names.spelled(),
        ensures
            read_as(r) == boolean_at(buf@, pos as int),
            advanced(r, buf@, pos as int),
    {
        let len = buf.len();
        assert(texts(Seq::<String>::empty()) =~= Seq::<Seq<char>>::empty());
        if at_empty(buf, pos, &names.yes) {
            Ok(Read { value: Plist::Boolean(true), next: pos + 7, reals: Vec::new() })
        } else if at_empty(buf, pos, &names.no) {
            Ok(Read { value: Plist::Boolean(false), next: pos + 8, reals: Vec::new() })
        } else {
            Err(Error::InvalidMarkup)
        }
    }

    /// Reads the value at `pos`, after white space.
    pub fn parse_value(buf: &[u8], pos: usize, names: &Names, given: &[u64]) -> (r: Result<
        Read,
        Error,
    >)
        requires
            names.spelled(),
        ensures
            read_as(r) == value_at(buf@, pos as int, given@),
            advanced(r, buf@, pos as int),
        decreases buf@.len() - pos, 1nat,
    {
        if pos > buf.len() {
            return Err(Error::InvalidMarkup);
        }
        let p = after_space(buf, pos);
        if at_open(buf, p, &names.string) || at_empty(buf, p, &names.string) {
            Self::parse_string(buf, p, names)
        } else if at_open(buf, p, &names.real) {
            Self::parse_float(buf, p, names, given)
        } else if at_open(buf, p, &names.date) {
            Self::parse_date(buf, p, names)
        } else if at_open(buf, p, &names.data) || at_empty(buf, p, &names.data) {
            Self::parse_data(buf, p, names)
        } else if at_open(buf, p, &names.integer) {
            Self::parse_integer(buf, p, names)
        } else if at_begin(buf, p, &names.yes) || at_begin(buf, p, &names.no) {
            Self::parse_boolean(buf, p, names)
        } else if at_open(buf, p, &names.dict) || at_empty(buf, p, &names.dict) {
            Self::parse_dict(buf, p, names, given)
        } else {
            Self::parse_array(buf, p, names, given)
        }
    }

    /// Reads a dictionary that starts at `pos`.
    pub fn parse_dict(buf: &[u8], pos: usize, names: &Names, given: &[u64]) -> (r: Result<
        Read,
        Error,
    >)
        requires
            names.spelled(),
        ensures
            read_as(r) == dict_at(buf@, pos as int, given@),
            advanced(r, buf@, pos as int),
        decreases buf@.len() - pos, 0nat,
    {
        let len = buf.len();
        if at_empty(buf, pos, &names.dict) {
            assert(texts(Seq::<String>::empty()) =~= Seq::<Seq<char>>::empty());
            assert(entries_view(Seq::<(String, Plist)>::empty()) =~= Seq::<
                (Seq<char>, Value),
            >::empty());
            return Ok(
                Read { value: Plist::Dictionary(Vec::new()), next: pos + 7, reals: Vec::new() },
            );
        }
        if !at_open(buf, pos, &names.dict) {
            return Err(Error::InvalidMarkup);
        }
        let (entries, at, reals) = match Self::parse_entries(buf, pos + 6, names, given) {
            Ok(found) => found,
            Err(e) => {
                return Err(e);
            },
        };
        let close = after_space(buf, at);
        if !at_close(buf, close, &names.dict) {
            return Err(Error::InvalidMarkup);
        }
        Ok(Read { value: Plist::Dictionary(entries), next: close + 7, reals })
    }

    /// Reads the entries of a dictionary from `start` on, up to its
    /// closing tag, and merges them.
    fn parse_entries(buf: &[u8], start: usize, names: &Names, given: &[u64]) -> (r: Result<
        (Vec<(String, Plist)>, usize, Vec<String>),
        Error,
    >)
        requires
            names.spelled(),
            start <= buf@.len(),
        ensures
            match r {
                Ok((entries, next, reals)) => entries_from(buf@, start as int, given@) matches Ok(
                    found,
                ) && entries_view(entries@) == merged(found.pairs, found.pairs.len())
                    && found.next == next && found.reals == texts(reals@) && start <= next
                    <= buf@.len() && reals@.len() <= next - start,
                Err(e) => entries_from(buf@, start as int, given@) == Err::<FoundEntries, Error>(e),
            },
        decreases buf@.len() - start, 2nat,
    {
        let len = buf.len();
        let mut entries: Vec<(String, Plist)> = Vec::new();
        let mut reals: Vec<String> = Vec::new();
        let mut rest: &[u64] = given;
        let mut at: usize = start;
        let mut open = true;
        let ghost mut pairs: Entries = Seq::empty();
        proof {
            assert(texts(reals@) =~= Seq::<Seq<char>>::empty());
            lemma_entries_view(entries@);
            assert(entries_view(entries@) =~= merged(pairs, 0));
            assert(left(given@, 0) =~= given@);
            match entries_from(buf@, start as int, given@) {
                Ok(found) => {
                    assert(Seq::<(Seq<char>, Value)>::empty() + found.pairs =~= found.pairs);
                    assert(Seq::<Seq<char>>::empty() + found.reals =~= found.reals);
                },
                Err(_) => {},
            }
        }
        while open
            invariant
                start <= at <= len,
                len == buf@.len(),
                names.spelled(),
                reals@.len() <= at - start,
                rest@ == left(given@, reals@.len() as nat),
                entries_view(entries@) == merged(pairs, pairs.len()),
                open ==> entries_from(buf@, start as int, given@) == entries_after(
                    pairs,
                    texts(reals@),
                    entries_from(buf@, at as int, rest@),
                ),
                !open ==> entries_from(buf@, start as int, given@) == Ok::<FoundEntries, Error>(
                    FoundEntries { pairs, next: at as int, reals: texts(reals@) },
                ),
            decreases
                    len - at + (if open {
                        1int
                    } else {
                        0int
                    }),
        {
            let k = after_space(buf, at);
            if at_close(buf, k, &names.dict) {
                open = false;
                proof {
                    assert(pairs + Seq::<(Seq<char>, Value)>::empty() =~= pairs);
                    assert(texts(reals@) + Seq::<Seq<char>>::empty() =~= texts(reals@));
                }
            } else {
                let (key, after_key) = match Self::parse_key(buf, k, names) {
                    Some(found) => found,
                    None => {
                        return Err(Error::InvalidMarkup);
                    },
                };
                let found = match Self::parse_value(buf, after_key, names, rest) {
                    Ok(found) => found,
                    Err(e) => {
                        return Err(e);
                    },
                };
                proof {
                    let ghost pair = (key@, found.value@);
                    let ghost before = pairs;
                    let ghost texts_before = texts(reals@);
                    let ghost more = texts(found.reals@);
                    lemma_merged_prefix(before, before.push(pair), before.len());
                    lemma_left_twice(given@, reals@.len() as nat, found.reals@.len() as nat);
                    match entries_from(
                        buf@,
                        found.next as int,
                        left(rest@, found.reals@.len() as nat),
                    ) {
                        Ok(tail) => {
                            assert(before + (seq![pair] + tail.pairs) =~= before.push(pair)
                                + tail.pairs);
                            assert(texts_before + (more + tail.reals) =~= (texts_before + more)
                                + tail.reals);
                        },
                        Err(_) => {},
                    }
                    pairs = before.push(pair);
                }
                let Read { value, next, reals: mut found_reals } = found;
                let ghost texts_before = texts(reals@);
                let ghost more = texts(found_reals@);
                let used = found_reals.len();
                insert_entry(&mut entries, key, value);
                reals.append(&mut found_reals);
                proof {
                    assert(texts(reals@) =~= texts_before + more);
                }
                rest = rest_of(rest, used);
                at = next;
            }
        }
        Ok((entries, at, reals))
    }

    /// Reads an array that starts at `pos`.
    pub fn parse_array(buf: &[u8], pos: usize, names: &Names, given: &[u64]) -> (r: Result<
        Read,
        Error,
    >)
        requires
            names.spelled(),
        ensures
            read_as(r) == array_at(buf@, pos as int, given@),
            advanced(r, buf@, pos as int),
        decreases buf@.len() - pos, 0nat,
    {
        let len = buf.len();
        if at_empty(buf, pos, &names.array) {
            assert(texts(Seq::<String>::empty()) =~= Seq::<Seq<char>>::empty());
            assert(items_view(Seq::<Plist>::empty()) =~= Seq::<Value>::empty());
            return Ok(Read { value: Plist::Array(Vec::new()), next: pos + 8, reals: Vec::new() });
        }
        if !at_open(buf, pos, &names.array) {
            return Err(Error::InvalidMarkup);
        }
        let start = after_space(buf, pos + 7);
        let (items, at, reals) = match Self::parse_items(buf, start, names, given) {
            Ok(found) => found,
            Err(e) => {
                return Err(e);
            },
        };
        let close = after_space(buf, at);
        if !at_close(buf, close, &names.array) {
            return Err(Error::InvalidMarkup);
        }
        let next = after_space(buf, close + 8);
        Ok(Read { value: Plist::Array(items), next, reals })
    }

    /// Reads the values of an array from `start` on, up to its closing tag.
    fn parse_items(buf: &[u8], start: usize, names: &Names, given: &[u64]) -> (r: Result<
        (Vec<Plist>, usize, Vec<String>),
        Error,
    >)
        requires
            names.spelled(),
            start <= buf@.len(),
        ensures
            match r {
                Ok((items, next, reals)) => items_from(buf@, start as int, given@) == Ok::<
                    FoundItems,
                    Error,
                >(FoundItems { items: items_view(items@), next: next as int, reals: texts(reals@) })
                    && start <= next <= buf@.len() && reals@.len() <= next - start,
                Err(e) => items_from(buf@, start as int, given@) == Err::<FoundItems, Error>(e),
            },
        decreases buf@.len() - start, 2nat,
    {
        let len = buf.len();
        let mut items: Vec<Plist> = Vec::new();
        let mut reals: Vec<String> = Vec::new();
        let mut rest: &[u64] = given;
        let mut at: usize = start;
        let mut open = true;
        proof {
            assert(texts(reals@) =~= Seq::<Seq<char>>::empty());
            assert(left(given@, 0) =~= given@);
            match items_from(buf@, start as int, given@) {
                Ok(found) => {
                    assert(Seq::<Value>::empty() + found.items =~= found.items);
                    assert(Seq::<Seq<char>>::empty() + found.reals =~= found.reals);
                },
                Err(_) => {},
            }
        }
        while open
            invariant
                start <= at <= len,
                len == buf@.len(),
                names.spelled(),
                reals@.len() <= at - start,
                rest@ == left(given@, reals@.len() as nat),
                open ==> items_from(buf@, start as int, given@) == items_after(
                    items_view(items@),
                    texts(reals@),
                    items_from(buf@, at as int, rest@),
                ),
                !open ==> items_from(buf@, start as int, given@) == Ok::<FoundItems, Error>(
                    FoundItems {
                        items: items_view(items@),
                        next: at as int,
                        reals: texts(reals@),
                    },
                ),
            decreases
                    len - at + (if open {
                        1int
                    } else {
                        0int
                    }),
        {
            let k = after_space(buf, at);
            if at_close(buf, k, &names.array) {
                open = false;
                proof {
                    assert(items_view(items@) + Seq::<Value>::empty() =~= items_view(items@));
                    assert(texts(reals@) + Seq::<Seq<char>>::empty() =~= texts(reals@));
                }
            } else {
                let found = match Self::parse_value(buf, at, names, rest) {
                    Ok(found) => found,
                    Err(e) => {
                        return Err(e);
                    },
                };
                let Read { value, next, reals: mut found_reals } = found;
                let ghost before = items_view(items@);
                let ghost texts_before = texts(reals@);
                let ghost more = texts(found_reals@);
                let ghost added = value@;
                let ghost items_before = items@;
                let used = found_reals.len();
                proof {
                    lemma_left_twice(given@, reals@.len() as nat, found_reals@.len() as nat);
                    match items_from(buf@, next as int, left(rest@, found_reals@.len() as nat)) {
                        Ok(tail) => {
                            assert(before + (seq![added] + tail.items) =~= before.push(added)
                                + tail.items);
                            assert(texts_before + (more + tail.reals) =~= (texts_before + more)
                                + tail.reals);
                        },
                        Err(_) => {},
                    }
                }
                items.push(value);
                reals.append(&mut found_reals);
                proof {
                    assert(items@.drop_last() =~= items_before);
                    lemma_items_view(items@);
                    assert(items_view(items@) =~= before.push(added));
                    assert(texts(reals@) =~= texts_before + more);
                }
                rest = rest_of(rest, used);
                at = next;
            }
        }
        Ok((items, at, reals))
    }

    /// Reads a whole document, with `given` as the values of its real numbers.
    pub fn scan(input: &[u8], given: &[u64]) -> (r: Result<Read, Error>)
        ensures
            read_as(r) == document(input@, given@),
    {
        let text = string_from_utf8_lossy(input);
        let buf = text.as_str().as_bytes();
        let len = buf.len();
        let names = Names::new();
        let mut tag: Vec<u8> = Vec::new();
        tag.push('<' as u8);
        tag.extend_from_slice(names.plist.as_slice());
        assert(tag@ =~= begin_tag(name_plist()));
        let start = first_tag(buf, 0, tag.as_slice());
        let end = first_byte(buf, start, '>' as u8);
        if start >= len || end >= len {
            return Err(Error::InvalidMarkup);
        }
        let found = match Self::parse_dict(buf, after_space(buf, end + 1), &names, given) {
            Ok(found) => found,
            Err(e) => {
                return Err(e);
            },
        };
        let close = after_space(buf, found.next);
        if !at_close(buf, close, &names.plist) {
            return Err(Error::InvalidMarkup);
        }
        Ok(found)
    }

    /// Reads a document. `reals` are the values of its real numbers, as
    /// the bits of doubles, in the order of the document: one for each
    /// text that `real_texts` gives.
    pub fn parse(input: &[u8], reals: &Vec<u64>) -> (r: Result<Plist, Error>)
        ensures
            viewed(r) == spec_parse_markup(input@, reals@),
            r matches Ok(p) ==> well_formed(p@),
    {
        proof {
            lemma_markup_well_formed(input@, reals@);
        }
        match Self::scan(input, reals.as_slice()) {
            Ok(found) => if found.reals.len() == reals.len() {
                Ok(found.value)
            } else {
                Err(Error::RealCount)
            },
            Err(e) => Err(e),
        }
    }

    /// The texts of the real numbers of a document, in its order.
    pub fn real_texts(input: &[u8]) -> (r: Result<Vec<String>, Error>)
        ensures
            match r {
                Ok(found) => spec_real_texts(input@) == Ok::<Seq<Seq<char>>, Error>(texts(found@)),
                Err(e) => spec_real_texts(input@) == Err::<Seq<Seq<char>>, Error>(e),
            },
    {
        let none: Vec<u64> = Vec::new();
        match Self::scan(input, none.as_slice()) {
            Ok(found) => Ok(found.reals),
            Err(e) => Err(e),
        }
    }
}

} // verus!
