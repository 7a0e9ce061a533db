//! Reading the binary form.
//!
//! A buffer starts with eight magic bytes and ends with a 32-byte trailer.
//! The trailer names the offset table, which gives for every object index
//! the place of that object in the buffer. Containers hold the indices of
//! their members, so decoding follows indices through the offset table.
use vstd::prelude::*;
use vstd::slice::{slice_subrange, slice_to_vec};
use crate::bytes::{be_value, is_width, lemma_items_fit, read_be};
use crate::date::{instant_of, lemma_timestamp_nanos, timestamp_of_date};
use crate::error::Error;
use crate::ieee::{double_of_single, widen};
use crate::plist::{
    all_values_well_formed, all_well_formed, entries_insert, entries_view, insert_entry,
    items_view, key_index, keys_unique, lemma_insert_keeps_unique,
    lemma_items_view, lemma_key_index, well_formed, Entries, Plist, Value,
};
use crate::text::{string_from_utf16, string_from_utf8_lossy, utf16_text, utf8_text};

verus! {

/// The eight bytes `bplist00`.
pub open spec fn magic() -> Seq<u8> {
    seq![0x62u8, 0x70u8, 0x6Cu8, 0x69u8, 0x73u8, 0x74u8, 0x30u8, 0x30u8]
}

/// What the last 32 bytes of a buffer say.
pub struct Trailer {
    pub offset_table_offset_size: u8,
    pub object_ref_size: u8,
    pub num_objects: u64,
    pub top_object_offset: u64,
    pub offset_table_start: u64,
}

/// The big-endian number in the `width` bytes of `buf` from `at` on.
pub open spec fn field(buf: Seq<u8>, at: int, width: int) -> nat {
    be_value(buf.subrange(at, at + width))
}

/// The trailer of a buffer of at least 32 bytes.
pub open spec fn trailer_of(buf: Seq<u8>) -> Trailer {
    let base = buf.len() - 32;
    Trailer {
        offset_table_offset_size: buf[base + 6],
        object_ref_size: buf[base + 7],
        num_objects: field(buf, base + 8, 8) as u64,
        top_object_offset: field(buf, base + 16, 8) as u64,
        offset_table_start: field(buf, base + 24, 8) as u64,
    }
}

/// The offset table: `count` numbers of `width` bytes each, from `start` on.
pub open spec fn offsets_of(buf: Seq<u8>, start: int, count: nat, width: int) -> Seq<u64> {
    Seq::new(count, |i: int| field(buf, start + i * width, width) as u64)
}

/// The integer that an unsigned 64-bit pattern stands for.
pub open spec fn signed(v: nat) -> i64 {
    if v <= i64::MAX {
        v as i64
    } else {
        (v - 0x1_0000_0000_0000_0000) as i64
    }
}

/// The byte width that the low half `info` of a marker selects: 1, 2, 4 or 8.
pub open spec fn width_of_info(info: nat) -> nat {
    if info == 0 {
        1
    } else if info == 1 {
        2
    } else if info == 2 {
        4
    } else {
        8
    }
}

/// A length or a count. The low half of the marker gives it directly
/// unless it is 15; then a count record follows at `pos`: one byte whose
/// low half selects a width, and the number in that many bytes. The result
/// is the count and the place where the payload starts.
pub open spec fn spec_count(buf: Seq<u8>, pos: int, info: nat) -> Result<(nat, int), Error> {
    if info != 15 {
        Ok((info, pos))
    } else if pos >= buf.len() {
        Err(Error::OutOfRange)
    } else {
        let k = (buf[pos] % 16) as nat;
        if k > 3 {
            Err(Error::MalformedObject)
        } else if pos + 1 + width_of_info(k) > buf.len() {
            Err(Error::OutOfRange)
        } else {
            Ok((field(buf, pos + 1, width_of_info(k) as int), pos + 1 + width_of_info(k)))
        }
    }
}

pub open spec fn spec_bool(info: nat) -> Result<Value, Error> {
    if info == 0 || info == 8 {
        Ok(Value::Boolean(false))
    } else if info == 9 {
        Ok(Value::Boolean(true))
    } else {
        Err(Error::MalformedObject)
    }
}

/// An integer: `info` selects the width of the unsigned number at `pos`.
pub open spec fn spec_integer(buf: Seq<u8>, pos: int, info: nat) -> Result<Value, Error> {
    if info > 3 {
        Err(Error::MalformedObject)
    } else if pos + width_of_info(info) > buf.len() {
        Err(Error::OutOfRange)
    } else {
        Ok(Value::Integer(signed(field(buf, pos, width_of_info(info) as int))))
    }
}

/// A real number: a single for `info` 0 or 2, a double for 3.
pub open spec fn spec_float(buf: Seq<u8>, pos: int, info: nat) -> Result<Value, Error> {
    if info == 0 || info == 2 {
        if pos + 4 > buf.len() {
            Err(Error::OutOfRange)
        } else {
            Ok(Value::Float(double_of_single(field(buf, pos, 4) as u32)))
        }
    } else if info == 3 {
        if pos + 8 > buf.len() {
            Err(Error::OutOfRange)
        } else {
            Ok(Value::Float(field(buf, pos, 8) as u64))
        }
    } else {
        Err(Error::MalformedObject)
    }
}

/// A date: always the eight bytes of a double, which counts the seconds
/// from the reference epoch. The date is the instant that lies so many
/// seconds after the epoch, as a Unix timestamp; a double that stands for
/// no instant is an error.
pub open spec fn spec_date(buf: Seq<u8>, pos: int) -> Result<Value, Error> {
    if pos + 8 > buf.len() {
        Err(Error::OutOfRange)
    } else {
        match instant_of(field(buf, pos, 8) as u64) {
            Some((secs, nanos)) => Ok(Value::Date(secs as i64, nanos as u32)),
            None => Err(Error::InvalidDate),
        }
    }
}

/// The payload of a data or string object: its length comes first.
pub open spec fn spec_payload(buf: Seq<u8>, pos: int, info: nat) -> Result<Seq<u8>, Error> {
    match spec_count(buf, pos, info) {
        Err(e) => Err(e),
        Ok((n, start)) => if start + n > buf.len() {
            Err(Error::OutOfRange)
        } else {
            Ok(buf.subrange(start, start + n))
        },
    }
}

pub open spec fn spec_data(buf: Seq<u8>, pos: int, info: nat) -> Result<Value, Error> {
    match spec_payload(buf, pos, info) {
        Err(e) => Err(e),
        Ok(bytes) => Ok(Value::Data(bytes)),
    }
}

pub open spec fn spec_string(buf: Seq<u8>, pos: int, info: nat) -> Result<Value, Error> {
    match spec_payload(buf, pos, info) {
        Err(e) => Err(e),
        Ok(bytes) => Ok(Value::String(utf8_text(bytes))),
    }
}

/// The `n` 16-bit code units from `start` on.
pub open spec fn code_units(buf: Seq<u8>, start: int, n: nat) -> Seq<u16> {
    Seq::new(n, |i: int| field(buf, start + 2 * i, 2) as u16)
}

/// A wide string: the count is in code units of two bytes each.
pub open spec fn spec_wide_string(buf: Seq<u8>, pos: int, info: nat) -> Result<Value, Error> {
    match spec_count(buf, pos, info) {
        Err(e) => Err(e),
        Ok((n, start)) => if start + 2 * n > buf.len() {
            Err(Error::OutOfRange)
        } else {
            match utf16_text(code_units(buf, start, n)) {
                Some(text) => Ok(Value::String(text)),
                None => Err(Error::TextDecode),
            }
        },
    }
}

/// The keys of a dictionary, if every one of them is a string.
pub open spec fn as_keys(values: Seq<Value>) -> Option<Seq<Seq<char>>> {
    if forall|i: int| 0 <= i < values.len() ==> (#[trigger] values[i]) is String {
        Some(Seq::new(values.len(), |i: int| values[i]->String_0))
    } else {
        None
    }
}

/// The dictionary made by inserting the first `n` keys with their values,
/// in order.
pub open spec fn paired(keys: Seq<Seq<char>>, values: Seq<Value>, n: nat) -> Entries
    decreases n,
{
    if n == 0 {
        Seq::empty()
    } else {
        entries_insert(
            paired(keys, values, (n - 1) as nat),
            keys[n - 1],
            values[n - 1],
        )
    }
}

/// The object under `index`. Each step from a container to a member uses
/// up one unit of `fuel`, so objects that refer to each other in a circle
/// end in an error: with as much fuel as there are objects, it runs out
/// only on a path that meets an object twice.
pub open spec fn decode_object(
    buf: Seq<u8>,
    offsets: Seq<u64>,
    ref_size: nat,
    index: nat,
    fuel: nat,
) -> Result<Value, Error>
    decreases fuel, 0nat, 0nat,
{
    if index >= offsets.len() {
        Err(Error::OutOfRange)
    } else if fuel == 0 {
        Err(Error::CyclicReference)
    } else if offsets[index as int] >= buf.len() {
        Err(Error::OutOfRange)
    } else {
        let pos = offsets[index as int] as int;
        let tag = (buf[pos] / 16) as nat;
        let info = (buf[pos] % 16) as nat;
        if tag == 0x0 {
            spec_bool(info)
        } else if tag == 0x1 {
            spec_integer(buf, pos + 1, info)
        } else if tag == 0x2 {
            spec_float(buf, pos + 1, info)
        } else if tag == 0x3 {
            spec_date(buf, pos + 1)
        } else if tag == 0x4 {
            spec_data(buf, pos + 1, info)
        } else if tag == 0x5 {
            spec_string(buf, pos + 1, info)
        } else if tag == 0x6 {
            spec_wide_string(buf, pos + 1, info)
        } else if tag == 0xA {
            spec_array(buf, offsets, ref_size, pos + 1, info, (fuel - 1) as nat)
        } else if tag == 0xD {
            spec_dict(buf, offsets, ref_size, pos + 1, info, (fuel - 1) as nat)
        } else {
            Err(Error::UnsupportedTag)
        }
    }
}

/// The objects that the `n` references from `start` on name, in order; the
/// first one that fails decides the error.
pub open spec fn decode_list(
    buf: Seq<u8>,
    offsets: Seq<u64>,
    ref_size: nat,
    start: int,
    n: nat,
    fuel: nat,
) -> Result<Seq<Value>, Error>
    decreases fuel, 1nat, n,
{
    if n == 0 {
        Ok(Seq::empty())
    } else {
        match decode_list(buf, offsets, ref_size, start, (n - 1) as nat, fuel) {
            Err(e) => Err(e),
            Ok(front) => match decode_object(
                buf,
                offsets,
                ref_size,
                field(buf, start + (n - 1) * ref_size, ref_size as int),
                fuel,
            ) {
                Err(e) => Err(e),
                Ok(v) => Ok(front.push(v)),
            },
        }
    }
}

/// An array: a count, then one reference for each member. A reference
/// width that is not 1, 2, 4 or 8 is an error of the trailer.
pub open spec fn spec_array(
    buf: Seq<u8>,
    offsets: Seq<u64>,
    ref_size: nat,
    pos: int,
    info: nat,
    fuel: nat,
) -> Result<Value, Error>
    decreases fuel, 2nat, 0nat,
{
    match spec_count(buf, pos, info) {
        Err(e) => Err(e),
        Ok((n, start)) => if !is_width(ref_size) {
            Err(Error::MalformedTrailer)
        } else if start + n * ref_size > buf.len() {
            Err(Error::OutOfRange)
        } else {
            match decode_list(buf, offsets, ref_size, start, n, fuel) {
                Err(e) => Err(e),
                Ok(items) => Ok(Value::Array(items)),
            }
        },
    }
}

/// A dictionary: a count, then all the key references, then all the value
/// references. Key `i` goes with value `i`. Every key must be a string. A
/// reference width that is not 1, 2, 4 or 8 is an error of the trailer.
pub open spec fn spec_dict(
    buf: Seq<u8>,
    offsets: Seq<u64>,
    ref_size: nat,
    pos: int,
    info: nat,
    fuel: nat,
) -> Result<Value, Error>
    decreases fuel, 2nat, 0nat,
{
    match spec_count(buf, pos, info) {
        Err(e) => Err(e),
        Ok((n, start)) => if !is_width(ref_size) {
            Err(Error::MalformedTrailer)
        } else if start + 2 * n * ref_size > buf.len() {
            Err(Error::OutOfRange)
        } else {
            match decode_list(buf, offsets, ref_size, start, n, fuel) {
                Err(e) => Err(e),
                Ok(found) => match as_keys(found) {
                    None => Err(Error::StructuralMismatch),
                    Some(keys) => match decode_list(
                        buf,
                        offsets,
                        ref_size,
                        start + n * ref_size,
                        n,
                        fuel,
                    ) {
                        Err(e) => Err(e),
                        Ok(values) => Ok(Value::Dictionary(paired(keys, values, n))),
                    },
                },
            }
        },
    }
}

/// What a whole buffer decodes to.
pub open spec fn spec_parse(buf: Seq<u8>) -> Result<Value, Error> {
    if buf.len() < 8 || buf.subrange(0, 8) != magic() {
        Err(Error::InvalidHeader)
    } else if buf.len() < 32 {
        Err(Error::MalformedTrailer)
    } else {
        let t = trailer_of(buf);
        if !is_width(t.offset_table_offset_size as nat) || !is_width(t.object_ref_size as nat) {
            Err(Error::MalformedTrailer)
        } else if t.offset_table_start + t.num_objects * t.offset_table_offset_size > buf.len() {
            Err(Error::OutOfRange)
        } else if t.top_object_offset >= t.num_objects {
            Err(Error::OutOfRange)
        } else {
            decode_object(
                buf,
                offsets_of(
                    buf,
                    t.offset_table_start as int,
                    t.num_objects as nat,
                    t.offset_table_offset_size as int,
                ),
                t.object_ref_size as nat,
                t.top_object_offset as nat,
                t.num_objects as nat,
            )
        }
    }
}

/// The value of a decoded property list, or the error.
pub open spec fn viewed(r: Result<Plist, Error>) -> Result<Value, Error> {
    match r {
        Ok(p) => Ok(p@),
        Err(e) => Err(e),
    }
}

/// A count and a position as mathematical numbers, or the error.
pub open spec fn counted(r: Result<(u64, usize), Error>) -> Result<(nat, int), Error> {
    match r {
        Ok((n, start)) => Ok((n as nat, start as int)),
        Err(e) => Err(e),
    }
}

/// Once a reference fails, the list fails with the same error however
/// many references follow.
pub proof fn lemma_decode_list_error(
    buf: Seq<u8>,
    offsets: Seq<u64>,
    ref_size: nat,
    start: int,
    m: nat,
    n: nat,
    fuel: nat,
)
    requires
        m <= n,
        decode_list(buf, offsets, ref_size, start, m, fuel) is Err,
    ensures
        decode_list(buf, offsets, ref_size, start, n, fuel) == decode_list(
            buf,
            offsets,
            ref_size,
            start,
            m,
            fuel,
        ),
    decreases n,
{
    if m < n {
        lemma_decode_list_error(buf, offsets, ref_size, start, m, (n - 1) as nat, fuel);
    }
}

/// A decoded list has one value for each reference.
pub proof fn lemma_decode_list_len(
    buf: Seq<u8>,
    offsets: Seq<u64>,
    ref_size: nat,
    start: int,
    n: nat,
    fuel: nat,
)
    requires
        decode_list(buf, offsets, ref_size, start, n, fuel) is Ok,
    ensures
        decode_list(buf, offsets, ref_size, start, n, fuel)->Ok_0.len() == n,
    decreases n,
{
    if n > 0 {
        lemma_decode_list_len(buf, offsets, ref_size, start, (n - 1) as nat, fuel);
    }
}

/// Pairing the first `n` keys and values looks at no value beyond them.
pub proof fn lemma_paired_prefix(keys: Seq<Seq<char>>, a: Seq<Value>, b: Seq<Value>, n: nat)
    requires
        forall|j: int| 0 <= j < n ==> a[j] == b[j],
    ensures
        paired(keys, a, n) == paired(keys, b, n),
    decreases n,
{
    if n > 0 {
        lemma_paired_prefix(keys, a, b, (n - 1) as nat);
    }
}

/// Pairing well-formed values gives entries with unique keys and
/// well-formed values.
pub proof fn lemma_paired_well_formed(keys: Seq<Seq<char>>, values: Seq<Value>, n: nat)
    requires
        n <= values.len(),
        all_well_formed(values),
    ensures
        keys_unique(paired(keys, values, n)),
        all_values_well_formed(paired(keys, values, n)),
    decreases n,
{
    if n > 0 {
        lemma_paired_well_formed(keys, values, (n - 1) as nat);
        let before = paired(keys, values, (n - 1) as nat);
        let after = paired(keys, values, n);
        lemma_insert_keeps_unique(before, keys[n - 1], values[n - 1]);
        lemma_key_index(before, keys[n - 1]);
        assert forall|i: int| 0 <= i < after.len() implies well_formed((#[trigger] after[i]).1) by {
            match key_index(before, keys[n - 1]) {
                Some(at) => {
                    if i != at {
                        assert(after[i] == before[i]);
                    }
                },
                None => {
                    if i < before.len() {
                        assert(after[i] == before[i]);
                    }
                },
            }
        }
    }
}

/// Whatever is decoded is well formed: its dictionaries have unique keys.
pub proof fn lemma_decoded_well_formed(
    buf: Seq<u8>,
    offsets: Seq<u64>,
    ref_size: nat,
    index: nat,
    fuel: nat,
)
    ensures
        decode_object(buf, offsets, ref_size, index, fuel) matches Ok(v) ==> well_formed(v),
    decreases fuel, 0nat, 0nat,
{
    if fuel > 0 && index < offsets.len() && offsets[index as int] < buf.len() {
        let pos = offsets[index as int] as int;
        let tag = (buf[pos] / 16) as nat;
        let info = (buf[pos] % 16) as nat;
        let rest = (fuel - 1) as nat;
        if tag == 0x3 && pos + 9 <= buf.len() {
            lemma_timestamp_nanos(field(buf, pos + 1, 8) as u64);
        }
        if tag == 0xA {
            if let Ok((n, start)) = spec_count(buf, pos + 1, info) {
                lemma_decoded_list_well_formed(buf, offsets, ref_size, start, n, rest);
            }
        } else if tag == 0xD {
            if let Ok((n, start)) = spec_count(buf, pos + 1, info) {
                lemma_decoded_list_well_formed(
                    buf,
                    offsets,
                    ref_size,
                    start + n * ref_size,
                    n,
                    rest,
                );
                if let Ok(found) = decode_list(buf, offsets, ref_size, start, n, rest) {
                    if let Some(keys) = as_keys(found) {
                        if let Ok(values) = decode_list(
                            buf,
                            offsets,
                            ref_size,
                            start + n * ref_size,
                            n,
                            rest,
                        ) {
                            lemma_decode_list_len(
                                buf,
                                offsets,
                                ref_size,
                                start + n * ref_size,
                                n,
                                rest,
                            );
                            lemma_paired_well_formed(keys, values, n);
                        }
                    }
                }
            }
        }
    }
}

pub proof fn lemma_decoded_list_well_formed(
    buf: Seq<u8>,
    offsets: Seq<u64>,
    ref_size: nat,
    start: int,
    n: nat,
    fuel: nat,
)
    ensures
        decode_list(buf, offsets, ref_size, start, n, fuel) matches Ok(items) ==> all_well_formed(
            items,
        ),
    decreases fuel, 1nat, n,
{
    if n > 0 {
        lemma_decoded_list_well_formed(buf, offsets, ref_size, start, (n - 1) as nat, fuel);
        if let Ok(front) = decode_list(buf, offsets, ref_size, start, (n - 1) as nat, fuel) {
            let index = field(buf, start + (n - 1) * ref_size, ref_size as int);
            lemma_decoded_well_formed(buf, offsets, ref_size, index, fuel);
            if let Ok(v) = decode_object(buf, offsets, ref_size, index, fuel) {
                let items = front.push(v);
                assert forall|i: int| 0 <= i < items.len() implies well_formed(
                    #[trigger] items[i],
                ) by {
                    if i < front.len() {
                        assert(items[i] == front[i]);
                    }
                }
            }
        }
    }
}

/// What a buffer decodes to is well formed.
pub proof fn lemma_parsed_well_formed(buf: Seq<u8>)
    ensures
        spec_parse(buf) matches Ok(v) ==> well_formed(v),
{
    if buf.len() >= 32 {
        let t = trailer_of(buf);
        lemma_decoded_well_formed(
            buf,
            offsets_of(
                buf,
                t.offset_table_start as int,
                t.num_objects as nat,
                t.offset_table_offset_size as int,
            ),
            t.object_ref_size as nat,
            t.top_object_offset as nat,
            t.num_objects as nat,
        );
    }
}

/// The width in bytes that the low half `info` of a marker selects.
fn width_from_info(info: u8) -> (w: usize)
    requires
        info <= 3,
    ensures
        w as nat == width_of_info(info as nat),
        is_width(w as nat),
{
    if info == 0 {
        1
    } else if info == 1 {
        2
    } else if info == 2 {
        4
    } else {
        8
    }
}

#[derive(Debug)]
pub struct BinaryReader {}

impl BinaryReader {
    /// Checks the eight magic bytes.
    pub fn parse_bplist_header(input: &[u8]) -> (r: Result<(), Error>)
        ensures
            r == (if input@.len() >= 8 && input@.subrange(0, 8) == magic() {
                Ok::<(), Error>(())
            } else {
                Err(Error::InvalidHeader)
            }),
    {
        if input.len() < 8 {
            return Err(Error::InvalidHeader);
        }
        let ghost head = input@.subrange(0, 8);
        assert(forall|k: int| 0 <= k < 8 ==> head[k] == input@[k]);
        if input[0] == 0x62 && input[1] == 0x70 && input[2] == 0x6C && input[3] == 0x69 && input[4]
            == 0x73 && input[5] == 0x74 && input[6] == 0x30 && input[7] == 0x30 {
            assert(head =~= magic());
            Ok(())
        } else {
            assert(head != magic()) by {
                if head == magic() {
                    assert(head[0] == 0x62 && head[1] == 0x70 && head[2] == 0x6C && head[3] == 0x69
                        && head[4] == 0x73 && head[5] == 0x74 && head[6] == 0x30 && head[7]
                        == 0x30);
                }
            }
            Err(Error::InvalidHeader)
        }
    }

    /// Reads the trailer from the last 32 bytes and checks its two widths.
    pub fn parse_trailer(input: &[u8]) -> (r: Result<Trailer, Error>)
        ensures
            r == (if input@.len() < 32 {
                Err::<Trailer, Error>(Error::MalformedTrailer)
            } else if !is_width(trailer_of(input@).offset_table_offset_size as nat) || !is_width(
                trailer_of(input@).object_ref_size as nat,
            ) {
                Err(Error::MalformedTrailer)
            } else {
                Ok(trailer_of(input@))
            }),
    {
        let len = input.len();
        if len < 32 {
            return Err(Error::MalformedTrailer);
        }
        let base = len - 32;
        let offset_size = input[base + 6];
        let ref_size = input[base + 7];
        let trailer = Trailer {
            offset_table_offset_size: offset_size,
            object_ref_size: ref_size,
            num_objects: read_be(input, base + 8, 8),
            top_object_offset: read_be(input, base + 16, 8),
            offset_table_start: read_be(input, base + 24, 8),
        };
        if !(offset_size == 1 || offset_size == 2 || offset_size == 4 || offset_size == 8) {
            return Err(Error::MalformedTrailer);
        }
        if !(ref_size == 1 || ref_size == 2 || ref_size == 4 || ref_size == 8) {
            return Err(Error::MalformedTrailer);
        }
        Ok(trailer)
    }

    /// Splits the marker byte at `pos` into type tag and extra information.
    pub fn parse_header(input: &[u8], pos: usize) -> (r: Result<(u8, u8), Error>)
        ensures
            r == (if pos < input@.len() {
                Ok::<(u8, u8), Error>((input@[pos as int] / 16, input@[pos as int] % 16))
            } else {
                Err(Error::OutOfRange)
            }),
    {
        if pos >= input.len() {
            return Err(Error::OutOfRange);
        }
        let marker = input[pos];
        Ok((marker / 16, marker % 16))
    }

    /// Reads a length or count whose marker had `info` in its low half.
    pub fn parse_count(input: &[u8], pos: usize, info: u8) -> (r: Result<(u64, usize), Error>)
        ensures
            counted(r) == spec_count(input@, pos as int, info as nat),
    {
        if info != 15 {
            return Ok((info as u64, pos));
        }
        let len = input.len();
        if pos >= len {
            return Err(Error::OutOfRange);
        }
        let k = input[pos] % 16;
        if k > 3 {
            return Err(Error::MalformedObject);
        }
        let w = width_from_info(k);
        if len - (pos + 1) < w {
            return Err(Error::OutOfRange);
        }
        let n = read_be(input, pos + 1, w);
        Ok((n, pos + 1 + w))
    }

    pub fn parse_bool(info: u8) -> (r: Result<Plist, Error>)
        ensures
            viewed(r) == spec_bool(info as nat),
    {
        if info == 0 || info == 8 {
            Ok(Plist::Boolean(false))
        } else if info == 9 {
            Ok(Plist::Boolean(true))
        } else {
            Err(Error::MalformedObject)
        }
    }

    pub fn parse_integer(input: &[u8], pos: usize, info: u8) -> (r: Result<Plist, Error>)
        ensures
            viewed(r) == spec_integer(input@, pos as int, info as nat),
    {
        if info > 3 {
            return Err(Error::MalformedObject);
        }
        let w = width_from_info(info);
        let len = input.len();
        if pos > len || len - pos < w {
            return Err(Error::OutOfRange);
        }
        let v = read_be(input, pos, w);
        if v <= 0x7FFF_FFFF_FFFF_FFFF {
            Ok(Plist::Integer(v as i64))
        } else {
            let low: i64 = (v - 0x8000_0000_0000_0000) as i64;
            Ok(Plist::Integer(low + i64::MIN))
        }
    }

    pub fn parse_float(input: &[u8], pos: usize, info: u8) -> (r: Result<Plist, Error>)
        ensures
            viewed(r) == spec_float(input@, pos as int, info as nat),
    {
        let len = input.len();
        if info == 0 || info == 2 {
            if pos > len || len - pos < 4 {
                return Err(Error::OutOfRange);
            }
            let single = read_be(input, pos, 4);
            proof {
                crate::bytes::lemma_be_value_bound(input@.subrange(pos as int, pos + 4));
                crate::bytes::lemma_pow256_values();
            }
            Ok(Plist::Float(widen(single as u32)))
        } else if info == 3 {
            if pos > len || len - pos < 8 {
                return Err(Error::OutOfRange);
            }
            Ok(Plist::Float(read_be(input, pos, 8)))
        } else {
            Err(Error::MalformedObject)
        }
    }

    pub fn parse_date(input: &[u8], pos: usize) -> (r: Result<Plist, Error>)
        ensures
            viewed(r) == spec_date(input@, pos as int),
    {
        let len = input.len();
        if pos > len || len - pos < 8 {
            return Err(Error::OutOfRange);
        }
        let bits = read_be(input, pos, 8);
        match timestamp_of_date(bits) {
            Some((secs, nanos)) => Ok(Plist::Date(secs, nanos)),
            None => Err(Error::InvalidDate),
        }
    }

    /// The bytes of a data or string object, as a range of the input.
    fn parse_payload(input: &[u8], pos: usize, info: u8) -> (r: Result<(usize, usize), Error>)
        ensures
            match r {
                Ok((from, to)) => from <= to <= input@.len() && spec_payload(
                    input@,
                    pos as int,
                    info as nat,
                ) == Ok::<Seq<u8>, Error>(input@.subrange(from as int, to as int)),
                Err(e) => spec_payload(input@, pos as int, info as nat) == Err::<Seq<u8>, Error>(e),
            },
    {
        let (n, start) = match Self::parse_count(input, pos, info) {
            Ok(found) => found,
            Err(e) => {
                return Err(e);
            },
        };
        let len = input.len();
        if start > len || ((len - start) as u64) < n {
            return Err(Error::OutOfRange);
        }
        Ok((start, start + n as usize))
    }

    pub fn parse_data(input: &[u8], pos: usize, info: u8) -> (r: Result<Plist, Error>)
        ensures
            viewed(r) == spec_data(input@, pos as int, info as nat),
    {
        match Self::parse_payload(input, pos, info) {
            Ok((from, to)) => Ok(Plist::Data(slice_to_vec(slice_subrange(input, from, to)))),
            Err(e) => Err(e),
        }
    }

    pub fn parse_string(input: &[u8], pos: usize, info: u8) -> (r: Result<Plist, Error>)
        ensures
            viewed(r) == spec_string(input@, pos as int, info as nat),
    {
        match Self::parse_payload(input, pos, info) {
            Ok((from, to)) => Ok(
                Plist::String(string_from_utf8_lossy(slice_subrange(input, from, to))),
            ),
            Err(e) => Err(e),
        }
    }

    /// Reads a string of 16-bit code units.
    pub fn parse_ascii_string(input: &[u8], pos: usize, info: u8) -> (r: Result<Plist, Error>)
        ensures
            viewed(r) == spec_wide_string(input@, pos as int, info as nat),
    {
        let (n, start) = match Self::parse_count(input, pos, info) {
            Ok(found) => found,
            Err(e) => {
                return Err(e);
            },
        };
        let len = input.len();
        if start > len {
            return Err(Error::OutOfRange);
        }
        proof {
            lemma_items_fit(n as nat, 2, (len - start) as nat);
            assert(n * 2 == 2 * n);
        }
        if (((len - start) / 2) as u64) < n {
            return Err(Error::OutOfRange);
        }
        let count = n as usize;
        let mut units: Vec<u16> = Vec::new();
        let mut i: usize = 0;
        while i < count
            invariant
                i <= count,
                len == input@.len(),
                start + 2 * count <= input@.len(),
                units@ == code_units(input@, start as int, i as nat),
            decreases count - i,
        {
            let unit = read_be(input, start + 2 * i, 2);
            proof {
                crate::bytes::lemma_be_value_bound(
                    input@.subrange(start + 2 * i, start + 2 * i + 2),
                );
                crate::bytes::lemma_pow256_values();
            }
            units.push(unit as u16);
            assert(units@ =~= code_units(input@, start as int, (i + 1) as nat));
            i += 1;
        }
        match string_from_utf16(&units) {
            Some(text) => Ok(Plist::String(text)),
            None => Err(Error::TextDecode),
        }
    }

    /// Reads the offset table: `counts` numbers of `int_size` bytes from
    /// `start` on. Fails on a width that is not 1, 2, 4 or 8, and on a table
    /// that does not lie inside the input.
    pub fn parse_offset_table(input: &[u8], start: u64, counts: u64, int_size: u8) -> (r: Result<
        Vec<u64>,
        Error,
    >)
        ensures
            match r {
                Ok(offsets) => is_width(int_size as nat) && start + counts * int_size
                    <= input@.len() && offsets@ == offsets_of(
                    input@,
                    start as int,
                    counts as nat,
                    int_size as int,
                ),
                Err(e) => if !is_width(int_size as nat) {
                    e == Error::MalformedTrailer
                } else {
                    e == Error::OutOfRange && start + counts * int_size > input@.len()
                },
            },
    {
        if !(int_size == 1 || int_size == 2 || int_size == 4 || int_size == 8) {
            return Err(Error::MalformedTrailer);
        }
        let len = input.len();
        if start > len as u64 {
            assert(counts * int_size >= 0) by (nonlinear_arith);
            return Err(Error::OutOfRange);
        }
        let first = start as usize;
        let w = int_size as usize;
        proof {
            lemma_items_fit(counts as nat, w as nat, (len - first) as nat);
        }
        if (((len - first) / w) as u64) < counts {
            return Err(Error::OutOfRange);
        }
        let n = counts as usize;
        let mut offsets: Vec<u64> = Vec::new();
        let mut i: usize = 0;
        let mut at: usize = first;
        assert(first + 0 * w == first) by (nonlinear_arith);
        while i < n
            invariant
                i <= n,
                w > 0,
                w <= 8,
                at == first + i * w,
                len == input@.len(),
                first + n * w <= input@.len(),
                offsets@ == offsets_of(input@, first as int, i as nat, w as int),
            decreases n - i,
        {
            proof {
                assert((i + 1) * w <= n * w) by (nonlinear_arith)
                    requires
                        i + 1 <= n,
                        w > 0,
                ;
                assert((i + 1) * w == i * w + w) by (nonlinear_arith);
            }
            let offset = read_be(input, at, w);
            offsets.push(offset);
            assert(offsets@ =~= offsets_of(input@, first as int, (i + 1) as nat, w as int));
            at = at + w;
            i += 1;
        }
        Ok(offsets)
    }

    /// Decodes a whole buffer. What comes out is well formed.
    pub fn parse(input: &[u8]) -> (r: Result<Plist, Error>)
        ensures
            viewed(r) == spec_parse(input@),
            r matches Ok(p) ==> well_formed(p@),
    {
        proof {
            lemma_parsed_well_formed(input@);
        }
        match Self::parse_bplist_header(input) {
            Ok(_) => {},
            Err(e) => {
                return Err(e);
            },
        }
        let trailer = match Self::parse_trailer(input) {
            Ok(t) => t,
            Err(e) => {
                return Err(e);
            },
        };
        let offsets = match Self::parse_offset_table(
            input,
            trailer.offset_table_start,
            trailer.num_objects,
            trailer.offset_table_offset_size,
        ) {
            Ok(table) => table,
            Err(e) => {
                return Err(e);
            },
        };
        if trailer.top_object_offset >= trailer.num_objects {
            return Err(Error::OutOfRange);
        }
        Self::parse_object(input, trailer.top_object_offset, &offsets, &trailer, trailer.num_objects)
    }

    /// Decodes the object under `index`, following at most `fuel` steps
    /// from container to member.
    pub fn parse_object(
        data: &[u8],
        index: u64,
        offsets: &Vec<u64>,
        trailer: &Trailer,
        fuel: u64,
    ) -> (r: Result<Plist, Error>)
        ensures
            viewed(r) == decode_object(
                data@,
                offsets@,
                trailer.object_ref_size as nat,
                index as nat,
                fuel as nat,
            ),
        decreases fuel, 0nat,
    {
        if index >= offsets.len() as u64 {
            return Err(Error::OutOfRange);
        }
        if fuel == 0 {
            return Err(Error::CyclicReference);
        }
        let offset = offsets[index as usize];
        let len = data.len();
        if offset >= len as u64 {
            return Err(Error::OutOfRange);
        }
        let pos = offset as usize;
        let tag = data[pos] / 16;
        let info = data[pos] % 16;
        if tag == 0x0 {
            Self::parse_bool(info)
        } else if tag == 0x1 {
            Self::parse_integer(data, pos + 1, info)
        } else if tag == 0x2 {
            Self::parse_float(data, pos + 1, info)
        } else if tag == 0x3 {
            Self::parse_date(data, pos + 1)
        } else if tag == 0x4 {
            Self::parse_data(data, pos + 1, info)
        } else if tag == 0x5 {
            Self::parse_string(data, pos + 1, info)
        } else if tag == 0x6 {
            Self::parse_ascii_string(data, pos + 1, info)
        } else if tag == 0xA {
            Self::parse_array(data, pos + 1, info, trailer, offsets, fuel - 1)
        } else if tag == 0xD {
            Self::parse_dict(data, pos + 1, info, trailer, offsets, fuel - 1)
        } else {
            Err(Error::UnsupportedTag)
        }
    }

    /// Decodes the objects that the `n` references from `start` on name.
    fn parse_refs(
        data: &[u8],
        start: usize,
        n: usize,
        trailer: &Trailer,
        offsets: &Vec<u64>,
        fuel: u64,
    ) -> (r: Result<Vec<Plist>, Error>)
        requires
            is_width(trailer.object_ref_size as nat),
            start + n * trailer.object_ref_size <= data@.len(),
        ensures
            match r {
                Ok(items) => decode_list(
                    data@,
                    offsets@,
                    trailer.object_ref_size as nat,
                    start as int,
                    n as nat,
                    fuel as nat,
                ) == Ok::<Seq<Value>, Error>(items_view(items@)),
                Err(e) => decode_list(
                    data@,
                    offsets@,
                    trailer.object_ref_size as nat,
                    start as int,
                    n as nat,
                    fuel as nat,
                ) == Err::<Seq<Value>, Error>(e),
            },
        decreases fuel, 1nat,
    {
        let w = trailer.object_ref_size as usize;
        let len = data.len();
        let mut items: Vec<Plist> = Vec::new();
        let mut i: usize = 0;
        let mut at: usize = start;
        while i < n
            invariant
                i <= n,
                is_width(trailer.object_ref_size as nat),
                w == trailer.object_ref_size,
                len == data@.len(),
                at == start + i * w,
                start + n * w <= data@.len(),
                decode_list(data@, offsets@, w as nat, start as int, i as nat, fuel as nat) == Ok::<
                    Seq<Value>,
                    Error,
                >(items_view(items@)),
            decreases n - i,
        {
            proof {
                assert((i + 1) * w <= n * w) by (nonlinear_arith)
                    requires
                        i + 1 <= n,
                        w > 0,
                ;
                assert((i + 1) * w == i * w + w) by (nonlinear_arith);
            }
            let index = read_be(data, at, w);
            match Self::parse_object(data, index, offsets, trailer, fuel) {
                Ok(item) => {
                    let ghost before = items@;
                    items.push(item);
                    proof {
                        assert(items@.drop_last() =~= before);
                    }
                },
                Err(e) => {
                    proof {
                        lemma_decode_list_error(
                            data@,
                            offsets@,
                            w as nat,
                            start as int,
                            (i + 1) as nat,
                            n as nat,
                            fuel as nat,
                        );
                    }
                    return Err(e);
                },
            }
            at = at + w;
            i += 1;
        }
        Ok(items)
    }

    /// Decodes an array whose count starts at `pos`.
    pub fn parse_array(
        data: &[u8],
        pos: usize,
        info: u8,
        trailer: &Trailer,
        offsets: &Vec<u64>,
        fuel: u64,
    ) -> (r: Result<Plist, Error>)
        ensures
            viewed(r) == spec_array(
                data@,
                offsets@,
                trailer.object_ref_size as nat,
                pos as int,
                info as nat,
                fuel as nat,
            ),
        decreases fuel, 2nat,
    {
        let (n, start) = match Self::parse_count(data, pos, info) {
            Ok(found) => found,
            Err(e) => {
                return Err(e);
            },
        };
        let len = data.len();
        let w = trailer.object_ref_size as usize;
        if !(w == 1 || w == 2 || w == 4 || w == 8) {
            return Err(Error::MalformedTrailer);
        }
        if start > len {
            assert(n * w >= 0) by (nonlinear_arith);
            return Err(Error::OutOfRange);
        }
        proof {
            lemma_items_fit(n as nat, w as nat, (len - start) as nat);
        }
        if (((len - start) / w) as u64) < n {
            return Err(Error::OutOfRange);
        }
        match Self::parse_refs(data, start, n as usize, trailer, offsets, fuel) {
            Ok(items) => Ok(Plist::Array(items)),
            Err(e) => Err(e),
        }
    }

    /// Decodes a dictionary whose count starts at `pos`.
    #[verifier::loop_isolation(false)]
    #[verifier::rlimit(60)]
    pub fn parse_dict(
        data: &[u8],
        pos: usize,
        info: u8,
        trailer: &Trailer,
        offsets: &Vec<u64>,
        fuel: u64,
    ) -> (r: Result<Plist, Error>)
        ensures
            viewed(r) == spec_dict(
                data@,
                offsets@,
                trailer.object_ref_size as nat,
                pos as int,
                info as nat,
                fuel as nat,
            ),
        decreases fuel, 2nat,
    {
        let (n, start) = match Self::parse_count(data, pos, info) {
            Ok(found) => found,
            Err(e) => {
                return Err(e);
            },
        };
        let len = data.len();
        let w = trailer.object_ref_size as usize;
        if !(w == 1 || w == 2 || w == 4 || w == 8) {
            return Err(Error::MalformedTrailer);
        }
        if start > len {
            assert(2 * n * w >= 0) by (nonlinear_arith);
            return Err(Error::OutOfRange);
        }
        proof {
            lemma_items_fit(n as nat, (2 * w) as nat, (len - start) as nat);
            assert(n * (2 * w) == 2 * n * w) by (nonlinear_arith);
        }
        if (((len - start) / (2 * w)) as u64) < n {
            return Err(Error::OutOfRange);
        }
        let count = n as usize;
        proof {
            assert(count * w + count * w == 2 * count * w) by (nonlinear_arith);
        }
        let found = match Self::parse_refs(data, start, count, trailer, offsets, fuel) {
            Ok(items) => items,
            Err(e) => {
                return Err(e);
            },
        };
        proof {
            lemma_items_view(found@);
            lemma_decode_list_len(
                data@,
                offsets@,
                w as nat,
                start as int,
                count as nat,
                fuel as nat,
            );
        }
        let mut keys: Vec<String> = Vec::new();
        let mut k: usize = 0;
        while k < count
            invariant
                k <= count,
                found@.len() == count,
                keys@.len() == k,
                forall|j: int|
                    0 <= j < k ==> (#[trigger] found@[j])@ == Value::String(keys@[j]@),
            decreases count - k,
        {
            match &found[k] {
                Plist::String(text) => {
                    keys.push(text.clone());
                },
                _ => {
                    assert(items_view(found@)[k as int] == found@[k as int]@);
                    assert(!(items_view(found@)[k as int] is String));
                    return Err(Error::StructuralMismatch);
                },
            }
            k += 1;
        }
        let ghost key_views = Seq::new(count as nat, |j: int| keys@[j]@);
        proof {
            assert(as_keys(items_view(found@)) is Some);
            assert(as_keys(items_view(found@))->0 =~= key_views);
        }
        let values_start = start + count * w;
        let mut entries: Vec<(String, Plist)> = Vec::new();
        let ghost mut values: Seq<Value> = Seq::empty();
        let mut i: usize = 0;
        let mut at: usize = values_start;
        while i < count
            invariant
                i <= count,
                is_width(trailer.object_ref_size as nat),
                w == trailer.object_ref_size,
                len == data@.len(),
                at == values_start + i * w,
                values_start + count * w <= data@.len(),
                keys@.len() == count,
                key_views == Seq::new(count as nat, |j: int| keys@[j]@),
                values.len() == i,
                decode_list(
                    data@,
                    offsets@,
                    w as nat,
                    values_start as int,
                    i as nat,
                    fuel as nat,
                ) == Ok::<Seq<Value>, Error>(values),
                entries_view(entries@) == paired(key_views, values, i as nat),
            decreases count - i,
        {
            proof {
                assert((i + 1) * w <= count * w) by (nonlinear_arith)
                    requires
                        i + 1 <= count,
                        w > 0,
                ;
                assert((i + 1) * w == i * w + w) by (nonlinear_arith);
            }
            let index = read_be(data, at, w);
            match Self::parse_object(data, index, offsets, trailer, fuel) {
                Ok(value) => {
                    proof {
                        lemma_paired_prefix(key_views, values, values.push(value@), i as nat);
                        values = values.push(value@);
                    }
                    insert_entry(&mut entries, keys[i].clone(), value);
                },
                Err(e) => {
                    proof {
                        lemma_decode_list_error(
                            data@,
                            offsets@,
                            w as nat,
                            values_start as int,
                            (i + 1) as nat,
                            count as nat,
                            fuel as nat,
                        );
                    }
                    return Err(e);
                },
            }
            at = at + w;
            i += 1;
        }
        Ok(Plist::Dictionary(entries))
    }
}

} // verus!
