//! The binary writer under the name `BPlistWrite`: it holds a
//! `BinaryWriter` and writes what that writes.
use vstd::prelude::*;
use crate::bytes::{be_bytes, is_width, width_for};
use crate::error::Error;
use crate::plist::{well_formed, Plist, Value};
use crate::stream::binary_reader::{spec_parse, BinaryReader};
use crate::stream::binary_writer::{
    absorb, chunk_of, coded, collected, count_record, dates_exact, encodable, info_of_width,
    integers_fit,
    length_prefix, max_of, offset_table, seen_values, spec_encode, trailer_bytes, BinaryWriter,
    Seen,
};

verus! {

pub struct BPlistWrite {
    /// The general writer that does the work.
    pub writer: BinaryWriter,
}

impl BPlistWrite {
    pub fn new() -> (w: Self)
        ensures
            w.writer.objects == 0,
            w.writer.offsets@ == Seq::<u64>::empty(),
            w.writer.ref_size == 1,
            w.writer.offset_size == 1,
    {
        BPlistWrite { writer: BinaryWriter::new() }
    }

    /// Encodes `value`. Fails on a negative integer, and on nothing else.
    /// The bytes of a well-formed value whose dates are exact decode to that
    /// value again.
    pub fn write(self, value: &Plist) -> (r: Result<Vec<u8>, Error>)
        ensures
            match r {
                Ok(bytes) => encodable(value@) && bytes@ == spec_encode(coded(value@)) && (
                dates_exact(value@) ==> bytes@ == spec_encode(value@)) && (well_formed(value@)
                    && dates_exact(value@) ==> spec_parse(bytes@) == Ok::<Value, Error>(value@)),
                Err(e) => e == Error::UnsupportedValue && !encodable(value@),
            },
    {
        self.writer.write(value)
    }

    /// Gives `value` and everything below it object indices.
    pub fn collect_objects<'a>(
        &mut self,
        value: &'a Plist,
        memo: &mut Vec<Seen<'a>>,
        links: &mut Vec<Vec<u64>>,
    ) -> (index: u64)
        requires
            old(links)@.len() == old(memo)@.len(),
        ensures
            seen_values(final(memo)@) == absorb(seen_values(old(memo)@), coded(value@)),
            collected(
                seen_values(old(memo)@),
                old(links)@,
                seen_values(final(memo)@),
                final(links)@,
                coded(value@),
                index,
            ),
            encodable(value@) && integers_fit(seen_values(old(memo)@)) ==> integers_fit(
                seen_values(final(memo)@),
            ),
            final(self).writer.objects == final(memo)@.len(),
            final(self).writer.offsets == old(self).writer.offsets,
            final(self).writer.ref_size == old(self).writer.ref_size,
            final(self).writer.offset_size == old(self).writer.offset_size,
    {
        self.writer.collect_objects(value, memo, links)
    }

    /// Splits the first byte of `input` into type tag and extra information.
    pub fn parse_header(input: &[u8]) -> (r: Result<(u8, u8), Error>)
        ensures
            r == (if 0 < input@.len() {
                Ok::<(u8, u8), Error>((input@[0] / 16, input@[0] % 16))
            } else {
                Err(Error::OutOfRange)
            }),
    {
        BinaryReader::parse_header(input, 0)
    }

    /// The bytes of one object: its head, then `refs` in `ref_size` bytes each.
    pub fn serialize_object<'a>(&self, seen: &Seen<'a>, refs: &Vec<u64>) -> (r: Result<
        Vec<u8>,
        Error,
    >)
        requires
            is_width(self.writer.ref_size as nat),
            seen.value() matches Value::Integer(n) ==> n >= 0,
        ensures
            r matches Ok(chunk) && chunk@ == chunk_of(
                seen.value(),
                refs@,
                self.writer.ref_size as nat,
            ),
    {
        Ok(self.writer.serialize_object(seen, refs))
    }

    /// The trailer for a buffer whose offset table starts at `offset_table_start`.
    pub fn generate_trailer(
        &self,
        root_index: usize,
        objects: usize,
        offset_table_start: u64,
    ) -> (r: Result<Vec<u8>, Error>)
        ensures
            r is Ok,
            r->Ok_0@ == trailer_bytes(
                self.writer.offset_size as nat,
                self.writer.ref_size as nat,
                objects as nat,
                root_index as nat,
                offset_table_start as nat,
            ),
    {
        self.writer.generate_trailer(root_index, objects, offset_table_start)
    }

    /// The offset table: every recorded offset in `offset_size` bytes.
    pub fn generate_offset_table(&self) -> (r: Result<Vec<u8>, Error>)
        ensures
            match r {
                Ok(table) => (self.writer.offsets@.len() == 0 || is_width(
                    self.writer.offset_size as nat,
                )) && table@ == offset_table(
                    self.writer.offsets@,
                    self.writer.offset_size as nat,
                    self.writer.offsets@.len(),
                ),
                Err(e) => e == Error::MalformedTrailer && self.writer.offsets@.len() > 0
                    && !is_width(self.writer.offset_size as nat),
            },
    {
        self.writer.generate_offset_table()
    }

    /// An object reference in `ref_size` bytes.
    pub fn serialize_ref(&self, index: u64) -> (bytes: Vec<u8>)
        requires
            is_width(self.writer.ref_size as nat),
        ensures
            bytes@ == be_bytes(index as nat, self.writer.ref_size as nat),
    {
        self.writer.serialize_ref(index)
    }

    /// The marker of an object of type `code` with `len` bytes or members,
    /// and the count record that follows it, if any.
    pub fn serialize_length(&self, code: u8, len: usize) -> (r: (u8, Vec<u8>))
        ensures
            seq![r.0] + r.1@ == length_prefix((code % 16) as nat, len as nat),
    {
        self.writer.serialize_length(code, len)
    }

    /// A count record for `count`.
    pub fn serialize_count(&self, count: usize) -> (bytes: Vec<u8>)
        ensures
            bytes@ == count_record(count as nat),
    {
        self.writer.serialize_count(count)
    }

    /// Marker and payload of an integer that is not negative.
    pub fn serialize_integer(&self, code: u8, value: i64) -> (r: (u8, Vec<u8>))
        requires
            value >= 0,
        ensures
            r.0 == (code % 16) * 16 + info_of_width(width_for(value as nat)),
            r.1@ == be_bytes(value as nat, width_for(value as nat)),
    {
        self.writer.serialize_integer(code, value)
    }

    /// Chooses both widths: the reference width from the number of
    /// objects, the offset width from the greatest recorded offset.
    pub fn calculate_sizes(&mut self)
        ensures
            final(self).writer.ref_size as nat == width_for(old(self).writer.objects as nat),
            final(self).writer.offset_size as nat == width_for(
                max_of(old(self).writer.offsets@),
            ),
            final(self).writer.objects == old(self).writer.objects,
            final(self).writer.offsets == old(self).writer.offsets,
    {
        self.writer.calculate_sizes()
    }
}

} // verus!
