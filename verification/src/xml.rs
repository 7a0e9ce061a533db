//! Reading the markup form into dictionaries that are sorted by key.
use vstd::prelude::*;
use crate::error::Error;
use crate::plist::{sorted_deep, Plist, Value};
use crate::stream::binary_reader::viewed;
use crate::stream::xml_reader::{spec_parse_markup, XmlReader};

verus! {

/// What a document says, with the entries of every dictionary in the
/// order of their keys.
pub open spec fn spec_parse_sorted(input: Seq<u8>, given: Seq<u64>) -> Result<Value, Error> {
    match spec_parse_markup(input, given) {
        Ok(v) => Ok(sorted_deep(v)),
        Err(e) => Err(e),
    }
}

pub struct XmlPlist {}

impl XmlPlist {
    /// Reads a document as `XmlReader` does, and sorts every dictionary
    /// by key. `reals` are the values of the real numbers of the document,
    /// in its order.
    pub fn parse(input: &[u8], reals: &Vec<u64>) -> (r: Result<Plist, Error>)
        ensures
            viewed(r) == spec_parse_sorted(input@, reals@),
    {
        match XmlReader::parse(input, reals) {
            Ok(value) => {
                let mut value = value;
                value.sort_keys_deep();
                Ok(value)
            },
            Err(e) => Err(e),
        }
    }
}

} // verus!
