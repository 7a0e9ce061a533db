//! The two codecs.
pub mod binary_reader;
pub mod binary_writer;
pub mod markup;
pub mod round_trip;
pub mod xml_reader;
pub mod xml_writer;
