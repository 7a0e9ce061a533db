use plist::error::Error;
use plist::plist::Plist;
use plist::stream::binary_reader::{BinaryReader, Trailer};
use plist::stream::binary_writer::{BinaryWriter, Seen};
use plist::write::bplist_write::BPlistWrite;

fn text(s: &str) -> Plist {
    Plist::String(s.to_string())
}

fn number(v: f64) -> Plist {
    Plist::Float(v.to_bits())
}

/// The date that lies so many seconds after 2001-01-01T00:00:00Z.
fn date(seconds: f64) -> Plist {
    let (secs, nanos) = plist::date::timestamp_exact(seconds.to_bits()).unwrap();
    Plist::Date(secs, nanos)
}

fn round_trip(value: &Plist) -> Plist {
    let bytes = value.to_binary().unwrap();
    BinaryReader::parse(&bytes).unwrap()
}

/// A buffer made by hand: the objects one after the other, then the
/// offset table in one-byte entries, then the trailer.
fn buffer(objects: &[&[u8]], ref_size: u8, root: u64) -> Vec<u8> {
    let mut bytes = b"bplist00".to_vec();
    let mut offsets = vec![];
    for object in objects {
        offsets.push(bytes.len() as u8);
        bytes.extend_from_slice(object);
    }
    let table_start = bytes.len() as u64;
    bytes.extend_from_slice(&offsets);
    bytes.extend_from_slice(&[0, 0, 0, 0, 0, 0, 1, ref_size]);
    bytes.extend_from_slice(&(objects.len() as u64).to_be_bytes());
    bytes.extend_from_slice(&root.to_be_bytes());
    bytes.extend_from_slice(&table_start.to_be_bytes());
    bytes
}

fn trailer_of(bytes: &[u8]) -> Trailer {
    BinaryReader::parse_trailer(bytes).unwrap()
}

#[test]
fn round_trip_of_scalars() {
    for value in [
        Plist::Boolean(true),
        Plist::Boolean(false),
        Plist::Integer(0),
        Plist::Integer(255),
        Plist::Integer(256),
        Plist::Integer(65535),
        Plist::Integer(65536),
        Plist::Integer(0xFFFF_FFFF),
        Plist::Integer(0x1_0000_0000),
        Plist::Integer(i64::MAX),
        number(1.5),
        number(0.1),
        number(0.0),
        number(-0.0),
        number(1e-40),
        number(1e300),
        number(f64::INFINITY),
        number(f64::NAN),
        date(0.0),
        date(745_000_000.25),
        Plist::Data(vec![]),
        Plist::Data(vec![1, 2, 3]),
        Plist::Data((0..=255u8).collect()),
        text(""),
        text("hello"),
        text("exactly 14 byt"),
        text("exactly 15 byte"),
        text("a string that is longer than fourteen bytes"),
        text("h\u{e9}llo \u{1F600}"),
    ] {
        assert_eq!(round_trip(&value), value);
    }
}

#[test]
fn round_trip_of_long_payloads() {
    assert_eq!(round_trip(&Plist::Data(vec![7; 300])), Plist::Data(vec![7; 300]));
    assert_eq!(round_trip(&Plist::Data(vec![9; 70_000])), Plist::Data(vec![9; 70_000]));
    let long: String = "x".repeat(1000);
    assert_eq!(round_trip(&text(&long)), text(&long));
    let many: Vec<Plist> = (0..20).map(Plist::Integer).collect();
    assert_eq!(round_trip(&Plist::Array(many.clone())), Plist::Array(many));
}

#[test]
fn round_trip_of_nested_containers() {
    let inner = Plist::Dictionary(vec![
        ("name".to_string(), text("iOS")),
        ("versions".to_string(), Plist::Array(vec![Plist::Integer(16), Plist::Integer(17)])),
        ("empty".to_string(), Plist::Array(vec![])),
        ("none".to_string(), Plist::Dictionary(vec![])),
    ]);
    let value = Plist::Dictionary(vec![
        ("first".to_string(), inner.clone()),
        ("second".to_string(), inner),
        ("flag".to_string(), Plist::Boolean(true)),
        ("when".to_string(), date(1.0)),
        ("blob".to_string(), Plist::Data(vec![0xDE, 0xAD])),
        ("ratio".to_string(), number(2.5)),
        ("name".to_string().repeat(5), text("name")),
    ]);
    assert_eq!(round_trip(&value), value);
}

#[test]
fn round_trip_of_a_deep_tree() {
    let mut value = Plist::Integer(1);
    for _ in 0..200 {
        value = Plist::Array(vec![value]);
    }
    assert_eq!(round_trip(&value), value);
}

#[test]
fn exact_bytes_of_a_small_array() {
    let value = Plist::Array(vec![Plist::Integer(1), Plist::Boolean(true), Plist::Integer(1)]);
    let bytes = value.to_binary().unwrap();
    let mut expected: Vec<u8> = b"bplist00".to_vec();
    // object 0: array of three, referring to objects 1, 2, 1
    expected.extend([0xA3, 0x01, 0x02, 0x01]);
    // object 1: integer 1; object 2: true
    expected.extend([0x10, 0x01]);
    expected.extend([0x09]);
    // offset table
    expected.extend([8, 12, 14]);
    // trailer
    expected.extend([0, 0, 0, 0, 0, 0, 1, 1]);
    expected.extend(3u64.to_be_bytes());
    expected.extend(0u64.to_be_bytes());
    expected.extend(15u64.to_be_bytes());
    assert_eq!(bytes, expected);
    assert_eq!(BinaryReader::parse(&bytes).unwrap(), value);
}

#[test]
fn exact_bytes_of_a_dictionary() {
    // keys first, then values: {"a": 1, "b": 2}
    let value = Plist::Dictionary(vec![
        ("a".to_string(), Plist::Integer(1)),
        ("b".to_string(), Plist::Integer(2)),
    ]);
    let bytes = value.to_binary().unwrap();
    let mut expected: Vec<u8> = b"bplist00".to_vec();
    expected.extend([0xD2, 1, 2, 3, 4]);
    expected.extend([0x51, b'a']);
    expected.extend([0x51, b'b']);
    expected.extend([0x10, 1]);
    expected.extend([0x10, 2]);
    expected.extend([8, 13, 15, 17, 19]);
    expected.extend([0, 0, 0, 0, 0, 0, 1, 1]);
    expected.extend(5u64.to_be_bytes());
    expected.extend(0u64.to_be_bytes());
    expected.extend(21u64.to_be_bytes());
    assert_eq!(bytes, expected);
}

#[test]
fn the_root_is_object_zero_and_members_follow_in_order() {
    let value = Plist::Array(vec![
        Plist::Array(vec![text("x"), text("y")]),
        text("y"),
        text("z"),
    ]);
    let bytes = value.to_binary().unwrap();
    // 0: outer, 1: inner, 2: "x", 3: "y", 4: "z"
    assert_eq!(&bytes[8..12], &[0xA3, 1, 3, 4]);
    assert_eq!(&bytes[12..15], &[0xA2, 2, 3]);
    assert_eq!(trailer_of(&bytes).num_objects, 5);
    assert_eq!(trailer_of(&bytes).top_object_offset, 0);
}

#[test]
fn dedup_shares_equal_strings() {
    let value = Plist::Dictionary(vec![
        ("first".to_string(), text("iOS")),
        ("second".to_string(), text("iOS")),
    ]);
    let bytes = value.to_binary().unwrap();
    let decoded = BinaryReader::parse(&bytes).unwrap();
    assert_eq!(decoded.get("first"), Some(&text("iOS")));
    assert_eq!(decoded.get("second"), Some(&text("iOS")));
    // the dictionary, two keys and one shared value; five without sharing
    assert_eq!(trailer_of(&bytes).num_objects, 4);
    assert!(trailer_of(&bytes).num_objects < 5);
}

#[test]
fn dedup_shares_a_key_with_an_equal_string_value() {
    let value = Plist::Dictionary(vec![("same".to_string(), text("same"))]);
    let bytes = value.to_binary().unwrap();
    assert_eq!(trailer_of(&bytes).num_objects, 2);
    assert_eq!(&bytes[8..11], &[0xD1, 1, 1]);
    assert_eq!(BinaryReader::parse(&bytes).unwrap(), value);
}

#[test]
fn dedup_shares_equal_containers() {
    let pair = Plist::Array(vec![Plist::Integer(1), Plist::Integer(2)]);
    let value = Plist::Array(vec![pair.clone(), pair.clone(), pair]);
    let bytes = value.to_binary().unwrap();
    assert_eq!(trailer_of(&bytes).num_objects, 4);
    assert_eq!(BinaryReader::parse(&bytes).unwrap(), value);
}

#[test]
fn dedup_keeps_values_of_different_kinds_apart() {
    let value = Plist::Array(vec![
        Plist::Integer(0),
        Plist::Boolean(false),
        number(0.0),
        number(-0.0),
        date(0.0),
        text(""),
        Plist::Data(vec![]),
        Plist::Array(vec![]),
        Plist::Dictionary(vec![]),
    ]);
    let bytes = value.to_binary().unwrap();
    assert_eq!(trailer_of(&bytes).num_objects, 10);
    assert_eq!(BinaryReader::parse(&bytes).unwrap(), value);
}

#[test]
fn width_of_references_follows_the_object_count() {
    // the array and 254 members: 255 objects
    let small = Plist::Array((0..254).map(Plist::Integer).collect());
    let bytes = small.to_binary().unwrap();
    assert_eq!(trailer_of(&bytes).num_objects, 255);
    assert_eq!(trailer_of(&bytes).object_ref_size, 1);
    assert_eq!(BinaryReader::parse(&bytes).unwrap(), small);
    // the array and 255 members: 256 objects
    let large = Plist::Array((0..255).map(Plist::Integer).collect());
    let bytes = large.to_binary().unwrap();
    assert_eq!(trailer_of(&bytes).num_objects, 256);
    assert_eq!(trailer_of(&bytes).object_ref_size, 2);
    assert_eq!(BinaryReader::parse(&bytes).unwrap(), large);
}

#[test]
fn width_of_references_grows_to_four_bytes() {
    let huge = Plist::Array((0..70_000).map(Plist::Integer).collect());
    let bytes = huge.to_binary().unwrap();
    assert_eq!(trailer_of(&bytes).num_objects, 70_001);
    assert_eq!(trailer_of(&bytes).object_ref_size, 4);
    assert_eq!(trailer_of(&bytes).offset_table_offset_size, 4);
    assert_eq!(BinaryReader::parse(&bytes).unwrap(), huge);
}

#[test]
fn width_of_offsets_follows_the_greatest_offset() {
    // magic, then 247 bytes in one data object: the second object starts at 255
    let fits = Plist::Array(vec![Plist::Data(vec![1; 241]), Plist::Boolean(true)]);
    let bytes = fits.to_binary().unwrap();
    // array: 3 bytes at 8; data: marker, count record of 2, 241 bytes, at 11; true at 255
    assert_eq!(trailer_of(&bytes).offset_table_offset_size, 1);
    assert_eq!(bytes[trailer_of(&bytes).offset_table_start as usize + 2], 255);
    assert_eq!(BinaryReader::parse(&bytes).unwrap(), fits);
    let beyond = Plist::Array(vec![Plist::Data(vec![1; 242]), Plist::Boolean(true)]);
    let bytes = beyond.to_binary().unwrap();
    assert_eq!(trailer_of(&bytes).offset_table_offset_size, 2);
    let start = trailer_of(&bytes).offset_table_start as usize;
    assert_eq!(&bytes[start + 4..start + 6], &[1, 0]);
    assert_eq!(BinaryReader::parse(&bytes).unwrap(), beyond);
}

#[test]
fn float_precision_chooses_the_width() {
    let bytes = number(1.5).to_binary().unwrap();
    assert_eq!(&bytes[8..13], &[0x20, 0x3F, 0xC0, 0x00, 0x00]);
    assert_eq!(trailer_of(&bytes).offset_table_start, 13);
    assert_eq!(BinaryReader::parse(&bytes).unwrap(), number(1.5));
    let bytes = number(0.1).to_binary().unwrap();
    assert_eq!(bytes[8], 0x23);
    assert_eq!(&bytes[9..17], &0.1f64.to_be_bytes());
    assert_eq!(trailer_of(&bytes).offset_table_start, 17);
    assert_eq!(BinaryReader::parse(&bytes).unwrap(), number(0.1));
}

#[test]
fn date_epoch_is_all_zero_bits() {
    let instant = chrono::DateTime::parse_from_rfc3339("2001-01-01T00:00:00Z").unwrap();
    let value = Plist::Date(instant.timestamp(), instant.timestamp_subsec_nanos());
    let bytes = value.to_binary().unwrap();
    assert_eq!(&bytes[8..17], &[0x33, 0, 0, 0, 0, 0, 0, 0, 0]);
    let decoded = BinaryReader::parse(&bytes).unwrap();
    assert_eq!(decoded, value);
    let Plist::Date(secs, nanos) = decoded else { panic!("not a date") };
    assert_eq!((secs, nanos), (978_307_200, 0));
    assert_eq!(chrono::DateTime::from_timestamp(secs, nanos).unwrap(), instant);
}

#[test]
fn dictionary_pairing_keeps_the_order() {
    let value = Plist::Dictionary(vec![
        ("a".to_string(), Plist::Integer(1)),
        ("b".to_string(), Plist::Integer(2)),
    ]);
    let Plist::Dictionary(entries) = round_trip(&value) else { panic!("not a dictionary") };
    let keys: Vec<&str> = entries.iter().map(|(k, _)| k.as_str()).collect();
    assert_eq!(keys, vec!["a", "b"]);
    assert_eq!(entries[0].1, Plist::Integer(1));
    assert_eq!(entries[1].1, Plist::Integer(2));
    let reversed = Plist::Dictionary(vec![
        ("zebra".to_string(), Plist::Integer(1)),
        ("apple".to_string(), Plist::Integer(2)),
        ("mango".to_string(), Plist::Integer(3)),
    ]);
    assert_eq!(round_trip(&reversed), reversed);
}

#[test]
fn bounds_safety_on_truncated_buffers() {
    let value = Plist::Array(vec![text("one"), text("two"), Plist::Data(vec![3; 40])]);
    let bytes = value.to_binary().unwrap();
    for len in 0..bytes.len() {
        assert!(BinaryReader::parse(&bytes[..len]).is_err(), "prefix of {len} bytes");
    }
    // a trailer whose offset table lies beyond the end
    let mut broken = bytes.clone();
    let at = broken.len() - 8;
    broken[at..].copy_from_slice(&(bytes.len() as u64 + 100).to_be_bytes());
    assert_eq!(BinaryReader::parse(&broken), Err(Error::OutOfRange));
    let mut broken = bytes.clone();
    broken[at..].copy_from_slice(&u64::MAX.to_be_bytes());
    assert_eq!(BinaryReader::parse(&broken), Err(Error::OutOfRange));
    // more objects than the buffer could hold
    let mut broken = bytes.clone();
    let at = broken.len() - 24;
    broken[at..at + 8].copy_from_slice(&u64::MAX.to_be_bytes());
    assert_eq!(BinaryReader::parse(&broken), Err(Error::OutOfRange));
}

#[test]
fn bounds_safety_on_every_single_byte_change() {
    let value = Plist::Dictionary(vec![
        ("k".to_string(), Plist::Array(vec![Plist::Integer(300), number(0.1)])),
        ("when".to_string(), date(0.0)),
    ]);
    let bytes = value.to_binary().unwrap();
    for at in 0..bytes.len() {
        for change in [0x01u8, 0x0F, 0x10, 0x80, 0xFF] {
            let mut other = bytes.clone();
            other[at] ^= change;
            // whatever comes out, it comes out without a panic
            let _ = BinaryReader::parse(&other);
        }
    }
}

#[test]
fn reads_a_buffer_made_elsewhere() {
    // {"a": 1} as other writers lay it out
    let bytes = buffer(&[&[0xD1, 1, 2], &[0x51, b'a'], &[0x10, 1]], 1, 0);
    assert_eq!(
        BinaryReader::parse(&bytes).unwrap(),
        Plist::Dictionary(vec![("a".to_string(), Plist::Integer(1))])
    );
    // the root need not be the first object
    let bytes = buffer(&[&[0x09], &[0xA1, 0]], 1, 1);
    assert_eq!(BinaryReader::parse(&bytes).unwrap(), Plist::Array(vec![Plist::Boolean(true)]));
    // references of two bytes
    let bytes = buffer(&[&[0xA2, 0, 1, 0, 2], &[0x08], &[0x10, 9]], 2, 0);
    assert_eq!(
        BinaryReader::parse(&bytes).unwrap(),
        Plist::Array(vec![Plist::Boolean(false), Plist::Integer(9)])
    );
}

#[test]
fn reads_all_boolean_and_number_markers() {
    assert_eq!(BinaryReader::parse(&buffer(&[&[0x00]], 1, 0)), Ok(Plist::Boolean(false)));
    assert_eq!(BinaryReader::parse(&buffer(&[&[0x08]], 1, 0)), Ok(Plist::Boolean(false)));
    assert_eq!(BinaryReader::parse(&buffer(&[&[0x09]], 1, 0)), Ok(Plist::Boolean(true)));
    assert_eq!(BinaryReader::parse(&buffer(&[&[0x11, 1, 2]], 1, 0)), Ok(Plist::Integer(258)));
    assert_eq!(
        BinaryReader::parse(&buffer(&[&[0x12, 0, 1, 0, 0]], 1, 0)),
        Ok(Plist::Integer(65536))
    );
    // eight bytes are taken as they stand: the top bit makes the number negative
    assert_eq!(
        BinaryReader::parse(&buffer(&[&[0x13, 0xFF, 0xFF, 0xFF, 0xFF, 0xFF, 0xFF, 0xFF, 0xFF]], 1, 0)),
        Ok(Plist::Integer(-1))
    );
    // narrower numbers are never negative
    assert_eq!(BinaryReader::parse(&buffer(&[&[0x10, 0xFF]], 1, 0)), Ok(Plist::Integer(255)));
    // both markers of a single
    let single = 1.5f32.to_be_bytes();
    let object = [0x22, single[0], single[1], single[2], single[3]];
    assert_eq!(BinaryReader::parse(&buffer(&[&object], 1, 0)), Ok(number(1.5)));
    let object = [0x20, single[0], single[1], single[2], single[3]];
    assert_eq!(BinaryReader::parse(&buffer(&[&object], 1, 0)), Ok(number(1.5)));
}

#[test]
fn reads_wide_strings() {
    // "hé" and a pair of surrogates
    let object = [0x62, 0x00, b'h', 0x00, 0xE9];
    assert_eq!(BinaryReader::parse(&buffer(&[&object], 1, 0)), Ok(text("h\u{e9}")));
    let object = [0x62, 0xD8, 0x3D, 0xDE, 0x00];
    assert_eq!(BinaryReader::parse(&buffer(&[&object], 1, 0)), Ok(text("\u{1F600}")));
    // a lone surrogate is refused
    let object = [0x61, 0xD8, 0x3D];
    assert_eq!(BinaryReader::parse(&buffer(&[&object], 1, 0)), Err(Error::TextDecode));
}

#[test]
fn repairs_invalid_utf8() {
    let object = [0x53, b'a', 0xFF, b'b'];
    assert_eq!(BinaryReader::parse(&buffer(&[&object], 1, 0)), Ok(text("a\u{FFFD}b")));
}

#[test]
fn reads_a_count_record() {
    let mut object = vec![0x4F, 0x10, 20];
    object.extend([5u8; 20]);
    assert_eq!(BinaryReader::parse(&buffer(&[&object], 1, 0)), Ok(Plist::Data(vec![5; 20])));
    // a count in two bytes; only the low half of the record's marker counts
    let mut object = vec![0x4F, 0x01, 0, 20];
    object.extend([5u8; 20]);
    assert_eq!(BinaryReader::parse(&buffer(&[&object], 1, 0)), Ok(Plist::Data(vec![5; 20])));
    assert_eq!(BinaryReader::parse_count(&[0x11, 1, 0], 0, 15), Ok((256, 3)));
    assert_eq!(BinaryReader::parse_count(&[0x11, 1, 0], 0, 7), Ok((7, 0)));
    assert_eq!(BinaryReader::parse_count(&[0x14, 1, 0], 0, 15), Err(Error::MalformedObject));
    assert_eq!(BinaryReader::parse_count(&[0x11, 1], 0, 15), Err(Error::OutOfRange));
    assert_eq!(BinaryReader::parse_count(&[], 0, 15), Err(Error::OutOfRange));
}

#[test]
fn duplicate_keys_keep_the_first_place_and_the_last_value() {
    let bytes = buffer(&[&[0xD2, 1, 1, 2, 3], &[0x51, b'k'], &[0x10, 1], &[0x10, 2]], 1, 0);
    assert_eq!(
        BinaryReader::parse(&bytes).unwrap(),
        Plist::Dictionary(vec![("k".to_string(), Plist::Integer(2))])
    );
}

#[test]
fn every_decode_error_has_an_input() {
    assert_eq!(BinaryReader::parse(b""), Err(Error::InvalidHeader));
    assert_eq!(BinaryReader::parse(b"bplist01 and then some more bytes to fill it"), Err(Error::InvalidHeader));
    assert_eq!(BinaryReader::parse(b"<?xml version=\"1.0\"?><plist></plist>"), Err(Error::InvalidHeader));
    assert_eq!(BinaryReader::parse(b"bplist00"), Err(Error::MalformedTrailer));
    assert_eq!(BinaryReader::parse(b"bplist00 thirty-one bytes in all"), Err(Error::MalformedTrailer));
    // a width of three in the trailer
    let mut bytes = buffer(&[&[0x09]], 1, 0);
    let at = bytes.len() - 26;
    bytes[at] = 3;
    assert_eq!(BinaryReader::parse(&bytes), Err(Error::MalformedTrailer));
    let bytes = buffer(&[&[0x09]], 0, 0);
    assert_eq!(BinaryReader::parse(&bytes), Err(Error::MalformedTrailer));
    // the root beyond the table; a member beyond the table
    assert_eq!(BinaryReader::parse(&buffer(&[&[0x09]], 1, 1)), Err(Error::OutOfRange));
    assert_eq!(BinaryReader::parse(&buffer(&[&[0xA1, 5]], 1, 0)), Err(Error::OutOfRange));
    // an object that ends beyond the buffer
    let bytes = buffer(&[&[0x58, b'a']], 1, 0);
    assert_eq!(BinaryReader::parse(&bytes[..]).map(|_| ()), Ok(()));
    let mut bytes = buffer(&[&[0x11, 1, 2]], 1, 0);
    let at = bytes.len() - 33;
    bytes[at] = 200;
    assert_eq!(BinaryReader::parse(&bytes), Err(Error::OutOfRange));
    // tags that the format does not define
    for tag in [0x70u8, 0x80, 0x90, 0xB0, 0xC0, 0xE0, 0xF0] {
        assert_eq!(BinaryReader::parse(&buffer(&[&[tag]], 1, 0)), Err(Error::UnsupportedTag));
    }
    // markers whose low half is not allowed
    assert_eq!(BinaryReader::parse(&buffer(&[&[0x05]], 1, 0)), Err(Error::MalformedObject));
    assert_eq!(BinaryReader::parse(&buffer(&[&[0x14, 0, 0, 0, 0]], 1, 0)), Err(Error::MalformedObject));
    assert_eq!(BinaryReader::parse(&buffer(&[&[0x21, 0, 0, 0, 0]], 1, 0)), Err(Error::MalformedObject));
    assert_eq!(BinaryReader::parse(&buffer(&[&[0x4F, 0x17, 0]], 1, 0)), Err(Error::MalformedObject));
    // a key that is no string
    let bytes = buffer(&[&[0xD1, 1, 1], &[0x10, 1]], 1, 0);
    assert_eq!(BinaryReader::parse(&bytes), Err(Error::StructuralMismatch));
    // an array that holds itself
    assert_eq!(BinaryReader::parse(&buffer(&[&[0xA1, 0]], 1, 0)), Err(Error::CyclicReference));
    let bytes = buffer(&[&[0xA1, 1], &[0xA1, 0]], 1, 0);
    assert_eq!(BinaryReader::parse(&bytes), Err(Error::CyclicReference));
}

#[test]
fn a_date_must_be_an_instant() {
    let mut object = vec![0x33];
    object.extend(f64::NAN.to_be_bytes());
    assert_eq!(BinaryReader::parse(&buffer(&[&object], 1, 0)), Err(Error::InvalidDate));
    let mut object = vec![0x33];
    object.extend(f64::NEG_INFINITY.to_be_bytes());
    assert_eq!(BinaryReader::parse(&buffer(&[&object], 1, 0)), Err(Error::InvalidDate));
    // finite, within 64 bits of seconds, and beyond every calendar
    let mut object = vec![0x33];
    object.extend(1e18f64.to_be_bytes());
    assert_eq!(BinaryReader::parse(&buffer(&[&object], 1, 0)), Err(Error::InvalidDate));
    let mut object = vec![0x33];
    object.extend(1e300f64.to_be_bytes());
    assert_eq!(BinaryReader::parse(&buffer(&[&object], 1, 0)), Err(Error::InvalidDate));
    let mut object = vec![0x33];
    object.extend((-63_113_904_000.0f64).to_be_bytes());
    assert_eq!(
        BinaryReader::parse(&buffer(&[&object], 1, 0)),
        Ok(Plist::Date(978_307_200 - 63_113_904_000, 0))
    );
}

#[test]
fn negative_integer_is_refused() {
    let value = Plist::Array(vec![Plist::Integer(3), Plist::Integer(-1)]);
    assert_eq!(value.to_binary(), Err(Error::UnsupportedValue));
    assert_eq!(BinaryWriter::new().write(&Plist::Integer(-5)), Err(Error::UnsupportedValue));
    let nested = Plist::Dictionary(vec![(
        "deep".to_string(),
        Plist::Array(vec![Plist::Dictionary(vec![("n".to_string(), Plist::Integer(i64::MIN))])]),
    )]);
    assert_eq!(nested.to_binary(), Err(Error::UnsupportedValue));
    assert!(!plist::stream::binary_writer::check_encodable(&nested));
    assert!(plist::stream::binary_writer::check_encodable(&Plist::Integer(0)));
}

#[test]
fn pieces_of_the_writer() {
    let mut writer = BinaryWriter::new();
    assert_eq!((writer.objects, writer.ref_size, writer.offset_size), (0, 1, 1));
    assert_eq!(writer.serialize_ref(0x1234), vec![0x34]);
    assert_eq!(writer.serialize_length(0xA, 3), (0xA3, vec![]));
    assert_eq!(writer.serialize_length(0x5, 14), (0x5E, vec![]));
    assert_eq!(writer.serialize_length(0x5, 15), (0x5F, vec![0x10, 15]));
    assert_eq!(writer.serialize_length(0x4, 256), (0x4F, vec![0x11, 1, 0]));
    assert_eq!(writer.serialize_count(255), vec![0x10, 255]);
    assert_eq!(writer.serialize_count(65536), vec![0x12, 0, 1, 0, 0]);
    assert_eq!(writer.serialize_count(0x1_0000_0000), vec![0x13, 0, 0, 0, 1, 0, 0, 0, 0]);
    assert_eq!(writer.serialize_data(0x4, &vec![0; 3]), (0x43, vec![]));
    assert_eq!(writer.serialize_data(0x4, &vec![0; 20]), (0x4F, vec![0x10, 20]));
    assert_eq!(writer.serialize_integer(0x1, 0), (0x10, vec![0]));
    assert_eq!(writer.serialize_integer(0x1, 255), (0x10, vec![255]));
    assert_eq!(writer.serialize_integer(0x1, 256), (0x11, vec![1, 0]));
    assert_eq!(writer.serialize_integer(0x1, 65536), (0x12, vec![0, 1, 0, 0]));
    assert_eq!(
        writer.serialize_integer(0x1, i64::MAX),
        (0x13, vec![0x7F, 0xFF, 0xFF, 0xFF, 0xFF, 0xFF, 0xFF, 0xFF])
    );
    assert_eq!(writer.serialize_float(0x2, 1.5f64.to_bits()), (0x20, 1.5f32.to_be_bytes().to_vec()));
    assert_eq!(writer.serialize_float(0x2, 0.1f64.to_bits()), (0x23, 0.1f64.to_be_bytes().to_vec()));
    assert_eq!(writer.serialize_date(0x3, 978_307_202, 0), (0x33, 2.0f64.to_be_bytes().to_vec()));
    assert_eq!(
        writer.serialize_date(0x3, 978_307_199, 500_000_000),
        (0x33, (-0.5f64).to_be_bytes().to_vec())
    );
    writer.objects = 256;
    writer.offsets = vec![8, 300];
    writer.calculate_sizes();
    assert_eq!((writer.ref_size, writer.offset_size), (2, 2));
    // the greatest offset decides, wherever it stands
    writer.offsets = vec![300, 5];
    writer.calculate_sizes();
    assert_eq!(writer.offset_size, 2);
    writer.offsets = vec![5, 0x1_0000, 7];
    writer.calculate_sizes();
    assert_eq!(writer.offset_size, 4);
    writer.offsets = vec![8, 300];
    writer.calculate_sizes();
    assert_eq!(writer.serialize_ref(0x1234), vec![0x12, 0x34]);
    assert_eq!(writer.generate_offset_table(), Ok(vec![0, 8, 1, 44]));
    let trailer = writer.generate_trailer(0, 2, 310).unwrap();
    let mut expected = vec![0, 0, 0, 0, 0, 0, 2, 2];
    expected.extend(2u64.to_be_bytes());
    expected.extend(0u64.to_be_bytes());
    expected.extend(310u64.to_be_bytes());
    assert_eq!(trailer, expected);
    writer.offset_size = 3;
    assert_eq!(writer.generate_offset_table(), Err(Error::MalformedTrailer));
    writer.offsets = vec![];
    assert_eq!(writer.generate_offset_table(), Ok(vec![]));
    writer.objects = 0x1_0000_0000;
    writer.calculate_sizes();
    assert_eq!((writer.ref_size, writer.offset_size), (8, 1));
}

#[test]
fn collecting_gives_indices_in_order_of_first_meeting() {
    let value = Plist::Array(vec![text("a"), text("b"), text("a")]);
    let mut writer = BinaryWriter::new();
    let mut memo: Vec<Seen> = vec![];
    let mut links: Vec<Vec<u64>> = vec![];
    assert_eq!(writer.collect_objects(&value, &mut memo, &mut links), 0);
    assert_eq!(writer.objects, 3);
    assert_eq!(links, vec![vec![1, 2, 1], vec![], vec![]]);
    // what is listed is found again, and nothing is added
    let again = text("b");
    assert_eq!(writer.collect_objects(&again, &mut memo, &mut links), 2);
    let key = "a".to_string();
    assert_eq!(writer.collect_key(&key, &mut memo, &mut links), 1);
    assert_eq!(memo.len(), 3);
    assert_eq!(writer.serialize_object(&memo[0], &links[0]), vec![0xA3, 1, 2, 1]);
    assert_eq!(writer.serialize_object(&memo[1], &links[1]), vec![0x51, b'a']);
}

#[test]
fn pieces_of_the_reader() {
    assert_eq!(BinaryReader::parse_bplist_header(b"bplist00"), Ok(()));
    assert_eq!(BinaryReader::parse_bplist_header(b"bplist0"), Err(Error::InvalidHeader));
    assert_eq!(BinaryReader::parse_header(&[0xA7], 0), Ok((0xA, 7)));
    assert_eq!(BinaryReader::parse_header(&[0xA7], 1), Err(Error::OutOfRange));
    assert_eq!(BinaryReader::parse_bool(9), Ok(Plist::Boolean(true)));
    assert_eq!(BinaryReader::parse_bool(1), Err(Error::MalformedObject));
    assert_eq!(BinaryReader::parse_integer(&[9, 1, 0], 1, 1), Ok(Plist::Integer(256)));
    assert_eq!(BinaryReader::parse_integer(&[9, 1, 0], 2, 1), Err(Error::OutOfRange));
    assert_eq!(BinaryReader::parse_integer(&[9, 1, 0], usize::MAX, 0), Err(Error::OutOfRange));
    assert_eq!(BinaryReader::parse_float(&0.1f64.to_be_bytes(), 0, 3), Ok(number(0.1)));
    assert_eq!(BinaryReader::parse_float(&0.1f64.to_be_bytes(), 1, 3), Err(Error::OutOfRange));
    assert_eq!(BinaryReader::parse_date(&1.0f64.to_be_bytes(), 0), Ok(date(1.0)));
    assert_eq!(BinaryReader::parse_data(&[1, 2, 3], 1, 2), Ok(Plist::Data(vec![2, 3])));
    assert_eq!(BinaryReader::parse_data(&[1, 2, 3], 1, 3), Err(Error::OutOfRange));
    assert_eq!(BinaryReader::parse_string(b"xhello", 1, 5), Ok(text("hello")));
    assert_eq!(BinaryReader::parse_ascii_string(&[0, b'o', 0, b'k'], 0, 2), Ok(text("ok")));
    assert_eq!(BinaryReader::parse_ascii_string(&[0, b'o', 0, b'k'], 0, 3), Err(Error::OutOfRange));
    assert_eq!(BinaryReader::parse_offset_table(&[0, 8, 0, 9], 0, 2, 2), Ok(vec![8, 9]));
    assert_eq!(BinaryReader::parse_offset_table(&[0, 8, 0, 9], 2, 2, 2), Err(Error::OutOfRange));
    assert_eq!(BinaryReader::parse_offset_table(&[0, 8, 0, 9], 9, 0, 1), Err(Error::OutOfRange));
    assert_eq!(BinaryReader::parse_offset_table(&[0, 8, 0, 9], 0, u64::MAX, 8), Err(Error::OutOfRange));
    // a width that is none of 1, 2, 4 and 8
    assert_eq!(BinaryReader::parse_offset_table(&[0x08], 0, 1, 3), Err(Error::MalformedTrailer));
    assert_eq!(BinaryReader::parse_offset_table(&[0x08], 0, 0, 0), Err(Error::MalformedTrailer));
    assert_eq!(BinaryReader::parse_offset_table(&[0x08], 9, 1, 16), Err(Error::MalformedTrailer));
    let odd = Trailer {
        offset_table_offset_size: 1,
        object_ref_size: 3,
        num_objects: 2,
        top_object_offset: 0,
        offset_table_start: 3,
    };
    assert_eq!(
        BinaryReader::parse_object(&[0xA1, 1, 0x09], 0, &vec![0, 2], &odd, 2),
        Err(Error::MalformedTrailer)
    );
    assert_eq!(
        BinaryReader::parse_array(&[0xA1, 1, 0x09], 1, 1, &odd, &vec![0, 2], 1),
        Err(Error::MalformedTrailer)
    );
    assert_eq!(
        BinaryReader::parse_dict(&[0xD0], 1, 0, &odd, &vec![0], 1),
        Err(Error::MalformedTrailer)
    );
    assert_eq!(BinaryReader::parse_object(&[0x09], 0, &vec![0], &odd, 1), Ok(Plist::Boolean(true)));
    let trailer = trailer_of(&buffer(&[&[0xA1, 1], &[0x09]], 1, 0));
    assert_eq!(trailer.offset_table_start, 11);
    let data = [0xA1, 1, 0x09];
    let offsets = vec![0, 2];
    assert_eq!(
        BinaryReader::parse_object(&data, 0, &offsets, &trailer, 2),
        Ok(Plist::Array(vec![Plist::Boolean(true)]))
    );
    assert_eq!(
        BinaryReader::parse_object(&data, 0, &offsets, &trailer, 1),
        Err(Error::CyclicReference)
    );
    assert_eq!(BinaryReader::parse_object(&data, 0, &offsets, &trailer, 0), Err(Error::CyclicReference));
    assert_eq!(BinaryReader::parse_object(&data, 2, &offsets, &trailer, 5), Err(Error::OutOfRange));
    assert_eq!(
        BinaryReader::parse_array(&data, 1, 1, &trailer, &offsets, 1),
        Ok(Plist::Array(vec![Plist::Boolean(true)]))
    );
    assert_eq!(
        BinaryReader::parse_dict(&data, 1, 0, &trailer, &offsets, 1),
        Ok(Plist::Dictionary(vec![]))
    );
}

#[test]
fn the_second_writer_writes_what_the_first_writes() {
    let value = Plist::Dictionary(vec![
        ("name".to_string(), text("plain")),
        ("list".to_string(), Plist::Array(vec![Plist::Integer(1), Plist::Boolean(false)])),
        ("ratio".to_string(), number(1.5)),
        ("when".to_string(), date(0.0)),
        ("blob".to_string(), Plist::Data(vec![1, 2, 3])),
    ]);
    let bytes = BPlistWrite::new().write(&value).unwrap();
    assert_eq!(bytes, value.to_binary().unwrap());
    assert_eq!(BinaryReader::parse(&bytes).unwrap(), value);
    assert_eq!(
        BPlistWrite::new().write(&Plist::Array(vec![text("x"), Plist::Integer(-1)])),
        Err(Error::UnsupportedValue)
    );
    let writer = BPlistWrite::new();
    assert_eq!(writer.serialize_ref(7), vec![7]);
    assert_eq!(writer.serialize_length(0xD, 2), (0xD2, vec![]));
    assert_eq!(writer.serialize_count(300), vec![0x11, 1, 44]);
    assert_eq!(writer.serialize_integer(1, 70_000), (0x12, vec![0, 1, 0x11, 0x70]));
    assert_eq!(writer.generate_offset_table(), Ok(vec![]));
    assert_eq!(writer.generate_trailer(0, 1, 9).unwrap().len(), 32);
    assert_eq!(BPlistWrite::parse_header(&[0x5F]), Ok((5, 15)));
    assert_eq!(BPlistWrite::parse_header(&[]), Err(Error::OutOfRange));
    // a real number is encoded like any other value
    let node = number(1.5);
    assert_eq!(
        writer.serialize_object(&Seen::Node(&node), &vec![]),
        Ok(vec![0x20, 0x3F, 0xC0, 0x00, 0x00])
    );
    let node = date(0.0);
    assert_eq!(
        writer.serialize_object(&Seen::Node(&node), &vec![]),
        Ok(vec![0x33, 0, 0, 0, 0, 0, 0, 0, 0])
    );
    let node = Plist::Data(vec![7, 8]);
    assert_eq!(writer.serialize_object(&Seen::Node(&node), &vec![]), Ok(vec![0x42, 7, 8]));
    let node = Plist::Boolean(true);
    assert_eq!(writer.serialize_object(&Seen::Node(&node), &vec![]), Ok(vec![0x09]));
    let mut writer = BPlistWrite::new();
    let mut memo: Vec<Seen> = vec![];
    let mut links: Vec<Vec<u64>> = vec![];
    assert_eq!(writer.collect_objects(&value, &mut memo, &mut links), 0);
    writer.calculate_sizes();
    assert_eq!(writer.writer.objects, 13);
    assert_eq!(writer.writer.ref_size, 1);
    // the offset width follows the greatest offset, wherever it stands
    writer.writer.offsets = vec![300, 5];
    writer.calculate_sizes();
    assert_eq!(writer.writer.offset_size, 2);
}

#[test]
fn a_date_keeps_its_instant_through_the_binary_form() {
    // whole seconds and fractions that a double holds come back as they were
    for (secs, nanos) in [
        (978_307_200, 0),
        (0, 0),
        (-1, 0),
        (1_723_861_490, 0),
        (1_723_861_490, 500_000_000),
        (1_723_861_490, 250_000_000),
        (978_307_199, 750_000_000),
        (-62_135_596_800, 0),
        (253_402_300_799, 0),
    ] {
        let value = Plist::Date(secs, nanos);
        assert_eq!(round_trip(&value), value, "{secs} {nanos}");
    }
    // nanoseconds that a double does not hold come back to within the
    // double's resolution, and from then on as they are
    let value = Plist::Date(1_723_861_490, 123_456_789);
    let Plist::Date(secs, nanos) = round_trip(&value) else { panic!("not a date") };
    assert_eq!(secs, 1_723_861_490);
    assert!((nanos as i64 - 123_456_789).abs() < 200, "{nanos}");
    let once = Plist::Date(secs, nanos);
    assert_eq!(round_trip(&once).to_binary(), once.to_binary());
}

#[test]
fn dates_with_the_same_double_share_an_object() {
    // two instants less than a double's resolution apart
    let first = Plist::Date(1_723_861_490, 123_456_789);
    let second = Plist::Date(1_723_861_490, 123_456_790);
    assert_eq!(
        plist::date::date_from_timestamp(1_723_861_490, 123_456_789),
        plist::date::date_from_timestamp(1_723_861_490, 123_456_790)
    );
    let bytes = Plist::Array(vec![first, second]).to_binary().unwrap();
    assert_eq!(trailer_of(&bytes).num_objects, 2);
    assert_eq!(&bytes[8..11], &[0xA2, 1, 1]);
    // and instants that differ in their doubles do not
    let bytes = Plist::Array(vec![date(1.0), date(1.5)]).to_binary().unwrap();
    assert_eq!(trailer_of(&bytes).num_objects, 3);
    assert!(plist::stream::binary_writer::same_coded(
        &Plist::Date(1_723_861_490, 123_456_789),
        &Plist::Date(1_723_861_490, 123_456_790)
    ));
    assert!(!plist::stream::binary_writer::same_coded(&date(1.0), &date(1.5)));
}
