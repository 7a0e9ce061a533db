use plist::plist::Plist;
use plist::stream::binary_reader::BinaryReader;
use plist::stream::xml_reader::XmlReader;
use plist::stream::xml_writer::XmlWriter;

/// A simple generator of numbers, the same on every run.
struct Numbers(u64);

impl Numbers {
    fn next(&mut self) -> u64 {
        self.0 ^= self.0 << 13;
        self.0 ^= self.0 >> 7;
        self.0 ^= self.0 << 17;
        self.0
    }

    fn below(&mut self, n: u64) -> u64 {
        self.next() % n
    }

    fn word(&mut self) -> String {
        let letters = ["a", "b", "k", "key", "\u{e9}", "\u{1F600}", "name", " ", "x"];
        let mut word = String::new();
        for _ in 0..self.below(4) {
            word.push_str(letters[self.below(letters.len() as u64) as usize]);
        }
        word
    }

    /// A well-formed value without negative integers.
    fn tree(&mut self, depth: u32) -> Plist {
        let kinds = if depth == 0 { 6 } else { 8 };
        match self.below(kinds) {
            0 => Plist::Boolean(self.below(2) == 1),
            1 => Plist::Integer((self.next() >> self.below(64)) as i64 & i64::MAX),
            2 => {
                let choices = [0.0, -0.0, 1.5, 0.1, 1e-40, 3.4e38, 1e300, f64::INFINITY];
                Plist::Float(choices[self.below(8) as usize].to_bits())
            }
            3 => Plist::String(self.word()),
            4 => Plist::Date(
                self.below(4_000_000_000) as i64 - 2_000_000_000,
                self.below(4) as u32 * 250_000_000,
            ),
            5 => Plist::Data((0..self.below(40)).map(|_| self.next() as u8).collect()),
            6 => Plist::Array((0..self.below(5)).map(|_| self.tree(depth - 1)).collect()),
            _ => {
                let mut dict = Plist::Dictionary(vec![]);
                for _ in 0..self.below(5) {
                    let key = self.word();
                    let value = self.tree(depth - 1);
                    dict.insert(&key, value).unwrap();
                }
                dict
            }
        }
    }
}

#[test]
fn round_trip_of_many_trees() {
    let mut numbers = Numbers(0x2545_F491_4F6C_DD1D);
    for _ in 0..3000 {
        let value = numbers.tree(4);
        assert!(value.is_well_formed());
        let bytes = value.to_binary().unwrap();
        let decoded = BinaryReader::parse(&bytes).unwrap();
        assert_eq!(decoded, value);
        assert!(decoded.is_well_formed());
        // and once more, byte for byte
        assert_eq!(decoded.to_binary().unwrap(), bytes);
    }
}

#[test]
fn decoding_of_damaged_buffers_ends_without_a_panic() {
    let mut numbers = Numbers(0x9E37_79B9_7F4A_7C15);
    for _ in 0..300 {
        let value = numbers.tree(3);
        let bytes = value.to_binary().unwrap();
        for _ in 0..40 {
            let mut damaged = bytes.clone();
            for _ in 0..1 + numbers.below(3) {
                let at = numbers.below(damaged.len() as u64) as usize;
                damaged[at] = numbers.next() as u8;
            }
            if let Ok(decoded) = BinaryReader::parse(&damaged) {
                assert!(decoded.is_well_formed());
            }
            let cut = numbers.below(damaged.len() as u64 + 1) as usize;
            let _ = BinaryReader::parse(&damaged[..cut]);
        }
    }
    for _ in 0..2000 {
        let mut noise: Vec<u8> = b"bplist00".to_vec();
        noise.extend((0..numbers.below(80)).map(|_| numbers.next() as u8));
        let _ = BinaryReader::parse(&noise);
    }
}

#[test]
fn markup_of_many_trees_is_read_again() {
    let mut numbers = Numbers(0xD6E8_FEB8_6659_FD93);
    for _ in 0..1000 {
        let mut dict = Plist::Dictionary(vec![]);
        for _ in 0..numbers.below(4) {
            let key = numbers.word().replace('<', "");
            let value = numbers.tree(3);
            dict.insert(&key, value).unwrap();
        }
        let texts: Vec<String> =
            dict.reals().iter().map(|bits| format!("{}", f64::from_bits(*bits))).collect();
        let xml = dict.to_xml(&texts);
        // dates are written as chrono shows them, which is not how they
        // are read; data is written as text, which may hold any byte
        let read = XmlReader::parse(xml.as_bytes(), &dict.reals());
        if !xml.contains("<date>") && !xml.contains("<data>") {
            assert_eq!(XmlReader::real_texts(xml.as_bytes()).unwrap(), texts);
            assert_eq!(read, Ok(dict.clone()));
        }
        let _ = dict.convert_xml(numbers.below(3) as usize, &texts);
    }
}

#[test]
fn reading_of_damaged_markup_ends_without_a_panic() {
    let mut numbers = Numbers(0xA5A5_5A5A_1234_5678);
    let pieces = [
        "<plist>", "</plist>", "<dict>", "</dict>", "<dict/>", "<key>", "</key>", "<array>",
        "</array>", "<array/>", "<string>", "</string>", "<string/>", "<integer>", "</integer>",
        "<real>", "</real>", "<date>", "</date>", "<data>", "</data>", "<data/>", "<true/>",
        "<false/>", "<true", "<", ">", "/", " ", "\n", "k", "1", "-", "+", "2001-01-01T00:00:00Z",
        "9999999999999999999", "\u{e9}",
    ];
    for _ in 0..20_000 {
        let mut input = String::new();
        for _ in 0..numbers.below(14) {
            input.push_str(pieces[numbers.below(pieces.len() as u64) as usize]);
        }
        if let Ok(texts) = XmlReader::real_texts(input.as_bytes()) {
            let reals = vec![0u64; texts.len()];
            let value = XmlReader::parse(input.as_bytes(), &reals).unwrap();
            assert!(value.is_well_formed());
            assert_eq!(value.reals().len(), texts.len());
        }
        let mut bytes = input.into_bytes();
        if !bytes.is_empty() {
            let at = numbers.below(bytes.len() as u64) as usize;
            bytes[at] = numbers.next() as u8;
        }
        let _ = XmlReader::parse(&bytes, &vec![]);
    }
}
