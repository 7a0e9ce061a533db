//! Writing the markup form.
//!
//! Every value is written on lines of its own, indented by one tab for
//! each container around it. Text is written as it stands.
//!
//! Real numbers are written in decimal, and turning a double into
//! decimal text takes floating point. So the writer takes the texts of the
//! real numbers of a value, in the order in which it writes them.
use vstd::prelude::*;
use vstd::slice::slice_to_vec;
use vstd::string::StringSliceAdditionalSpecFns;
use vstd::utf8::encode_utf8;
use crate::date::{instant_text, representable, text_of_timestamp, timestamp_exists};
use crate::plist::{entries_view, items_view, lemma_entries_view, lemma_items_view, Plist, Value};
use crate::stream::xml_reader::{left, lemma_left_twice, rest_of, texts};
use crate::text::{string_from_utf8_lossy, utf8_text};

verus! {

/// What was written: the bytes, and how many of the given texts were used.
pub struct Written {
    pub bytes: Seq<u8>,
    pub used: nat,
}

/// `indent` tabs.
pub open spec fn tabs(indent: nat) -> Seq<u8> {
    Seq::new(indent, |i: int| '\t' as u8)
}

/// The bytes of a text.
pub open spec fn lit(text: Seq<char>) -> Seq<u8> {
    encode_utf8(text)
}

/// The decimal digits of `n`.
pub open spec fn digits(n: nat) -> Seq<u8>
    decreases n,
{
    if n < 10 {
        seq![('0' as u8 + n) as u8]
    } else {
        digits(n / 10).push(('0' as u8 + n % 10) as u8)
    }
}

/// An integer in decimal, with a minus sign in front of a negative one.
pub open spec fn decimal_text(n: int) -> Seq<u8> {
    if n < 0 {
        seq!['-' as u8] + digits((-n) as nat)
    } else {
        digits(n as nat)
    }
}

/// The text of a date: its instant as `chrono` shows it; nothing for a
/// timestamp that chrono has no instant for.
pub open spec fn date_text(secs: i64, nanos: u32) -> Seq<u8> {
    if representable(secs as int, nanos as int) {
        encode_utf8(instant_text(secs as int, nanos as int))
    } else {
        Seq::empty()
    }
}

/// The first of the given texts; nothing where none is given.
pub open spec fn first_text(given: Seq<Seq<char>>) -> Seq<u8> {
    if given.len() > 0 {
        encode_utf8(given[0])
    } else {
        Seq::empty()
    }
}

/// The lines of a value, each after the indentation `prefix`, and one
/// tab deeper for each container around it. `given` are the texts of the
/// real numbers of the value.
pub open spec fn value_lines(v: Value, prefix: Seq<u8>, given: Seq<Seq<char>>) -> Written
    decreases v, 0nat,
{
    match v {
        Value::Array(items) => {
            let inner = items_lines(items, items.len(), prefix.push('\t' as u8), given);
            Written {
                bytes: prefix + lit("<array>\n"@) + inner.bytes + prefix + lit("</array>\n"@),
                used: inner.used,
            }
        },
        Value::Dictionary(entries) => {
            let inner = entries_lines(entries, entries.len(), prefix, given);
            Written {
                bytes: prefix + lit("<dict>\n"@) + inner.bytes + prefix + lit("</dict>\n"@),
                used: inner.used,
            }
        },
        Value::Boolean(b) => Written {
            bytes: prefix + (if b {
                lit("<true/>\n"@)
            } else {
                lit("<false/>\n"@)
            }),
            used: 0,
        },
        Value::Integer(n) => Written {
            bytes: prefix + lit("<integer>"@) + decimal_text(n as int) + lit("</integer>\n"@),
            used: 0,
        },
        Value::Float(_) => Written {
            bytes: prefix + lit("<real>"@) + first_text(given) + lit("</real>\n"@),
            used: 1,
        },
        Value::String(text) => Written {
            bytes: prefix + lit("<string>"@) + encode_utf8(text) + lit("</string>\n"@),
            used: 0,
        },
        Value::Date(secs, nanos) => Written {
            bytes: prefix + lit("<date>"@) + date_text(secs, nanos) + lit("</date>\n"@),
            used: 0,
        },
        Value::Data(bytes) => Written {
            bytes: prefix + lit("<data>"@) + encode_utf8(utf8_text(bytes)) + lit("</data>\n"@),
            used: 0,
        },
    }
}

/// The lines of the first `n` of `items`.
pub open spec fn items_lines(
    items: Seq<Value>,
    n: nat,
    prefix: Seq<u8>,
    given: Seq<Seq<char>>,
) -> Written
    decreases items, n,
{
    if n == 0 || n > items.len() {
        Written { bytes: Seq::empty(), used: 0 }
    } else {
        let front = items_lines(items, (n - 1) as nat, prefix, given);
        let last = value_lines(items[n - 1], prefix, left(given, front.used));
        Written { bytes: front.bytes + last.bytes, used: front.used + last.used }
    }
}

/// The lines of the first `n` of `entries`, which stand in a dictionary
/// that is indented by `prefix`: for each a line with its key, one tab
/// deeper, and the lines of its value.
pub open spec fn entries_lines(
    entries: Seq<(Seq<char>, Value)>,
    n: nat,
    prefix: Seq<u8>,
    given: Seq<Seq<char>>,
) -> Written
    decreases entries, n,
{
    if n == 0 || n > entries.len() {
        Written { bytes: Seq::empty(), used: 0 }
    } else {
        let front = entries_lines(entries, (n - 1) as nat, prefix, given);
        let last = value_lines(
            entries[n - 1].1,
            prefix.push('\t' as u8),
            left(given, front.used),
        );
        Written {
            bytes: front.bytes + lit("\t"@) + prefix + lit("<key>"@) + encode_utf8(
                entries[n - 1].0,
            ) + lit("</key>\n"@) + last.bytes,
            used: front.used + last.used,
        }
    }
}

/// The bits of the real numbers of a value, in the order in which they
/// are written.
pub open spec fn reals_of(v: Value) -> Seq<u64>
    decreases v, 0nat,
{
    match v {
        Value::Array(items) => reals_of_items(items, items.len()),
        Value::Dictionary(entries) => reals_of_entries(entries, entries.len()),
        Value::Float(bits) => seq![bits],
        _ => Seq::empty(),
    }
}

pub open spec fn reals_of_items(items: Seq<Value>, n: nat) -> Seq<u64>
    decreases items, n,
{
    if n == 0 || n > items.len() {
        Seq::empty()
    } else {
        reals_of_items(items, (n - 1) as nat) + reals_of(items[n - 1])
    }
}

pub open spec fn reals_of_entries(entries: Seq<(Seq<char>, Value)>, n: nat) -> Seq<u64>
    decreases entries, n,
{
    if n == 0 || n > entries.len() {
        Seq::empty()
    } else {
        reals_of_entries(entries, (n - 1) as nat) + reals_of(entries[n - 1].1)
    }
}

/// The head of a document.
pub open spec fn prologue() -> Seq<char> {
    "<?xml version=\"1.0\" encoding=\"UTF-8\"?>\n<!DOCTYPE plist PUBLIC \"-//Apple//DTD PLIST 1.0//EN\" \"http://www.apple.com/DTDs/PropertyList-1.0.dtd\">\n<plist version=\"1.0\">\n"@
}

/// A whole document: the head, the lines of the value, and `</plist>`.
pub open spec fn document_text(v: Value, given: Seq<Seq<char>>) -> Seq<u8> {
    lit(prologue()) + value_lines(v, Seq::empty(), given).bytes + lit("</plist>"@)
}

/// What is left of texts is the texts of what is left.
pub proof fn lemma_texts_left(given: Seq<String>, n: nat)
    ensures
        texts(left(given, n)) == left(texts(given), n),
{
    assert(texts(left(given, n)) =~= left(texts(given), n));
}

/// Appends the bytes of `text`.
pub fn push_text(out: &mut Vec<u8>, text: &str)
    ensures
        final(out)@ == old(out)@ + encode_utf8(text@),
{
    out.extend_from_slice(text.as_bytes());
}

/// Appends the decimal digits of `n`.
pub fn push_digits(out: &mut Vec<u8>, n: u64)
    ensures
        final(out)@ == old(out)@ + digits(n as nat),
    decreases n,
{
    if n >= 10 {
        push_digits(out, n / 10);
    }
    let ghost before = out@;
    out.push('0' as u8 + (n % 10) as u8);
    proof {
        if n >= 10 {
            assert(out@ =~= old(out)@ + digits((n / 10) as nat).push(
                ('0' as u8 + n % 10) as u8,
            ));
        } else {
            assert(out@ =~= old(out)@ + seq![('0' as u8 + n) as u8]);
        }
    }
}

/// Appends `n` in decimal.
pub fn push_decimal(out: &mut Vec<u8>, n: i64)
    ensures
        final(out)@ == old(out)@ + decimal_text(n as int),
{
    if n < 0 {
        out.push('-' as u8);
        let size: u64 = if n == i64::MIN {
            0x8000_0000_0000_0000
        } else {
            (-n) as u64
        };
        push_digits(out, size);
        assert(out@ =~= old(out)@ + (seq!['-' as u8] + digits((-n) as nat)));
    } else {
        push_digits(out, n as u64);
    }
}

/// Appends one line: the indentation, an opening tag, what stands
/// between the tags, and a closing tag with the end of the line.
pub fn push_line(out: &mut Vec<u8>, prefix: &Vec<u8>, open: &str, body: &[u8], close: &str)
    ensures
        final(out)@ == old(out)@ + (prefix@ + lit(open@) + body@ + lit(close@)),
{
    out.extend_from_slice(prefix.as_slice());
    push_text(out, open);
    out.extend_from_slice(body);
    push_text(out, close);
    assert(out@ =~= old(out)@ + (prefix@ + lit(open@) + body@ + lit(close@)));
}

/// The indentation one level below `prefix`.
pub fn one_deeper(prefix: &Vec<u8>) -> (deeper: Vec<u8>)
    ensures
        deeper@ == prefix@.push('\t' as u8),
{
    let mut deeper = slice_to_vec(prefix.as_slice());
    deeper.push('\t' as u8);
    deeper
}

/// Appends the lines of `value`, indented by `prefix`, and gives back
/// the texts that it did not use.
pub fn write_value<'a>(
    value: &Plist,
    prefix: &Vec<u8>,
    given: &'a [String],
    out: &mut Vec<u8>,
) -> (rest: &'a [String])
    ensures
        final(out)@ == old(out)@ + value_lines(value@, prefix@, texts(given@)).bytes,
        rest@ == left(given@, value_lines(value@, prefix@, texts(given@)).used),
    decreases value, 0nat,
{
    let ghost indent = prefix@;
    let ghost start = out@;
    let none: Vec<u8> = Vec::new();
    proof {
        assert(left(given@, 0) =~= given@);
    }
    match value {
        Plist::Array(items) => {
            proof {
                lemma_items_view(items@);
            }
            let ghost inner = items_lines(
                items_view(items@),
                items@.len(),
                indent.push('\t' as u8),
                texts(given@),
            );
            push_line(out, prefix, "<array>\n", none.as_slice(), "");
            let ghost head = out@;
            let deeper = one_deeper(prefix);
            let rest = write_items(items, &deeper, given, out);
            push_line(out, prefix, "</array>\n", none.as_slice(), "");
            proof {
                lemma_empty_text();
                assert(head =~= start + (indent + lit("<array>\n"@)));
                assert(out@ =~= start + (indent + lit("<array>\n"@) + inner.bytes + indent + lit(
                    "</array>\n"@,
                )));
            }
            rest
        },
        Plist::Dictionary(entries) => {
            proof {
                lemma_entries_view(entries@);
            }
            let ghost inner = entries_lines(entries_view(entries@), entries@.len(), indent, texts(given@));
            push_line(out, prefix, "<dict>\n", none.as_slice(), "");
            let ghost head = out@;
            let deeper = one_deeper(prefix);
            let rest = write_entries(entries, prefix, &deeper, given, out);
            push_line(out, prefix, "</dict>\n", none.as_slice(), "");
            proof {
                lemma_empty_text();
                assert(head =~= start + (indent + lit("<dict>\n"@)));
                assert(out@ =~= start + (indent + lit("<dict>\n"@) + inner.bytes + indent + lit(
                    "</dict>\n"@,
                )));
            }
            rest
        },
        Plist::Boolean(b) => {
            if *b {
                push_line(out, prefix, "<true/>\n", none.as_slice(), "");
            } else {
                push_line(out, prefix, "<false/>\n", none.as_slice(), "");
            }
            proof {
                lemma_empty_text();
                assert(out@ =~= start + value_lines(value@, indent, texts(given@)).bytes);
            }
            given
        },
        Plist::Integer(n) => {
            let mut body: Vec<u8> = Vec::new();
            push_decimal(&mut body, *n);
            assert(body@ =~= decimal_text(*n as int));
            push_line(out, prefix, "<integer>", body.as_slice(), "</integer>\n");
            given
        },
        Plist::Float(_) => {
            if given.len() > 0 {
                push_line(out, prefix, "<real>", given[0].as_str().as_bytes(), "</real>\n");
            } else {
                push_line(out, prefix, "<real>", none.as_slice(), "</real>\n");
            }
            rest_of(given, 1)
        },
        Plist::String(text) => {
            push_line(out, prefix, "<string>", text.as_str().as_bytes(), "</string>\n");
            given
        },
        Plist::Date(secs, nanos) => {
            let mut body: Vec<u8> = Vec::new();
            if timestamp_exists(*secs, *nanos) {
                let text = text_of_timestamp(*secs, *nanos);
                push_text(&mut body, text.as_str());
            }
            assert(body@ =~= date_text(*secs, *nanos));
            push_line(out, prefix, "<date>", body.as_slice(), "</date>\n");
            given
        },
        Plist::Data(bytes) => {
            let text = string_from_utf8_lossy(bytes.as_slice());
            push_line(out, prefix, "<data>", text.as_str().as_bytes(), "</data>\n");
            given
        },
    }
}

/// The empty text has no bytes.
pub proof fn lemma_empty_text()
    ensures
        lit(""@) == Seq::<u8>::empty(),
{
    reveal_strlit("");
    assert(""@ =~= Seq::<char>::empty());
    assert(encode_utf8(Seq::<char>::empty()) =~= Seq::<u8>::empty());
}

/// Appends the lines of all `items`, indented by `deeper`.
pub fn write_items<'a>(
    items: &Vec<Plist>,
    deeper: &Vec<u8>,
    given: &'a [String],
    out: &mut Vec<u8>,
) -> (rest: &'a [String])
    ensures
        final(out)@ == old(out)@ + items_lines(
            items_view(items@),
            items@.len(),
            deeper@,
            texts(given@),
        ).bytes,
        rest@ == left(
            given@,
            items_lines(items_view(items@), items@.len(), deeper@, texts(given@)).used,
        ),
    decreases items, 0nat,
{
    let ghost head = out@;
    let ghost listed = items_view(items@);
    let ghost depth = deeper@;
    proof {
        lemma_items_view(items@);
        assert(left(given@, 0) =~= given@);
        assert(head + Seq::<u8>::empty() =~= head);
    }
    let mut rest: &[String] = given;
    let mut i: usize = 0;
    while i < items.len()
        invariant
            i <= items@.len(),
            depth == deeper@,
            listed == items_view(items@),
            listed.len() == items@.len(),
            forall|j: int| 0 <= j < items@.len() ==> (#[trigger] listed[j]) == items@[j]@,
            out@ == head + items_lines(listed, i as nat, depth, texts(given@)).bytes,
            rest@ == left(given@, items_lines(listed, i as nat, depth, texts(given@)).used),
        decreases items@.len() - i,
    {
        let ghost front = items_lines(listed, i as nat, depth, texts(given@));
        proof {
            lemma_texts_left(given@, front.used);
        }
        let ghost last = value_lines(listed[i as int], depth, texts(rest@));
        rest = write_value(&items[i], deeper, rest, out);
        proof {
            lemma_left_twice(given@, front.used, last.used);
            assert(out@ =~= head + (front.bytes + last.bytes));
        }
        i += 1;
    }
    rest
}

/// Appends the lines of all `entries` of a dictionary that is indented
/// by `prefix`; `deeper` is the indentation one level below.
pub fn write_entries<'a>(
    entries: &Vec<(String, Plist)>,
    prefix: &Vec<u8>,
    deeper: &Vec<u8>,
    given: &'a [String],
    out: &mut Vec<u8>,
) -> (rest: &'a [String])
    requires
        deeper@ == prefix@.push('\t' as u8),
    ensures
        final(out)@ == old(out)@ + entries_lines(
            entries_view(entries@),
            entries@.len(),
            prefix@,
            texts(given@),
        ).bytes,
        rest@ == left(
            given@,
            entries_lines(entries_view(entries@), entries@.len(), prefix@, texts(given@)).used,
        ),
    decreases entries, 0nat,
{
    let ghost head = out@;
    let ghost listed = entries_view(entries@);
    let ghost indent = prefix@;
    proof {
        lemma_entries_view(entries@);
        assert(left(given@, 0) =~= given@);
        assert(head + Seq::<u8>::empty() =~= head);
    }
    let mut rest: &[String] = given;
    let mut i: usize = 0;
    while i < entries.len()
        invariant
            i <= entries@.len(),
            indent == prefix@,
            deeper@ == indent.push('\t' as u8),
            listed == entries_view(entries@),
            listed.len() == entries@.len(),
            forall|j: int|
                0 <= j < entries@.len() ==> (#[trigger] listed[j]) == (
                    entries@[j].0@,
                    entries@[j].1@,
                ),
            out@ == head + entries_lines(listed, i as nat, indent, texts(given@)).bytes,
            rest@ == left(given@, entries_lines(listed, i as nat, indent, texts(given@)).used),
        decreases entries@.len() - i,
    {
        let ghost front = entries_lines(listed, i as nat, indent, texts(given@));
        proof {
            lemma_texts_left(given@, front.used);
        }
        let ghost last = value_lines(
            listed[i as int].1,
            indent.push('\t' as u8),
            texts(rest@),
        );
        let ghost before = out@;
        push_text(out, "\t");
        push_line(out, prefix, "<key>", entries[i].0.as_str().as_bytes(), "</key>\n");
        let ghost keyed = out@;
        rest = write_value(&entries[i].1, deeper, rest, out);
        proof {
            lemma_left_twice(given@, front.used, last.used);
            assert(keyed =~= before + lit("\t"@) + indent + lit("<key>"@) + encode_utf8(
                listed[i as int].0,
            ) + lit("</key>\n"@));
            assert(out@ =~= head + (front.bytes + lit("\t"@) + indent + lit("<key>"@)
                + encode_utf8(listed[i as int].0) + lit("</key>\n"@) + last.bytes));
        }
        i += 1;
    }
    rest
}

/// Collects the bits of the real numbers of `value`, in the order in
/// which they are written.
#[verifier::loop_isolation(false)]
pub fn collect_reals(value: &Plist, out: &mut Vec<u64>)
    ensures
        final(out)@ == old(out)@ + reals_of(value@),
    decreases value,
{
    let ghost start = out@;
    match value {
        Plist::Array(items) => {
            let ghost listed = items_view(items@);
            proof {
                lemma_items_view(items@);
                assert(start + Seq::<u64>::empty() =~= start);
            }
            let mut i: usize = 0;
            while i < items.len()
                invariant
                    i <= items@.len(),
                    out@ == start + reals_of_items(listed, i as nat),
                decreases items@.len() - i,
            {
                let ghost front = reals_of_items(listed, i as nat);
                collect_reals(&items[i], out);
                assert(out@ =~= start + (front + reals_of(listed[i as int])));
                i += 1;
            }
        },
        Plist::Dictionary(entries) => {
            let ghost listed = entries_view(entries@);
            proof {
                lemma_entries_view(entries@);
                assert(start + Seq::<u64>::empty() =~= start);
            }
            let mut i: usize = 0;
            while i < entries.len()
                invariant
                    i <= entries@.len(),
                    out@ == start + reals_of_entries(listed, i as nat),
                decreases entries@.len() - i,
            {
                let ghost front = reals_of_entries(listed, i as nat);
                collect_reals(&entries[i].1, out);
                assert(out@ =~= start + (front + reals_of(listed[i as int].1)));
                i += 1;
            }
        },
        Plist::Float(bits) => {
            out.push(*bits);
            assert(out@ =~= start + seq![*bits]);
        },
        _ => {
            assert(out@ =~= start + Seq::<u64>::empty());
        },
    }
}

/// What can be written in the markup form.
pub trait XmlWriter {
    /// The lines that `convert_xml` writes.
    spec fn markup(&self, indent: nat, given: Seq<Seq<char>>) -> Seq<char>;

    /// The lines of the value at the depth `indent`. `reals` are the
    /// texts of its real numbers, in the order in which they are written.
    fn convert_xml(&self, indent: usize, reals: &Vec<String>) -> (xml: String)
        ensures
            xml@ == self.markup(indent as nat, texts(reals@)),
    ;
}

impl XmlWriter for Plist {
    open spec fn markup(&self, indent: nat, given: Seq<Seq<char>>) -> Seq<char> {
        utf8_text(value_lines(self@, tabs(indent), given).bytes)
    }

    fn convert_xml(&self, indent: usize, reals: &Vec<String>) -> (xml: String) {
        let mut prefix: Vec<u8> = Vec::new();
        let mut i: usize = 0;
        while i < indent
            invariant
                i <= indent,
                prefix@ == tabs(i as nat),
            decreases indent - i,
        {
            prefix.push('\t' as u8);
            assert(prefix@ =~= tabs((i + 1) as nat));
            i += 1;
        }
        let mut out: Vec<u8> = Vec::new();
        let _ = write_value(self, &prefix, reals.as_slice(), &mut out);
        assert(out@ =~= value_lines(self@, tabs(indent as nat), texts(reals@)).bytes);
        string_from_utf8_lossy(out.as_slice())
    }
}

} // verus!
