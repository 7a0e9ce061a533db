//! The value model: what a property list is, and how a dictionary is read
//! and edited.
use vstd::prelude::*;
use vstd::utf8::*;
use vstd::string::*;
use crate::date::{representable, timestamp_exists};
use crate::error::Error;
use crate::stream::binary_reader::{magic, spec_parse, viewed, BinaryReader};
use crate::stream::binary_writer::{coded, dates_exact, encodable, spec_encode, BinaryWriter};
use crate::stream::xml_reader::{spec_parse_markup, texts, XmlReader};
use crate::stream::xml_writer::{
    collect_reals, document_text, prologue, reals_of, write_value,
};
use crate::text::{string_from_utf8_lossy, utf8_text};

verus! {

/// A property list. A real number is held as the bits of its IEEE-754
/// double. A date is held as its instant: the seconds from
/// 1970-01-01T00:00:00Z, and the nanoseconds into the second. A
/// dictionary keeps its entries in the order in which they were inserted.
#[derive(Debug, PartialEq)]
pub enum Plist {
    Array(Vec<Plist>),
    Dictionary(Vec<(String, Plist)>),
    Boolean(bool),
    Integer(i64),
    Float(u64),
    String(String),
    Date(i64, u32),
    Data(Vec<u8>),
}

/// The mathematical value of a property list.
pub enum Value {
    Array(Seq<Value>),
    Dictionary(Seq<(Seq<char>, Value)>),
    Boolean(bool),
    Integer(i64),
    Float(u64),
    String(Seq<char>),
    Date(i64, u32),
    Data(Seq<u8>),
}

/// The entries of a dictionary, in order.
pub type Entries = Seq<(Seq<char>, Value)>;

/// The mathematical value of `p`.
pub open spec fn value_of(p: Plist) -> Value
    decreases p,
{
    match p {
        Plist::Array(items) => Value::Array(items_view(items@)),
        Plist::Dictionary(entries) => Value::Dictionary(entries_view(entries@)),
        Plist::Boolean(b) => Value::Boolean(b),
        Plist::Integer(n) => Value::Integer(n),
        Plist::Float(bits) => Value::Float(bits),
        Plist::String(s) => Value::String(s@),
        Plist::Date(secs, nanos) => Value::Date(secs, nanos),
        Plist::Data(bytes) => Value::Data(bytes@),
    }
}

/// The values of the members of an array.
pub open spec fn items_view(items: Seq<Plist>) -> Seq<Value>
    decreases items,
{
    if items.len() == 0 {
        Seq::empty()
    } else {
        items_view(items.drop_last()).push(value_of(items.last()))
    }
}

/// The keys and values of the entries of a dictionary.
pub open spec fn entries_view(entries: Seq<(String, Plist)>) -> Entries
    decreases entries,
{
    if entries.len() == 0 {
        Seq::empty()
    } else {
        entries_view(entries.drop_last()).push((entries.last().0@, value_of(entries.last().1)))
    }
}

impl View for Plist {
    type V = Value;

    open spec fn view(&self) -> Value {
        value_of(*self)
    }
}

/// Member `i` of the view is the view of member `i`.
pub broadcast proof fn lemma_items_view(items: Seq<Plist>)
    ensures
        #![trigger items_view(items)]
        items_view(items).len() == items.len(),
        forall|i: int| 0 <= i < items.len() ==> (#[trigger] items_view(items)[i]) == items[i]@,
    decreases items.len(),
{
    if items.len() > 0 {
        lemma_items_view(items.drop_last());
    }
}

/// Entry `i` of the view is the key and the view of the value of entry `i`.
pub broadcast proof fn lemma_entries_view(entries: Seq<(String, Plist)>)
    ensures
        #![trigger entries_view(entries)]
        entries_view(entries).len() == entries.len(),
        forall|i: int|
            0 <= i < entries.len() ==> (#[trigger] entries_view(entries)[i]) == (
                entries[i].0@,
                entries[i].1@,
            ),
    decreases entries.len(),
{
    if entries.len() > 0 {
        lemma_entries_view(entries.drop_last());
    }
}

/// The place of the first entry under `key`, if there is one.
pub open spec fn key_index(entries: Entries, key: Seq<char>) -> Option<int>
    decreases entries.len(),
{
    if entries.len() == 0 {
        None
    } else {
        match key_index(entries.drop_last(), key) {
            Some(i) => Some(i),
            None => if entries.last().0 == key {
                Some(entries.len() - 1)
            } else {
                None
            },
        }
    }
}

/// The entries after `value` was put under `key`: an entry that was
/// already under that key keeps its place and gets the new value; a new
/// key goes to the end.
pub open spec fn entries_insert(entries: Entries, key: Seq<char>, value: Value) -> Entries {
    match key_index(entries, key) {
        Some(i) => entries.update(i, (key, value)),
        None => entries.push((key, value)),
    }
}

/// No key occurs twice.
pub open spec fn keys_unique(entries: Entries) -> bool {
    forall|i: int, j: int|
        0 <= i < j < entries.len() ==> (#[trigger] entries[i]).0 != (#[trigger] entries[j]).0
}

/// Every dictionary in the value, at any depth, has unique keys, and
/// every date is a timestamp that chrono has an instant for.
pub open spec fn well_formed(v: Value) -> bool
    decreases v,
{
    match v {
        Value::Array(items) => all_well_formed(items),
        Value::Dictionary(entries) => keys_unique(entries) && all_values_well_formed(entries),
        Value::Date(secs, nanos) => representable(secs as int, nanos as int),
        _ => true,
    }
}

/// Every one of `items` is well formed.
pub open spec fn all_well_formed(items: Seq<Value>) -> bool
    decreases items,
{
    forall|i: int| 0 <= i < items.len() ==> well_formed(#[trigger] items[i])
}

/// The value of every one of `entries` is well formed.
pub open spec fn all_values_well_formed(entries: Entries) -> bool
    decreases entries,
{
    forall|i: int| 0 <= i < entries.len() ==> well_formed((#[trigger] entries[i]).1)
}

pub proof fn lemma_key_index(entries: Entries, key: Seq<char>)
    ensures
        match key_index(entries, key) {
            Some(i) => 0 <= i < entries.len() && entries[i].0 == key && forall|j: int|
                0 <= j < i ==> (#[trigger] entries[j]).0 != key,
            None => forall|j: int| 0 <= j < entries.len() ==> (#[trigger] entries[j]).0 != key,
        },
    decreases entries.len(),
{
    if entries.len() > 0 {
        lemma_key_index(entries.drop_last(), key);
        match key_index(entries.drop_last(), key) {
            Some(i) => {
                assert(entries.drop_last()[i] == entries[i]);
                assert forall|j: int| 0 <= j < i implies (#[trigger] entries[j]).0 != key by {
                    assert(entries.drop_last()[j] == entries[j]);
                }
            },
            None => {
                assert forall|j: int| 0 <= j < entries.len() - 1 implies (#[trigger] entries[j]).0
                    != key by {
                    assert(entries.drop_last()[j] == entries[j]);
                }
            },
        }
    }
}

/// Replacing the value of entry `i` replaces it in the view, and nothing else.
pub proof fn lemma_replaced_view(entries: Seq<(String, Plist)>, i: int, e: (String, Plist))
    requires
        0 <= i < entries.len(),
    ensures
        entries_view(entries.update(i, e)) == entries_view(entries).update(i, (e.0@, e.1@)),
{
    let after = entries.update(i, e);
    lemma_entries_view(entries);
    lemma_entries_view(after);
    assert(entries_view(after) =~= entries_view(entries).update(i, (e.0@, e.1@)));
}

/// Whether two byte strings are the same.
pub fn same_bytes(x: &[u8], y: &[u8]) -> (same: bool)
    ensures
        same == (x@ == y@),
{
    if x.len() != y.len() {
        return false;
    }
    let mut i: usize = 0;
    while i < x.len()
        invariant
            i <= x@.len(),
            x@.len() == y@.len(),
            x@.subrange(0, i as int) == y@.subrange(0, i as int),
        decreases x@.len() - i,
    {
        if x[i] != y[i] {
            assert(x@[i as int] != y@[i as int]);
            return false;
        }
        assert(x@.subrange(0, i + 1) =~= x@.subrange(0, i as int).push(x@[i as int]));
        assert(y@.subrange(0, i + 1) =~= y@.subrange(0, i as int).push(y@[i as int]));
        i += 1;
    }
    assert(x@ =~= x@.subrange(0, i as int));
    assert(y@ =~= y@.subrange(0, i as int));
    true
}

/// Whether two texts are the same, character for character.
pub fn same_text(a: &str, b: &str) -> (same: bool)
    ensures
        same == (a@ == b@),
{
    proof {
        encode_utf8_decode_utf8(a@);
        encode_utf8_decode_utf8(b@);
    }
    same_bytes(a.as_bytes(), b.as_bytes())
}

/// Whether two property lists have the same value: the same kind, the
/// same content, members and entries in the same order.
#[verifier::loop_isolation(false)]
pub fn same_value(a: &Plist, b: &Plist) -> (same: bool)
    ensures
        same == (a@ == b@),
    decreases a,
{
    match (a, b) {
        (Plist::Array(x), Plist::Array(y)) => {
            proof {
                lemma_items_view(x@);
                lemma_items_view(y@);
            }
            if x.len() != y.len() {
                return false;
            }
            let mut i: usize = 0;
            while i < x.len()
                invariant
                    i <= x@.len(),
                    x@.len() == y@.len(),
                    forall|j: int| 0 <= j < i ==> (#[trigger] x@[j])@ == y@[j]@,
                    forall|j: int|
                        0 <= j < x@.len() ==> (#[trigger] items_view(x@)[j]) == x@[j]@,
                    forall|j: int|
                        0 <= j < y@.len() ==> (#[trigger] items_view(y@)[j]) == y@[j]@,
                    items_view(x@).len() == x@.len(),
                    items_view(y@).len() == y@.len(),
                decreases x@.len() - i,
            {
                if !same_value(&x[i], &y[i]) {
                    assert(items_view(x@)[i as int] != items_view(y@)[i as int]);
                    return false;
                }
                i += 1;
            }
            assert(items_view(x@) =~= items_view(y@));
            true
        },
        (Plist::Dictionary(x), Plist::Dictionary(y)) => {
            proof {
                lemma_entries_view(x@);
                lemma_entries_view(y@);
            }
            if x.len() != y.len() {
                return false;
            }
            let mut i: usize = 0;
            while i < x.len()
                invariant
                    i <= x@.len(),
                    x@.len() == y@.len(),
                    forall|j: int|
                        0 <= j < i ==> (#[trigger] x@[j]).0@ == y@[j].0@ && x@[j].1@ == y@[j].1@,
                    forall|j: int|
                        0 <= j < x@.len() ==> (#[trigger] entries_view(x@)[j]) == (
                            x@[j].0@,
                            x@[j].1@,
                        ),
                    forall|j: int|
                        0 <= j < y@.len() ==> (#[trigger] entries_view(y@)[j]) == (
                            y@[j].0@,
                            y@[j].1@,
                        ),
                    entries_view(x@).len() == x@.len(),
                    entries_view(y@).len() == y@.len(),
                decreases x@.len() - i,
            {
                if !same_text(x[i].0.as_str(), y[i].0.as_str()) {
                    assert(entries_view(x@)[i as int] != entries_view(y@)[i as int]);
                    return false;
                }
                if !same_value(&x[i].1, &y[i].1) {
                    assert(entries_view(x@)[i as int] != entries_view(y@)[i as int]);
                    return false;
                }
                i += 1;
            }
            assert(entries_view(x@) =~= entries_view(y@));
            true
        },
        (Plist::Boolean(x), Plist::Boolean(y)) => *x == *y,
        (Plist::Integer(x), Plist::Integer(y)) => *x == *y,
        (Plist::Float(x), Plist::Float(y)) => *x == *y,
        (Plist::String(x), Plist::String(y)) => same_text(x.as_str(), y.as_str()),
        (Plist::Date(x, m), Plist::Date(y, n)) => *x == *y && *m == *n,
        (Plist::Data(x), Plist::Data(y)) => same_bytes(x.as_slice(), y.as_slice()),
        _ => false,
    }
}

/// The place of the first entry under `key`.
pub fn find_key(entries: &Vec<(String, Plist)>, key: &str) -> (found: Option<usize>)
    ensures
        match found {
            Some(i) => i < entries@.len() && key_index(entries_view(entries@), key@) == Some(
                i as int,
            ),
            None => key_index(entries_view(entries@), key@) is None,
        },
{
    let ghost all = entries_view(entries@);
    proof {
        lemma_entries_view(entries@);
    }
    let mut i: usize = 0;
    while i < entries.len()
        invariant
            i <= entries@.len(),
            all == entries_view(entries@),
            all.len() == entries@.len(),
            forall|j: int| 0 <= j < entries@.len() ==> (#[trigger] all[j]).0 == entries@[j].0@,
            key_index(all.subrange(0, i as int), key@) is None,
        decreases entries@.len() - i,
    {
        proof {
            let next = all.subrange(0, i + 1);
            assert(next.drop_last() =~= all.subrange(0, i as int));
            assert(next.last() == all[i as int]);
        }
        if same_text(entries[i].0.as_str(), key) {
            proof {
                lemma_key_index_prefix(all, key@, i + 1);
            }
            return Some(i);
        }
        i += 1;
    }
    assert(all.subrange(0, i as int) =~= all);
    None
}

/// A key found in a prefix is found at the same place in the whole.
pub proof fn lemma_key_index_prefix(entries: Entries, key: Seq<char>, n: int)
    requires
        0 <= n <= entries.len(),
        key_index(entries.subrange(0, n), key) is Some,
    ensures
        key_index(entries, key) == key_index(entries.subrange(0, n), key),
    decreases entries.len() - n,
{
    if n < entries.len() {
        let next = entries.subrange(0, n + 1);
        assert(next.drop_last() =~= entries.subrange(0, n));
        lemma_key_index_prefix(entries, key, n + 1);
    } else {
        assert(entries.subrange(0, n) =~= entries);
    }
}

/// Puts `value` under `key`: in place of the value that was there, or at the end.
pub fn insert_entry(entries: &mut Vec<(String, Plist)>, key: String, value: Plist)
    ensures
        entries_view(final(entries)@) == entries_insert(
            entries_view(old(entries)@),
            key@,
            value@,
        ),
{
    proof {
        lemma_key_index(entries_view(entries@), key@);
        lemma_entries_view(entries@);
    }
    match find_key(entries, key.as_str()) {
        Some(i) => {
            entries[i] = (key, value);
            proof {
                lemma_entries_view(entries@);
            }
            assert(entries_view(entries@) =~= entries_insert(
                entries_view(old(entries)@),
                key@,
                value@,
            ));
        },
        None => {
            entries.push((key, value));
            proof {
                lemma_entries_view(entries@);
            }
            assert(entries_view(entries@) =~= entries_insert(
                entries_view(old(entries)@),
                key@,
                value@,
            ));
        },
    }
}

/// Whether `a` comes before `b`, or is `b`, in the order of a dictionary
/// of words, byte by byte.
pub open spec fn bytes_le(a: Seq<u8>, b: Seq<u8>) -> bool
    decreases a.len(),
{
    if a.len() == 0 {
        true
    } else if b.len() == 0 {
        false
    } else if a[0] != b[0] {
        a[0] < b[0]
    } else {
        bytes_le(a.skip(1), b.skip(1))
    }
}

/// The order of keys: that of their UTF-8 bytes.
pub open spec fn key_le(a: Seq<char>, b: Seq<char>) -> bool {
    bytes_le(encode_utf8(a), encode_utf8(b))
}

/// The entries stand in the order of their keys.
pub open spec fn keys_sorted(entries: Entries) -> bool {
    forall|i: int, j: int|
        0 <= i < j < entries.len() ==> key_le((#[trigger] entries[i]).0, (#[trigger] entries[j]).0)
}

pub proof fn lemma_bytes_le_total(a: Seq<u8>, b: Seq<u8>)
    ensures
        bytes_le(a, b) || bytes_le(b, a),
    decreases a.len(),
{
    if a.len() > 0 && b.len() > 0 && a[0] == b[0] {
        lemma_bytes_le_total(a.skip(1), b.skip(1));
    }
}

pub proof fn lemma_bytes_le_transitive(a: Seq<u8>, b: Seq<u8>, c: Seq<u8>)
    requires
        bytes_le(a, b),
        bytes_le(b, c),
    ensures
        bytes_le(a, c),
    decreases a.len(),
{
    if a.len() > 0 && b.len() > 0 && c.len() > 0 && a[0] == b[0] && b[0] == c[0] {
        lemma_bytes_le_transitive(a.skip(1), b.skip(1), c.skip(1));
    }
}

/// Whether the bytes `x` come before the bytes `y`, or are the same.
pub fn bytes_in_order(x: &[u8], y: &[u8]) -> (le: bool)
    ensures
        le == bytes_le(x@, y@),
{
    let mut i: usize = 0;
    assert(x@.skip(0) =~= x@ && y@.skip(0) =~= y@);
    while i < x.len() && i < y.len()
        invariant
            i <= x@.len(),
            i <= y@.len(),
            bytes_le(x@, y@) == bytes_le(x@.skip(i as int), y@.skip(i as int)),
        decreases x@.len() - i,
    {
        proof {
            let a = x@.skip(i as int);
            let b = y@.skip(i as int);
            assert(a[0] == x@[i as int] && b[0] == y@[i as int]);
            assert(a.skip(1) =~= x@.skip(i + 1));
            assert(b.skip(1) =~= y@.skip(i + 1));
        }
        if x[i] != y[i] {
            return x[i] < y[i];
        }
        i += 1;
    }
    i >= x.len()
}

/// The value under `key` in a dictionary; `None` in any other value.
pub open spec fn lookup(v: Value, key: Seq<char>) -> Option<Value> {
    match v {
        Value::Dictionary(entries) => match key_index(entries, key) {
            Some(i) => Some(entries[i].1),
            None => None,
        },
        _ => None,
    }
}

/// The entries that `get_or_init_dict` works on: the old ones, with an
/// empty dictionary added under `key` if the key was absent.
pub open spec fn with_slot(entries: Entries, key: Seq<char>) -> Entries {
    if key_index(entries, key) is None {
        entries.push((key, Value::Dictionary(Seq::empty())))
    } else {
        entries
    }
}

/// Inserting keeps the keys unique.
pub proof fn lemma_insert_keeps_unique(entries: Entries, key: Seq<char>, value: Value)
    requires
        keys_unique(entries),
    ensures
        keys_unique(entries_insert(entries, key, value)),
        key_index(entries_insert(entries, key, value), key) is Some,
        entries_insert(entries, key, value)[key_index(
            entries_insert(entries, key, value),
            key,
        )->0].1 == value,
{
    lemma_key_index(entries, key);
    let after = entries_insert(entries, key, value);
    lemma_key_index(after, key);
    match key_index(entries, key) {
        Some(i) => {
            assert(after[i].0 == key);
            assert forall|a: int, b: int| 0 <= a < b < after.len() implies (#[trigger] after[a]).0
                != (#[trigger] after[b]).0 by {
                assert(entries[a].0 != entries[b].0);
            }
        },
        None => {
            assert(after[entries.len() as int].0 == key);
            assert forall|a: int, b: int| 0 <= a < b < after.len() implies (#[trigger] after[a]).0
                != (#[trigger] after[b]).0 by {
                if b < entries.len() {
                    assert(entries[a].0 != entries[b].0);
                } else {
                    assert(entries[a].0 != key);
                }
            }
        },
    }
    let at = key_index(after, key)->0;
    if after[at].1 != value {
        match key_index(entries, key) {
            Some(i) => {
                if at < i {
                    assert(after[at].0 != after[i].0);
                } else if i < at {
                    assert(after[i].0 != after[at].0);
                }
            },
            None => {
                if at < entries.len() {
                    assert(entries[at].0 != key);
                }
            },
        }
    }
}

/// The first place at or after `from` whose key comes after `key`; the
/// end of the entries if there is none.
pub open spec fn place_from(sorted: Entries, key: Seq<char>, from: int) -> int
    decreases sorted.len() - from,
{
    if 0 <= from < sorted.len() && key_le(sorted[from].0, key) {
        place_from(sorted, key, from + 1)
    } else {
        from
    }
}

/// The first `n` entries in the order of their keys: each, in turn, is
/// put behind the entries sorted so far whose keys do not come after its
/// own, so entries with the same key keep their order.
pub open spec fn sorted_entries(entries: Entries, n: nat) -> Entries
    decreases n,
{
    if n == 0 || n > entries.len() {
        Seq::empty()
    } else {
        let sorted = sorted_entries(entries, (n - 1) as nat);
        sorted.insert(place_from(sorted, entries[n - 1].0, 0), entries[n - 1])
    }
}

pub proof fn lemma_sorted_entries_len(entries: Entries, n: nat)
    requires
        n <= entries.len(),
    ensures
        sorted_entries(entries, n).len() == n,
    decreases n,
{
    if n > 0 {
        lemma_sorted_entries_len(entries, (n - 1) as nat);
        lemma_place_from(sorted_entries(entries, (n - 1) as nat), entries[n - 1].0, 0);
    }
}

pub proof fn lemma_place_from(sorted: Entries, key: Seq<char>, from: int)
    requires
        0 <= from <= sorted.len(),
    ensures
        from <= place_from(sorted, key, from) <= sorted.len(),
    decreases sorted.len() - from,
{
    if from < sorted.len() && key_le(sorted[from].0, key) {
        lemma_place_from(sorted, key, from + 1);
    }
}

/// Before the place of insertion stand the keys that do not come after
/// `key`; at the place stands one that does.
pub proof fn lemma_place_split(sorted: Entries, key: Seq<char>, from: int)
    requires
        0 <= from <= sorted.len(),
    ensures
        forall|a: int|
            from <= a < place_from(sorted, key, from) ==> key_le((#[trigger] sorted[a]).0, key),
        place_from(sorted, key, from) < sorted.len() ==> !key_le(
            sorted[place_from(sorted, key, from)].0,
            key,
        ),
    decreases sorted.len() - from,
{
    if from < sorted.len() && key_le(sorted[from].0, key) {
        lemma_place_split(sorted, key, from + 1);
    }
}

/// Sorted entries stand in the order of their keys.
pub proof fn lemma_sorted_entries_sorted(entries: Entries, n: nat)
    requires
        n <= entries.len(),
    ensures
        keys_sorted(sorted_entries(entries, n)),
    decreases n,
{
    if n > 0 {
        let before = sorted_entries(entries, (n - 1) as nat);
        let x = entries[n - 1];
        let p = place_from(before, x.0, 0);
        let after = sorted_entries(entries, n);
        lemma_sorted_entries_sorted(entries, (n - 1) as nat);
        lemma_sorted_entries_len(entries, (n - 1) as nat);
        lemma_place_from(before, x.0, 0);
        lemma_place_split(before, x.0, 0);
        assert forall|a: int, b: int| 0 <= a < b < after.len() implies key_le(
            (#[trigger] after[a]).0,
            (#[trigger] after[b]).0,
        ) by {
            if b == p {
                assert(after[a] == before[a]);
            } else if a == p {
                assert(after[b] == before[b - 1]);
                lemma_bytes_le_total(encode_utf8(before[p].0), encode_utf8(x.0));
                if b - 1 > p {
                    assert(key_le(before[p].0, before[b - 1].0));
                    lemma_bytes_le_transitive(
                        encode_utf8(x.0),
                        encode_utf8(before[p].0),
                        encode_utf8(before[b - 1].0),
                    );
                }
            } else {
                let from_a = if a < p {
                    a
                } else {
                    a - 1
                };
                let from_b = if b < p {
                    b
                } else {
                    b - 1
                };
                assert(after[a] == before[from_a]);
                assert(after[b] == before[from_b]);
            }
        }
    }
}

/// Sorting puts entries in another order and changes nothing else.
pub proof fn lemma_sorted_entries_multiset(entries: Entries, n: nat)
    requires
        n <= entries.len(),
    ensures
        sorted_entries(entries, n).to_multiset() == entries.subrange(0, n as int).to_multiset(),
    decreases n,
{
    if n == 0 {
        assert(entries.subrange(0, 0) =~= Seq::<(Seq<char>, Value)>::empty());
    } else {
        let before = sorted_entries(entries, (n - 1) as nat);
        let x = entries[n - 1];
        let p = place_from(before, x.0, 0);
        let after = sorted_entries(entries, n);
        lemma_sorted_entries_multiset(entries, (n - 1) as nat);
        lemma_sorted_entries_len(entries, (n - 1) as nat);
        lemma_place_from(before, x.0, 0);
        assert(after.remove(p) =~= before);
        vstd::seq_lib::to_multiset_remove(after, p);
        after.to_multiset_ensures();
        assert(after[p] == x);
        assert(after.to_multiset().count(x) > 0);
        assert(after.to_multiset() =~= before.to_multiset().insert(x));
        let front = entries.subrange(0, n - 1);
        assert(entries.subrange(0, n as int) =~= front.push(x));
        vstd::seq_lib::to_multiset_build(front, x);
    }
}

/// The value with the entries of every dictionary in it, at any depth,
/// in the order of their keys.
pub open spec fn sorted_deep(v: Value) -> Value
    decreases v,
{
    match v {
        Value::Array(items) => Value::Array(sorted_items(items)),
        Value::Dictionary(entries) => Value::Dictionary(
            sorted_entries(sorted_values(entries), entries.len()),
        ),
        _ => v,
    }
}

/// Every one of `items`, sorted at every depth.
pub open spec fn sorted_items(items: Seq<Value>) -> Seq<Value>
    decreases items,
{
    if items.len() == 0 {
        Seq::empty()
    } else {
        sorted_items(items.drop_last()).push(sorted_deep(items.last()))
    }
}

/// The entries as they stand, with every value sorted at every depth.
pub open spec fn sorted_values(entries: Entries) -> Entries
    decreases entries,
{
    if entries.len() == 0 {
        Seq::empty()
    } else {
        sorted_values(entries.drop_last()).push((entries.last().0, sorted_deep(entries.last().1)))
    }
}

pub proof fn lemma_sorted_items(items: Seq<Value>)
    ensures
        sorted_items(items).len() == items.len(),
        forall|i: int|
            0 <= i < items.len() ==> (#[trigger] sorted_items(items)[i]) == sorted_deep(items[i]),
    decreases items.len(),
{
    if items.len() > 0 {
        lemma_sorted_items(items.drop_last());
    }
}

pub proof fn lemma_sorted_values(entries: Entries)
    ensures
        sorted_values(entries).len() == entries.len(),
        forall|i: int|
            0 <= i < entries.len() ==> (#[trigger] sorted_values(entries)[i]) == (
                entries[i].0,
                sorted_deep(entries[i].1),
            ),
    decreases entries.len(),
{
    if entries.len() > 0 {
        lemma_sorted_values(entries.drop_last());
    }
}

/// Sorts entries by key, by insertion.
pub fn sort_entries(entries: &mut Vec<(String, Plist)>)
    ensures
        entries_view(final(entries)@) == sorted_entries(
            entries_view(old(entries)@),
            old(entries)@.len() as nat,
        ),
        entries_view(final(entries)@).to_multiset() == entries_view(old(entries)@).to_multiset(),
        keys_sorted(entries_view(final(entries)@)),
{
    let ghost start = entries_view(entries@);
    let n = entries.len();
    let mut i: usize = 0;
    proof {
        lemma_entries_view(entries@);
        assert(entries_view(entries@) =~= sorted_entries(start, 0) + start.subrange(0, n as int));
    }
    while i < n
        invariant
            i <= n,
            n == entries@.len(),
            n == start.len(),
            entries_view(entries@) == sorted_entries(start, i as nat) + start.subrange(
                i as int,
                n as int,
            ),
        decreases n - i,
    {
        let ghost before = entries_view(entries@);
        let ghost sorted = sorted_entries(start, i as nat);
        proof {
            lemma_entries_view(entries@);
            lemma_sorted_entries_len(start, i as nat);
        }
        let taken = entries.remove(i);
        let ghost without = entries_view(entries@);
        proof {
            lemma_entries_view(entries@);
            assert(without =~= before.remove(i as int));
            assert(without =~= sorted + start.subrange(i + 1, n as int));
        }
        // the first place whose key comes after the taken one
        let mut j: usize = 0;
        while j < i && bytes_in_order(entries[j].0.as_str().as_bytes(), taken.0.as_str().as_bytes())
            invariant
                j <= i < n,
                entries@.len() == n - 1,
                without == entries_view(entries@),
                without.len() == n - 1,
                forall|a: int| 0 <= a < without.len() ==> (#[trigger] without[a]).0 == entries@[a].0@,
                sorted.len() == i,
                forall|a: int| 0 <= a < i ==> (#[trigger] sorted[a]) == without[a],
                place_from(sorted, taken.0@, 0) == place_from(sorted, taken.0@, j as int),
            decreases i - j,
        {
            j += 1;
        }
        let ghost pair = (taken.0@, taken.1@);
        entries.insert(j, taken);
        proof {
            lemma_entries_view(entries@);
            let after = entries_view(entries@);
            assert(after =~= without.insert(j as int, pair));
            assert(pair == start[i as int]) by {
                assert(before[i as int] == start.subrange(i as int, n as int)[0]);
            }
            assert(j == place_from(sorted, pair.0, 0));
            assert(after =~= sorted_entries(start, (i + 1) as nat) + start.subrange(
                i + 1,
                n as int,
            ));
        }
        i += 1;
    }
    proof {
        assert(start.subrange(n as int, n as int) =~= Seq::<(Seq<char>, Value)>::empty());
        assert(entries_view(entries@) =~= sorted_entries(start, n as nat));
        lemma_sorted_entries_sorted(start, n as nat);
        lemma_sorted_entries_multiset(start, n as nat);
        assert(start.subrange(0, n as int) =~= start);
    }
}

/// A dictionary stays well formed when a well-formed value is put into it.
pub proof fn lemma_insert_well_formed(entries: Entries, key: Seq<char>, value: Value)
    requires
        well_formed(Value::Dictionary(entries)),
        well_formed(value),
    ensures
        well_formed(Value::Dictionary(entries_insert(entries, key, value))),
{
    let after = entries_insert(entries, key, value);
    lemma_insert_keeps_unique(entries, key, value);
    lemma_key_index(entries, key);
    assert forall|i: int| 0 <= i < after.len() implies well_formed((#[trigger] after[i]).1) by {
        match key_index(entries, key) {
            Some(at) => {
                if i != at {
                    assert(after[i] == entries[i]);
                }
            },
            None => {
                if i < entries.len() {
                    assert(after[i] == entries[i]);
                }
            },
        }
    }
}

/// A dictionary stays well formed when the value of one entry is replaced
/// by a well-formed value.
pub proof fn lemma_update_well_formed(entries: Entries, i: int, value: Value)
    requires
        well_formed(Value::Dictionary(entries)),
        0 <= i < entries.len(),
        well_formed(value),
    ensures
        well_formed(Value::Dictionary(entries.update(i, (entries[i].0, value)))),
{
    let after = entries.update(i, (entries[i].0, value));
    assert forall|a: int, b: int| 0 <= a < b < after.len() implies (#[trigger] after[a]).0 != (
    #[trigger] after[b]).0 by {
        assert(entries[a].0 != entries[b].0);
    }
    assert forall|k: int| 0 <= k < after.len() implies well_formed((#[trigger] after[k]).1) by {
        if k != i {
            assert(after[k] == entries[k]);
        }
    }
}

/// A dictionary stays well formed when an absent key gets an empty dictionary.
pub proof fn lemma_with_slot_well_formed(entries: Entries, key: Seq<char>)
    requires
        well_formed(Value::Dictionary(entries)),
    ensures
        well_formed(Value::Dictionary(with_slot(entries, key))),
{
    if key_index(entries, key) is None {
        let empty = Value::Dictionary(Seq::empty());
        assert(well_formed(empty));
        lemma_insert_well_formed(entries, key, empty);
    }
}

/// Entries that were only put in another order are as well formed as before.
pub proof fn lemma_reordered_well_formed(before: Entries, after: Entries)
    requires
        before.to_multiset() == after.to_multiset(),
        well_formed(Value::Dictionary(before)),
    ensures
        well_formed(Value::Dictionary(after)),
{
    before.to_multiset_ensures();
    after.to_multiset_ensures();
    assert(before.no_duplicates()) by {
        assert forall|i: int, j: int|
            0 <= i < before.len() && 0 <= j < before.len() && i != j implies before[i]
            != before[j] by {
            if i < j {
                assert(before[i].0 != before[j].0);
            } else {
                assert(before[j].0 != before[i].0);
            }
        }
    }
    before.lemma_multiset_has_no_duplicates();
    after.lemma_multiset_has_no_duplicates_conv();
    assert forall|k: int| 0 <= k < after.len() implies well_formed((#[trigger] after[k]).1) by {
        assert(after.contains(after[k]));
        assert(after.to_multiset().count(after[k]) > 0);
        assert(before.to_multiset().count(after[k]) > 0);
        assert(before.contains(after[k]));
        let at = choose|at: int| 0 <= at < before.len() && before[at] == after[k];
        assert(well_formed(before[at].1));
    }
    assert forall|a: int, b: int| 0 <= a < b < after.len() implies (#[trigger] after[a]).0 != (
    #[trigger] after[b]).0 by {
        assert(after[a] != after[b]);
        assert(after.contains(after[a]) && after.contains(after[b]));
        assert(after.to_multiset().count(after[a]) > 0);
        assert(after.to_multiset().count(after[b]) > 0);
        assert(before.to_multiset().count(after[a]) > 0);
        assert(before.to_multiset().count(after[b]) > 0);
        assert(before.contains(after[a]) && before.contains(after[b]));
        let p = choose|p: int| 0 <= p < before.len() && before[p] == after[a];
        let q = choose|q: int| 0 <= q < before.len() && before[q] == after[b];
        if p < q {
            assert(before[p].0 != before[q].0);
        } else if q < p {
            assert(before[q].0 != before[p].0);
        }
    }
}

impl Plist {
    /// Whether a buffer is in the binary form: it starts with `bplist00`.
    pub fn is_binary(data: &[u8]) -> (binary: bool)
        ensures
            binary == (data@.len() >= 8 && data@.subrange(0, 8) == magic()),
    {
        BinaryReader::parse_bplist_header(data).is_ok()
    }

    /// Reads a property list in either form: the binary one if the buffer
    /// starts with its magic bytes, the markup one otherwise. `reals` are
    /// the values of the real numbers of a document in the markup form.
    pub fn parse(data: &[u8], reals: &Vec<u64>) -> (r: Result<Plist, Error>)
        ensures
            viewed(r) == (if data@.len() >= 8 && data@.subrange(0, 8) == magic() {
                spec_parse(data@)
            } else {
                spec_parse_markup(data@, reals@)
            }),
            r matches Ok(p) ==> well_formed(p@),
    {
        if Self::is_binary(data) {
            BinaryReader::parse(data)
        } else {
            XmlReader::parse(data, reals)
        }
    }

    /// The real numbers of the value, as the bits of their doubles, in
    /// the order in which the markup form holds them.
    pub fn reals(&self) -> (bits: Vec<u64>)
        ensures
            bits@ == reals_of(self@),
    {
        let mut bits: Vec<u64> = Vec::new();
        collect_reals(self, &mut bits);
        assert(bits@ =~= reals_of(self@));
        bits
    }

    /// A document in the markup form. `reals` are the texts of the real
    /// numbers of the value, in the order of `reals()`.
    pub fn to_xml(&self, reals: &Vec<String>) -> (xml: String)
        ensures
            xml@ == utf8_text(document_text(self@, texts(reals@))),
    {
        let mut out: Vec<u8> = Vec::new();
        out.extend_from_slice(Self::prologue_text().as_bytes());
        let prefix: Vec<u8> = Vec::new();
        assert(prefix@ =~= Seq::<u8>::empty());
        let _ = write_value(self, &prefix, reals.as_slice(), &mut out);
        out.extend_from_slice("</plist>".as_bytes());
        assert(out@ =~= document_text(self@, texts(reals@)));
        string_from_utf8_lossy(out.as_slice())
    }

    /// The head of a document in the markup form.
    pub fn prologue_text() -> (text: &'static str)
        ensures
            text@ == prologue(),
    {
        "<?xml version=\"1.0\" encoding=\"UTF-8\"?>\n<!DOCTYPE plist PUBLIC \"-//Apple//DTD PLIST 1.0//EN\" \"http://www.apple.com/DTDs/PropertyList-1.0.dtd\">\n<plist version=\"1.0\">\n"
    }

    /// Writes the value in the form that `data` is in: the binary one if
    /// `data` starts with its magic bytes, the markup one otherwise.
    pub fn to_bytes(&self, data: &[u8], reals: &Vec<String>) -> (r: Result<Vec<u8>, Error>)
        ensures
            match r {
                Ok(bytes) => if data@.len() >= 8 && data@.subrange(0, 8) == magic() {
                    encodable(self@) && bytes@ == spec_encode(coded(self@))
                } else {
                    bytes@ == encode_utf8(utf8_text(document_text(self@, texts(reals@))))
                },
                Err(e) => e == Error::UnsupportedValue && !encodable(self@) && data@.len() >= 8
                    && data@.subrange(0, 8) == magic(),
            },
    {
        if Self::is_binary(data) {
            self.to_binary()
        } else {
            let xml = self.to_xml(reals);
            Ok(vstd::slice::slice_to_vec(xml.as_str().as_bytes()))
        }
    }

    /// The value under `key`, if this is a dictionary that has the key.
    pub fn get<'a>(&'a self, key: &str) -> (found: Option<&'a Plist>)
        ensures
            match found {
                Some(p) => lookup(self@, key@) == Some(p@),
                None => lookup(self@, key@) is None,
            },
    {
        match self {
            Plist::Dictionary(entries) => {
                proof {
                    lemma_entries_view(entries@);
                }
                match find_key(entries, key) {
                    Some(i) => Some(&entries[i].1),
                    None => None,
                }
            },
            _ => None,
        }
    }

    /// Puts `value` under `key`. A key that is present keeps its place in
    /// the order; a new key goes to the end. Fails, and changes nothing,
    /// when this is not a dictionary.
    pub fn insert(&mut self, key: &str, value: Plist) -> (r: Result<(), Error>)
        ensures
            match old(self)@ {
                Value::Dictionary(entries) => r is Ok && final(self)@ == Value::Dictionary(
                    entries_insert(entries, key@, value@),
                ),
                _ => r == Err::<(), Error>(Error::StructuralMismatch) && *final(self) == *old(self),
            },
            well_formed(old(self)@) && well_formed(value@) ==> well_formed(final(self)@),
    {
        proof {
            if let Value::Dictionary(before) = self@ {
                if well_formed(self@) && well_formed(value@) {
                    lemma_insert_well_formed(before, key@, value@);
                }
            }
        }
        match self {
            Plist::Dictionary(entries) => {
                insert_entry(entries, key.to_owned(), value);
                Ok(())
            },
            _ => Err(Error::StructuralMismatch),
        }
    }

    /// The place of the value under `key`, for changing it. What is
    /// written there becomes the value of that entry; nothing else changes.
    pub fn get_mut<'a>(&'a mut self, key: &str) -> (found: Option<&'a mut Plist>)
        ensures
            match found {
                Some(slot) => old(self)@ matches Value::Dictionary(entries) && key_index(
                    entries,
                    key@,
                ) matches Some(i) && (*slot)@ == entries[i].1 && final(self)@ == Value::Dictionary(
                    entries.update(i, (key@, (*final(slot))@)),
                ),
                None => lookup(old(self)@, key@) is None && *final(self) == *old(self),
            },
            found matches Some(slot) ==> (well_formed(old(self)@) && well_formed(
                (*final(slot))@,
            ) ==> well_formed(final(self)@)),
    {
        match self {
            Plist::Dictionary(entries) => {
                proof {
                    lemma_entries_view(entries@);
                }
                match find_key(entries, key) {
                    Some(i) => {
                        let ghost before = entries@;
                        proof {
                            lemma_key_index(entries_view(before), key@);
                            let listed = entries_view(before);
                            assert forall|v: Value|
                                well_formed(Value::Dictionary(listed)) && well_formed(
                                    v,
                                ) implies well_formed(
                                Value::Dictionary(#[trigger] listed.update(i as int, (key@, v))),
                            ) by {
                                lemma_update_well_formed(listed, i as int, v);
                            }
                        }
                        proof {
                            assert forall|e: (String, Plist)|
                                entries_view(#[trigger] before.update(i as int, e)) == entries_view(
                                    before,
                                ).update(i as int, (e.0@, e.1@)) by {
                                lemma_replaced_view(before, i as int, e);
                            }
                        }
                        Some(&mut entries[i].1)
                    },
                    None => None,
                }
            },
            _ => None,
        }
    }

    /// The place of the value under `fkey`, for changing it; a key that
    /// is absent first gets an empty dictionary as its value, at the end
    /// of the order. Fails, and changes nothing, when this is not a dictionary.
    pub fn get_or_init_dict(&mut self, fkey: &str) -> (r: Result<&mut Self, Error>)
        ensures
            match r {
                Ok(slot) => old(self)@ matches Value::Dictionary(entries) && key_index(
                    with_slot(entries, fkey@),
                    fkey@,
                ) matches Some(i) && (*slot)@ == with_slot(entries, fkey@)[i].1 && final(self)@
                    == Value::Dictionary(
                    with_slot(entries, fkey@).update(i, (fkey@, (*final(slot))@)),
                ),
                Err(e) => e == Error::StructuralMismatch && !(old(self)@ is Dictionary)
                    && *final(self) == *old(self),
            },
            r matches Ok(slot) ==> (well_formed(old(self)@) && well_formed((*final(slot))@)
                ==> well_formed(final(self)@)),
    {
        match self {
            Plist::Dictionary(entries) => {
                let ghost start = entries_view(entries@);
                proof {
                    lemma_entries_view(entries@);
                }
                let i = match find_key(entries, fkey) {
                    Some(i) => i,
                    None => {
                        entries.push((fkey.to_owned(), Plist::Dictionary(Vec::new())));
                        proof {
                            lemma_entries_view(entries@);
                            let now = entries_view(entries@);
                            assert(now.drop_last() =~= start);
                            assert(entries@.last().1@ == Value::Dictionary(Seq::empty()));
                            assert(now =~= with_slot(start, fkey@));
                        }
                        entries.len() - 1
                    },
                };
                let ghost before = entries@;
                proof {
                    lemma_entries_view(before);
                    lemma_key_index(entries_view(before), fkey@);
                    let listed = entries_view(before);
                    if well_formed(Value::Dictionary(start)) {
                        lemma_with_slot_well_formed(start, fkey@);
                    }
                    assert forall|v: Value|
                        well_formed(Value::Dictionary(listed)) && well_formed(v) implies well_formed(
                        Value::Dictionary(#[trigger] listed.update(i as int, (fkey@, v))),
                    ) by {
                        lemma_update_well_formed(listed, i as int, v);
                    }
                    assert forall|e: (String, Plist)|
                        entries_view(#[trigger] before.update(i as int, e)) == entries_view(
                            before,
                        ).update(i as int, (e.0@, e.1@)) by {
                        lemma_replaced_view(before, i as int, e);
                    }
                }
                Ok(&mut entries[i].1)
            },
            _ => Err(Error::StructuralMismatch),
        }
    }

    /// Puts the entries of a dictionary in the order of their keys, byte
    /// by byte. Any other value stays as it is.
    pub fn sort_key(&mut self)
        ensures
            match old(self)@ {
                Value::Dictionary(entries) => final(self)@ == Value::Dictionary(
                    sorted_entries(entries, entries.len()),
                ) && sorted_entries(entries, entries.len()).to_multiset() == entries.to_multiset()
                    && keys_sorted(sorted_entries(entries, entries.len())),
                _ => *final(self) == *old(self),
            },
            well_formed(old(self)@) ==> well_formed(final(self)@),
    {
        match self {
            Plist::Dictionary(entries) => {
                let ghost before = entries_view(entries@);
                proof {
                    lemma_entries_view(entries@);
                }
                sort_entries(entries);
                proof {
                    if well_formed(Value::Dictionary(before)) {
                        lemma_reordered_well_formed(before, entries_view(entries@));
                    }
                }
            },
            _ => {},
        }
    }

    /// Puts the entries of every dictionary in the value, at any depth,
    /// in the order of their keys.
    #[verifier::loop_isolation(false)]
    pub fn sort_keys_deep(&mut self)
        ensures
            final(self)@ == sorted_deep(old(self)@),
        decreases *old(self),
    {
        match self {
            Plist::Array(items) => {
                let ghost start = items@;
                proof {
                    lemma_items_view(start);
                    lemma_sorted_items(items_view(start));
                }
                let mut i: usize = 0;
                while i < items.len()
                    invariant
                        i <= items@.len(),
                        items@.len() == start.len(),
                        forall|j: int|
                            0 <= j < i ==> (#[trigger] items@[j])@ == sorted_deep(start[j]@),
                        forall|j: int| i <= j < start.len() ==> (#[trigger] items@[j]) == start[j],
                    decreases items@.len() - i,
                {
                    items[i].sort_keys_deep();
                    i += 1;
                }
                proof {
                    lemma_items_view(items@);
                    assert(items_view(items@) =~= sorted_items(items_view(start)));
                }
            },
            Plist::Dictionary(entries) => {
                let ghost start = entries@;
                proof {
                    lemma_entries_view(start);
                    lemma_sorted_values(entries_view(start));
                }
                let mut i: usize = 0;
                while i < entries.len()
                    invariant
                        i <= entries@.len(),
                        entries@.len() == start.len(),
                        forall|j: int|
                            0 <= j < i ==> (#[trigger] entries@[j]).0@ == start[j].0@
                                && entries@[j].1@ == sorted_deep(start[j].1@),
                        forall|j: int|
                            i <= j < start.len() ==> (#[trigger] entries@[j]) == start[j],
                    decreases entries@.len() - i,
                {
                    entries[i].1.sort_keys_deep();
                    i += 1;
                }
                proof {
                    lemma_entries_view(entries@);
                    assert(entries_view(entries@) =~= sorted_values(entries_view(start)));
                }
                sort_entries(entries);
            },
            _ => {},
        }
    }

    /// Whether the value is well formed: every dictionary in it has
    /// unique keys, and chrono has an instant for every date.
    #[verifier::loop_isolation(false)]
    pub fn is_well_formed(&self) -> (ok: bool)
        ensures
            ok == well_formed(self@),
        decreases self,
    {
        match self {
            Plist::Array(items) => {
                proof {
                    lemma_items_view(items@);
                }
                let mut i: usize = 0;
                while i < items.len()
                    invariant
                        i <= items@.len(),
                        forall|j: int| 0 <= j < i ==> well_formed((#[trigger] items@[j])@),
                    decreases items@.len() - i,
                {
                    if !items[i].is_well_formed() {
                        assert(!well_formed(items_view(items@)[i as int]));
                        return false;
                    }
                    i += 1;
                }
                true
            },
            Plist::Dictionary(entries) => {
                let ghost listed = entries_view(entries@);
                proof {
                    lemma_entries_view(entries@);
                }
                let mut i: usize = 0;
                while i < entries.len()
                    invariant
                        i <= entries@.len(),
                        forall|j: int| 0 <= j < i ==> well_formed((#[trigger] entries@[j]).1@),
                        forall|a: int, b: int|
                            0 <= a < b < i ==> (#[trigger] listed[a]).0 != (#[trigger] listed[b]).0,
                    decreases entries@.len() - i,
                {
                    if !entries[i].1.is_well_formed() {
                        assert(!well_formed(listed[i as int].1));
                        return false;
                    }
                    let mut k: usize = 0;
                    while k < i
                        invariant
                            k <= i < entries@.len(),
                            forall|a: int| 0 <= a < k ==> (#[trigger] listed[a]).0 != listed[i as int].0,
                        decreases i - k,
                    {
                        if same_text(entries[k].0.as_str(), entries[i].0.as_str()) {
                            assert(listed[k as int].0 == listed[i as int].0);
                            return false;
                        }
                        k += 1;
                    }
                    i += 1;
                }
                true
            },
            Plist::Date(secs, nanos) => timestamp_exists(*secs, *nanos),
            _ => true,
        }
    }

    /// Encodes this value in the binary form. Fails on a negative
    /// integer, and on nothing else. The bytes of a well-formed value whose
    /// dates are exact decode to that value again.
    pub fn to_binary(&self) -> (r: Result<Vec<u8>, Error>)
        ensures
            match r {
                Ok(bytes) => encodable(self@) && bytes@ == spec_encode(coded(self@)) && (
                dates_exact(self@) ==> bytes@ == spec_encode(self@)) && (well_formed(self@)
                    && dates_exact(self@) ==> spec_parse(bytes@) == Ok::<Value, Error>(self@)),
                Err(e) => e == Error::UnsupportedValue && !encodable(self@),
            },
    {
        BinaryWriter::new().write(self)
    }
}

impl Clone for Plist {
    /// A deep copy.
    #[verifier::loop_isolation(false)]
    fn clone(&self) -> (copy: Self)
        ensures
            copy@ == self@,
        decreases self,
    {
        match self {
            Plist::Array(items) => {
                let mut copies: Vec<Plist> = Vec::new();
                let mut i: usize = 0;
                while i < items.len()
                    invariant
                        i <= items@.len(),
                        copies@.len() == i,
                        forall|j: int| 0 <= j < i ==> (#[trigger] copies@[j])@ == items@[j]@,
                    decreases items@.len() - i,
                {
                    copies.push(items[i].clone());
                    i += 1;
                }
                proof {
                    lemma_items_view(items@);
                    lemma_items_view(copies@);
                    assert(items_view(copies@) =~= items_view(items@));
                }
                Plist::Array(copies)
            },
            Plist::Dictionary(entries) => {
                let mut copies: Vec<(String, Plist)> = Vec::new();
                let mut i: usize = 0;
                while i < entries.len()
                    invariant
                        i <= entries@.len(),
                        copies@.len() == i,
                        forall|j: int|
                            0 <= j < i ==> (#[trigger] copies@[j]).0@ == entries@[j].0@
                                && copies@[j].1@ == entries@[j].1@,
                    decreases entries@.len() - i,
                {
                    copies.push((entries[i].0.clone(), entries[i].1.clone()));
                    i += 1;
                }
                proof {
                    lemma_entries_view(entries@);
                    lemma_entries_view(copies@);
                    assert(entries_view(copies@) =~= entries_view(entries@));
                }
                Plist::Dictionary(copies)
            },
            Plist::Boolean(b) => Plist::Boolean(*b),
            Plist::Integer(n) => Plist::Integer(*n),
            Plist::Float(bits) => Plist::Float(*bits),
            Plist::String(text) => Plist::String(text.clone()),
            Plist::Date(secs, nanos) => Plist::Date(*secs, *nanos),
            Plist::Data(bytes) => Plist::Data(bytes.clone()),
        }
    }
}

impl From<bool> for Plist {
    fn from(value: bool) -> (p: Self) {
        Plist::Boolean(value)
    }
}

impl vstd::std_specs::convert::FromSpecImpl<bool> for Plist {
    open spec fn obeys_from_spec() -> bool {
        true
    }

    open spec fn from_spec(value: bool) -> Self {
        Plist::Boolean(value)
    }
}

impl From<i64> for Plist {
    fn from(value: i64) -> (p: Self) {
        Plist::Integer(value)
    }
}

impl vstd::std_specs::convert::FromSpecImpl<i64> for Plist {
    open spec fn obeys_from_spec() -> bool {
        true
    }

    open spec fn from_spec(value: i64) -> Self {
        Plist::Integer(value)
    }
}

impl From<&str> for Plist {
    fn from(value: &str) -> (p: Self)
        ensures
            p@ == Value::String(value@),
    {
        Plist::String(value.to_owned())
    }
}

impl vstd::std_specs::convert::FromSpecImpl<&str> for Plist {
    open spec fn obeys_from_spec() -> bool {
        false
    }

    open spec fn from_spec(value: &str) -> Self {
        Plist::Boolean(false)
    }
}

impl From<String> for Plist {
    fn from(value: String) -> (p: Self) {
        Plist::String(value)
    }
}

impl vstd::std_specs::convert::FromSpecImpl<String> for Plist {
    open spec fn obeys_from_spec() -> bool {
        true
    }

    open spec fn from_spec(value: String) -> Self {
        Plist::String(value)
    }
}

} // verus!
