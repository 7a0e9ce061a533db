//! Writing the binary form.
//!
//! Every distinct value in the tree becomes one object. A value gets its
//! object index when it is first met, walking the tree from the root and
//! visiting a container before its members; a value that was met before is
//! not stored again, and the container refers to the first one. Objects are
//! laid out in index order after the magic bytes, followed by the offset
//! table and the trailer.
use vstd::prelude::*;
use vstd::utf8::encode_utf8;
use crate::bytes::{be_bytes, is_width, minimal_width, push_be, width_for};
use crate::date::{
    canon, date_from_timestamp, exact, lemma_canon_double, lemma_canon_exact, lemma_canon_same,
    reference_seconds,
};
use crate::error::Error;
use crate::ieee::{narrow, single_of_double};
use crate::plist::{
    entries_view, items_view, lemma_entries_view, lemma_items_view, same_text, same_value,
    well_formed, Plist, Value,
};
use crate::stream::binary_reader::{magic, spec_parse};
use crate::stream::round_trip::law_round_trip;

verus! {

/// No integer in the value, at any depth, is negative.
pub open spec fn encodable(v: Value) -> bool
    decreases v,
{
    match v {
        Value::Array(items) => all_encodable(items),
        Value::Dictionary(entries) => all_values_encodable(entries),
        Value::Integer(n) => n >= 0,
        _ => true,
    }
}

/// Every one of `items` is encodable.
pub open spec fn all_encodable(items: Seq<Value>) -> bool
    decreases items,
{
    forall|i: int| 0 <= i < items.len() ==> encodable(#[trigger] items[i])
}

/// The value of every one of `entries` is encodable.
pub open spec fn all_values_encodable(entries: Seq<(Seq<char>, Value)>) -> bool
    decreases entries,
{
    forall|i: int| 0 <= i < entries.len() ==> encodable((#[trigger] entries[i]).1)
}

/// The keys of a dictionary, each as a string value.
pub open spec fn key_values(entries: Seq<(Seq<char>, Value)>) -> Seq<Value> {
    Seq::new(entries.len(), |i: int| Value::String(entries[i].0))
}

/// The values of a dictionary's entries.
pub open spec fn entry_values(entries: Seq<(Seq<char>, Value)>) -> Seq<Value> {
    Seq::new(entries.len(), |i: int| entries[i].1)
}

/// The values a container refers to, in the order of its references: the
/// members of an array; all keys of a dictionary, then all its values.
pub open spec fn members(v: Value) -> Seq<Value> {
    match v {
        Value::Array(items) => items,
        Value::Dictionary(entries) => key_values(entries) + entry_values(entries),
        _ => Seq::empty(),
    }
}

/// `listed` with `leaf` added at the end unless it is there already.
pub open spec fn absorb_leaf(listed: Seq<Value>, leaf: Value) -> Seq<Value> {
    if listed.contains(leaf) {
        listed
    } else {
        listed.push(leaf)
    }
}

/// The list of distinct values after `v` and everything below it was
/// met: nothing changes if `v` is listed already; otherwise `v` is added,
/// and then its members are met in order.
pub open spec fn absorb(listed: Seq<Value>, v: Value) -> Seq<Value>
    decreases v, 0nat,
{
    if listed.contains(v) {
        listed
    } else {
        match v {
            Value::Array(items) => absorb_items(listed.push(v), items, items.len()),
            Value::Dictionary(entries) => absorb_values(
                absorb_keys(listed.push(v), entries, entries.len()),
                entries,
                entries.len(),
            ),
            _ => listed.push(v),
        }
    }
}

/// The list after the first `n` of `items` were met.
pub open spec fn absorb_items(listed: Seq<Value>, items: Seq<Value>, n: nat) -> Seq<Value>
    decreases items, n,
{
    if n == 0 || n > items.len() {
        listed
    } else {
        absorb(absorb_items(listed, items, (n - 1) as nat), items[n - 1])
    }
}

/// The list after the first `n` keys of `entries` were met.
pub open spec fn absorb_keys(listed: Seq<Value>, entries: Seq<(Seq<char>, Value)>, n: nat) -> Seq<
    Value,
>
    decreases n,
{
    if n == 0 || n > entries.len() {
        listed
    } else {
        absorb_leaf(absorb_keys(listed, entries, (n - 1) as nat), Value::String(entries[n - 1].0))
    }
}

/// The list after the values of the first `n` of `entries` were met.
pub open spec fn absorb_values(listed: Seq<Value>, entries: Seq<(Seq<char>, Value)>, n: nat) -> Seq<
    Value,
>
    decreases entries, n,
{
    if n == 0 || n > entries.len() {
        listed
    } else {
        absorb(absorb_values(listed, entries, (n - 1) as nat), entries[n - 1].1)
    }
}

/// The objects of the binary form of `v`, in index order. The root is first.
pub open spec fn objects_of(v: Value) -> Seq<Value> {
    absorb(Seq::empty(), v)
}

/// The index under which `v` is listed.
pub open spec fn position(listed: Seq<Value>, v: Value) -> int {
    choose|i: int| 0 <= i < listed.len() && listed[i] == v
}

/// The object indices of the members of `v`.
pub open spec fn links_of(listed: Seq<Value>, v: Value) -> Seq<u64> {
    Seq::new(members(v).len(), |j: int| position(listed, members(v)[j]) as u64)
}

/// The low half of a marker that selects the width `w`.
pub open spec fn info_of_width(w: nat) -> nat {
    if w == 1 {
        0
    } else if w == 2 {
        1
    } else if w == 4 {
        2
    } else {
        3
    }
}

/// A count record: a marker that selects the narrowest width for `count`,
/// then `count` in that many bytes.
pub open spec fn count_record(count: nat) -> Seq<u8> {
    seq![(0x10 + info_of_width(width_for(count))) as u8] + be_bytes(count, width_for(count))
}

/// The marker of an object of type `code` that holds `len` bytes or
/// members: a length below 15 sits in the marker's low half; any other is
/// announced by 15 there and follows as a count record.
pub open spec fn length_prefix(code: nat, len: nat) -> Seq<u8> {
    if len < 15 {
        seq![(code * 16 + len) as u8]
    } else {
        seq![(code * 16 + 15) as u8] + count_record(len)
    }
}

/// An integer in the narrowest width that holds it.
pub open spec fn integer_bytes(n: nat) -> Seq<u8> {
    seq![(0x10 + info_of_width(width_for(n))) as u8] + be_bytes(n, width_for(n))
}

/// A real number: four bytes where a single holds it exactly, else eight.
pub open spec fn float_bytes(bits: u64) -> Seq<u8> {
    match single_of_double(bits) {
        Some(single) => seq![0x20u8] + be_bytes(single as nat, 4),
        None => seq![0x23u8] + be_bytes(bits as nat, 8),
    }
}

/// What an object holds before its references: all of a value that is no
/// container, marker and count of one that is.
pub open spec fn head_bytes(v: Value) -> Seq<u8> {
    match v {
        Value::Array(items) => length_prefix(0xA, items.len()),
        Value::Dictionary(entries) => length_prefix(0xD, entries.len()),
        Value::Boolean(b) => if b {
            seq![0x09u8]
        } else {
            seq![0x08u8]
        },
        Value::Integer(n) => integer_bytes(n as nat),
        Value::Float(bits) => float_bytes(bits),
        Value::String(text) => length_prefix(0x5, encode_utf8(text).len()) + encode_utf8(text),
        Value::Date(secs, nanos) => seq![0x33u8] + be_bytes(
            reference_seconds(secs as int, nanos as int) as nat,
            8,
        ),
        Value::Data(bytes) => length_prefix(0x4, bytes.len()) + bytes,
    }
}

/// The references `links`, each in `width` bytes.
pub open spec fn link_bytes(links: Seq<u64>, width: nat) -> Seq<u8>
    decreases links.len(),
{
    if links.len() == 0 {
        Seq::empty()
    } else {
        link_bytes(links.drop_last(), width) + be_bytes(links.last() as nat, width)
    }
}

/// One object: its head, then its references.
pub open spec fn chunk_of(v: Value, links: Seq<u64>, width: nat) -> Seq<u8> {
    head_bytes(v) + link_bytes(links, width)
}

/// The first `n` chunks, one after the other.
pub open spec fn joined(chunks: Seq<Seq<u8>>, n: nat) -> Seq<u8>
    decreases n,
{
    if n == 0 || n > chunks.len() {
        Seq::empty()
    } else {
        joined(chunks, (n - 1) as nat) + chunks[n - 1]
    }
}

/// The chunks of all objects of a list, with references of `width` bytes.
pub open spec fn chunks_of(listed: Seq<Value>, width: nat) -> Seq<Seq<u8>> {
    Seq::new(listed.len(), |i: int| chunk_of(listed[i], links_of(listed, listed[i]), width))
}

/// Where chunk `i` starts in the buffer: after the magic bytes and the
/// chunks before it.
pub open spec fn offset_of(chunks: Seq<Seq<u8>>, i: nat) -> nat {
    8 + joined(chunks, i).len()
}

/// The offset table: the first `n` offsets, each in `width` bytes.
pub open spec fn offset_table(offsets: Seq<u64>, width: nat, n: nat) -> Seq<u8>
    decreases n,
{
    if n == 0 || n > offsets.len() {
        Seq::empty()
    } else {
        offset_table(offsets, width, (n - 1) as nat) + be_bytes(offsets[n - 1] as nat, width)
    }
}

/// The 32 bytes of the trailer.
pub open spec fn trailer_bytes(
    offset_size: nat,
    ref_size: nat,
    objects: nat,
    root: nat,
    table_start: nat,
) -> Seq<u8> {
    seq![0u8, 0u8, 0u8, 0u8, 0u8, 0u8, offset_size as u8, ref_size as u8] + be_bytes(objects, 8)
        + be_bytes(root, 8) + be_bytes(table_start, 8)
}

/// The binary form of a value without negative integers.
pub open spec fn spec_encode(v: Value) -> Seq<u8> {
    let listed = objects_of(v);
    let ref_size = width_for(listed.len());
    let chunks = chunks_of(listed, ref_size);
    let offsets = Seq::new(listed.len(), |i: int| offset_of(chunks, i as nat) as u64);
    let offset_size = width_for(offset_of(chunks, (listed.len() - 1) as nat));
    let body = magic() + joined(chunks, chunks.len());
    body + offset_table(offsets, offset_size, offsets.len()) + trailer_bytes(
        offset_size,
        ref_size,
        listed.len(),
        0,
        body.len(),
    )
}

/// `longer` starts with all of `shorter`.
pub open spec fn extends(shorter: Seq<Value>, longer: Seq<Value>) -> bool {
    shorter.len() <= longer.len() && forall|i: int|
        0 <= i < shorter.len() ==> longer[i] == shorter[i]
}

/// Meeting a value keeps what was listed, and lists the value.
pub proof fn lemma_absorb_extends(listed: Seq<Value>, v: Value)
    ensures
        extends(listed, absorb(listed, v)),
        absorb(listed, v).contains(v),
    decreases v, 0nat,
{
    if !listed.contains(v) {
        let first = listed.push(v);
        assert(first[listed.len() as int] == v);
        match v {
            Value::Array(items) => {
                lemma_absorb_items_extends(first, items, items.len());
                assert(absorb(listed, v)[listed.len() as int] == v);
            },
            Value::Dictionary(entries) => {
                lemma_absorb_keys_extends(first, entries, entries.len());
                lemma_absorb_values_extends(
                    absorb_keys(first, entries, entries.len()),
                    entries,
                    entries.len(),
                );
                assert(absorb(listed, v)[listed.len() as int] == v);
            },
            _ => {},
        }
    }
}

pub proof fn lemma_absorb_items_extends(listed: Seq<Value>, items: Seq<Value>, n: nat)
    ensures
        extends(listed, absorb_items(listed, items, n)),
    decreases items, n,
{
    if !(n == 0 || n > items.len()) {
        lemma_absorb_items_extends(listed, items, (n - 1) as nat);
        lemma_absorb_extends(absorb_items(listed, items, (n - 1) as nat), items[n - 1]);
    }
}

pub proof fn lemma_absorb_keys_extends(
    listed: Seq<Value>,
    entries: Seq<(Seq<char>, Value)>,
    n: nat,
)
    ensures
        extends(listed, absorb_keys(listed, entries, n)),
    decreases n,
{
    if !(n == 0 || n > entries.len()) {
        lemma_absorb_keys_extends(listed, entries, (n - 1) as nat);
    }
}

pub proof fn lemma_absorb_values_extends(
    listed: Seq<Value>,
    entries: Seq<(Seq<char>, Value)>,
    n: nat,
)
    ensures
        extends(listed, absorb_values(listed, entries, n)),
    decreases entries, n,
{
    if !(n == 0 || n > entries.len()) {
        lemma_absorb_values_extends(listed, entries, (n - 1) as nat);
        lemma_absorb_extends(absorb_values(listed, entries, (n - 1) as nat), entries[n - 1].1);
    }
}

/// No value is listed twice.
pub open spec fn distinct(listed: Seq<Value>) -> bool {
    forall|i: int, j: int| 0 <= i < j < listed.len() ==> listed[i] != listed[j]
}

/// Meeting a value never lists a value a second time.
pub proof fn lemma_absorb_distinct(listed: Seq<Value>, v: Value)
    requires
        distinct(listed),
    ensures
        distinct(absorb(listed, v)),
    decreases v, 0nat,
{
    if !listed.contains(v) {
        let first = listed.push(v);
        lemma_push_distinct(listed, v);
        match v {
            Value::Array(items) => {
                lemma_absorb_items_distinct(first, items, items.len());
            },
            Value::Dictionary(entries) => {
                lemma_absorb_keys_distinct(first, entries, entries.len());
                lemma_absorb_values_distinct(
                    absorb_keys(first, entries, entries.len()),
                    entries,
                    entries.len(),
                );
            },
            _ => {},
        }
    }
}

pub proof fn lemma_push_distinct(listed: Seq<Value>, v: Value)
    requires
        distinct(listed),
        !listed.contains(v),
    ensures
        distinct(listed.push(v)),
{
    let next = listed.push(v);
    assert forall|i: int, j: int| 0 <= i < j < next.len() implies next[i] != next[j] by {
        if j == listed.len() {
            assert(listed[i] == next[i]);
            if next[i] == v {
                assert(listed.contains(v));
            }
        }
    }
}

pub proof fn lemma_absorb_items_distinct(listed: Seq<Value>, items: Seq<Value>, n: nat)
    requires
        distinct(listed),
    ensures
        distinct(absorb_items(listed, items, n)),
    decreases items, n,
{
    if !(n == 0 || n > items.len()) {
        lemma_absorb_items_distinct(listed, items, (n - 1) as nat);
        lemma_absorb_distinct(absorb_items(listed, items, (n - 1) as nat), items[n - 1]);
    }
}

pub proof fn lemma_absorb_keys_distinct(
    listed: Seq<Value>,
    entries: Seq<(Seq<char>, Value)>,
    n: nat,
)
    requires
        distinct(listed),
    ensures
        distinct(absorb_keys(listed, entries, n)),
    decreases n,
{
    if !(n == 0 || n > entries.len()) {
        lemma_absorb_keys_distinct(listed, entries, (n - 1) as nat);
        let before = absorb_keys(listed, entries, (n - 1) as nat);
        let key = Value::String(entries[n - 1].0);
        if !before.contains(key) {
            lemma_push_distinct(before, key);
        }
    }
}

pub proof fn lemma_absorb_values_distinct(
    listed: Seq<Value>,
    entries: Seq<(Seq<char>, Value)>,
    n: nat,
)
    requires
        distinct(listed),
    ensures
        distinct(absorb_values(listed, entries, n)),
    decreases entries, n,
{
    if !(n == 0 || n > entries.len()) {
        lemma_absorb_values_distinct(listed, entries, (n - 1) as nat);
        lemma_absorb_distinct(absorb_values(listed, entries, (n - 1) as nat), entries[n - 1].1);
    }
}

/// In a list without repetition, references that name the members of an
/// object are the references the binary form prescribes.
pub proof fn lemma_links_of(listed: Seq<Value>, i: int, links: Seq<u64>)
    requires
        distinct(listed),
        0 <= i < listed.len(),
        linked(listed, i, links),
    ensures
        links == links_of(listed, listed[i]),
{
    let wanted = links_of(listed, listed[i]);
    assert forall|j: int| 0 <= j < links.len() implies links[j] == wanted[j] by {
        let m = members(listed[i])[j];
        let at = links[j] as int;
        assert(0 <= at < listed.len() && listed[at] == m);
        let p = position(listed, m);
        assert(0 <= p < listed.len() && listed[p] == m);
        if p < at {
            assert(listed[p] != listed[at]);
        } else if at < p {
            assert(listed[at] != listed[p]);
        }
    }
    assert(links =~= wanted);
}

/// Whether `links` are the indices under which the members of object `i`
/// are listed.
pub open spec fn linked(listed: Seq<Value>, i: int, links: Seq<u64>) -> bool {
    links.len() == members(listed[i]).len() && forall|j: int|
        0 <= j < links.len() ==> (#[trigger] links[j]) < listed.len() && listed[links[j] as int]
            == members(listed[i])[j]
}

/// References stay right when more values are listed.
pub proof fn lemma_linked_extends(before: Seq<Value>, after: Seq<Value>, i: int, links: Seq<u64>)
    requires
        extends(before, after),
        0 <= i < before.len(),
        linked(before, i, links),
    ensures
        linked(after, i, links),
{
    assert forall|j: int| 0 <= j < links.len() implies (#[trigger] links[j]) < after.len()
        && after[links[j] as int] == members(after[i])[j] by {
        assert(links[j] < before.len());
    }
}

/// No listed integer is negative.
pub open spec fn integers_fit(listed: Seq<Value>) -> bool {
    forall|i: int|
        0 <= i < listed.len() ==> ((#[trigger] listed[i]) matches Value::Integer(n) ==> n >= 0)
}

/// How the state after collecting `v` relates to the state before: what
/// was listed stays, with its references; every new object has its
/// references; and `index` is where `v` is listed.
pub open spec fn collected(
    old_values: Seq<Value>,
    old_links: Seq<Vec<u64>>,
    new_values: Seq<Value>,
    new_links: Seq<Vec<u64>>,
    v: Value,
    index: u64,
) -> bool {
    &&& extends(old_values, new_values)
    &&& new_links.len() == new_values.len()
    &&& forall|i: int| 0 <= i < old_values.len() ==> (#[trigger] new_links[i]) == old_links[i]
    &&& forall|i: int|
        old_values.len() <= i < new_values.len() ==> linked(
            new_values,
            i,
            (#[trigger] new_links[i])@,
        )
    &&& index < new_values.len()
    &&& new_values[index as int] == v
}

/// The value with every date in it replaced by the timestamp that
/// stands for all timestamps with the same double. Two values have the
/// same binary form exactly when this makes them the same.
pub open spec fn coded(v: Value) -> Value
    decreases v,
{
    match v {
        Value::Array(items) => Value::Array(coded_items(items)),
        Value::Dictionary(entries) => Value::Dictionary(coded_entries(entries)),
        Value::Date(secs, nanos) => Value::Date(canon(secs, nanos).0, canon(secs, nanos).1),
        _ => v,
    }
}

pub open spec fn coded_items(items: Seq<Value>) -> Seq<Value>
    decreases items,
{
    if items.len() == 0 {
        Seq::empty()
    } else {
        coded_items(items.drop_last()).push(coded(items.last()))
    }
}

pub open spec fn coded_entries(entries: Seq<(Seq<char>, Value)>) -> Seq<(Seq<char>, Value)>
    decreases entries,
{
    if entries.len() == 0 {
        Seq::empty()
    } else {
        coded_entries(entries.drop_last()).push((entries.last().0, coded(entries.last().1)))
    }
}

pub proof fn lemma_coded_items(items: Seq<Value>)
    ensures
        coded_items(items).len() == items.len(),
        forall|i: int| 0 <= i < items.len() ==> (#[trigger] coded_items(items)[i]) == coded(items[i]),
    decreases items.len(),
{
    if items.len() > 0 {
        lemma_coded_items(items.drop_last());
    }
}

pub proof fn lemma_coded_entries(entries: Seq<(Seq<char>, Value)>)
    ensures
        coded_entries(entries).len() == entries.len(),
        forall|i: int|
            0 <= i < entries.len() ==> (#[trigger] coded_entries(entries)[i]) == (
                entries[i].0,
                coded(entries[i].1),
            ),
    decreases entries.len(),
{
    if entries.len() > 0 {
        lemma_coded_entries(entries.drop_last());
    }
}

/// Every date in the value, at any depth, comes back from its double exactly.
pub open spec fn dates_exact(v: Value) -> bool
    decreases v,
{
    match v {
        Value::Array(items) => all_dates_exact(items),
        Value::Dictionary(entries) => all_value_dates_exact(entries),
        Value::Date(secs, nanos) => exact(secs, nanos),
        _ => true,
    }
}

pub open spec fn all_dates_exact(items: Seq<Value>) -> bool
    decreases items,
{
    forall|i: int| 0 <= i < items.len() ==> dates_exact(#[trigger] items[i])
}

pub open spec fn all_value_dates_exact(entries: Seq<(Seq<char>, Value)>) -> bool
    decreases entries,
{
    forall|i: int| 0 <= i < entries.len() ==> dates_exact((#[trigger] entries[i]).1)
}

/// A value whose dates are exact is its own coded form.
pub proof fn lemma_coded_exact(v: Value)
    requires
        dates_exact(v),
    ensures
        coded(v) == v,
    decreases v,
{
    match v {
        Value::Array(items) => {
            lemma_coded_items(items);
            assert forall|i: int| 0 <= i < items.len() implies coded_items(items)[i] == items[i] by {
                lemma_coded_exact(items[i]);
            }
            assert(coded_items(items) =~= items);
        },
        Value::Dictionary(entries) => {
            lemma_coded_entries(entries);
            assert forall|i: int| 0 <= i < entries.len() implies coded_entries(entries)[i]
                == entries[i] by {
                lemma_coded_exact(entries[i].1);
            }
            assert(coded_entries(entries) =~= entries);
        },
        Value::Date(secs, nanos) => {
            lemma_canon_exact(secs, nanos);
        },
        _ => {},
    }
}

/// Coding changes no integer.
pub proof fn lemma_coded_encodable(v: Value)
    ensures
        encodable(coded(v)) == encodable(v),
    decreases v,
{
    match v {
        Value::Array(items) => {
            lemma_coded_items(items);
            assert forall|i: int| 0 <= i < items.len() implies encodable(coded_items(items)[i])
                == encodable(items[i]) by {
                lemma_coded_encodable(items[i]);
            }
            if all_encodable(items) {
                assert forall|i: int| 0 <= i < coded_items(items).len() implies encodable(
                    #[trigger] coded_items(items)[i],
                ) by {
                    assert(encodable(items[i]));
                }
            } else {
                let i = choose|i: int| 0 <= i < items.len() && !encodable(items[i]);
                assert(!encodable(coded_items(items)[i]));
            }
        },
        Value::Dictionary(entries) => {
            lemma_coded_entries(entries);
            assert forall|i: int| 0 <= i < entries.len() implies encodable(
                coded_entries(entries)[i].1,
            ) == encodable(entries[i].1) by {
                lemma_coded_encodable(entries[i].1);
            }
            if all_values_encodable(entries) {
                assert forall|i: int| 0 <= i < coded_entries(entries).len() implies encodable(
                    (#[trigger] coded_entries(entries)[i]).1,
                ) by {
                    assert(encodable(entries[i].1));
                }
            } else {
                let i = choose|i: int| 0 <= i < entries.len() && !encodable(entries[i].1);
                assert(!encodable(coded_entries(entries)[i].1));
            }
        },
        _ => {},
    }
}

/// Whether two property lists have the same binary form: the same value,
/// but for dates, which need only have the same double.
#[verifier::loop_isolation(false)]
pub fn same_coded(a: &Plist, b: &Plist) -> (same: bool)
    ensures
        same == (coded(a@) == coded(b@)),
    decreases a,
{
    match (a, b) {
        (Plist::Array(x), Plist::Array(y)) => {
            proof {
                lemma_items_view(x@);
                lemma_items_view(y@);
                lemma_coded_items(items_view(x@));
                lemma_coded_items(items_view(y@));
            }
            if x.len() != y.len() {
                return false;
            }
            let mut i: usize = 0;
            while i < x.len()
                invariant
                    i <= x@.len(),
                    x@.len() == y@.len(),
                    forall|j: int| 0 <= j < i ==> coded((#[trigger] x@[j])@) == coded(y@[j]@),
                decreases x@.len() - i,
            {
                if !same_coded(&x[i], &y[i]) {
                    assert(coded_items(items_view(x@))[i as int] != coded_items(items_view(y@))[i as int]);
                    return false;
                }
                i += 1;
            }
            assert(coded_items(items_view(x@)) =~= coded_items(items_view(y@)));
            true
        },
        (Plist::Dictionary(x), Plist::Dictionary(y)) => {
            proof {
                lemma_entries_view(x@);
                lemma_entries_view(y@);
                lemma_coded_entries(entries_view(x@));
                lemma_coded_entries(entries_view(y@));
            }
            if x.len() != y.len() {
                return false;
            }
            let mut i: usize = 0;
            while i < x.len()
                invariant
                    i <= x@.len(),
                    x@.len() == y@.len(),
                    forall|j: int|
                        0 <= j < i ==> (#[trigger] x@[j]).0@ == y@[j].0@ && coded(x@[j].1@)
                            == coded(y@[j].1@),
                decreases x@.len() - i,
            {
                if !same_text(x[i].0.as_str(), y[i].0.as_str()) {
                    assert(coded_entries(entries_view(x@))[i as int] != coded_entries(
                        entries_view(y@),
                    )[i as int]);
                    return false;
                }
                if !same_coded(&x[i].1, &y[i].1) {
                    assert(coded_entries(entries_view(x@))[i as int] != coded_entries(
                        entries_view(y@),
                    )[i as int]);
                    return false;
                }
                i += 1;
            }
            assert(coded_entries(entries_view(x@)) =~= coded_entries(entries_view(y@)));
            true
        },
        (Plist::Date(s, m), Plist::Date(t, n)) => {
            proof {
                lemma_canon_same((*s, *m), (*t, *n));
            }
            date_from_timestamp(*s, *m) == date_from_timestamp(*t, *n)
        },
        (Plist::Date(_, _), _) => false,
        (_, Plist::Date(_, _)) => false,
        (Plist::Array(_), _) => false,
        (_, Plist::Array(_)) => false,
        (Plist::Dictionary(_), _) => false,
        (_, Plist::Dictionary(_)) => false,
        _ => same_value(a, b),
    }
}

/// Something that got an object index: a node of the tree, or the key of
/// a dictionary entry.
#[derive(Clone, Copy)]
pub enum Seen<'a> {
    Node(&'a Plist),
    Key(&'a String),
}

impl<'a> Seen<'a> {
    /// The value that the object stands for, in its coded form.
    pub open spec fn value(self) -> Value {
        match self {
            Seen::Node(p) => coded(p@),
            Seen::Key(k) => Value::String(k@),
        }
    }

    /// Whether both stand for the same value.
    pub fn matches(&self, other: &Seen<'a>) -> (same: bool)
        ensures
            same == (self.value() == other.value()),
    {
        match (self, other) {
            (Seen::Node(a), Seen::Node(b)) => same_coded(a, b),
            (Seen::Node(a), Seen::Key(k)) => match a {
                Plist::String(text) => same_text(text.as_str(), k.as_str()),
                _ => false,
            },
            (Seen::Key(k), Seen::Node(b)) => match b {
                Plist::String(text) => same_text(k.as_str(), text.as_str()),
                _ => false,
            },
            (Seen::Key(a), Seen::Key(b)) => same_text(a.as_str(), b.as_str()),
        }
    }
}

/// The values of what was seen, in index order.
pub open spec fn seen_values(memo: Seq<Seen>) -> Seq<Value> {
    Seq::new(memo.len(), |i: int| memo[i].value())
}

/// The index of the first object that stands for the same value as `wanted`.
pub fn find_seen<'a>(memo: &Vec<Seen<'a>>, wanted: &Seen<'a>) -> (found: Option<usize>)
    ensures
        match found {
            Some(i) => i < memo@.len() && memo@[i as int].value() == wanted.value() && forall|
                j: int,
            | 0 <= j < i ==> (#[trigger] memo@[j]).value() != wanted.value(),
            None => !seen_values(memo@).contains(wanted.value()),
        },
{
    let mut i: usize = 0;
    while i < memo.len()
        invariant
            i <= memo@.len(),
            forall|j: int| 0 <= j < i ==> (#[trigger] memo@[j]).value() != wanted.value(),
        decreases memo@.len() - i,
    {
        if memo[i].matches(wanted) {
            return Some(i);
        }
        i += 1;
    }
    assert(!seen_values(memo@).contains(wanted.value())) by {
        if seen_values(memo@).contains(wanted.value()) {
            let j = choose|j: int|
                0 <= j < seen_values(memo@).len() && seen_values(memo@)[j] == wanted.value();
            assert(memo@[j].value() == wanted.value());
        }
    }
    None
}

/// Whether the binary form can hold the value: no integer in it is negative.
#[verifier::loop_isolation(false)]
pub fn check_encodable(value: &Plist) -> (ok: bool)
    ensures
        ok == encodable(value@),
    decreases value,
{
    match value {
        Plist::Array(items) => {
            proof {
                lemma_items_view(items@);
            }
            let mut i: usize = 0;
            while i < items.len()
                invariant
                    i <= items@.len(),
                    forall|j: int| 0 <= j < i ==> encodable((#[trigger] items@[j])@),
                decreases items@.len() - i,
            {
                if !check_encodable(&items[i]) {
                    assert(!encodable(items_view(items@)[i as int]));
                    return false;
                }
                i += 1;
            }
            true
        },
        Plist::Dictionary(entries) => {
            proof {
                lemma_entries_view(entries@);
            }
            let mut i: usize = 0;
            while i < entries.len()
                invariant
                    i <= entries@.len(),
                    forall|j: int| 0 <= j < i ==> encodable((#[trigger] entries@[j]).1@),
                decreases entries@.len() - i,
            {
                if !check_encodable(&entries[i].1) {
                    assert(!encodable(entries_view(entries@)[i as int].1));
                    return false;
                }
                i += 1;
            }
            true
        },
        Plist::Integer(n) => *n >= 0,
        _ => true,
    }
}

/// The greatest of the offsets; 0 if there are none.
pub open spec fn max_of(offsets: Seq<u64>) -> nat
    decreases offsets.len(),
{
    if offsets.len() == 0 {
        0
    } else {
        let front = max_of(offsets.drop_last());
        if front >= offsets.last() {
            front
        } else {
            offsets.last() as nat
        }
    }
}

/// Of offsets that never fall, the last is the greatest.
pub proof fn lemma_max_of_rising(offsets: Seq<u64>)
    requires
        offsets.len() > 0,
        forall|i: int, j: int| 0 <= i <= j < offsets.len() ==> offsets[i] <= offsets[j],
    ensures
        max_of(offsets) == offsets.last(),
    decreases offsets.len(),
{
    if offsets.len() > 1 {
        let front = offsets.drop_last();
        assert forall|i: int, j: int| 0 <= i <= j < front.len() implies front[i] <= front[j] by {
            assert(front[i] == offsets[i] && front[j] == offsets[j]);
        }
        lemma_max_of_rising(front);
        assert(front.last() == offsets[offsets.len() - 2]);
    } else {
        assert(max_of(offsets.drop_last()) == 0);
    }
}

/// The joined chunks grow with every chunk.
pub proof fn lemma_joined_monotone(chunks: Seq<Seq<u8>>, i: nat, j: nat)
    requires
        i <= j <= chunks.len(),
    ensures
        joined(chunks, i).len() <= joined(chunks, j).len(),
    decreases j,
{
    if i < j {
        lemma_joined_monotone(chunks, i, (j - 1) as nat);
    }
}

pub struct BinaryWriter {
    /// How many objects were collected.
    pub objects: u64,
    /// Where each object starts in the buffer, in index order.
    pub offsets: Vec<u64>,
    /// The width of an object reference: 1, 2, 4 or 8 bytes.
    pub ref_size: u8,
    /// The width of an entry of the offset table: 1, 2, 4 or 8 bytes.
    pub offset_size: u8,
}

impl BinaryWriter {
    pub fn new() -> (w: Self)
        ensures
            w.objects == 0,
            w.offsets@ == Seq::<u64>::empty(),
            w.ref_size == 1,
            w.offset_size == 1,
    {
        BinaryWriter { objects: 0, offsets: Vec::new(), ref_size: 1, offset_size: 1 }
    }

    /// The trailer for a buffer whose offset table starts at `offset_table_start`.
    pub fn generate_trailer(
        &self,
        root_index: usize,
        objects: usize,
        offset_table_start: u64,
    ) -> (r: Result<Vec<u8>, Error>)
        ensures
            r is Ok,
            r->Ok_0@ == trailer_bytes(
                self.offset_size as nat,
                self.ref_size as nat,
                objects as nat,
                root_index as nat,
                offset_table_start as nat,
            ),
    {
        let mut trailer: Vec<u8> = Vec::new();
        trailer.push(0);
        trailer.push(0);
        trailer.push(0);
        trailer.push(0);
        trailer.push(0);
        trailer.push(0);
        trailer.push(self.offset_size);
        trailer.push(self.ref_size);
        assert(trailer@ =~= seq![
            0u8,
            0u8,
            0u8,
            0u8,
            0u8,
            0u8,
            self.offset_size,
            self.ref_size,
        ]);
        push_be(&mut trailer, objects as u64, 8);
        push_be(&mut trailer, root_index as u64, 8);
        push_be(&mut trailer, offset_table_start, 8);
        Ok(trailer)
    }

    /// The offset table: every recorded offset in `offset_size` bytes.
    /// Fails when there is an offset to write and the width is none of
    /// 1, 2, 4 and 8.
    pub fn generate_offset_table(&self) -> (r: Result<Vec<u8>, Error>)
        ensures
            match r {
                Ok(table) => (self.offsets@.len() == 0 || is_width(self.offset_size as nat))
                    && table@ == offset_table(
                    self.offsets@,
                    self.offset_size as nat,
                    self.offsets@.len(),
                ),
                Err(e) => e == Error::MalformedTrailer && self.offsets@.len() > 0 && !is_width(
                    self.offset_size as nat,
                ),
            },
    {
        let mut table: Vec<u8> = Vec::new();
        let n = self.offsets.len();
        if n == 0 {
            return Ok(table);
        }
        let w = self.offset_size;
        if !(w == 1 || w == 2 || w == 4 || w == 8) {
            return Err(Error::MalformedTrailer);
        }
        let mut i: usize = 0;
        while i < n
            invariant
                i <= n,
                n == self.offsets@.len(),
                w == self.offset_size,
                is_width(w as nat),
                table@ == offset_table(self.offsets@, w as nat, i as nat),
            decreases n - i,
        {
            push_be(&mut table, self.offsets[i], w as usize);
            i += 1;
        }
        Ok(table)
    }

    /// An object reference in `ref_size` bytes.
    pub fn serialize_ref(&self, index: u64) -> (bytes: Vec<u8>)
        requires
            is_width(self.ref_size as nat),
        ensures
            bytes@ == be_bytes(index as nat, self.ref_size as nat),
    {
        let mut bytes: Vec<u8> = Vec::new();
        push_be(&mut bytes, index, self.ref_size as usize);
        assert(bytes@ =~= be_bytes(index as nat, self.ref_size as nat));
        bytes
    }

    /// The marker of an object of type `code` with `len` bytes or members,
    /// and the count record that follows it, if any.
    pub fn serialize_length(&self, code: u8, len: usize) -> (r: (u8, Vec<u8>))
        ensures
            seq![r.0] + r.1@ == length_prefix((code % 16) as nat, len as nat),
    {
        if len < 15 {
            let marker = (code % 16) * 16 + len as u8;
            let rest: Vec<u8> = Vec::new();
            assert(seq![marker] + rest@ =~= length_prefix((code % 16) as nat, len as nat));
            (marker, rest)
        } else {
            let marker = (code % 16) * 16 + 15;
            let rest = self.serialize_count(len);
            (marker, rest)
        }
    }

    /// A count record for `count`.
    pub fn serialize_count(&self, count: usize) -> (bytes: Vec<u8>)
        ensures
            bytes@ == count_record(count as nat),
    {
        let w = minimal_width(count as u64);
        let info: u8 = if w == 1 {
            0
        } else if w == 2 {
            1
        } else if w == 4 {
            2
        } else {
            3
        };
        let mut bytes: Vec<u8> = Vec::new();
        bytes.push(0x10 + info);
        assert(bytes@ =~= seq![(0x10 + info_of_width(width_for(count as nat))) as u8]);
        push_be(&mut bytes, count as u64, w as usize);
        bytes
    }

    /// Marker and count record of a data object.
    pub fn serialize_data(&self, code: u8, value: &Vec<u8>) -> (r: (u8, Vec<u8>))
        ensures
            seq![r.0] + r.1@ == length_prefix((code % 16) as nat, value@.len()),
    {
        self.serialize_length(code, value.len())
    }

    /// Marker and payload of a date, given as a Unix timestamp of seconds
    /// and nanoseconds: the double nearest to its seconds from the
    /// reference epoch, which lies 978,307,200 seconds after 1970.
    pub fn serialize_date(&self, code: u8, secs: i64, nanos: u32) -> (r: (u8, Vec<u8>))
        ensures
            r.0 == (code % 16) * 16 + 3,
            r.1@ == be_bytes(reference_seconds(secs as int, nanos as int) as nat, 8),
    {
        let value = date_from_timestamp(secs, nanos);
        let mut bytes: Vec<u8> = Vec::new();
        push_be(&mut bytes, value, 8);
        assert(bytes@ =~= be_bytes(value as nat, 8));
        ((code % 16) * 16 + 3, bytes)
    }

    /// Marker and payload of a real number, given as the bits of its
    /// double: a single where that loses nothing, else the double.
    pub fn serialize_float(&self, code: u8, value: u64) -> (r: (u8, Vec<u8>))
        ensures
            match single_of_double(value) {
                Some(single) => r.0 == (code % 16) * 16 && r.1@ == be_bytes(single as nat, 4),
                None => r.0 == (code % 16) * 16 + 3 && r.1@ == be_bytes(value as nat, 8),
            },
    {
        let mut bytes: Vec<u8> = Vec::new();
        match narrow(value) {
            Some(single) => {
                push_be(&mut bytes, single as u64, 4);
                assert(bytes@ =~= be_bytes(single as nat, 4));
                ((code % 16) * 16, bytes)
            },
            None => {
                push_be(&mut bytes, value, 8);
                assert(bytes@ =~= be_bytes(value as nat, 8));
                ((code % 16) * 16 + 3, bytes)
            },
        }
    }

    /// Marker and payload of an integer that is not negative.
    pub fn serialize_integer(&self, code: u8, value: i64) -> (r: (u8, Vec<u8>))
        requires
            value >= 0,
        ensures
            r.0 == (code % 16) * 16 + info_of_width(width_for(value as nat)),
            r.1@ == be_bytes(value as nat, width_for(value as nat)),
    {
        let w = minimal_width(value as u64);
        let info: u8 = if w == 1 {
            0
        } else if w == 2 {
            1
        } else if w == 4 {
            2
        } else {
            3
        };
        let mut bytes: Vec<u8> = Vec::new();
        push_be(&mut bytes, value as u64, w as usize);
        assert(bytes@ =~= be_bytes(value as nat, width_for(value as nat)));
        ((code % 16) * 16 + info, bytes)
    }

    /// Chooses both widths: the reference width from the number of
    /// objects, the offset width from the greatest recorded offset.
    pub fn calculate_sizes(&mut self)
        ensures
            final(self).ref_size as nat == width_for(old(self).objects as nat),
            final(self).offset_size as nat == width_for(max_of(old(self).offsets@)),
            final(self).objects == old(self).objects,
            final(self).offsets == old(self).offsets,
    {
        self.ref_size = minimal_width(self.objects);
        let n = self.offsets.len();
        let mut max_offset: u64 = 0;
        let mut i: usize = 0;
        assert(self.offsets@.subrange(0, 0) =~= Seq::<u64>::empty());
        while i < n
            invariant
                i <= n,
                n == self.offsets@.len(),
                self.offsets == old(self).offsets,
                self.objects == old(self).objects,
                self.ref_size as nat == width_for(old(self).objects as nat),
                max_offset as nat == max_of(self.offsets@.subrange(0, i as int)),
            decreases n - i,
        {
            proof {
                let next = self.offsets@.subrange(0, i + 1);
                assert(next.drop_last() =~= self.offsets@.subrange(0, i as int));
                assert(next.last() == self.offsets@[i as int]);
            }
            if self.offsets[i] > max_offset {
                max_offset = self.offsets[i];
            }
            i += 1;
        }
        assert(self.offsets@.subrange(0, n as int) =~= self.offsets@);
        self.offset_size = minimal_width(max_offset);
    }

    /// Gives the key of a dictionary entry its object index.
    pub fn collect_key<'a>(
        &mut self,
        key: &'a String,
        memo: &mut Vec<Seen<'a>>,
        links: &mut Vec<Vec<u64>>,
    ) -> (index: u64)
        requires
            old(links)@.len() == old(memo)@.len(),
        ensures
            seen_values(final(memo)@) == absorb_leaf(
                seen_values(old(memo)@),
                Value::String(key@),
            ),
            collected(
                seen_values(old(memo)@),
                old(links)@,
                seen_values(final(memo)@),
                final(links)@,
                Value::String(key@),
                index,
            ),
            integers_fit(seen_values(old(memo)@)) ==> integers_fit(seen_values(final(memo)@)),
            final(self).objects == final(memo)@.len(),
            final(self).offsets == old(self).offsets,
            final(self).ref_size == old(self).ref_size,
            final(self).offset_size == old(self).offset_size,
    {
        let wanted = Seen::Key(key);
        match find_seen(memo, &wanted) {
            Some(i) => {
                assert(seen_values(memo@)[i as int] == wanted.value());
                self.objects = memo.len() as u64;
                return i as u64;
            },
            None => {},
        }
        let k = memo.len();
        memo.push(wanted);
        links.push(Vec::new());
        self.objects = memo.len() as u64;
        proof {
            assert(seen_values(memo@) =~= seen_values(old(memo)@).push(Value::String(key@)));
        }
        k as u64
    }

    /// Gives `value` and everything below it object indices, and returns
    /// the index of `value`. `memo` lists what has an index; `links` holds
    /// for each listed object the indices of its members.
    #[verifier::loop_isolation(false)]
    pub fn collect_objects<'a>(
        &mut self,
        value: &'a Plist,
        memo: &mut Vec<Seen<'a>>,
        links: &mut Vec<Vec<u64>>,
    ) -> (index: u64)
        requires
            old(links)@.len() == old(memo)@.len(),
        ensures
            seen_values(final(memo)@) == absorb(seen_values(old(memo)@), coded(value@)),
            collected(
                seen_values(old(memo)@),
                old(links)@,
                seen_values(final(memo)@),
                final(links)@,
                coded(value@),
                index,
            ),
            encodable(value@) && integers_fit(seen_values(old(memo)@)) ==> integers_fit(
                seen_values(final(memo)@),
            ),
            final(self).objects == final(memo)@.len(),
            final(self).offsets == old(self).offsets,
            final(self).ref_size == old(self).ref_size,
            final(self).offset_size == old(self).offset_size,
        decreases value,
    {
        let wanted = Seen::Node(value);
        match find_seen(memo, &wanted) {
            Some(i) => {
                assert(seen_values(memo@)[i as int] == wanted.value());
                self.objects = memo.len() as u64;
                return i as u64;
            },
            None => {},
        }
        let ghost start = seen_values(memo@);
        let ghost fit = encodable(value@) && integers_fit(start);
        let k = memo.len();
        memo.push(wanted);
        links.push(Vec::new());
        self.objects = memo.len() as u64;
        let ghost first = seen_values(memo@);
        proof {
            assert(first =~= start.push(coded(value@)));
            lemma_coded_encodable(value@);
        }
        let mut refs: Vec<u64> = Vec::new();
        match value {
            Plist::Array(items) => {
                proof {
                    lemma_items_view(items@);
                    lemma_coded_items(items_view(items@));
                }
                let mut i: usize = 0;
                while i < items.len()
                    invariant
                        i <= items@.len(),
                        refs@.len() == i,
                        links@.len() == memo@.len(),
                        self.objects == memo@.len(),
                        self.offsets == old(self).offsets,
                        self.ref_size == old(self).ref_size,
                        self.offset_size == old(self).offset_size,
                        seen_values(memo@) == absorb_items(
                            first,
                            coded_items(items_view(items@)),
                            i as nat,
                        ),
                        extends(first, seen_values(memo@)),
                        fit ==> integers_fit(seen_values(memo@)),
                        forall|j: int| 0 <= j < k ==> (#[trigger] links@[j]) == old(links)@[j],
                        forall|j: int|
                            k < j < memo@.len() ==> linked(
                                seen_values(memo@),
                                j,
                                (#[trigger] links@[j])@,
                            ),
                        forall|j: int|
                            0 <= j < i ==> (#[trigger] refs@[j]) < memo@.len() && seen_values(
                                memo@,
                            )[refs@[j] as int] == coded(items@[j]@),
                    decreases items@.len() - i,
                {
                    let ghost before = seen_values(memo@);
                    let ghost links_before = links@;
                    assert(fit ==> encodable(items_view(items@)[i as int]));
                    let r = self.collect_objects(&items[i], memo, links);
                    proof {
                        let after = seen_values(memo@);
                        assert forall|j: int| k < j < memo@.len() implies linked(
                            after,
                            j,
                            (#[trigger] links@[j])@,
                        ) by {
                            if j < before.len() {
                                assert(links@[j] == links_before[j]);
                                lemma_linked_extends(before, after, j, links_before[j]@);
                            }
                        }
                    }
                    refs.push(r);
                    i += 1;
                }
            },
            Plist::Dictionary(entries) => {
                proof {
                    lemma_entries_view(entries@);
                    lemma_coded_entries(entries_view(entries@));
                }
                let ghost raw = entries_view(entries@);
                let ghost pairs = coded_entries(raw);
                let n = entries.len();
                let mut i: usize = 0;
                while i < n
                    invariant
                        i <= n,
                        refs@.len() == i,
                        links@.len() == memo@.len(),
                        self.objects == memo@.len(),
                        self.offsets == old(self).offsets,
                        self.ref_size == old(self).ref_size,
                        self.offset_size == old(self).offset_size,
                        seen_values(memo@) == absorb_keys(first, pairs, i as nat),
                        extends(first, seen_values(memo@)),
                        fit ==> integers_fit(seen_values(memo@)),
                        forall|j: int| 0 <= j < k ==> (#[trigger] links@[j]) == old(links)@[j],
                        forall|j: int|
                            k < j < memo@.len() ==> linked(
                                seen_values(memo@),
                                j,
                                (#[trigger] links@[j])@,
                            ),
                        forall|j: int|
                            0 <= j < i ==> (#[trigger] refs@[j]) < memo@.len() && seen_values(
                                memo@,
                            )[refs@[j] as int] == Value::String(entries@[j].0@),
                    decreases n - i,
                {
                    let ghost before = seen_values(memo@);
                    let ghost links_before = links@;
                    let r = self.collect_key(&entries[i].0, memo, links);
                    proof {
                        let after = seen_values(memo@);
                        assert forall|j: int| k < j < memo@.len() implies linked(
                            after,
                            j,
                            (#[trigger] links@[j])@,
                        ) by {
                            if j < before.len() {
                                assert(links@[j] == links_before[j]);
                                lemma_linked_extends(before, after, j, links_before[j]@);
                            }
                        }
                    }
                    refs.push(r);
                    i += 1;
                }
                let ghost keyed = seen_values(memo@);
                let mut i: usize = 0;
                while i < n
                    invariant
                        i <= n,
                        refs@.len() == n + i,
                        links@.len() == memo@.len(),
                        self.objects == memo@.len(),
                        self.offsets == old(self).offsets,
                        self.ref_size == old(self).ref_size,
                        self.offset_size == old(self).offset_size,
                        seen_values(memo@) == absorb_values(keyed, pairs, i as nat),
                        extends(first, seen_values(memo@)),
                        fit ==> integers_fit(seen_values(memo@)),
                        forall|j: int| 0 <= j < k ==> (#[trigger] links@[j]) == old(links)@[j],
                        forall|j: int|
                            k < j < memo@.len() ==> linked(
                                seen_values(memo@),
                                j,
                                (#[trigger] links@[j])@,
                            ),
                        forall|j: int|
                            0 <= j < n ==> (#[trigger] refs@[j]) < memo@.len() && seen_values(
                                memo@,
                            )[refs@[j] as int] == Value::String(entries@[j].0@),
                        forall|j: int|
                            0 <= j < i ==> (#[trigger] refs@[n + j]) < memo@.len() && seen_values(
                                memo@,
                            )[refs@[n + j] as int] == coded(entries@[j].1@),
                    decreases n - i,
                {
                    let ghost before = seen_values(memo@);
                    let ghost links_before = links@;
                    assert(fit ==> encodable(raw[i as int].1));
                    let r = self.collect_objects(&entries[i].1, memo, links);
                    proof {
                        let after = seen_values(memo@);
                        assert forall|j: int| k < j < memo@.len() implies linked(
                            after,
                            j,
                            (#[trigger] links@[j])@,
                        ) by {
                            if j < before.len() {
                                assert(links@[j] == links_before[j]);
                                lemma_linked_extends(before, after, j, links_before[j]@);
                            }
                        }
                    }
                    refs.push(r);
                    i += 1;
                }
            },
            _ => {},
        }
        proof {
            let now = seen_values(memo@);
            assert(now[k as int] == coded(value@));
            assert(members(coded(value@)).len() == refs@.len());
            assert forall|j: int| 0 <= j < refs@.len() implies (#[trigger] refs@[j]) < now.len()
                && now[refs@[j] as int] == members(now[k as int])[j] by {
                match value {
                    Plist::Array(items) => {},
                    Plist::Dictionary(entries) => {
                        let n = entries@.len();
                        if j >= n {
                            assert(refs@[n + (j - n)] == refs@[j]);
                        }
                    },
                    _ => {},
                }
            }
        }
        links[k] = refs;
        k as u64
    }

    /// The bytes of one object: its head, then `refs` in `ref_size` bytes each.
    pub fn serialize_object<'a>(&self, seen: &Seen<'a>, refs: &Vec<u64>) -> (chunk: Vec<u8>)
        requires
            is_width(self.ref_size as nat),
            seen.value() matches Value::Integer(n) ==> n >= 0,
        ensures
            chunk@ == chunk_of(seen.value(), refs@, self.ref_size as nat),
    {
        let mut buffer: Vec<u8> = Vec::new();
        match seen {
            Seen::Key(key) => {
                let bytes = key.as_str().as_bytes();
                let (marker, len_bytes) = self.serialize_length(0x5, bytes.len());
                buffer.push(marker);
                buffer.extend_from_slice(len_bytes.as_slice());
                buffer.extend_from_slice(bytes);
                assert(buffer@ =~= (seq![marker] + len_bytes@) + bytes@);
            },
            Seen::Node(node) => match node {
                Plist::Array(items) => {
                    proof {
                        lemma_items_view(items@);
                        lemma_coded_items(items_view(items@));
                    }
                    let (marker, len_bytes) = self.serialize_length(0xA, items.len());
                    buffer.push(marker);
                    buffer.extend_from_slice(len_bytes.as_slice());
                    assert(buffer@ =~= seq![marker] + len_bytes@);
                },
                Plist::Dictionary(entries) => {
                    proof {
                        lemma_entries_view(entries@);
                        lemma_coded_entries(entries_view(entries@));
                    }
                    let (marker, len_bytes) = self.serialize_length(0xD, entries.len());
                    buffer.push(marker);
                    buffer.extend_from_slice(len_bytes.as_slice());
                    assert(buffer@ =~= seq![marker] + len_bytes@);
                },
                Plist::Boolean(b) => {
                    buffer.push(if *b {
                        0x09
                    } else {
                        0x08
                    });
                    assert(buffer@ =~= head_bytes(seen.value()));
                },
                Plist::Integer(n) => {
                    let (marker, bytes) = self.serialize_integer(0x1, *n);
                    buffer.push(marker);
                    buffer.extend_from_slice(bytes.as_slice());
                    assert(buffer@ =~= seq![marker] + bytes@);
                },
                Plist::Float(bits) => {
                    let (marker, bytes) = self.serialize_float(0x2, *bits);
                    buffer.push(marker);
                    buffer.extend_from_slice(bytes.as_slice());
                    assert(buffer@ =~= seq![marker] + bytes@);
                },
                Plist::String(text) => {
                    let bytes = text.as_str().as_bytes();
                    let (marker, len_bytes) = self.serialize_length(0x5, bytes.len());
                    buffer.push(marker);
                    buffer.extend_from_slice(len_bytes.as_slice());
                    buffer.extend_from_slice(bytes);
                    assert(buffer@ =~= (seq![marker] + len_bytes@) + bytes@);
                },
                Plist::Date(secs, nanos) => {
                    proof {
                        lemma_canon_double(*secs, *nanos);
                    }
                    let (marker, bytes) = self.serialize_date(0x3, *secs, *nanos);
                    buffer.push(marker);
                    buffer.extend_from_slice(bytes.as_slice());
                    assert(buffer@ =~= seq![marker] + bytes@);
                },
                Plist::Data(bytes) => {
                    let (marker, len_bytes) = self.serialize_data(0x4, bytes);
                    buffer.push(marker);
                    buffer.extend_from_slice(len_bytes.as_slice());
                    buffer.extend_from_slice(bytes.as_slice());
                    assert(buffer@ =~= (seq![marker] + len_bytes@) + bytes@);
                },
            },
        }
        assert(buffer@ == head_bytes(seen.value()));
        let ghost head = buffer@;
        let mut j: usize = 0;
        while j < refs.len()
            invariant
                j <= refs@.len(),
                is_width(self.ref_size as nat),
                buffer@ == head + link_bytes(refs@.subrange(0, j as int), self.ref_size as nat),
            decreases refs@.len() - j,
        {
            let ghost before = buffer@;
            let bytes = self.serialize_ref(refs[j]);
            buffer.extend_from_slice(bytes.as_slice());
            proof {
                let next = refs@.subrange(0, j + 1);
                assert(next.drop_last() =~= refs@.subrange(0, j as int));
                assert(next.last() == refs@[j as int]);
                assert(buffer@ =~= head + link_bytes(next, self.ref_size as nat));
            }
            j += 1;
        }
        assert(refs@.subrange(0, j as int) =~= refs@);
        buffer
    }

    /// Encodes `value`. Fails on a negative integer, and on nothing else.
    /// Values that differ only in dates with the same double have the same
    /// bytes. The bytes of a well-formed value whose dates are exact decode
    /// to that value again.
    pub fn write(self, value: &Plist) -> (r: Result<Vec<u8>, Error>)
        ensures
            match r {
                Ok(bytes) => encodable(value@) && bytes@ == spec_encode(coded(value@)) && (
                dates_exact(value@) ==> bytes@ == spec_encode(value@)) && (well_formed(value@)
                    && dates_exact(value@) ==> spec_parse(bytes@) == Ok::<Value, Error>(value@)),
                Err(e) => e == Error::UnsupportedValue && !encodable(value@),
            },
    {
        if !check_encodable(value) {
            return Err(Error::UnsupportedValue);
        }
        let mut writer = self;
        let mut memo: Vec<Seen> = Vec::new();
        let mut links: Vec<Vec<u64>> = Vec::new();
        assert(seen_values(memo@) =~= Seq::<Value>::empty());
        let _root = writer.collect_objects(value, &mut memo, &mut links);
        let ghost listed = seen_values(memo@);
        proof {
            assert(listed == objects_of(coded(value@)));
            lemma_coded_encodable(value@);
            lemma_absorb_distinct(Seq::empty(), coded(value@));
        }
        let n = memo.len();
        writer.offsets = Vec::new();
        writer.calculate_sizes();
        let ghost width = writer.ref_size as nat;
        let ghost chunks = chunks_of(listed, width);
        let mut out: Vec<u8> = Vec::new();
        out.push(0x62);
        out.push(0x70);
        out.push(0x6C);
        out.push(0x69);
        out.push(0x73);
        out.push(0x74);
        out.push(0x30);
        out.push(0x30);
        assert(out@ =~= magic() + joined(chunks, 0));
        let mut i: usize = 0;
        while i < n
            invariant
                i <= n,
                n == memo@.len(),
                n == links@.len(),
                listed == seen_values(memo@),
                distinct(listed),
                integers_fit(listed),
                forall|j: int| 0 <= j < n ==> linked(listed, j, (#[trigger] links@[j])@),
                is_width(writer.ref_size as nat),
                width == writer.ref_size,
                writer.objects == n,
                chunks == chunks_of(listed, width),
                out@ == magic() + joined(chunks, i as nat),
                writer.offsets@ == Seq::new(i as nat, |j: int| offset_of(chunks, j as nat) as u64),
            decreases n - i,
        {
            let at = out.len();
            writer.offsets.push(at as u64);
            proof {
                lemma_links_of(listed, i as int, links@[i as int]@);
                assert(listed[i as int] == memo@[i as int].value());
            }
            let chunk = writer.serialize_object(&memo[i], &links[i]);
            out.extend_from_slice(chunk.as_slice());
            proof {
                assert(chunk@ == chunks[i as int]);
                assert(out@ =~= magic() + joined(chunks, (i + 1) as nat));
                assert(writer.offsets@ =~= Seq::new(
                    (i + 1) as nat,
                    |j: int| offset_of(chunks, j as nat) as u64,
                ));
            }
            i += 1;
        }
        let table_start = out.len();
        let ghost body = out@;
        proof {
            assert forall|a: int, b: int| 0 <= a <= b < writer.offsets@.len() implies writer.offsets@[a]
                <= writer.offsets@[b] by {
                lemma_joined_monotone(chunks, a as nat, b as nat);
                lemma_joined_monotone(chunks, b as nat, n as nat);
            }
            lemma_max_of_rising(writer.offsets@);
        }
        writer.calculate_sizes();
        let table = match writer.generate_offset_table() {
            Ok(table) => table,
            Err(e) => {
                return Err(e);
            },
        };
        out.extend_from_slice(table.as_slice());
        let trailer = match writer.generate_trailer(0, n, table_start as u64) {
            Ok(trailer) => trailer,
            Err(e) => {
                return Err(e);
            },
        };
        out.extend_from_slice(trailer.as_slice());
        proof {
            assert(writer.offsets@ =~= Seq::new(
                listed.len(),
                |i: int| offset_of(chunks, i as nat) as u64,
            ));
            assert(out@ =~= body + table@ + trailer@);
        }
        let total = out.len();
        proof {
            assert(out@ == spec_encode(coded(value@)));
            if dates_exact(value@) {
                lemma_coded_exact(value@);
                assert(spec_encode(value@).len() == total);
                if well_formed(value@) {
                    law_round_trip(value@);
                }
            }
        }
        Ok(out)
    }
}

} // verus!
