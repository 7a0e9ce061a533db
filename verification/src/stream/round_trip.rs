//! Why what the writer writes is what the reader reads.
use vstd::prelude::*;
use vstd::utf8::{encode_utf8, encode_utf8_decode_utf8, encode_utf8_valid_utf8};
use crate::bytes::{
    be_bytes, is_width, lemma_be_bytes_len, lemma_be_roundtrip_exact, lemma_pow256_values,
    lemma_width_for_fits, pow256, width_for,
};
use crate::date::{exact, reference_seconds, representable};
use crate::error::Error;
use crate::ieee::{lemma_single_roundtrip, single_of_double};
use crate::plist::{
    all_values_well_formed, all_well_formed, key_index, keys_unique, lemma_key_index,
    well_formed, Entries, Value,
};
use crate::stream::binary_reader::{
    as_keys, decode_list, decode_object, field, magic, offsets_of, paired, spec_count,
    spec_parse, trailer_of, width_of_info, Trailer,
};
use crate::stream::binary_writer::{
    absorb, absorb_items, absorb_keys, absorb_values, all_dates_exact, all_encodable,
    all_value_dates_exact, all_values_encodable, dates_exact,
    chunk_of, chunks_of, count_record, distinct, encodable, entry_values, extends, head_bytes,
    info_of_width, integers_fit, joined, key_values, lemma_absorb_distinct, lemma_joined_monotone,
    lemma_absorb_extends, lemma_absorb_items_extends, lemma_absorb_keys_extends,
    lemma_absorb_values_extends, length_prefix, link_bytes, links_of, members, objects_of,
    offset_of, offset_table, position, spec_encode, trailer_bytes,
};

verus! {

/// `chunk` stands in `buf` from `pos` on.
pub open spec fn sits(buf: Seq<u8>, pos: int, chunk: Seq<u8>) -> bool {
    0 <= pos && pos + chunk.len() <= buf.len() && buf.subrange(pos, pos + chunk.len()) == chunk
}

pub proof fn lemma_sits_split(buf: Seq<u8>, pos: int, a: Seq<u8>, b: Seq<u8>)
    requires
        sits(buf, pos, a + b),
    ensures
        sits(buf, pos, a),
        sits(buf, pos + a.len(), b),
{
    let whole = buf.subrange(pos, pos + (a + b).len());
    assert(buf.subrange(pos, pos + a.len()) =~= whole.subrange(0, a.len() as int));
    assert((a + b).subrange(0, a.len() as int) =~= a);
    assert(buf.subrange(pos + a.len(), pos + a.len() + b.len()) =~= whole.subrange(
        a.len() as int,
        (a + b).len() as int,
    ));
    assert((a + b).subrange(a.len() as int, (a + b).len() as int) =~= b);
}

pub proof fn lemma_sits_byte(buf: Seq<u8>, pos: int, chunk: Seq<u8>, k: int)
    requires
        sits(buf, pos, chunk),
        0 <= k < chunk.len(),
    ensures
        buf[pos + k] == chunk[k],
{
    assert(buf.subrange(pos, pos + chunk.len())[k] == buf[pos + k]);
}

/// A number written in `width` bytes is read back where it stands.
pub proof fn lemma_sits_field(buf: Seq<u8>, pos: int, x: nat, width: nat)
    requires
        sits(buf, pos, be_bytes(x, width)),
        x < pow256(width),
    ensures
        field(buf, pos, width as int) == x,
        pos + width <= buf.len(),
{
    lemma_be_roundtrip_exact(x, width);
}

pub proof fn lemma_info_of_width(n: nat)
    requires
        n <= u64::MAX,
    ensures
        info_of_width(width_for(n)) <= 3,
        width_of_info(info_of_width(width_for(n))) == width_for(n),
        n < pow256(width_for(n)),
{
    lemma_width_for_fits(n);
}

/// The marker and count written for `len` are read back as `len`, and
/// the payload starts right after them.
pub proof fn lemma_prefix_read(buf: Seq<u8>, pos: int, code: nat, len: nat, rest: Seq<u8>)
    requires
        code < 16,
        len <= u64::MAX,
        sits(buf, pos, length_prefix(code, len) + rest),
    ensures
        pos < buf.len(),
        buf[pos] / 16 == code,
        spec_count(buf, pos + 1, (buf[pos] % 16) as nat) == Ok::<(nat, int), Error>(
            (len, pos + length_prefix(code, len).len()),
        ),
        sits(buf, pos + length_prefix(code, len).len(), rest),
{
    let prefix = length_prefix(code, len);
    lemma_sits_split(buf, pos, prefix, rest);
    lemma_sits_byte(buf, pos, prefix, 0);
    if len < 15 {
        assert(prefix[0] == (code * 16 + len) as u8);
    } else {
        let w = width_for(len);
        let k = info_of_width(w);
        lemma_info_of_width(len);
        lemma_be_bytes_len(len, w);
        let record = count_record(len);
        assert(prefix[0] == (code * 16 + 15) as u8);
        lemma_sits_split(buf, pos, seq![(code * 16 + 15) as u8], record);
        lemma_sits_split(buf, pos + 1, seq![(0x10 + k) as u8], be_bytes(len, w));
        lemma_sits_byte(buf, pos + 1, seq![(0x10 + k) as u8], 0);
        lemma_sits_field(buf, pos + 2, len, w);
        assert(buf[pos + 1] % 16 == k);
    }
}

/// A value that is no container is read back from its bytes.
pub proof fn lemma_decode_leaf(
    buf: Seq<u8>,
    offsets: Seq<u64>,
    ref_size: nat,
    index: nat,
    fuel: nat,
    v: Value,
    rest: Seq<u8>,
)
    requires
        fuel > 0,
        index < offsets.len(),
        buf.len() <= u64::MAX,
        sits(buf, offsets[index as int] as int, head_bytes(v) + rest),
        !(v is Array),
        !(v is Dictionary),
        v matches Value::Integer(n) ==> n >= 0,
        v matches Value::Date(secs, nanos) ==> representable(secs as int, nanos as int) && exact(
            secs,
            nanos,
        ),
    ensures
        decode_object(buf, offsets, ref_size, index, fuel) == Ok::<Value, Error>(v),
{
    let pos = offsets[index as int] as int;
    let head = head_bytes(v);
    lemma_sits_split(buf, pos, head, rest);
    lemma_pow256_values();
    match v {
        Value::Boolean(b) => {
            lemma_sits_byte(buf, pos, head, 0);
        },
        Value::Integer(n) => {
            let w = width_for(n as nat);
            let k = info_of_width(w);
            lemma_info_of_width(n as nat);
            lemma_sits_split(buf, pos, seq![(0x10 + k) as u8], be_bytes(n as nat, w));
            lemma_sits_byte(buf, pos, seq![(0x10 + k) as u8], 0);
            lemma_sits_field(buf, pos + 1, n as nat, w);
            assert(buf[pos] / 16 == 1 && buf[pos] % 16 == k);
        },
        Value::Float(bits) => {
            match single_of_double(bits) {
                Some(single) => {
                    lemma_single_roundtrip(bits);
                    lemma_sits_split(buf, pos, seq![0x20u8], be_bytes(single as nat, 4));
                    lemma_sits_byte(buf, pos, seq![0x20u8], 0);
                    lemma_sits_field(buf, pos + 1, single as nat, 4);
                    assert(buf[pos] / 16 == 2 && buf[pos] % 16 == 0);
                },
                None => {
                    lemma_sits_split(buf, pos, seq![0x23u8], be_bytes(bits as nat, 8));
                    lemma_sits_byte(buf, pos, seq![0x23u8], 0);
                    lemma_sits_field(buf, pos + 1, bits as nat, 8);
                    assert(buf[pos] / 16 == 2 && buf[pos] % 16 == 3);
                },
            }
        },
        Value::Date(secs, nanos) => {
            let bits = reference_seconds(secs as int, nanos as int);
            lemma_sits_split(buf, pos, seq![0x33u8], be_bytes(bits as nat, 8));
            lemma_sits_byte(buf, pos, seq![0x33u8], 0);
            lemma_sits_field(buf, pos + 1, bits as nat, 8);
            assert(buf[pos] / 16 == 3);
        },
        Value::Data(bytes) => {
            lemma_prefix_read(buf, pos, 4, bytes.len(), bytes);
        },
        Value::String(text) => {
            let bytes = encode_utf8(text);
            lemma_prefix_read(buf, pos, 5, bytes.len(), bytes);
            encode_utf8_valid_utf8(text);
            encode_utf8_decode_utf8(text);
        },
        _ => {},
    }
}

/// How many steps lead from a value down to its deepest member.
pub open spec fn height(v: Value) -> nat
    decreases v,
{
    match v {
        Value::Array(items) => if items.len() == 0 {
            0
        } else {
            1 + max_height(items)
        },
        Value::Dictionary(entries) => if entries.len() == 0 {
            0
        } else {
            1 + max_value_height(entries)
        },
        _ => 0,
    }
}

/// The greatest height among `items`; 0 if there are none.
pub open spec fn max_height(items: Seq<Value>) -> nat
    decreases items,
{
    if items.len() == 0 {
        0
    } else {
        let front = max_height(items.drop_last());
        let last = height(items.last());
        if front >= last {
            front
        } else {
            last
        }
    }
}

/// The greatest height among the values of `entries`; 0 if there are none.
pub open spec fn max_value_height(entries: Entries) -> nat
    decreases entries,
{
    if entries.len() == 0 {
        0
    } else {
        let front = max_value_height(entries.drop_last());
        let last = height(entries.last().1);
        if front >= last {
            front
        } else {
            last
        }
    }
}

pub proof fn lemma_max_height(items: Seq<Value>, i: int)
    requires
        0 <= i < items.len(),
    ensures
        height(items[i]) <= max_height(items),
    decreases items.len(),
{
    if i < items.len() - 1 {
        lemma_max_height(items.drop_last(), i);
    }
}

pub proof fn lemma_max_value_height(entries: Entries, i: int)
    requires
        0 <= i < entries.len(),
    ensures
        height(entries[i].1) <= max_value_height(entries),
    decreases entries.len(),
{
    if i < entries.len() - 1 {
        lemma_max_value_height(entries.drop_last(), i);
    }
}

/// A member is less high than its container.
pub proof fn lemma_member_height(v: Value, j: int)
    requires
        0 <= j < members(v).len(),
    ensures
        height(members(v)[j]) < height(v),
{
    match v {
        Value::Array(items) => {
            lemma_max_height(items, j);
        },
        Value::Dictionary(entries) => {
            if j >= entries.len() {
                lemma_max_value_height(entries, j - entries.len());
            }
        },
        _ => {},
    }
}

/// Every member of every listed value is listed.
pub open spec fn closed(listed: Seq<Value>) -> bool {
    forall|i: int, j: int|
        0 <= i < listed.len() && 0 <= j < members(listed[i]).len() ==> listed.contains(
            #[trigger] members(listed[i])[j],
        )
}

/// The dictionaries among the listed values have unique keys.
pub open spec fn keys_fit(listed: Seq<Value>) -> bool {
    forall|i: int|
        0 <= i < listed.len() ==> ((#[trigger] listed[i]) matches Value::Dictionary(entries)
            ==> keys_unique(entries))
}

/// The dates among the listed values are instants and exact.
pub open spec fn dates_fit(listed: Seq<Value>) -> bool {
    forall|i: int|
        0 <= i < listed.len() ==> ((#[trigger] listed[i]) matches Value::Date(secs, nanos)
            ==> representable(secs as int, nanos as int) && exact(secs, nanos))
}

/// The buffer holds the chunk of every listed value at its offset.
pub open spec fn stored(buf: Seq<u8>, offsets: Seq<u64>, width: nat, listed: Seq<Value>) -> bool {
    &&& offsets.len() == listed.len()
    &&& forall|i: int|
        0 <= i < listed.len() ==> sits(
            buf,
            (#[trigger] offsets[i]) as int,
            chunk_of(listed[i], links_of(listed, listed[i]), width),
        )
}

pub proof fn lemma_link_bytes_len(links: Seq<u64>, width: nat)
    ensures
        link_bytes(links, width).len() == links.len() * width,
    decreases links.len(),
{
    if links.len() > 0 {
        lemma_link_bytes_len(links.drop_last(), width);
        lemma_be_bytes_len(links.last() as nat, width);
        assert((links.len() - 1) * width + width == links.len() * width) by (nonlinear_arith);
    } else {
        assert(0 * width == 0) by (nonlinear_arith);
    }
}

/// Reference `k` is read back from its place among the references.
pub proof fn lemma_link_field(buf: Seq<u8>, base: int, links: Seq<u64>, width: nat, k: int)
    requires
        sits(buf, base, link_bytes(links, width)),
        0 <= k < links.len(),
        links[k] < pow256(width),
    ensures
        field(buf, base + k * width, width as int) == links[k],
        base + k * width + width <= buf.len(),
    decreases links.len(),
{
    let front = link_bytes(links.drop_last(), width);
    let last = be_bytes(links.last() as nat, width);
    lemma_sits_split(buf, base, front, last);
    lemma_link_bytes_len(links.drop_last(), width);
    if k == links.len() - 1 {
        lemma_sits_field(buf, base + front.len(), links[k] as nat, width);
    } else {
        lemma_link_field(buf, base, links.drop_last(), width, k);
    }
}

/// With unique keys, pairing keys and values one by one gives the entries back.
pub proof fn lemma_paired_unique(entries: Entries, n: nat)
    requires
        keys_unique(entries),
        n <= entries.len(),
    ensures
        paired(
            Seq::new(entries.len(), |i: int| entries[i].0),
            entry_values(entries),
            n,
        ) == entries.subrange(0, n as int),
    decreases n,
{
    let keys = Seq::new(entries.len(), |i: int| entries[i].0);
    let values = entry_values(entries);
    if n == 0 {
        assert(entries.subrange(0, 0) =~= Seq::<(Seq<char>, Value)>::empty());
    } else {
        lemma_paired_unique(entries, (n - 1) as nat);
        let front = entries.subrange(0, n - 1);
        lemma_key_index(front, keys[n - 1]);
        if key_index(front, keys[n - 1]) is Some {
            let at = key_index(front, keys[n - 1])->0;
            assert(front[at] == entries[at]);
            assert(entries[at].0 != entries[n - 1].0);
        }
        assert(front.push((keys[n - 1], values[n - 1])) =~= entries.subrange(0, n as int));
    }
}

/// What the buffer must hold for the listed values to be read back from it.
pub open spec fn readable(buf: Seq<u8>, offsets: Seq<u64>, width: nat, listed: Seq<Value>) -> bool {
    &&& is_width(width)
    &&& listed.len() < pow256(width)
    &&& buf.len() <= u64::MAX
    &&& closed(listed)
    &&& integers_fit(listed)
    &&& keys_fit(listed)
    &&& dates_fit(listed)
    &&& stored(buf, offsets, width, listed)
}

/// The listed value `i` is read back from the buffer, given fuel for its height.
pub proof fn lemma_decode_listed(
    buf: Seq<u8>,
    offsets: Seq<u64>,
    width: nat,
    listed: Seq<Value>,
    i: int,
    fuel: nat,
)
    requires
        readable(buf, offsets, width, listed),
        0 <= i < listed.len(),
        fuel > height(listed[i]),
    ensures
        decode_object(buf, offsets, width, i as nat, fuel) == Ok::<Value, Error>(listed[i]),
    decreases height(listed[i]), 1nat, 0nat,
{
    let v = listed[i];
    let pos = offsets[i] as int;
    let links = links_of(listed, v);
    let refs = link_bytes(links, width);
    assert(sits(buf, pos, chunk_of(v, links, width)));
    lemma_link_bytes_len(links, width);
    match v {
        Value::Array(items) => {
            let n = items.len();
            assert(refs.len() >= n) by (nonlinear_arith)
                requires
                    refs.len() == n * width,
                    width >= 1,
            ;
            lemma_prefix_read(buf, pos, 0xA, n, refs);
            let start = pos + length_prefix(0xA, n).len();
            lemma_decode_members(buf, offsets, width, listed, i, start, 0, n, (fuel - 1) as nat);
            assert(0 * width == 0) by (nonlinear_arith);
            assert(members(v).subrange(0, n as int) =~= items);
        },
        Value::Dictionary(entries) => {
            let n = entries.len();
            assert(refs.len() >= n && refs.len() == 2 * n * width) by (nonlinear_arith)
                requires
                    refs.len() == (n + n) * width,
                    width >= 1,
            ;
            lemma_prefix_read(buf, pos, 0xD, n, refs);
            let start = pos + length_prefix(0xD, n).len();
            lemma_decode_members(buf, offsets, width, listed, i, start, 0, n, (fuel - 1) as nat);
            lemma_decode_members(buf, offsets, width, listed, i, start, n, n, (fuel - 1) as nat);
            assert(0 * width == 0) by (nonlinear_arith);
            assert(members(v).subrange(0, n as int) =~= key_values(entries));
            assert(members(v).subrange(n as int, (n + n) as int) =~= entry_values(entries));
            let keys = Seq::new(n, |k: int| entries[k].0);
            assert(as_keys(key_values(entries)) is Some);
            assert(as_keys(key_values(entries))->0 =~= keys);
            lemma_paired_unique(entries, n);
            assert(entries.subrange(0, n as int) =~= entries);
        },
        _ => {
            lemma_decode_leaf(buf, offsets, width, i as nat, fuel, v, refs);
        },
    }
}

/// The `k` members of listed value `i` from member `from` on are read
/// back through their references, which stand from `base` on.
pub proof fn lemma_decode_members(
    buf: Seq<u8>,
    offsets: Seq<u64>,
    width: nat,
    listed: Seq<Value>,
    i: int,
    base: int,
    from: nat,
    k: nat,
    fuel: nat,
)
    requires
        readable(buf, offsets, width, listed),
        0 <= i < listed.len(),
        fuel >= height(listed[i]),
        from + k <= members(listed[i]).len(),
        sits(buf, base, link_bytes(links_of(listed, listed[i]), width)),
    ensures
        decode_list(buf, offsets, width, base + from * width, k, fuel) == Ok::<Seq<Value>, Error>(
            members(listed[i]).subrange(from as int, (from + k) as int),
        ),
    decreases height(listed[i]), 0nat, k,
{
    let v = listed[i];
    let all = members(v);
    if k == 0 {
        assert(all.subrange(from as int, (from + 0) as int) =~= Seq::<Value>::empty());
    } else {
        lemma_decode_members(buf, offsets, width, listed, i, base, from, (k - 1) as nat, fuel);
        let at = from + k - 1;
        let m = all[at];
        assert(listed.contains(m));
        let j = position(listed, m);
        assert(0 <= j < listed.len() && listed[j] == m);
        lemma_pow256_values();
        let links = links_of(listed, v);
        assert(links[at] == j as u64);
        assert(links[at] as int == j);
        lemma_link_field(buf, base, links, width, at);
        assert(base + from * width + (k - 1) * width == base + at * width) by (nonlinear_arith)
            requires
                at == from + k - 1,
        ;
        lemma_member_height(v, at);
        lemma_decode_listed(buf, offsets, width, listed, j, fuel);
        let start = base + from * width;
        assert(field(buf, start + (k - 1) * width, width as int) == j);
        assert(decode_object(buf, offsets, width, j as nat, fuel) == Ok::<Value, Error>(m));
        assert(decode_list(buf, offsets, width, start, (k - 1) as nat, fuel) == Ok::<
            Seq<Value>,
            Error,
        >(all.subrange(from as int, from + k - 1)));
        assert(all.subrange(from as int, from + k - 1).push(m) =~= all.subrange(
            from as int,
            (from + k) as int,
        ));
    }
}

/// Among values that are present, one is as high as the greatest height.
pub proof fn lemma_max_height_attained(items: Seq<Value>) -> (k: int)
    requires
        items.len() > 0,
    ensures
        0 <= k < items.len(),
        height(items[k]) == max_height(items),
    decreases items.len(),
{
    if items.len() == 1 {
        assert(max_height(items.drop_last()) == 0);
        0
    } else if max_height(items.drop_last()) >= height(items.last()) {
        lemma_max_height_attained(items.drop_last())
    } else {
        items.len() - 1
    }
}

pub proof fn lemma_max_value_height_attained(entries: Entries) -> (k: int)
    requires
        entries.len() > 0,
    ensures
        0 <= k < entries.len(),
        height(entries[k].1) == max_value_height(entries),
    decreases entries.len(),
{
    if entries.len() == 1 {
        assert(max_value_height(entries.drop_last()) == 0);
        0
    } else if max_value_height(entries.drop_last()) >= height(entries.last().1) {
        lemma_max_value_height_attained(entries.drop_last())
    } else {
        entries.len() - 1
    }
}

/// In a closed list, a value of height `h` stands on `h` listed values
/// of lesser height: the indices returned are `h + 1` different ones.
pub proof fn lemma_tall(listed: Seq<Value>, i: int) -> (below: Set<int>)
    requires
        closed(listed),
        0 <= i < listed.len(),
    ensures
        below.finite(),
        below.len() == height(listed[i]) + 1,
        forall|j: int|
            below.contains(j) ==> 0 <= j < listed.len() && height(listed[j]) <= height(listed[i]),
    decreases height(listed[i]),
{
    let v = listed[i];
    if height(v) == 0 {
        set![i]
    } else {
        let at: int = match v {
            Value::Array(items) => lemma_max_height_attained(items),
            Value::Dictionary(entries) => entries.len() + lemma_max_value_height_attained(entries),
            _ => 0,
        };
        assert(0 <= at < members(v).len());
        let m = members(v)[at];
        assert(height(m) + 1 == height(v));
        assert(listed.contains(m));
        let j = position(listed, m);
        let lower = lemma_tall(listed, j);
        assert(!lower.contains(i));
        lower.insert(i)
    }
}

/// A closed list has more values than its highest value is high.
pub proof fn lemma_height_below_len(listed: Seq<Value>, i: int)
    requires
        closed(listed),
        0 <= i < listed.len(),
    ensures
        height(listed[i]) < listed.len(),
{
    let below = lemma_tall(listed, i);
    let all = vstd::set_lib::set_int_range(0, listed.len() as int);
    vstd::set_lib::lemma_int_range(0, listed.len() as int);
    assert(below.subset_of(all));
    vstd::set_lib::lemma_len_subset(below, all);
}

/// Every value listed from index `from` on has all its members listed.
pub open spec fn closed_from(listed: Seq<Value>, from: int) -> bool {
    forall|i: int, j: int|
        from <= i < listed.len() && 0 <= j < members(listed[i]).len() ==> listed.contains(
            #[trigger] members(listed[i])[j],
        )
}

pub proof fn lemma_extends_contains(before: Seq<Value>, after: Seq<Value>, x: Value)
    requires
        extends(before, after),
        before.contains(x),
    ensures
        after.contains(x),
{
    let k = choose|k: int| 0 <= k < before.len() && before[k] == x;
    assert(after[k] == x);
}

/// What is closed stays closed when more is listed.
pub proof fn lemma_closed_grows(a: Seq<Value>, b: Seq<Value>, c: Seq<Value>)
    requires
        extends(a, b),
        extends(b, c),
        closed_from(b, a.len() as int),
        closed_from(c, b.len() as int),
    ensures
        closed_from(c, a.len() as int),
        extends(a, c),
{
    assert forall|i: int, j: int|
        a.len() <= i < c.len() && 0 <= j < members(c[i]).len() implies c.contains(
        #[trigger] members(c[i])[j],
    ) by {
        if i < b.len() {
            assert(c[i] == b[i]);
            assert(b.contains(members(b[i])[j]));
            lemma_extends_contains(b, c, members(b[i])[j]);
        }
    }
}

/// Meeting a value lists the members of everything it adds.
pub proof fn lemma_absorb_closed(listed: Seq<Value>, v: Value)
    ensures
        closed_from(absorb(listed, v), listed.len() as int),
    decreases v, 0nat,
{
    let after = absorb(listed, v);
    lemma_absorb_extends(listed, v);
    if !listed.contains(v) {
        let first = listed.push(v);
        match v {
            Value::Array(items) => {
                lemma_absorb_items_closed(first, items, items.len());
                lemma_absorb_items_extends(first, items, items.len());
                assert(after[listed.len() as int] == v);
                assert forall|i: int, j: int|
                    listed.len() <= i < after.len() && 0 <= j < members(
                        after[i],
                    ).len() implies after.contains(#[trigger] members(after[i])[j]) by {
                    if i == listed.len() {
                    }
                }
            },
            Value::Dictionary(entries) => {
                let n = entries.len();
                let keyed = absorb_keys(first, entries, n);
                lemma_absorb_keys_closed(first, entries, n);
                lemma_absorb_keys_extends(first, entries, n);
                lemma_absorb_values_closed(keyed, entries, n);
                lemma_absorb_values_extends(keyed, entries, n);
                lemma_closed_grows(first, keyed, after);
                assert(after[listed.len() as int] == v);
                assert forall|i: int, j: int|
                    listed.len() <= i < after.len() && 0 <= j < members(
                        after[i],
                    ).len() implies after.contains(#[trigger] members(after[i])[j]) by {
                    if i == listed.len() {
                        if j < n {
                            assert(keyed.contains(Value::String(entries[j].0)));
                            lemma_extends_contains(keyed, after, Value::String(entries[j].0));
                        } else {
                            assert(after.contains(entries[j - n].1));
                        }
                    }
                }
            },
            _ => {
                assert(after[listed.len() as int] == v);
            },
        }
    }
}

pub proof fn lemma_absorb_items_closed(listed: Seq<Value>, items: Seq<Value>, n: nat)
    requires
        n <= items.len(),
    ensures
        closed_from(absorb_items(listed, items, n), listed.len() as int),
        forall|k: int| 0 <= k < n ==> absorb_items(listed, items, n).contains(#[trigger] items[k]),
    decreases items, n,
{
    if n > 0 {
        let before = absorb_items(listed, items, (n - 1) as nat);
        let after = absorb_items(listed, items, n);
        lemma_absorb_items_closed(listed, items, (n - 1) as nat);
        lemma_absorb_items_extends(listed, items, (n - 1) as nat);
        lemma_absorb_closed(before, items[n - 1]);
        lemma_absorb_extends(before, items[n - 1]);
        lemma_closed_grows(listed, before, after);
        assert forall|k: int| 0 <= k < n implies after.contains(#[trigger] items[k]) by {
            if k < n - 1 {
                lemma_extends_contains(before, after, items[k]);
            }
        }
    }
}

pub proof fn lemma_absorb_keys_closed(listed: Seq<Value>, entries: Entries, n: nat)
    requires
        n <= entries.len(),
    ensures
        closed_from(absorb_keys(listed, entries, n), listed.len() as int),
        forall|k: int|
            0 <= k < n ==> absorb_keys(listed, entries, n).contains(
                Value::String((#[trigger] entries[k]).0),
            ),
    decreases n,
{
    if n > 0 {
        let before = absorb_keys(listed, entries, (n - 1) as nat);
        let after = absorb_keys(listed, entries, n);
        let key = Value::String(entries[n - 1].0);
        lemma_absorb_keys_closed(listed, entries, (n - 1) as nat);
        lemma_absorb_keys_extends(listed, entries, (n - 1) as nat);
        assert(extends(before, after));
        if !before.contains(key) {
            assert(after[before.len() as int] == key);
        }
        assert(after.contains(key));
        assert(closed_from(after, before.len() as int));
        lemma_closed_grows(listed, before, after);
        assert forall|k: int| 0 <= k < n implies after.contains(
            Value::String((#[trigger] entries[k]).0),
        ) by {
            if k < n - 1 {
                lemma_extends_contains(before, after, Value::String(entries[k].0));
            }
        }
    }
}

pub proof fn lemma_absorb_values_closed(listed: Seq<Value>, entries: Entries, n: nat)
    requires
        n <= entries.len(),
    ensures
        closed_from(absorb_values(listed, entries, n), listed.len() as int),
        forall|k: int|
            0 <= k < n ==> absorb_values(listed, entries, n).contains((#[trigger] entries[k]).1),
    decreases entries, n,
{
    if n > 0 {
        let before = absorb_values(listed, entries, (n - 1) as nat);
        let after = absorb_values(listed, entries, n);
        lemma_absorb_values_closed(listed, entries, (n - 1) as nat);
        lemma_absorb_values_extends(listed, entries, (n - 1) as nat);
        lemma_absorb_closed(before, entries[n - 1].1);
        lemma_absorb_extends(before, entries[n - 1].1);
        lemma_closed_grows(listed, before, after);
        assert forall|k: int| 0 <= k < n implies after.contains((#[trigger] entries[k]).1) by {
            if k < n - 1 {
                lemma_extends_contains(before, after, entries[k].1);
            }
        }
    }
}

/// Every listed value is encodable and well formed, and its dates are exact.
pub open spec fn sound(listed: Seq<Value>) -> bool {
    forall|i: int|
        0 <= i < listed.len() ==> encodable(#[trigger] listed[i]) && well_formed(listed[i])
            && dates_exact(listed[i])
}

/// Meeting a sound value keeps the list sound.
pub proof fn lemma_absorb_sound(listed: Seq<Value>, v: Value)
    requires
        sound(listed),
        encodable(v),
        well_formed(v),
        dates_exact(v),
    ensures
        sound(absorb(listed, v)),
    decreases v, 0nat,
{
    if !listed.contains(v) {
        let first = listed.push(v);
        match v {
            Value::Array(items) => {
                lemma_absorb_items_sound(first, items, items.len());
            },
            Value::Dictionary(entries) => {
                lemma_absorb_keys_sound(first, entries, entries.len());
                lemma_absorb_values_sound(
                    absorb_keys(first, entries, entries.len()),
                    entries,
                    entries.len(),
                );
            },
            _ => {},
        }
    }
}

pub proof fn lemma_absorb_items_sound(listed: Seq<Value>, items: Seq<Value>, n: nat)
    requires
        sound(listed),
        all_encodable(items),
        all_well_formed(items),
        all_dates_exact(items),
    ensures
        sound(absorb_items(listed, items, n)),
    decreases items, n,
{
    if !(n == 0 || n > items.len()) {
        lemma_absorb_items_sound(listed, items, (n - 1) as nat);
        lemma_absorb_sound(absorb_items(listed, items, (n - 1) as nat), items[n - 1]);
    }
}

pub proof fn lemma_absorb_keys_sound(listed: Seq<Value>, entries: Entries, n: nat)
    requires
        sound(listed),
    ensures
        sound(absorb_keys(listed, entries, n)),
    decreases n,
{
    if !(n == 0 || n > entries.len()) {
        lemma_absorb_keys_sound(listed, entries, (n - 1) as nat);
    }
}

pub proof fn lemma_absorb_values_sound(listed: Seq<Value>, entries: Entries, n: nat)
    requires
        sound(listed),
        all_values_encodable(entries),
        all_values_well_formed(entries),
        all_value_dates_exact(entries),
    ensures
        sound(absorb_values(listed, entries, n)),
    decreases entries, n,
{
    if !(n == 0 || n > entries.len()) {
        lemma_absorb_values_sound(listed, entries, (n - 1) as nat);
        lemma_absorb_sound(absorb_values(listed, entries, (n - 1) as nat), entries[n - 1].1);
    }
}

/// The offset table is its offsets written one after the other.
pub proof fn lemma_offset_table_is_links(offsets: Seq<u64>, width: nat, n: nat)
    requires
        n <= offsets.len(),
    ensures
        offset_table(offsets, width, n) == link_bytes(offsets.subrange(0, n as int), width),
    decreases n,
{
    if n > 0 {
        lemma_offset_table_is_links(offsets, width, (n - 1) as nat);
        let front = offsets.subrange(0, n as int);
        assert(front.drop_last() =~= offsets.subrange(0, n - 1));
        assert(front.last() == offsets[n - 1]);
    }
}

/// Chunk `i` stands among the first `n` joined chunks, after the chunks before it.
pub proof fn lemma_joined_sits(chunks: Seq<Seq<u8>>, i: nat, n: nat)
    requires
        i < n <= chunks.len(),
    ensures
        sits(joined(chunks, n), joined(chunks, i).len() as int, chunks[i as int]),
    decreases n,
{
    let whole = joined(chunks, n);
    let front = joined(chunks, (n - 1) as nat);
    let last = chunks[n - 1];
    if i == n - 1 {
        assert(whole.subrange(front.len() as int, (front.len() + last.len()) as int) =~= last);
    } else {
        lemma_joined_sits(chunks, i, (n - 1) as nat);
        let at = joined(chunks, i).len() as int;
        let c = chunks[i as int];
        assert(whole.subrange(at, at + c.len()) =~= front.subrange(at, at + c.len()));
    }
}

/// What stands in a buffer stands in every buffer built around it.
pub proof fn lemma_sits_embed(
    inner: Seq<u8>,
    pos: int,
    chunk: Seq<u8>,
    before: Seq<u8>,
    after: Seq<u8>,
)
    requires
        sits(inner, pos, chunk),
    ensures
        sits(before + inner + after, before.len() + pos, chunk),
{
    let whole = before + inner + after;
    assert(whole.subrange(before.len() + pos, before.len() + pos + chunk.len()) =~= inner.subrange(
        pos,
        pos + chunk.len(),
    ));
}

/// The root is the first object.
pub proof fn lemma_root_first(v: Value)
    ensures
        objects_of(v).len() >= 1,
        objects_of(v)[0] == v,
{
    let none = Seq::<Value>::empty();
    let first = none.push(v);
    assert(!none.contains(v));
    match v {
        Value::Array(items) => {
            lemma_absorb_items_extends(first, items, items.len());
        },
        Value::Dictionary(entries) => {
            lemma_absorb_keys_extends(first, entries, entries.len());
            lemma_absorb_values_extends(
                absorb_keys(first, entries, entries.len()),
                entries,
                entries.len(),
            );
        },
        _ => {},
    }
}

/// The trailer that was written is the trailer that is read.
pub proof fn lemma_trailer_read(
    buf: Seq<u8>,
    offset_size: nat,
    ref_size: nat,
    objects: nat,
    root: nat,
    table_start: nat,
)
    requires
        buf.len() >= 32,
        sits(
            buf,
            buf.len() - 32,
            trailer_bytes(offset_size, ref_size, objects, root, table_start),
        ),
        offset_size < 256,
        ref_size < 256,
        objects <= u64::MAX,
        root <= u64::MAX,
        table_start <= u64::MAX,
    ensures
        trailer_of(buf) == (Trailer {
            offset_table_offset_size: offset_size as u8,
            object_ref_size: ref_size as u8,
            num_objects: objects as u64,
            top_object_offset: root as u64,
            offset_table_start: table_start as u64,
        }),
{
    let base = buf.len() - 32;
    let head = seq![0u8, 0u8, 0u8, 0u8, 0u8, 0u8, offset_size as u8, ref_size as u8];
    let a = be_bytes(objects, 8);
    let b = be_bytes(root, 8);
    let c = be_bytes(table_start, 8);
    lemma_pow256_values();
    lemma_be_bytes_len(objects, 8);
    lemma_be_bytes_len(root, 8);
    lemma_be_bytes_len(table_start, 8);
    lemma_sits_split(buf, base, head + a + b, c);
    lemma_sits_split(buf, base, head + a, b);
    lemma_sits_split(buf, base, head, a);
    lemma_sits_byte(buf, base, head, 6);
    lemma_sits_byte(buf, base, head, 7);
    lemma_sits_field(buf, base + 8, objects, 8);
    lemma_sits_field(buf, base + 16, root, 8);
    lemma_sits_field(buf, base + 24, table_start, 8);
}

/// The offsets at which the writer puts the objects of `v`.
pub open spec fn encoded_offsets(v: Value) -> Seq<u64> {
    let listed = objects_of(v);
    let chunks = chunks_of(listed, width_for(listed.len()));
    Seq::new(listed.len(), |i: int| offset_of(chunks, i as nat) as u64)
}

/// The trailer that the writer writes for `v`.
pub open spec fn encoded_trailer(v: Value) -> Trailer {
    let listed = objects_of(v);
    let chunks = chunks_of(listed, width_for(listed.len()));
    Trailer {
        offset_table_offset_size: width_for(
            offset_of(chunks, (listed.len() - 1) as nat),
        ) as u8,
        object_ref_size: width_for(listed.len()) as u8,
        num_objects: listed.len() as u64,
        top_object_offset: 0,
        offset_table_start: (8 + joined(chunks, listed.len()).len()) as u64,
    }
}

/// What the binary form of `v` holds: the magic bytes, the trailer and
/// the offset table as the writer chose them, and every object at its offset.
pub proof fn lemma_encoded(v: Value)
    requires
        well_formed(v),
        encodable(v),
        dates_exact(v),
        spec_encode(v).len() <= u64::MAX,
    ensures
        spec_encode(v).len() >= 32,
        spec_encode(v).subrange(0, 8) == magic(),
        trailer_of(spec_encode(v)) == encoded_trailer(v),
        is_width(encoded_trailer(v).offset_table_offset_size as nat),
        encoded_trailer(v).offset_table_offset_size as nat == width_for(
            encoded_offsets(v).last() as nat,
        ),
        is_width(encoded_trailer(v).object_ref_size as nat),
        encoded_trailer(v).object_ref_size as nat == width_for(objects_of(v).len()),
        encoded_trailer(v).num_objects == objects_of(v).len(),
        objects_of(v).len() >= 1,
        encoded_trailer(v).offset_table_start + encoded_trailer(v).num_objects * encoded_trailer(
            v,
        ).offset_table_offset_size + 32 == spec_encode(v).len(),
        offsets_of(
            spec_encode(v),
            encoded_trailer(v).offset_table_start as int,
            objects_of(v).len(),
            encoded_trailer(v).offset_table_offset_size as int,
        ) == encoded_offsets(v),
        readable(
            spec_encode(v),
            encoded_offsets(v),
            width_for(objects_of(v).len()),
            objects_of(v),
        ),
{
    let listed = objects_of(v);
    let n = listed.len();
    let width = width_for(n);
    let chunks = chunks_of(listed, width);
    let offsets = Seq::new(n, |i: int| offset_of(chunks, i as nat) as u64);
    let last_offset = offset_of(chunks, (n - 1) as nat);
    let offset_size = width_for(last_offset);
    let inner = joined(chunks, n);
    let body = magic() + inner;
    let table = offset_table(offsets, offset_size, n);
    let trailer = trailer_bytes(offset_size, width, n, 0, body.len());
    let buf = spec_encode(v);
    assert(buf == body + table + trailer);
    assert(offsets == encoded_offsets(v));
    lemma_root_first(v);
    lemma_pow256_values();
    // sizes
    lemma_be_bytes_len(n, 8);
    lemma_be_bytes_len(0, 8);
    lemma_be_bytes_len(body.len(), 8);
    assert(trailer.len() == 32);
    lemma_offset_table_is_links(offsets, offset_size, n);
    assert(offsets.subrange(0, n as int) =~= offsets);
    lemma_link_bytes_len(offsets, offset_size);
    assert(table.len() == n * offset_size);
    lemma_joined_monotone(chunks, (n - 1) as nat, n);
    assert(last_offset <= u64::MAX);
    lemma_width_for_fits(last_offset);
    assert(n <= table.len()) by (nonlinear_arith)
        requires
            table.len() == n * offset_size,
            offset_size >= 1,
    ;
    lemma_width_for_fits(n);
    // header
    assert(buf.subrange(0, 8) =~= magic());
    // trailer
    assert(buf.subrange(buf.len() - 32, buf.len() as int) =~= trailer);
    lemma_trailer_read(buf, offset_size, width, n, 0, body.len());
    // offset table
    assert(buf.subrange(body.len() as int, (body.len() + table.len()) as int) =~= table);
    assert(sits(buf, body.len() as int, link_bytes(offsets, offset_size)));
    let read = offsets_of(buf, body.len() as int, n, offset_size as int);
    assert forall|i: int| 0 <= i < n implies read[i] == offsets[i] by {
        lemma_joined_monotone(chunks, i as nat, (n - 1) as nat);
        lemma_link_field(buf, body.len() as int, offsets, offset_size, i);
    }
    assert(read =~= offsets);
    // objects
    assert forall|i: int| 0 <= i < n implies sits(
        buf,
        (#[trigger] offsets[i]) as int,
        chunk_of(listed[i], links_of(listed, listed[i]), width),
    ) by {
        lemma_joined_sits(chunks, i as nat, n);
        lemma_joined_monotone(chunks, i as nat, n);
        lemma_sits_embed(
            inner,
            joined(chunks, i as nat).len() as int,
            chunks[i],
            magic(),
            table + trailer,
        );
        assert(magic() + inner + (table + trailer) =~= buf);
    }
    lemma_absorb_closed(Seq::empty(), v);
    lemma_absorb_sound(Seq::empty(), v);
    assert(closed(listed));
    assert(integers_fit(listed));
    assert(keys_fit(listed));
    assert(dates_fit(listed));
    assert(readable(buf, offsets, width, listed));
    assert(offsets.last() == last_offset as u64);
}

/// A well-formed value without negative integers, whose dates are exact
/// and whose binary form fits the 64 bits of an offset, is read back from
/// that form exactly as it was, with the entries of every dictionary in
/// their order.
pub proof fn law_round_trip(v: Value)
    requires
        well_formed(v),
        encodable(v),
        dates_exact(v),
        spec_encode(v).len() <= u64::MAX,
    ensures
        spec_parse(spec_encode(v)) == Ok::<Value, Error>(v),
{
    let listed = objects_of(v);
    lemma_encoded(v);
    lemma_root_first(v);
    lemma_height_below_len(listed, 0);
    lemma_decode_listed(
        spec_encode(v),
        encoded_offsets(v),
        width_for(listed.len()),
        listed,
        0,
        listed.len(),
    );
}

/// The trailer of the binary form names the narrowest reference width
/// that holds the number of objects, and the narrowest offset width that
/// holds the greatest offset, which is the last one.
pub proof fn law_minimal_widths(v: Value)
    requires
        well_formed(v),
        encodable(v),
        dates_exact(v),
        spec_encode(v).len() <= u64::MAX,
    ensures
        trailer_of(spec_encode(v)).num_objects == objects_of(v).len(),
        trailer_of(spec_encode(v)).top_object_offset == 0,
        trailer_of(spec_encode(v)).object_ref_size as nat == width_for(objects_of(v).len()),
        trailer_of(spec_encode(v)).offset_table_offset_size as nat == width_for(
            encoded_offsets(v).last() as nat,
        ),
        forall|i: int|
            0 <= i < encoded_offsets(v).len() ==> (#[trigger] encoded_offsets(v)[i])
                <= encoded_offsets(v).last(),
{
    lemma_encoded(v);
    let listed = objects_of(v);
    let n = listed.len();
    let chunks = chunks_of(listed, width_for(n));
    assert forall|i: int| 0 <= i < encoded_offsets(v).len() implies (#[trigger] encoded_offsets(
        v,
    )[i]) <= encoded_offsets(v).last() by {
        lemma_joined_monotone(chunks, i as nat, (n - 1) as nat);
        lemma_joined_monotone(chunks, (n - 1) as nat, n);
    }
}

/// Every value of the tree is an object, the root is object 0, and no
/// value is stored twice.
pub proof fn law_each_value_once(v: Value)
    ensures
        objects_of(v)[0] == v,
        closed(objects_of(v)),
        distinct(objects_of(v)),
{
    lemma_root_first(v);
    lemma_absorb_closed(Seq::empty(), v);
    lemma_absorb_distinct(Seq::empty(), v);
}

/// Two objects of the binary form never have the same bytes: values
/// share an object exactly when their encoded forms are identical.
pub proof fn law_chunks_differ(v: Value, i: int, j: int)
    requires
        well_formed(v),
        encodable(v),
        dates_exact(v),
        spec_encode(v).len() <= u64::MAX,
        0 <= i < objects_of(v).len(),
        0 <= j < objects_of(v).len(),
        i != j,
    ensures
        chunks_of(objects_of(v), width_for(objects_of(v).len()))[i] != chunks_of(
            objects_of(v),
            width_for(objects_of(v).len()),
        )[j],
{
    let listed = objects_of(v);
    let n = listed.len();
    let width = width_for(n);
    let chunks = chunks_of(listed, width);
    let buf = spec_encode(v);
    let offsets = encoded_offsets(v);
    lemma_encoded(v);
    lemma_absorb_distinct(Seq::empty(), v);
    if chunks[i] == chunks[j] {
        // read object j where object i stands
        let moved = offsets.update(j, offsets[i]);
        assert(stored(buf, moved, width, listed)) by {
            assert forall|k: int| 0 <= k < listed.len() implies sits(
                buf,
                (#[trigger] moved[k]) as int,
                chunk_of(listed[k], links_of(listed, listed[k]), width),
            ) by {
                if k == j {
                    assert(sits(buf, offsets[i] as int, chunks[i]));
                } else {
                    assert(moved[k] == offsets[k]);
                }
            }
        }
        lemma_height_below_len(listed, i);
        lemma_height_below_len(listed, j);
        lemma_decode_listed(buf, moved, width, listed, i, n);
        lemma_decode_listed(buf, moved, width, listed, j, n);
        assert(moved[i] == moved[j]);
        assert(listed[i] == listed[j]);
        if i < j {
            assert(listed[i] != listed[j]);
        } else {
            assert(listed[j] != listed[i]);
        }
    }
}

} // verus!
