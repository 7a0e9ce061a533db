//! What the markup form is made of: white space, tags, and elements
//! that hold text.
use vstd::prelude::*;

verus! {

/// Space, tab, carriage return and line feed.
pub open spec fn is_space(b: u8) -> bool {
    b == ' ' as u8 || b == '\t' as u8 || b == '\r' as u8 || b == '\n' as u8
}

/// The first place at or after `pos` that holds no white space; the end
/// of the buffer if there is none.
pub open spec fn skip_space(buf: Seq<u8>, pos: int) -> int
    decreases buf.len() - pos,
{
    if 0 <= pos < buf.len() && is_space(buf[pos]) {
        skip_space(buf, pos + 1)
    } else {
        pos
    }
}

/// The first place at or after `pos` that holds the byte `b`; the end of
/// the buffer if there is none.
pub open spec fn find_byte(buf: Seq<u8>, pos: int, b: u8) -> int
    decreases buf.len() - pos,
{
    if 0 <= pos < buf.len() && buf[pos] != b {
        find_byte(buf, pos + 1, b)
    } else {
        pos
    }
}

/// Whether `tag` stands in `buf` from `pos` on.
pub open spec fn starts(buf: Seq<u8>, pos: int, tag: Seq<u8>) -> bool {
    0 <= pos && pos + tag.len() <= buf.len() && buf.subrange(pos, pos + tag.len()) == tag
}

/// The first place at or after `pos` from which `tag` stands; the end of
/// the buffer if there is none.
pub open spec fn find_tag(buf: Seq<u8>, pos: int, tag: Seq<u8>) -> int
    decreases buf.len() - pos,
{
    if 0 <= pos < buf.len() && !starts(buf, pos, tag) {
        find_tag(buf, pos + 1, tag)
    } else {
        pos
    }
}

/// `<name`
pub open spec fn begin_tag(name: Seq<u8>) -> Seq<u8> {
    seq!['<' as u8] + name
}

/// `<name>`
pub open spec fn open_tag(name: Seq<u8>) -> Seq<u8> {
    seq!['<' as u8] + name + seq!['>' as u8]
}

/// `<name/>`
pub open spec fn empty_tag(name: Seq<u8>) -> Seq<u8> {
    seq!['<' as u8] + name + seq!['/' as u8, '>' as u8]
}

/// `</name>`
pub open spec fn close_tag(name: Seq<u8>) -> Seq<u8> {
    seq!['<' as u8, '/' as u8] + name + seq!['>' as u8]
}

pub open spec fn name_plist() -> Seq<u8> {
    seq!['p' as u8, 'l' as u8, 'i' as u8, 's' as u8, 't' as u8]
}

pub open spec fn name_dict() -> Seq<u8> {
    seq!['d' as u8, 'i' as u8, 'c' as u8, 't' as u8]
}

pub open spec fn name_key() -> Seq<u8> {
    seq!['k' as u8, 'e' as u8, 'y' as u8]
}

pub open spec fn name_array() -> Seq<u8> {
    seq!['a' as u8, 'r' as u8, 'r' as u8, 'a' as u8, 'y' as u8]
}

pub open spec fn name_string() -> Seq<u8> {
    seq!['s' as u8, 't' as u8, 'r' as u8, 'i' as u8, 'n' as u8, 'g' as u8]
}

pub open spec fn name_real() -> Seq<u8> {
    seq!['r' as u8, 'e' as u8, 'a' as u8, 'l' as u8]
}

pub open spec fn name_integer() -> Seq<u8> {
    seq!['i' as u8, 'n' as u8, 't' as u8, 'e' as u8, 'g' as u8, 'e' as u8, 'r' as u8]
}

pub open spec fn name_date() -> Seq<u8> {
    seq!['d' as u8, 'a' as u8, 't' as u8, 'e' as u8]
}

pub open spec fn name_data() -> Seq<u8> {
    seq!['d' as u8, 'a' as u8, 't' as u8, 'a' as u8]
}

pub open spec fn name_true() -> Seq<u8> {
    seq!['t' as u8, 'r' as u8, 'u' as u8, 'e' as u8]
}

pub open spec fn name_false() -> Seq<u8> {
    seq!['f' as u8, 'a' as u8, 'l' as u8, 's' as u8, 'e' as u8]
}

/// An element `<name>text</name>` at `pos`, whose text holds no `<`:
/// where the text starts, where it ends, and where the element ends.
pub open spec fn text_element(buf: Seq<u8>, pos: int, name: Seq<u8>) -> Option<(int, int, int)> {
    if !starts(buf, pos, open_tag(name)) {
        None
    } else {
        let from = pos + open_tag(name).len();
        let to = find_byte(buf, from, '<' as u8);
        if starts(buf, to, close_tag(name)) {
            Some((from, to, to + close_tag(name).len()))
        } else {
            None
        }
    }
}

pub proof fn lemma_skip_space(buf: Seq<u8>, pos: int)
    requires
        0 <= pos <= buf.len(),
    ensures
        pos <= skip_space(buf, pos) <= buf.len(),
        skip_space(buf, pos) < buf.len() ==> !is_space(buf[skip_space(buf, pos)]),
        skip_space(buf, skip_space(buf, pos)) == skip_space(buf, pos),
    decreases buf.len() - pos,
{
    if pos < buf.len() && is_space(buf[pos]) {
        lemma_skip_space(buf, pos + 1);
    }
}

pub proof fn lemma_find_byte(buf: Seq<u8>, pos: int, b: u8)
    requires
        0 <= pos <= buf.len(),
    ensures
        pos <= find_byte(buf, pos, b) <= buf.len(),
        find_byte(buf, pos, b) < buf.len() ==> buf[find_byte(buf, pos, b)] == b,
    decreases buf.len() - pos,
{
    if pos < buf.len() && buf[pos] != b {
        lemma_find_byte(buf, pos + 1, b);
    }
}

pub proof fn lemma_find_tag(buf: Seq<u8>, pos: int, tag: Seq<u8>)
    requires
        0 <= pos <= buf.len(),
    ensures
        pos <= find_tag(buf, pos, tag) <= buf.len(),
        find_tag(buf, pos, tag) < buf.len() ==> starts(buf, find_tag(buf, pos, tag), tag),
    decreases buf.len() - pos,
{
    if pos < buf.len() && !starts(buf, pos, tag) {
        lemma_find_tag(buf, pos + 1, tag);
    }
}

/// The place after the white space from `pos` on.
pub fn after_space(buf: &[u8], pos: usize) -> (next: usize)
    ensures
        next == skip_space(buf@, pos as int),
        pos <= next,
        pos <= buf@.len() ==> next <= buf@.len(),
{
    if pos > buf.len() {
        return pos;
    }
    let mut at = pos;
    while at < buf.len() && (buf[at] == ' ' as u8 || buf[at] == '\t' as u8 || buf[at] == '\r' as u8
        || buf[at] == '\n' as u8)
        invariant
            pos <= at <= buf@.len(),
            skip_space(buf@, pos as int) == skip_space(buf@, at as int),
        decreases buf@.len() - at,
    {
        at += 1;
    }
    at
}

/// The place of the first byte `b` from `pos` on.
pub fn first_byte(buf: &[u8], pos: usize, b: u8) -> (next: usize)
    ensures
        next == find_byte(buf@, pos as int, b),
        pos <= next,
        pos <= buf@.len() ==> next <= buf@.len(),
{
    if pos > buf.len() {
        return pos;
    }
    let mut at = pos;
    while at < buf.len() && buf[at] != b
        invariant
            pos <= at <= buf@.len(),
            find_byte(buf@, pos as int, b) == find_byte(buf@, at as int, b),
        decreases buf@.len() - at,
    {
        at += 1;
    }
    at
}

/// Whether the bytes of `tag` stand in `buf` from `pos` on.
pub fn stands(buf: &[u8], pos: usize, tag: &[u8]) -> (yes: bool)
    ensures
        yes == starts(buf@, pos as int, tag@),
{
    let len = buf.len();
    let n = tag.len();
    if pos > len || len - pos < n {
        return false;
    }
    let mut i: usize = 0;
    while i < n
        invariant
            i <= n,
            n == tag@.len(),
            pos + n <= buf@.len(),
            len == buf@.len(),
            forall|k: int| 0 <= k < i ==> buf@[pos + k] == tag@[k],
        decreases n - i,
    {
        if buf[pos + i] != tag[i] {
            assert(buf@.subrange(pos as int, pos + n)[i as int] != tag@[i as int]);
            return false;
        }
        i += 1;
    }
    assert(buf@.subrange(pos as int, pos + n) =~= tag@);
    true
}

/// The place from which `tag` first stands, from `pos` on.
pub fn first_tag(buf: &[u8], pos: usize, tag: &[u8]) -> (next: usize)
    ensures
        next == find_tag(buf@, pos as int, tag@),
        pos <= next,
        pos <= buf@.len() ==> next <= buf@.len(),
{
    if pos > buf.len() {
        return pos;
    }
    let mut at = pos;
    while at < buf.len() && !stands(buf, at, tag)
        invariant
            pos <= at <= buf@.len(),
            find_tag(buf@, pos as int, tag@) == find_tag(buf@, at as int, tag@),
        decreases buf@.len() - at,
    {
        at += 1;
    }
    at
}

/// The names of the elements, as bytes.
pub struct Names {
    pub plist: Vec<u8>,
    pub dict: Vec<u8>,
    pub key: Vec<u8>,
    pub array: Vec<u8>,
    pub string: Vec<u8>,
    pub real: Vec<u8>,
    pub integer: Vec<u8>,
    pub date: Vec<u8>,
    pub data: Vec<u8>,
    pub yes: Vec<u8>,
    pub no: Vec<u8>,
}

impl Names {
    /// Every name is spelled as it must be.
    pub open spec fn spelled(&self) -> bool {
        &&& self.plist@ == name_plist()
        &&& self.dict@ == name_dict()
        &&& self.key@ == name_key()
        &&& self.array@ == name_array()
        &&& self.string@ == name_string()
        &&& self.real@ == name_real()
        &&& self.integer@ == name_integer()
        &&& self.date@ == name_date()
        &&& self.data@ == name_data()
        &&& self.yes@ == name_true()
        &&& self.no@ == name_false()
    }

    pub fn new() -> (names: Self)
        ensures
            names.spelled(),
    {
        let names = Names {
            plist: vec!['p' as u8, 'l' as u8, 'i' as u8, 's' as u8, 't' as u8],
            dict: vec!['d' as u8, 'i' as u8, 'c' as u8, 't' as u8],
            key: vec!['k' as u8, 'e' as u8, 'y' as u8],
            array: vec!['a' as u8, 'r' as u8, 'r' as u8, 'a' as u8, 'y' as u8],
            string: vec!['s' as u8, 't' as u8, 'r' as u8, 'i' as u8, 'n' as u8, 'g' as u8],
            real: vec!['r' as u8, 'e' as u8, 'a' as u8, 'l' as u8],
            integer: vec![
                'i' as u8,
                'n' as u8,
                't' as u8,
                'e' as u8,
                'g' as u8,
                'e' as u8,
                'r' as u8,
            ],
            date: vec!['d' as u8, 'a' as u8, 't' as u8, 'e' as u8],
            data: vec!['d' as u8, 'a' as u8, 't' as u8, 'a' as u8],
            yes: vec!['t' as u8, 'r' as u8, 'u' as u8, 'e' as u8],
            no: vec!['f' as u8, 'a' as u8, 'l' as u8, 's' as u8, 'e' as u8],
        };
        assert(names.plist@ =~= name_plist());
        assert(names.dict@ =~= name_dict());
        assert(names.key@ =~= name_key());
        assert(names.array@ =~= name_array());
        assert(names.string@ =~= name_string());
        assert(names.real@ =~= name_real());
        assert(names.integer@ =~= name_integer());
        assert(names.date@ =~= name_date());
        assert(names.data@ =~= name_data());
        assert(names.yes@ =~= name_true());
        assert(names.no@ =~= name_false());
        names
    }
}

/// Whether `<name` stands at `pos`.
pub fn at_begin(buf: &[u8], pos: usize, name: &Vec<u8>) -> (yes: bool)
    ensures
        yes == starts(buf@, pos as int, begin_tag(name@)),
{
    let len = buf.len();
    let n = name.len();
    if pos >= len || len - pos - 1 < n {
        return false;
    }
    let ghost tag = begin_tag(name@);
    let ghost range = buf@.subrange(pos as int, pos + tag.len());
    if buf[pos] != '<' as u8 {
        assert(range[0] != tag[0]);
        return false;
    }
    if !stands(buf, pos + 1, name.as_slice()) {
        assert(range != tag) by {
            if range == tag {
                assert(buf@.subrange(pos + 1, pos + 1 + n) =~= range.subrange(1, 1 + n));
                assert(tag.subrange(1, 1 + n) =~= name@);
            }
        }
        return false;
    }
    assert(range =~= tag) by {
        assert forall|k: int| 0 <= k < tag.len() implies range[k] == tag[k] by {
            if k > 0 {
                assert(buf@.subrange(pos + 1, pos + 1 + n)[k - 1] == buf@[pos + k]);
            }
        }
    }
    true
}

/// Whether `<name>` stands at `pos`.
pub fn at_open(buf: &[u8], pos: usize, name: &Vec<u8>) -> (yes: bool)
    ensures
        yes == starts(buf@, pos as int, open_tag(name@)),
        open_tag(name@).len() == name@.len() + 2,
{
    let len = buf.len();
    let n = name.len();
    let ghost tag = open_tag(name@);
    if pos >= len || len - pos - 1 <= n {
        return false;
    }
    let ghost range = buf@.subrange(pos as int, pos + tag.len());
    if !at_begin(buf, pos, name) {
        assert(range != tag) by {
            if range == tag {
                assert(buf@.subrange(pos as int, pos + 1 + n) =~= range.subrange(0, 1 + n));
                assert(tag.subrange(0, 1 + n) =~= begin_tag(name@));
            }
        }
        return false;
    }
    if buf[pos + 1 + n] != '>' as u8 {
        assert(range[1 + n] != tag[1 + n]);
        return false;
    }
    assert(range =~= tag) by {
        assert forall|k: int| 0 <= k < tag.len() implies range[k] == tag[k] by {
            if k < 1 + n {
                assert(buf@.subrange(pos as int, pos + 1 + n)[k] == buf@[pos + k]);
                assert(begin_tag(name@)[k] == tag[k]);
            }
        }
    }
    true
}

/// Whether `<name/>` stands at `pos`.
pub fn at_empty(buf: &[u8], pos: usize, name: &Vec<u8>) -> (yes: bool)
    ensures
        yes == starts(buf@, pos as int, empty_tag(name@)),
        empty_tag(name@).len() == name@.len() + 3,
{
    let len = buf.len();
    let n = name.len();
    let ghost tag = empty_tag(name@);
    if pos >= len || len - pos - 1 <= n || len - pos - 2 <= n {
        return false;
    }
    let ghost range = buf@.subrange(pos as int, pos + tag.len());
    if !at_begin(buf, pos, name) {
        assert(range != tag) by {
            if range == tag {
                assert(buf@.subrange(pos as int, pos + 1 + n) =~= range.subrange(0, 1 + n));
                assert(tag.subrange(0, 1 + n) =~= begin_tag(name@));
            }
        }
        return false;
    }
    if buf[pos + 1 + n] != '/' as u8 {
        assert(range[1 + n] != tag[1 + n]);
        return false;
    }
    if buf[pos + 2 + n] != '>' as u8 {
        assert(range[2 + n] != tag[2 + n]);
        return false;
    }
    assert(range =~= tag) by {
        assert forall|k: int| 0 <= k < tag.len() implies range[k] == tag[k] by {
            if k < 1 + n {
                assert(buf@.subrange(pos as int, pos + 1 + n)[k] == buf@[pos + k]);
                assert(begin_tag(name@)[k] == tag[k]);
            }
        }
    }
    true
}

/// Whether `</name>` stands at `pos`.
pub fn at_close(buf: &[u8], pos: usize, name: &Vec<u8>) -> (yes: bool)
    ensures
        yes == starts(buf@, pos as int, close_tag(name@)),
        close_tag(name@).len() == name@.len() + 3,
{
    let len = buf.len();
    let n = name.len();
    let ghost tag = close_tag(name@);
    if pos >= len || len - pos - 1 <= n || len - pos - 2 <= n {
        return false;
    }
    let ghost range = buf@.subrange(pos as int, pos + tag.len());
    if buf[pos] != '<' as u8 {
        assert(range[0] != tag[0]);
        return false;
    }
    if buf[pos + 1] != '/' as u8 {
        assert(range[1] != tag[1]);
        return false;
    }
    if !stands(buf, pos + 2, name.as_slice()) {
        assert(range != tag) by {
            if range == tag {
                assert(buf@.subrange(pos + 2, pos + 2 + n) =~= range.subrange(2, 2 + n));
                assert(tag.subrange(2, 2 + n) =~= name@);
            }
        }
        return false;
    }
    if buf[pos + 2 + n] != '>' as u8 {
        assert(range[2 + n] != tag[2 + n]);
        return false;
    }
    assert(range =~= tag) by {
        assert forall|k: int| 0 <= k < tag.len() implies range[k] == tag[k] by {
            if 2 <= k < 2 + n {
                assert(buf@.subrange(pos + 2, pos + 2 + n)[k - 2] == buf@[pos + k]);
            }
        }
    }
    true
}

/// The element `<name>text</name>` at `pos`: where its text starts and
/// ends, and where the element ends.
pub fn element(buf: &[u8], pos: usize, name: &Vec<u8>) -> (r: Option<(usize, usize, usize)>)
    ensures
        match r {
            Some((from, to, next)) => text_element(buf@, pos as int, name@) == Some(
                (from as int, to as int, next as int),
            ) && pos < from <= to < next <= buf@.len(),
            None => text_element(buf@, pos as int, name@) is None,
        },
{
    let len = buf.len();
    if !at_open(buf, pos, name) {
        return None;
    }
    let from = pos + name.len() + 2;
    let to = first_byte(buf, from, '<' as u8);
    if !at_close(buf, to, name) {
        return None;
    }
    Some((from, to, to + name.len() + 3))
}

} // verus!
