//! RESP frame model: one variant per wire type, each holding its payload as
//! plain bytes.  Text payloads (simple strings, errors, doubles) keep the
//! UTF-8 bytes of the text; a map keeps its entries sorted by key.
use vstd::prelude::*;

pub mod decoder;
pub mod encoder;
pub mod text;
pub mod wire;

verus! {

use crate::resp::wire::{
    frame_val, frame_vals_from, entry_vals_from, is_double_text, map_insert, key_sorted_from,
    bytes_lt, lemma_entry_vals, lemma_bytes_lt_trichotomy, lemma_bytes_lt_trans,
    lemma_map_insert_at,
};
use vstd::string::StrSliceExecFns;
use vstd::utf8::encode_utf8;

/// Simple-framed text, wire form `+<text>\r\n`.
#[derive(Debug, PartialEq, Eq)]
pub struct SimpleString(pub Vec<u8>);

/// Error text, wire form `-<text>\r\n`.
#[derive(Debug, PartialEq, Eq)]
pub struct SimpleError(pub Vec<u8>);

/// Binary-safe string, wire form `$<len>\r\n<data>\r\n`.
#[derive(Debug, PartialEq, Eq)]
pub struct BulkString(pub Vec<u8>);

/// Wire form `_\r\n`.
#[derive(Debug, PartialEq, Eq)]
pub struct RespNull;

/// Wire form `$-1\r\n`.
#[derive(Debug, PartialEq, Eq)]
pub struct NullBulkString;

/// Wire form `*-1\r\n`.
#[derive(Debug, PartialEq, Eq)]
pub struct RespNullArray;

/// Ordered frame sequence, wire form `*<count>\r\n<item>...`.
#[derive(Debug, PartialEq)]
pub struct RespArray(pub Vec<RespFrame>);

/// A double kept in its canonical decimal text form (see [`is_double_text`]),
/// wire form `,<text>\r\n`.  The numeric reading of the text is left to the
/// caller; the codec only frames it.
#[derive(Debug, PartialEq, Eq)]
pub struct RespDouble(pub Vec<u8>);

/// Key-sorted map from text keys to frames, wire form
/// `%<count>\r\n<+key\r\n><value>...` with the entries in key order.
#[derive(Debug, PartialEq)]
pub struct RespMap(pub Vec<(Vec<u8>, RespFrame)>);

/// Positionally encoded set, wire form `~<count>\r\n<item>...`.
#[derive(Debug, PartialEq)]
pub struct RespSet(pub Vec<RespFrame>);

/// One self-describing RESP value.
#[derive(Debug, PartialEq)]
pub enum RespFrame {
    SimpleString(SimpleString),
    Error(SimpleError),
    Integer(i64),
    BulkString(BulkString),
    NullBulkString(NullBulkString),
    Array(RespArray),
    NullArray(RespNullArray),
    Null(RespNull),
    Boolean(bool),
    Double(RespDouble),
    Mapping(RespMap),
    Collection(RespSet),
}

/// The mathematical value of a frame: the same tree over `Seq` and `int`.
pub enum FrameVal {
    SimpleString(Seq<u8>),
    Error(Seq<u8>),
    Integer(int),
    BulkString(Seq<u8>),
    NullBulkString,
    Array(Seq<FrameVal>),
    NullArray,
    Null,
    Boolean(bool),
    Double(Seq<u8>),
    Mapping(Seq<(Seq<u8>, FrameVal)>),
    Collection(Seq<FrameVal>),
}

/// Decode outcome reported to the caller: more bytes needed, or bytes that
/// cannot be part of any frame.
#[derive(Debug, PartialEq, Eq)]
pub enum RespError {
    Incomplete,
    Malformed,
}

impl View for RespFrame {
    type V = FrameVal;

    open spec fn view(&self) -> FrameVal {
        frame_val(*self)
    }
}

impl View for RespArray {
    type V = Seq<FrameVal>;

    open spec fn view(&self) -> Seq<FrameVal> {
        frame_vals_from(self.0@, 0)
    }
}

impl View for RespSet {
    type V = Seq<FrameVal>;

    open spec fn view(&self) -> Seq<FrameVal> {
        frame_vals_from(self.0@, 0)
    }
}

impl View for RespMap {
    type V = Seq<(Seq<u8>, FrameVal)>;

    open spec fn view(&self) -> Seq<(Seq<u8>, FrameVal)> {
        entry_vals_from(self.0@, 0)
    }
}

impl Clone for RespFrame {
    fn clone(&self) -> (r: Self)
        ensures
            r@ == self@,
    {
        clone_frame(self)
    }
}

/// A fresh frame with the same value.
pub fn clone_frame(f: &RespFrame) -> (r: RespFrame)
    ensures
        frame_val(r) == frame_val(*f),
    decreases *f, 0int,
{
    match f {
        RespFrame::SimpleString(s) => RespFrame::SimpleString(
            SimpleString(crate::resp::text::copy_bytes(s.0.as_slice())),
        ),
        RespFrame::Error(e) => RespFrame::Error(
            SimpleError(crate::resp::text::copy_bytes(e.0.as_slice())),
        ),
        RespFrame::Integer(n) => RespFrame::Integer(*n),
        RespFrame::BulkString(b) => RespFrame::BulkString(
            BulkString(crate::resp::text::copy_bytes(b.0.as_slice())),
        ),
        RespFrame::NullBulkString(_) => RespFrame::NullBulkString(NullBulkString),
        RespFrame::Array(a) => RespFrame::Array(RespArray(clone_frames(&a.0))),
        RespFrame::NullArray(_) => RespFrame::NullArray(RespNullArray),
        RespFrame::Null(_) => RespFrame::Null(RespNull),
        RespFrame::Boolean(b) => RespFrame::Boolean(*b),
        RespFrame::Double(d) => RespFrame::Double(
            RespDouble(crate::resp::text::copy_bytes(d.0.as_slice())),
        ),
        RespFrame::Mapping(m) => RespFrame::Mapping(RespMap(clone_map_entries(&m.0))),
        RespFrame::Collection(s) => RespFrame::Collection(RespSet(clone_frames(&s.0))),
    }
}

fn clone_frames(items: &Vec<RespFrame>) -> (r: Vec<RespFrame>)
    ensures
        frame_vals_from(r@, 0) == frame_vals_from(items@, 0),
    decreases *items, 1int,
{
    let mut r: Vec<RespFrame> = Vec::new();
    let mut k: usize = 0;
    while k < items.len()
        invariant
            k <= items@.len(),
            r@.len() == k,
            forall|j: int| 0 <= j < k ==> frame_val(#[trigger] r@[j]) == frame_val(items@[j]),
        decreases items@.len() - k,
    {
        proof {
            assert(decreases_to!(*items => items@[k as int]));
        }
        let c = clone_frame(&items[k]);
        r.push(c);
        k += 1;
    }
    proof {
        crate::resp::wire::lemma_frame_vals(r@);
        crate::resp::wire::lemma_frame_vals(items@);
        assert(frame_vals_from(r@, 0) =~= frame_vals_from(items@, 0));
    }
    r
}

fn clone_map_entries(entries: &Vec<(Vec<u8>, RespFrame)>) -> (r: Vec<(Vec<u8>, RespFrame)>)
    ensures
        entry_vals_from(r@, 0) == entry_vals_from(entries@, 0),
    decreases *entries, 1int,
{
    let mut r: Vec<(Vec<u8>, RespFrame)> = Vec::new();
    let mut k: usize = 0;
    while k < entries.len()
        invariant
            k <= entries@.len(),
            r@.len() == k,
            forall|j: int|
                0 <= j < k ==> (#[trigger] r@[j]).0@ == entries@[j].0@ && frame_val(r@[j].1)
                    == frame_val(entries@[j].1),
        decreases entries@.len() - k,
    {
        proof {
            assert(decreases_to!(*entries => entries@[k as int]));
            assert(decreases_to!(entries@[k as int] => entries@[k as int].1));
        }
        let kb = crate::resp::text::copy_bytes(entries[k].0.as_slice());
        let c = clone_frame(&entries[k].1);
        r.push((kb, c));
        k += 1;
    }
    proof {
        lemma_entry_vals(r@);
        lemma_entry_vals(entries@);
        assert(entry_vals_from(r@, 0) =~= entry_vals_from(entries@, 0));
    }
    r
}

impl SimpleString {
    /// Builds a simple string holding the UTF-8 bytes of `value`.
    pub fn new(value: String) -> (r: Self)
        ensures
            r.0@ == encode_utf8(value@),
    {
        SimpleString(value.as_str().as_bytes_vec())
    }
}

impl SimpleError {
    /// Builds an error frame holding the UTF-8 bytes of `value`.
    pub fn new(value: String) -> (r: Self)
        ensures
            r.0@ == encode_utf8(value@),
    {
        SimpleError(value.as_str().as_bytes_vec())
    }
}

impl BulkString {
    /// Builds a bulk string holding the UTF-8 bytes of `value`.
    pub fn new(value: String) -> (r: Self)
        ensures
            r.0@ == encode_utf8(value@),
    {
        BulkString(value.as_str().as_bytes_vec())
    }
}

impl RespArray {
    pub fn new(items: Vec<RespFrame>) -> (r: Self)
        ensures
            r.0@ == items@,
    {
        RespArray(items)
    }
}

impl RespSet {
    pub fn new(items: Vec<RespFrame>) -> (r: Self)
        ensures
            r.0@ == items@,
    {
        RespSet(items)
    }
}

impl RespDouble {
    /// Accepts exactly the texts of the double grammar; any other text is
    /// rejected with `None`.
    pub fn new(value: String) -> (r: Option<Self>)
        ensures
            r is Some <==> is_double_text(encode_utf8(value@)),
            r is Some ==> r.unwrap().0@ == encode_utf8(value@),
    {
        let b = value.as_str().as_bytes_vec();
        if crate::resp::text::check_double_text(b.as_slice()) {
            Some(RespDouble(b))
        } else {
            None
        }
    }
}

impl RespMap {
    pub fn new() -> (r: Self)
        ensures
            r@ == Seq::<(Seq<u8>, FrameVal)>::empty(),
    {
        RespMap(Vec::new())
    }

    /// Puts `value` under the UTF-8 bytes of `key`, keeping the entries
    /// sorted by key; an entry already under that key is replaced.
    pub fn insert(&mut self, key: String, value: RespFrame)
        requires
            old(self).key_sorted(),
        ensures
            final(self)@ == map_insert(old(self)@, encode_utf8(key@), value@),
            final(self).key_sorted(),
    {
        let kb = key.as_str().as_bytes_vec();
        self.insert_bytes(kb, value);
    }

    /// Entries are strictly ascending by key.
    pub open spec fn key_sorted(&self) -> bool {
        key_sorted_from(self@, 0)
    }
}

impl Default for RespMap {
    fn default() -> (r: Self)
        ensures
            r@ == Seq::<(Seq<u8>, FrameVal)>::empty(),
    {
        RespMap::new()
    }
}

impl RespMap {

    /// Index of the first key not below `kb`, and whether it equals `kb`.
    fn find_slot(&self, kb: &Vec<u8>) -> (r: (usize, bool))
        ensures
            0 <= r.0 <= self@.len(),
            forall|j: int| 0 <= j < r.0 ==> bytes_lt(#[trigger] self@[j].0, kb@),
            r.1 ==> r.0 < self@.len() && self@[r.0 as int].0 == kb@,
            !r.1 && r.0 < self@.len() ==> bytes_lt(kb@, self@[r.0 as int].0),
    {
        proof {
            lemma_entry_vals(self.0@);
        }
        let mut i: usize = 0;
        while i < self.0.len()
            invariant
                i <= self.0@.len(),
                self@.len() == self.0@.len(),
                forall|j: int| 0 <= j < self@.len() ==> #[trigger] self@[j].0 == self.0@[j].0@,
                forall|j: int| 0 <= j < i ==> bytes_lt(#[trigger] self@[j].0, kb@),
            decreases self.0@.len() - i,
        {
            match crate::resp::text::bytes_cmp(self.0[i].0.as_slice(), kb.as_slice()) {
                crate::resp::text::KeyOrder::Less => {
                    i += 1;
                },
                crate::resp::text::KeyOrder::Equal => {
                    return (i, true);
                },
                crate::resp::text::KeyOrder::Greater => {
                    return (i, false);
                },
            }
        }
        (i, false)
    }

    /// Sorted insertion of an already-converted key.
    pub(crate) fn insert_bytes(&mut self, kb: Vec<u8>, value: RespFrame)
        requires
            old(self).key_sorted(),
        ensures
            final(self)@ == map_insert(old(self)@, kb@, frame_val(value)),
            final(self).key_sorted(),
    {
        let ghost s0 = self@;
        let ghost kv = (kb@, frame_val(value));
        let (i, found) = self.find_slot(&kb);
        proof {
            lemma_entry_vals(self.0@);
            if i < self@.len() {
                lemma_bytes_lt_trichotomy(self@[i as int].0, kb@);
            }
            lemma_map_insert_at(s0, kb@, frame_val(value), i as int);
        }
        if found {
            self.0.remove(i);
            self.0.insert(i, (kb, value));
            proof {
                lemma_entry_vals(self.0@);
                assert(self@ =~= s0.update(i as int, kv));
                assert forall|j: int, k: int|
                    0 <= j < k < self@.len() implies bytes_lt(
                    self@[j].0,
                    self@[k].0,
                ) by {
                    assert(bytes_lt(s0[j].0, s0[k].0));
                    assert(s0[i as int].0 == kb@);
                }
            }
        } else {
            self.0.insert(i, (kb, value));
            proof {
                lemma_entry_vals(self.0@);
                assert(self@ =~= s0.insert(i as int, kv));
                assert forall|j: int, k: int|
                    0 <= j < k < self@.len() implies bytes_lt(
                    self@[j].0,
                    self@[k].0,
                ) by {
                    let ii = i as int;
                    if j < ii && k == ii {
                        assert(bytes_lt(s0[j].0, kb@));
                    } else if j == ii && k > ii {
                        assert(bytes_lt(kb@, s0[ii].0));
                        if k - 1 > ii {
                            assert(bytes_lt(s0[ii].0, s0[k - 1].0));
                            lemma_bytes_lt_trans(kb@, s0[ii].0, s0[k - 1].0);
                        }
                    } else if j < ii && k > ii {
                        assert(bytes_lt(s0[j].0, s0[k - 1].0));
                    } else if j > ii && k > ii {
                        assert(bytes_lt(s0[j - 1].0, s0[k - 1].0));
                    } else {
                        assert(bytes_lt(s0[j].0, s0[k].0));
                    }
                }
            }
        }
    }
}

} // verus!
