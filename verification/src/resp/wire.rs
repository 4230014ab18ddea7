//! The wire grammar, in specification form: what each frame value encodes
//! to, and what one attempt to read a frame from a byte sequence yields.
//! The executable encoder and decoder are proved against these functions.
use vstd::prelude::*;

verus! {

use crate::resp::{FrameVal, RespFrame, RespArray, RespMap, RespSet};

// ---------------------------------------------------------------------------
// Models of the executable types
// ---------------------------------------------------------------------------
/// The value of one frame.
pub open spec fn frame_val(f: RespFrame) -> FrameVal
    decreases f, 0int,
{
    match f {
        RespFrame::SimpleString(s) => FrameVal::SimpleString(s.0@),
        RespFrame::Error(e) => FrameVal::Error(e.0@),
        RespFrame::Integer(n) => FrameVal::Integer(n as int),
        RespFrame::BulkString(b) => FrameVal::BulkString(b.0@),
        RespFrame::NullBulkString(_) => FrameVal::NullBulkString,
        RespFrame::Array(a) => FrameVal::Array(frame_vals_from(a.0@, 0)),
        RespFrame::NullArray(_) => FrameVal::NullArray,
        RespFrame::Null(_) => FrameVal::Null,
        RespFrame::Boolean(b) => FrameVal::Boolean(b),
        RespFrame::Double(d) => FrameVal::Double(d.0@),
        RespFrame::Mapping(m) => FrameVal::Mapping(entry_vals_from(m.0@, 0)),
        RespFrame::Collection(s) => FrameVal::Collection(frame_vals_from(s.0@, 0)),
    }
}

/// The values of the frames of `items` from index `i` on.
pub open spec fn frame_vals_from(items: Seq<RespFrame>, i: int) -> Seq<FrameVal>
    decreases items, items.len() - i, 1int,
{
    if 0 <= i < items.len() {
        seq![frame_val(items[i])] + frame_vals_from(items, i + 1)
    } else {
        Seq::empty()
    }
}

/// The values of the map entries of `entries` from index `i` on.
pub open spec fn entry_vals_from(entries: Seq<(Vec<u8>, RespFrame)>, i: int) -> Seq<
    (Seq<u8>, FrameVal),
>
    decreases entries, entries.len() - i, 1int,
{
    if 0 <= i < entries.len() {
        seq![(entries[i].0@, frame_val(entries[i].1))] + entry_vals_from(entries, i + 1)
    } else {
        Seq::empty()
    }
}

// ---------------------------------------------------------------------------
// Byte classes and ordering
// ---------------------------------------------------------------------------
pub open spec fn is_digit(b: u8) -> bool {
    48 <= b <= 57
}

/// Text that may stand in a simple-framed payload: no carriage return and no
/// line feed anywhere.
pub open spec fn clean_text(s: Seq<u8>) -> bool {
    forall|i: int| 0 <= i < s.len() ==> s[i] != 13 && s[i] != 10
}

/// Strict lexicographic order on byte strings; a proper prefix comes first.
pub open spec fn bytes_lt(a: Seq<u8>, b: Seq<u8>) -> bool
    decreases a.len(),
{
    if b.len() == 0 {
        false
    } else if a.len() == 0 {
        true
    } else if a[0] < b[0] {
        true
    } else if a[0] > b[0] {
        false
    } else {
        bytes_lt(a.drop_first(), b.drop_first())
    }
}

/// Entries of `s` from index `i` on are strictly ascending by key.
pub open spec fn key_sorted_from(s: Seq<(Seq<u8>, FrameVal)>, i: int) -> bool {
    forall|j: int, k: int| i <= j < k < s.len() ==> bytes_lt(s[j].0, s[k].0)
}

/// Sorted insertion: an entry with an equal key is replaced, otherwise the
/// new entry goes before the first larger key.
pub open spec fn map_insert(s: Seq<(Seq<u8>, FrameVal)>, k: Seq<u8>, v: FrameVal) -> Seq<
    (Seq<u8>, FrameVal),
>
    decreases s.len(),
{
    if s.len() == 0 {
        seq![(k, v)]
    } else if bytes_lt(s[0].0, k) {
        seq![s[0]] + map_insert(s.drop_first(), k, v)
    } else if s[0].0 == k {
        seq![(k, v)] + s.drop_first()
    } else {
        seq![(k, v)] + s
    }
}

// ---------------------------------------------------------------------------
// Decimal text
// ---------------------------------------------------------------------------
/// Decimal digits of `n`, most significant first.
pub open spec fn dec_nat(n: nat) -> Seq<u8>
    decreases n,
{
    if n < 10 {
        seq![(48 + n) as u8]
    } else {
        dec_nat(n / 10) + seq![(48 + n % 10) as u8]
    }
}

/// Signed decimal text of `n`: a minus sign for negative values, no sign
/// otherwise.
pub open spec fn dec_int(n: int) -> Seq<u8> {
    if n < 0 {
        seq![45u8] + dec_nat((-n) as nat)
    } else {
        dec_nat(n as nat)
    }
}

/// Reads digits left to right onto `acc`, failing on a non-digit or as soon
/// as the value would pass `bound`.
pub open spec fn digits_val(s: Seq<u8>, pos: int, to: int, acc: int, bound: int) -> Option<int>
    decreases to - pos,
{
    if pos >= to {
        Some(acc)
    } else if !is_digit(s[pos]) {
        None
    } else {
        let a2 = acc * 10 + (s[pos] - 48);
        if a2 > bound {
            None
        } else {
            digits_val(s, pos + 1, to, a2, bound)
        }
    }
}

/// The value of the signed decimal text `s[from..to]`: an optional single
/// `+` or `-`, then at least one digit, the whole fitting in a signed 64-bit
/// integer.  `None` when the text breaks that grammar.
pub open spec fn parse_signed(s: Seq<u8>, from: int, to: int) -> Option<int> {
    if from >= to {
        None
    } else {
        let neg = s[from] == 45;
        let d0 = if s[from] == 45 || s[from] == 43 {
            from + 1
        } else {
            from
        };
        let bound = if neg {
            0x8000_0000_0000_0000int
        } else {
            0x7fff_ffff_ffff_ffffint
        };
        if d0 >= to {
            None
        } else {
            match digits_val(s, d0, to, 0, bound) {
                Option::Some(m) => Option::Some(
                    if neg {
                        -m
                    } else {
                        m
                    },
                ),
                Option::None => Option::None,
            }
        }
    }
}

// ---------------------------------------------------------------------------
// Double text
// ---------------------------------------------------------------------------
/// First index at or past `pos` holding a non-digit, or the end.
pub open spec fn scan_digits(s: Seq<u8>, pos: int) -> int
    decreases s.len() - pos,
{
    if 0 <= pos < s.len() && is_digit(s[pos]) {
        scan_digits(s, pos + 1)
    } else {
        pos
    }
}

/// The texts accepted for a double: optional sign, an integral digit run,
/// an optional `.` with a fractional digit run, an optional `e`/`E` with an
/// optionally signed exponent digit run.
pub open spec fn is_double_text(t: Seq<u8>) -> bool {
    let p0: int = if t.len() > 0 && (t[0] == 43 || t[0] == 45) {
        1
    } else {
        0
    };
    let p1 = scan_digits(t, p0);
    &&& p1 > p0
    &&& (p1 == t.len() || {
        let p2 = if t[p1] == 46 {
            scan_digits(t, p1 + 1)
        } else {
            p1
        };
        &&& (t[p1] == 46 ==> p2 > p1 + 1)
        &&& (p2 == t.len() || {
            let has_e = t[p2] == 101 || t[p2] == 69;
            let p3: int = if has_e && p2 + 1 < t.len() && (t[p2 + 1] == 43 || t[p2 + 1] == 45) {
                p2 + 2
            } else {
                p2 + 1
            };
            let p4 = scan_digits(t, p3);
            &&& has_e
            &&& p4 > p3
            &&& p4 == t.len()
        })
    })
}

// ---------------------------------------------------------------------------
// Encoding
// ---------------------------------------------------------------------------
pub open spec fn crlf() -> Seq<u8> {
    seq![13u8, 10u8]
}

/// The exact byte encoding of a frame value.
pub open spec fn enc(v: FrameVal) -> Seq<u8>
    decreases v, 0int,
{
    match v {
        FrameVal::SimpleString(s) => seq![43u8] + s + crlf(),
        FrameVal::Error(s) => seq![45u8] + s + crlf(),
        FrameVal::Integer(n) => seq![58u8] + dec_int(n) + crlf(),
        FrameVal::BulkString(b) => seq![36u8] + dec_nat(b.len()) + crlf() + b + crlf(),
        FrameVal::NullBulkString => seq![36u8, 45u8, 49u8, 13u8, 10u8],
        FrameVal::Array(items) => seq![42u8] + dec_nat(items.len()) + crlf() + enc_items_from(
            items,
            0,
        ),
        FrameVal::NullArray => seq![42u8, 45u8, 49u8, 13u8, 10u8],
        FrameVal::Null => seq![95u8, 13u8, 10u8],
        FrameVal::Boolean(b) => if b {
            seq![35u8, 116u8, 13u8, 10u8]
        } else {
            seq![35u8, 102u8, 13u8, 10u8]
        },
        FrameVal::Double(t) => seq![44u8] + t + crlf(),
        FrameVal::Mapping(entries) => seq![37u8] + dec_nat(entries.len()) + crlf() + enc_entries_from(
            entries,
            0,
        ),
        FrameVal::Collection(items) => seq![126u8] + dec_nat(items.len()) + crlf() + enc_items_from(
            items,
            0,
        ),
    }
}

/// Concatenated encodings of `items` from index `i` on.
pub open spec fn enc_items_from(items: Seq<FrameVal>, i: int) -> Seq<u8>
    decreases items, items.len() - i, 1int,
{
    if 0 <= i < items.len() {
        enc(items[i]) + enc_items_from(items, i + 1)
    } else {
        Seq::empty()
    }
}

/// Concatenated encodings of map entries from index `i` on: each key as a
/// simple string, then its value.
pub open spec fn enc_entries_from(entries: Seq<(Seq<u8>, FrameVal)>, i: int) -> Seq<u8>
    decreases entries, entries.len() - i, 1int,
{
    if 0 <= i < entries.len() {
        seq![43u8] + entries[i].0 + crlf() + enc(entries[i].1) + enc_entries_from(entries, i + 1)
    } else {
        Seq::empty()
    }
}

/// The count field of an array, set or map encoding holds the number of
/// elements or entries, never a byte length: the digits after the marker
/// are exactly the decimal form of the element or entry count.
pub proof fn lemma_count_is_element_count(v: FrameVal)
    ensures
        (v matches FrameVal::Array(items) ==> enc(v) == seq![42u8] + dec_nat(items.len()) + crlf()
            + enc_items_from(items, 0)),
        (v matches FrameVal::Collection(items) ==> enc(v) == seq![126u8] + dec_nat(items.len())
            + crlf() + enc_items_from(items, 0)),
        (v matches FrameVal::Mapping(entries) ==> enc(v) == seq![37u8] + dec_nat(entries.len())
            + crlf() + enc_entries_from(entries, 0)),
{
}

// ---------------------------------------------------------------------------
// Well-formed frame values
// ---------------------------------------------------------------------------
/// A frame value that the encoder can frame unambiguously: simple-framed
/// payloads are free of CR and LF, integers fit in 64 bits signed, double
/// texts follow the double grammar, map keys are clean and strictly
/// ascending.
pub open spec fn wf_val(v: FrameVal) -> bool
    decreases v, 0int,
{
    match v {
        FrameVal::SimpleString(s) => clean_text(s),
        FrameVal::Error(s) => clean_text(s),
        FrameVal::Integer(n) => -0x8000_0000_0000_0000 <= n <= 0x7fff_ffff_ffff_ffff,
        FrameVal::BulkString(b) => b.len() <= 0x7fff_ffff_ffff_ffff,
        FrameVal::NullBulkString => true,
        FrameVal::Array(items) => items.len() <= 0x7fff_ffff_ffff_ffff && wf_vals_from(items, 0),
        FrameVal::NullArray => true,
        FrameVal::Null => true,
        FrameVal::Boolean(_) => true,
        FrameVal::Double(t) => is_double_text(t),
        FrameVal::Mapping(entries) => entries.len() <= 0x7fff_ffff_ffff_ffff && wf_entries_from(
            entries,
            0,
        ) && key_sorted_from(entries, 0),
        FrameVal::Collection(items) => items.len() <= 0x7fff_ffff_ffff_ffff && wf_vals_from(
            items,
            0,
        ),
    }
}

pub open spec fn wf_vals_from(items: Seq<FrameVal>, i: int) -> bool
    decreases items, items.len() - i, 1int,
{
    if 0 <= i < items.len() {
        wf_val(items[i]) && wf_vals_from(items, i + 1)
    } else {
        true
    }
}

pub open spec fn wf_entries_from(entries: Seq<(Seq<u8>, FrameVal)>, i: int) -> bool
    decreases entries, entries.len() - i, 1int,
{
    if 0 <= i < entries.len() {
        clean_text(entries[i].0) && wf_val(entries[i].1) && wf_entries_from(entries, i + 1)
    } else {
        true
    }
}

// ---------------------------------------------------------------------------
// Parsing
// ---------------------------------------------------------------------------
/// Outcome of reading one frame starting at a position: more bytes are
/// needed, the bytes break the grammar, or a frame value and the position
/// just past it.
pub enum Parsed {
    Incomplete,
    Malformed,
    Found(FrameVal, int),
}

pub enum ParsedItems {
    Incomplete,
    Malformed,
    Found(Seq<FrameVal>, int),
}

pub enum ParsedEntries {
    Incomplete,
    Malformed,
    Found(Seq<(Seq<u8>, FrameVal)>, int),
}

// ---------------------------------------------------------------------------
// Pointwise readings of the model helpers
// ---------------------------------------------------------------------------
pub proof fn lemma_frame_vals_from(items: Seq<RespFrame>, i: int)
    requires
        0 <= i <= items.len(),
    ensures
        frame_vals_from(items, i).len() == items.len() - i,
        forall|j: int|
            i <= j < items.len() ==> frame_vals_from(items, i)[j - i] == frame_val(items[j]),
    decreases items.len() - i,
{
    if i < items.len() {
        lemma_frame_vals_from(items, i + 1);
        assert forall|j: int|
            i <= j < items.len() implies frame_vals_from(items, i)[j - i] == frame_val(
            items[j],
        ) by {
            if j > i {
                assert(frame_vals_from(items, i + 1)[j - i - 1] == frame_val(items[j]));
            }
        }
    }
}

pub proof fn lemma_entry_vals_from(entries: Seq<(Vec<u8>, RespFrame)>, i: int)
    requires
        0 <= i <= entries.len(),
    ensures
        entry_vals_from(entries, i).len() == entries.len() - i,
        forall|j: int|
            i <= j < entries.len() ==> entry_vals_from(entries, i)[j - i] == (
            entries[j].0@,
            frame_val(entries[j].1),
            ),
    decreases entries.len() - i,
{
    if i < entries.len() {
        lemma_entry_vals_from(entries, i + 1);
        assert forall|j: int|
            i <= j < entries.len() implies entry_vals_from(entries, i)[j - i] == (
            entries[j].0@,
            frame_val(entries[j].1),
        ) by {
            if j > i {
                assert(entry_vals_from(entries, i + 1)[j - i - 1] == (
                    entries[j].0@,
                    frame_val(entries[j].1),
                ));
            }
        }
    }
}

/// Pointwise reading of [`frame_vals_from`] from the start.
pub proof fn lemma_frame_vals(items: Seq<RespFrame>)
    ensures
        frame_vals_from(items, 0).len() == items.len(),
        forall|j: int|
            0 <= j < items.len() ==> #[trigger] frame_vals_from(items, 0)[j] == frame_val(
                items[j],
            ),
{
    lemma_frame_vals_from(items, 0);
    assert forall|j: int|
        0 <= j < items.len() implies #[trigger] frame_vals_from(items, 0)[j] == frame_val(
        items[j],
    ) by {
        assert(frame_vals_from(items, 0)[j - 0] == frame_val(items[j]));
    }
}

/// Pointwise reading of [`entry_vals_from`] from the start.
pub proof fn lemma_entry_vals(entries: Seq<(Vec<u8>, RespFrame)>)
    ensures
        entry_vals_from(entries, 0).len() == entries.len(),
        forall|j: int|
            0 <= j < entries.len() ==> #[trigger] entry_vals_from(entries, 0)[j] == (
            entries[j].0@,
            frame_val(entries[j].1),
            ),
{
    lemma_entry_vals_from(entries, 0);
    assert forall|j: int|
        0 <= j < entries.len() implies #[trigger] entry_vals_from(entries, 0)[j] == (
        entries[j].0@,
        frame_val(entries[j].1),
    ) by {
        assert(entry_vals_from(entries, 0)[j - 0] == (entries[j].0@, frame_val(entries[j].1)));
    }
}

// ---------------------------------------------------------------------------
// The byte-string order is a strict total order
// ---------------------------------------------------------------------------
/// No byte string is below itself.
pub proof fn lemma_bytes_lt_irrefl(a: Seq<u8>)
    ensures
        !bytes_lt(a, a),
    decreases a.len(),
{
    if a.len() > 0 {
        lemma_bytes_lt_irrefl(a.drop_first());
    }
}

/// A difference at index `i` after a common prefix decides the order.
pub proof fn lemma_bytes_lt_at(a: Seq<u8>, b: Seq<u8>, i: int)
    requires
        0 <= i < a.len(),
        i < b.len(),
        forall|j: int| 0 <= j < i ==> a[j] == b[j],
        a[i] < b[i],
    ensures
        bytes_lt(a, b),
        !bytes_lt(b, a),
        a != b,
    decreases i,
{
    if i == 0 {
        if a == b {
            assert(a[0] == b[0]);
        }
    } else {
        assert(a[0] == b[0]);
        assert forall|j: int| 0 <= j < i - 1 implies a.drop_first()[j] == b.drop_first()[j] by {
            assert(a.drop_first()[j] == a[j + 1]);
            assert(b.drop_first()[j] == b[j + 1]);
        }
        assert(a.drop_first()[i - 1] == a[i]);
        assert(b.drop_first()[i - 1] == b[i]);
        lemma_bytes_lt_at(a.drop_first(), b.drop_first(), i - 1);
        if a == b {
            assert(a.drop_first() =~= b.drop_first());
        }
    }
}

/// A proper prefix is below any extension of it.
pub proof fn lemma_bytes_lt_prefix(a: Seq<u8>, b: Seq<u8>)
    requires
        a.len() < b.len(),
        forall|j: int| 0 <= j < a.len() ==> a[j] == b[j],
    ensures
        bytes_lt(a, b),
        !bytes_lt(b, a),
        a != b,
    decreases a.len(),
{
    if a.len() > 0 {
        assert forall|j: int| 0 <= j < a.drop_first().len() implies a.drop_first()[j]
            == b.drop_first()[j] by {
            assert(a.drop_first()[j] == a[j + 1]);
            assert(b.drop_first()[j] == b[j + 1]);
        }
        lemma_bytes_lt_prefix(a.drop_first(), b.drop_first());
    }
    if a == b {
        assert(a.len() == b.len());
    }
}

pub proof fn lemma_bytes_lt_trichotomy(a: Seq<u8>, b: Seq<u8>)
    ensures
        bytes_lt(a, b) || a == b || bytes_lt(b, a),
        bytes_lt(a, b) ==> a != b && !bytes_lt(b, a),
        a == b ==> !bytes_lt(a, b),
    decreases a.len(),
{
    if a.len() == 0 {
        if b.len() == 0 {
            assert(a =~= b);
        }
    } else if b.len() == 0 {
    } else if a[0] == b[0] {
        lemma_bytes_lt_trichotomy(a.drop_first(), b.drop_first());
        if a.drop_first() == b.drop_first() {
            assert forall|i: int| 0 <= i < a.len() implies a[i] == b[i] by {
                if i > 0 {
                    assert(a[i] == a.drop_first()[i - 1]);
                    assert(b[i] == b.drop_first()[i - 1]);
                }
            }
            assert(a =~= b);
        }
        if a == b {
            assert(a.drop_first() =~= b.drop_first());
        }
    } else {
        if a == b {
            assert(a[0] == b[0]);
        }
    }
}

pub proof fn lemma_bytes_lt_trans(a: Seq<u8>, b: Seq<u8>, c: Seq<u8>)
    requires
        bytes_lt(a, b),
        bytes_lt(b, c),
    ensures
        bytes_lt(a, c),
    decreases a.len(),
{
    if a.len() == 0 {
    } else {
        // b and c are non-empty, else the hypotheses fail
        if a[0] == b[0] && b[0] == c[0] {
            lemma_bytes_lt_trans(a.drop_first(), b.drop_first(), c.drop_first());
        }
    }
}

// ---------------------------------------------------------------------------
// Where a sorted insertion lands
// ---------------------------------------------------------------------------
/// With every key before `i` below `k` and the key at `i` (if any) not below
/// `k`, the sorted insertion either replaces index `i` or inserts there.
pub proof fn lemma_map_insert_at(s: Seq<(Seq<u8>, FrameVal)>, k: Seq<u8>, v: FrameVal, i: int)
    requires
        0 <= i <= s.len(),
        forall|j: int| 0 <= j < i ==> bytes_lt(#[trigger] s[j].0, k),
        i < s.len() ==> !bytes_lt(s[i].0, k),
    ensures
        map_insert(s, k, v) == if i < s.len() && s[i].0 == k {
            s.update(i, (k, v))
        } else {
            s.insert(i, (k, v))
        },
    decreases i,
{
    if i == 0 {
        if s.len() == 0 {
            assert(map_insert(s, k, v) =~= s.insert(0, (k, v)));
        } else if s[0].0 == k {
            lemma_bytes_lt_trichotomy(s[0].0, k);
            assert(map_insert(s, k, v) =~= s.update(0, (k, v)));
        } else {
            assert(map_insert(s, k, v) =~= s.insert(0, (k, v)));
        }
    } else {
        assert(bytes_lt(s[0].0, k));
        lemma_bytes_lt_trichotomy(s[0].0, k);
        let t = s.drop_first();
        assert forall|j: int| 0 <= j < i - 1 implies bytes_lt(#[trigger] t[j].0, k) by {
            assert(t[j] == s[j + 1]);
        }
        assert(i - 1 < t.len() ==> !bytes_lt(t[i - 1].0, k));
        lemma_map_insert_at(t, k, v, i - 1);
        if i < s.len() && s[i].0 == k {
            assert(map_insert(s, k, v) =~= s.update(i, (k, v)));
        } else {
            assert(map_insert(s, k, v) =~= s.insert(i, (k, v)));
        }
    }
}

/// First index at or past `pos` holding CR or LF, if any.
pub open spec fn find_eol(s: Seq<u8>, pos: int) -> Option<int>
    decreases s.len() - pos,
{
    if pos < 0 || pos >= s.len() {
        None
    } else if s[pos] == 13 || s[pos] == 10 {
        Some(pos)
    } else {
        find_eol(s, pos + 1)
    }
}

/// Reads one simple-framed payload starting at `pos` (just past the marker
/// byte): the bytes up to the terminating CRLF.  A line feed before a
/// carriage return, or a carriage return not followed by a line feed, breaks
/// the grammar, so a payload is always clean text.  Refusing at the first
/// stray byte, rather than waiting for a later CRLF, is deliberate: waiting
/// would either never finish on a lone line feed or admit payloads holding
/// CR or LF, which no simple-framed payload may carry, and which would
/// break the round-trip law.
pub open spec fn parse_line(s: Seq<u8>, pos: int) -> Parsed {
    match find_eol(s, pos) {
        Option::None => Parsed::Incomplete,
        Option::Some(e) => {
            if s[e] == 10 {
                Parsed::Malformed
            } else if e + 1 >= s.len() {
                Parsed::Incomplete
            } else if s[e + 1] != 10 {
                Parsed::Malformed
            } else {
                Parsed::Found(FrameVal::SimpleString(s.subrange(pos, e)), e + 2)
            }
        },
    }
}

/// Reads one frame of the wire grammar starting at `pos`.
pub open spec fn parse_frame(s: Seq<u8>, pos: int) -> Parsed
    decreases s.len() - pos, 0int, 0int,
{
    if pos < 0 {
        Parsed::Malformed
    } else if pos >= s.len() {
        Parsed::Incomplete
    } else {
        let m = s[pos];
        if m == 43 {
            // '+' simple string
            parse_line(s, pos + 1)
        } else if m == 45 {
            // '-' error
            match parse_line(s, pos + 1) {
                Parsed::Found(FrameVal::SimpleString(t), e) => Parsed::Found(FrameVal::Error(t), e),
                Parsed::Incomplete => Parsed::Incomplete,
                _ => Parsed::Malformed,
            }
        } else if m == 58 {
            // ':' integer
            match parse_line(s, pos + 1) {
                Parsed::Found(FrameVal::SimpleString(t), e) => match parse_signed(t, 0, t.len() as int) {
                    Option::Some(n) => Parsed::Found(FrameVal::Integer(n), e),
                    Option::None => Parsed::Malformed,
                },
                Parsed::Incomplete => Parsed::Incomplete,
                _ => Parsed::Malformed,
            }
        } else if m == 35 {
            // '#' boolean
            match parse_line(s, pos + 1) {
                Parsed::Found(FrameVal::SimpleString(t), e) => {
                    if t =~= seq![116u8] {
                        Parsed::Found(FrameVal::Boolean(true), e)
                    } else if t =~= seq![102u8] {
                        Parsed::Found(FrameVal::Boolean(false), e)
                    } else {
                        Parsed::Malformed
                    }
                },
                Parsed::Incomplete => Parsed::Incomplete,
                _ => Parsed::Malformed,
            }
        } else if m == 95 {
            // '_' null
            match parse_line(s, pos + 1) {
                Parsed::Found(FrameVal::SimpleString(t), e) => {
                    if t.len() == 0 {
                        Parsed::Found(FrameVal::Null, e)
                    } else {
                        Parsed::Malformed
                    }
                },
                Parsed::Incomplete => Parsed::Incomplete,
                _ => Parsed::Malformed,
            }
        } else if m == 44 {
            // ',' double
            match parse_line(s, pos + 1) {
                Parsed::Found(FrameVal::SimpleString(t), e) => {
                    if is_double_text(t) {
                        Parsed::Found(FrameVal::Double(t), e)
                    } else {
                        Parsed::Malformed
                    }
                },
                Parsed::Incomplete => Parsed::Incomplete,
                _ => Parsed::Malformed,
            }
        } else if m == 36 {
            // '$' bulk string or null bulk string
            match parse_line(s, pos + 1) {
                Parsed::Found(FrameVal::SimpleString(t), e) => match parse_signed(t, 0, t.len() as int) {
                    Option::Some(n) => {
                        if n == -1 {
                            Parsed::Found(FrameVal::NullBulkString, e)
                        } else if n < 0 {
                            Parsed::Malformed
                        } else if e + n + 2 > s.len() {
                            Parsed::Incomplete
                        } else if s[e + n] == 13 && s[e + n + 1] == 10 {
                            Parsed::Found(FrameVal::BulkString(s.subrange(e, e + n)), e + n + 2)
                        } else {
                            Parsed::Malformed
                        }
                    },
                    Option::None => Parsed::Malformed,
                },
                Parsed::Incomplete => Parsed::Incomplete,
                _ => Parsed::Malformed,
            }
        } else if m == 42 {
            // '*' array or null array
            match parse_line(s, pos + 1) {
                Parsed::Found(FrameVal::SimpleString(t), e) => match parse_signed(t, 0, t.len() as int) {
                    Option::Some(n) => {
                        if n == -1 {
                            Parsed::Found(FrameVal::NullArray, e)
                        } else if n < 0 {
                            Parsed::Malformed
                        } else if e <= pos || e > s.len() {
                            Parsed::Malformed
                        } else {
                            match parse_items(s, e, n as nat) {
                                ParsedItems::Found(items, e2) => Parsed::Found(
                                    FrameVal::Array(items),
                                    e2,
                                ),
                                ParsedItems::Incomplete => Parsed::Incomplete,
                                ParsedItems::Malformed => Parsed::Malformed,
                            }
                        }
                    },
                    Option::None => Parsed::Malformed,
                },
                Parsed::Incomplete => Parsed::Incomplete,
                _ => Parsed::Malformed,
            }
        } else if m == 126 {
            // '~' set
            match parse_line(s, pos + 1) {
                Parsed::Found(FrameVal::SimpleString(t), e) => match parse_signed(t, 0, t.len() as int) {
                    Option::Some(n) => {
                        if n < 0 {
                            Parsed::Malformed
                        } else if e <= pos || e > s.len() {
                            Parsed::Malformed
                        } else {
                            match parse_items(s, e, n as nat) {
                                ParsedItems::Found(items, e2) => Parsed::Found(
                                    FrameVal::Collection(items),
                                    e2,
                                ),
                                ParsedItems::Incomplete => Parsed::Incomplete,
                                ParsedItems::Malformed => Parsed::Malformed,
                            }
                        }
                    },
                    Option::None => Parsed::Malformed,
                },
                Parsed::Incomplete => Parsed::Incomplete,
                _ => Parsed::Malformed,
            }
        } else if m == 37 {
            // '%' map
            match parse_line(s, pos + 1) {
                Parsed::Found(FrameVal::SimpleString(t), e) => match parse_signed(t, 0, t.len() as int) {
                    Option::Some(n) => {
                        if n < 0 {
                            Parsed::Malformed
                        } else if e <= pos || e > s.len() {
                            Parsed::Malformed
                        } else {
                            match parse_entries(s, e, n as nat, Seq::empty()) {
                                ParsedEntries::Found(entries, e2) => Parsed::Found(
                                    FrameVal::Mapping(entries),
                                    e2,
                                ),
                                ParsedEntries::Incomplete => Parsed::Incomplete,
                                ParsedEntries::Malformed => Parsed::Malformed,
                            }
                        }
                    },
                    Option::None => Parsed::Malformed,
                },
                Parsed::Incomplete => Parsed::Incomplete,
                _ => Parsed::Malformed,
            }
        } else {
            Parsed::Malformed
        }
    }
}

/// Reads `n` frames one after the other starting at `pos`.
pub open spec fn parse_items(s: Seq<u8>, pos: int, n: nat) -> ParsedItems
    decreases s.len() - pos, n, 1int,
{
    if n == 0 {
        ParsedItems::Found(Seq::empty(), pos)
    } else {
        match parse_frame(s, pos) {
            Parsed::Found(v, e) => {
                if e <= pos || e > s.len() {
                    ParsedItems::Malformed
                } else {
                    match parse_items(s, e, (n - 1) as nat) {
                        ParsedItems::Found(rest, e2) => ParsedItems::Found(seq![v] + rest, e2),
                        ParsedItems::Incomplete => ParsedItems::Incomplete,
                        ParsedItems::Malformed => ParsedItems::Malformed,
                    }
                }
            },
            Parsed::Incomplete => ParsedItems::Incomplete,
            Parsed::Malformed => ParsedItems::Malformed,
        }
    }
}

/// Reads `n` key-value pairs starting at `pos`: each key must decode as a
/// simple string; the pairs are folded into `acc` by sorted insertion, as a
/// key-sorted map collects them.
pub open spec fn parse_entries(s: Seq<u8>, pos: int, n: nat, acc: Seq<(Seq<u8>, FrameVal)>) -> ParsedEntries
    decreases s.len() - pos, n, 1int,
{
    if n == 0 {
        ParsedEntries::Found(acc, pos)
    } else {
        match parse_frame(s, pos) {
            Parsed::Found(kv, e) => {
                if e <= pos || e > s.len() {
                    ParsedEntries::Malformed
                } else {
                    match kv {
                        FrameVal::SimpleString(k) => {
                            match parse_frame(s, e) {
                                Parsed::Found(v, e2) => {
                                    if e2 <= e || e2 > s.len() {
                                        ParsedEntries::Malformed
                                    } else {
                                        parse_entries(s, e2, (n - 1) as nat, map_insert(acc, k, v))
                                    }
                                },
                                Parsed::Incomplete => ParsedEntries::Incomplete,
                                Parsed::Malformed => ParsedEntries::Malformed,
                            }
                        },
                        _ => ParsedEntries::Malformed,
                    }
                }
            },
            Parsed::Incomplete => ParsedEntries::Incomplete,
            Parsed::Malformed => ParsedEntries::Malformed,
        }
    }
}

// ---------------------------------------------------------------------------
// Support for the codec laws
// ---------------------------------------------------------------------------
pub open spec fn pow10(k: nat) -> int
    decreases k,
{
    if k == 0 {
        1
    } else {
        10 * pow10((k - 1) as nat)
    }
}

/// Decimal texts are non-empty digit runs.
pub proof fn lemma_dec_nat_digits(n: nat)
    ensures
        dec_nat(n).len() >= 1,
        forall|i: int| 0 <= i < dec_nat(n).len() ==> is_digit(#[trigger] dec_nat(n)[i]),
    decreases n,
{
    if n >= 10 {
        lemma_dec_nat_digits(n / 10);
        assert forall|i: int| 0 <= i < dec_nat(n).len() implies is_digit(
            #[trigger] dec_nat(n)[i],
        ) by {
            if i < dec_nat(n / 10).len() {
                assert(dec_nat(n)[i] == dec_nat(n / 10)[i]);
            }
        }
    }
}

/// A digit run never holds CR or LF, and neither does a leading sign.
pub proof fn lemma_dec_int_clean(n: int)
    ensures
        clean_text(dec_int(n)),
        dec_int(n).len() >= 1,
{
    if n < 0 {
        lemma_dec_nat_digits((-n) as nat);
        assert forall|i: int| 0 <= i < dec_int(n).len() implies dec_int(n)[i] != 13 && dec_int(
            n,
        )[i] != 10 by {
            if i > 0 {
                assert(dec_int(n)[i] == dec_nat((-n) as nat)[i - 1]);
            }
        }
    } else {
        lemma_dec_nat_digits(n as nat);
        assert forall|i: int| 0 <= i < dec_int(n).len() implies dec_int(n)[i] != 13 && dec_int(
            n,
        )[i] != 10 by {
            assert(dec_int(n)[i] == dec_nat(n as nat)[i]);
        }
    }
}

/// Reading digits splits at any midpoint.
proof fn lemma_digits_val_split(s: Seq<u8>, pos: int, mid: int, to: int, acc: int, bound: int)
    requires
        pos <= mid <= to,
    ensures
        digits_val(s, pos, to, acc, bound) == (match digits_val(s, pos, mid, acc, bound) {
            Option::Some(a2) => digits_val(s, mid, to, a2, bound),
            Option::None => Option::<int>::None,
        }),
    decreases mid - pos,
{
    if pos < mid {
        if is_digit(s[pos]) {
            let a2 = acc * 10 + (s[pos] - 48);
            if a2 <= bound {
                lemma_digits_val_split(s, pos + 1, mid, to, a2, bound);
            }
        }
    }
}

/// Reading the decimal text of `n` from a larger buffer accumulates onto
/// `acc` exactly, with no overflow stop on the way.
proof fn lemma_digits_val_of_dec(s: Seq<u8>, pos: int, n: nat, acc: int, bound: int)
    requires
        0 <= pos,
        pos + dec_nat(n).len() <= s.len(),
        s.subrange(pos, pos + dec_nat(n).len()) == dec_nat(n),
        acc >= 0,
        acc * pow10(dec_nat(n).len() as nat) + n <= bound,
    ensures
        digits_val(s, pos, pos + dec_nat(n).len(), acc, bound) == Some(
            acc * pow10(dec_nat(n).len() as nat) + n,
        ),
    decreases n,
{
    lemma_dec_nat_digits(n);
    if n < 10 {
        assert(s.subrange(pos, pos + 1)[0] == s[pos]);
        assert(s[pos] == (48 + n) as u8);
        assert(pow10(0) == 1);
        assert(pow10(1) == 10);
        let a2 = acc * 10 + n;
        assert(a2 == acc * pow10(1) + n);
        assert(digits_val(s, pos + 1, pos + 1, a2, bound) == Some(a2));
    } else {
        let d = dec_nat(n);
        let dh = dec_nat(n / 10);
        let hl = dh.len() as int;
        assert(d == dh + seq![(48 + n % 10) as u8]);
        assert forall|j: int| 0 <= j < d.len() implies s[pos + j] == d[j] by {
            assert(s.subrange(pos, pos + d.len())[j] == s[pos + j]);
        }
        assert(s.subrange(pos, pos + hl) =~= dh) by {
            assert forall|j: int| 0 <= j < hl implies s.subrange(pos, pos + hl)[j] == dh[j] by {
                assert(s.subrange(pos, pos + hl)[j] == s[pos + j]);
                assert(d[j] == dh[j]);
            }
        }
        let p = pow10(hl as nat);
        lemma_pow10_pos(hl as nat);
        let a1 = acc * p + n / 10;
        assert(pow10(d.len() as nat) == 10 * p);
        assert(acc * (10 * p) + n == 10 * (acc * p) + n) by (nonlinear_arith);
        assert(10 * (acc * p + n / 10) + n % 10 == 10 * (acc * p) + n) by (nonlinear_arith)
            requires
                n >= 0,
        ;
        assert(a1 >= 0) by (nonlinear_arith)
            requires
                a1 == acc * p + n / 10,
                acc >= 0,
                p >= 1,
                n >= 0,
        ;
        assert(a1 * 10 + n % 10 == acc * pow10(d.len() as nat) + n) by (nonlinear_arith)
            requires
                a1 == acc * p + n / 10,
                pow10(d.len() as nat) == 10 * p,
                n >= 0,
        ;
        assert(pow10(0) == 1);
        assert(pow10(1) == 10);
        assert(a1 * pow10(1) + n % 10 <= bound);
        lemma_digits_val_of_dec(s, pos, n / 10, acc, bound);
        lemma_digits_val_split(s, pos, pos + hl, pos + d.len(), acc, bound);
        assert(s[pos + hl] == d[hl]);
        assert(d[hl] == (48 + n % 10) as u8);
        let a2 = a1 * 10 + (n % 10);
        assert(digits_val(s, pos + hl + 1, pos + d.len(), a2, bound) == Some(a2));
    }
}

proof fn lemma_pow10_pos(k: nat)
    ensures
        pow10(k) >= 1,
    decreases k,
{
    if k > 0 {
        lemma_pow10_pos((k - 1) as nat);
    }
}

/// The signed decimal text of any 64-bit value reads back as that value.
pub proof fn lemma_parse_signed_of_dec(n: int)
    requires
        -0x8000_0000_0000_0000 <= n <= 0x7fff_ffff_ffff_ffff,
    ensures
        parse_signed(dec_int(n), 0, dec_int(n).len() as int) == Some(n),
{
    let t = dec_int(n);
    if n >= 0 {
        lemma_dec_nat_digits(n as nat);
        assert(t[0] == dec_nat(n as nat)[0]);
        assert(is_digit(t[0]));
        assert(t.subrange(0, t.len() as int) =~= t);
        lemma_pow10_pos(t.len() as nat);
        assert(0 * pow10(t.len() as nat) + n == n) by (nonlinear_arith);
        lemma_digits_val_of_dec(t, 0, n as nat, 0, 0x7fff_ffff_ffff_ffff);
    } else {
        let m = (-n) as nat;
        lemma_dec_nat_digits(m);
        assert(t == seq![45u8] + dec_nat(m));
        assert(t[0] == 45);
        assert(t.subrange(1, t.len() as int) =~= dec_nat(m)) by {
            assert forall|j: int| 0 <= j < dec_nat(m).len() implies t.subrange(
                1,
                t.len() as int,
            )[j] == dec_nat(m)[j] by {
                assert(t.subrange(1, t.len() as int)[j] == t[1 + j]);
                assert(t[1 + j] == dec_nat(m)[j]);
            }
        }
        assert(0 * pow10(dec_nat(m).len() as nat) + m == m) by (nonlinear_arith);
        lemma_digits_val_of_dec(t, 1, m, 0, 0x8000_0000_0000_0000);
    }
}

/// Where the first CR or LF stands.
proof fn lemma_find_eol_at(s: Seq<u8>, pos: int, e: int)
    requires
        0 <= pos <= e <= s.len(),
        forall|j: int| pos <= j < e ==> s[j] != 13 && s[j] != 10,
        e < s.len() ==> s[e] == 13 || s[e] == 10,
    ensures
        find_eol(s, pos) == if e < s.len() {
            Some(e)
        } else {
            Option::<int>::None
        },
    decreases e - pos,
{
    if pos < e {
        lemma_find_eol_at(s, pos + 1, e);
    }
}

/// A whole clean payload with its CRLF reads back exactly.
proof fn lemma_parse_line_of(s: Seq<u8>, pos: int, payload: Seq<u8>)
    requires
        0 <= pos,
        pos + payload.len() + 2 <= s.len(),
        clean_text(payload),
        forall|j: int| 0 <= j < payload.len() ==> s[pos + j] == payload[j],
        s[pos + payload.len()] == 13,
        s[pos + payload.len() + 1] == 10,
    ensures
        parse_line(s, pos) == Parsed::Found(
            FrameVal::SimpleString(payload),
            pos + payload.len() + 2,
        ),
{
    let e = pos + payload.len();
    assert forall|j: int| pos <= j < e implies s[j] != 13 && s[j] != 10 by {
        assert(s[j] == payload[j - pos]);
    }
    lemma_find_eol_at(s, pos, e);
    assert(s.subrange(pos, e) =~= payload);
}

/// A truncated clean payload, or one whose closing line feed is still
/// missing, reads as Incomplete.
proof fn lemma_parse_line_prefix(s: Seq<u8>, pos: int, payload: Seq<u8>)
    requires
        0 <= pos <= s.len(),
        s.len() < pos + payload.len() + 2,
        clean_text(payload),
        forall|j: int| pos <= j < s.len() && j - pos < payload.len() ==> s[j] == payload[j - pos],
        s.len() > pos + payload.len() ==> s[pos + payload.len()] == 13,
    ensures
        parse_line(s, pos) == Parsed::Incomplete,
{
    if s.len() <= pos + payload.len() {
        assert forall|j: int| pos <= j < s.len() implies s[j] != 13 && s[j] != 10 by {
            assert(s[j] == payload[j - pos]);
        }
        lemma_find_eol_at(s, pos, s.len() as int);
    } else {
        let e = pos + payload.len();
        assert forall|j: int| pos <= j < e implies s[j] != 13 && s[j] != 10 by {
            assert(s[j] == payload[j - pos]);
        }
        lemma_find_eol_at(s, pos, e);
        assert(e + 1 >= s.len());
    }
}

/// Every digit run of the double grammar is digits, so the whole text is
/// free of CR and LF.
proof fn lemma_scan_digits_range(s: Seq<u8>, pos: int)
    requires
        0 <= pos <= s.len(),
    ensures
        pos <= scan_digits(s, pos) <= s.len(),
        forall|j: int| pos <= j < scan_digits(s, pos) ==> is_digit(s[j]),
    decreases s.len() - pos,
{
    if pos < s.len() && is_digit(s[pos]) {
        lemma_scan_digits_range(s, pos + 1);
    }
}

/// A double text holds only signs, digits, a point and an exponent mark:
/// never CR or LF.
pub proof fn lemma_double_text_clean(t: Seq<u8>)
    requires
        is_double_text(t),
    ensures
        clean_text(t),
{
    let p0: int = if t.len() > 0 && (t[0] == 43 || t[0] == 45) {
        1
    } else {
        0
    };
    let p1 = scan_digits(t, p0);
    lemma_scan_digits_range(t, p0);
    if p1 < t.len() {
        let p2 = if t[p1] == 46 {
            scan_digits(t, p1 + 1)
        } else {
            p1
        };
        if t[p1] == 46 {
            lemma_scan_digits_range(t, p1 + 1);
        }
        if p2 < t.len() {
            let p3: int = if p2 + 1 < t.len() && (t[p2 + 1] == 43 || t[p2 + 1] == 45) {
                p2 + 2
            } else {
                p2 + 1
            };
            lemma_scan_digits_range(t, p3);
        }
    }
    assert forall|i: int| 0 <= i < t.len() implies t[i] != 13 && t[i] != 10 by {}
}

/// Every encoding takes at least the marker and a CRLF.
proof fn lemma_enc_len_min(v: FrameVal)
    ensures
        enc(v).len() >= 3,
{
    match v {
        FrameVal::Integer(n) => {
            lemma_dec_int_clean(n);
        },
        FrameVal::BulkString(b) => {
            lemma_dec_nat_digits(b.len());
        },
        FrameVal::Array(items) => {
            lemma_dec_nat_digits(items.len());
        },
        FrameVal::Mapping(entries) => {
            lemma_dec_nat_digits(entries.len());
        },
        FrameVal::Collection(items) => {
            lemma_dec_nat_digits(items.len());
        },
        _ => {},
    }
}

/// Inserting a key above every present key appends the entry at the end.
proof fn lemma_map_insert_append(s: Seq<(Seq<u8>, FrameVal)>, k: Seq<u8>, v: FrameVal)
    requires
        forall|j: int| 0 <= j < s.len() ==> bytes_lt(#[trigger] s[j].0, k),
    ensures
        map_insert(s, k, v) == s.push((k, v)),
    decreases s.len(),
{
    if s.len() == 0 {
        assert(map_insert(s, k, v) =~= s.push((k, v)));
    } else {
        lemma_bytes_lt_trichotomy(s[0].0, k);
        let t = s.drop_first();
        assert forall|j: int| 0 <= j < t.len() implies bytes_lt(#[trigger] t[j].0, k) by {
            assert(t[j] == s[j + 1]);
        }
        lemma_map_insert_append(t, k, v);
        assert(map_insert(s, k, v) =~= s.push((k, v)));
    }
}

// ---------------------------------------------------------------------------
// Round trip: parsing an encoding yields the encoded value
// ---------------------------------------------------------------------------
/// Reading a buffer that holds the whole encoding of a well-formed value at
/// `pos` (whatever follows it) yields that value and stops right after it.
pub proof fn lemma_parse_of_enc(s: Seq<u8>, pos: int, v: FrameVal)
    requires
        wf_val(v),
        0 <= pos,
        pos + enc(v).len() <= s.len(),
        forall|j: int| 0 <= j < enc(v).len() ==> s[pos + j] == #[trigger] enc(v)[j],
    ensures
        parse_frame(s, pos) == Parsed::Found(v, pos + enc(v).len()),
    decreases v, 0int, 0int,
{
    let ev = enc(v);
    match v {
        FrameVal::SimpleString(t) => {
            assert(ev == seq![43u8] + t + crlf());
            assert(s[pos] == ev[0] && ev[0] == 43);
            lemma_line_glue(s, pos, t, ev);
            lemma_parse_line_of(s, pos + 1, t);
        },
        FrameVal::Error(t) => {
            assert(ev == seq![45u8] + t + crlf());
            assert(s[pos] == ev[0] && ev[0] == 45);
            lemma_line_glue(s, pos, t, ev);
            lemma_parse_line_of(s, pos + 1, t);
        },
        FrameVal::Integer(n) => {
            let t = dec_int(n);
            assert(ev == seq![58u8] + t + crlf());
            assert(s[pos] == ev[0] && ev[0] == 58);
            lemma_dec_int_clean(n);
            lemma_line_glue(s, pos, t, ev);
            lemma_parse_line_of(s, pos + 1, t);
            lemma_parse_signed_of_dec(n);
        },
        FrameVal::Boolean(b) => {
            let t: Seq<u8> = if b {
                seq![116u8]
            } else {
                seq![102u8]
            };
            assert(ev =~= seq![35u8] + t + crlf());
            assert(s[pos] == ev[0] && ev[0] == 35);
            lemma_line_glue(s, pos, t, ev);
            lemma_parse_line_of(s, pos + 1, t);
            if b {
                assert(t =~= seq![116u8]);
            } else {
                assert(!(t =~= seq![116u8]));
                assert(t =~= seq![102u8]);
            }
        },
        FrameVal::Null => {
            let t = Seq::<u8>::empty();
            assert(ev =~= seq![95u8] + t + crlf());
            assert(s[pos] == ev[0] && ev[0] == 95);
            lemma_line_glue(s, pos, t, ev);
            lemma_parse_line_of(s, pos + 1, t);
        },
        FrameVal::Double(t) => {
            assert(ev == seq![44u8] + t + crlf());
            assert(s[pos] == ev[0] && ev[0] == 44);
            lemma_double_text_clean(t);
            lemma_line_glue(s, pos, t, ev);
            lemma_parse_line_of(s, pos + 1, t);
        },
        FrameVal::NullBulkString => {
            let t = seq![45u8, 49u8];
            assert(ev =~= seq![36u8] + t + crlf());
            assert(s[pos] == ev[0] && ev[0] == 36);
            lemma_line_glue(s, pos, t, ev);
            lemma_parse_line_of(s, pos + 1, t);
            assert(t =~= dec_int(-1));
            lemma_parse_signed_of_dec(-1);
        },
        FrameVal::NullArray => {
            let t = seq![45u8, 49u8];
            assert(ev =~= seq![42u8] + t + crlf());
            assert(s[pos] == ev[0] && ev[0] == 42);
            lemma_line_glue(s, pos, t, ev);
            lemma_parse_line_of(s, pos + 1, t);
            assert(t =~= dec_int(-1));
            lemma_parse_signed_of_dec(-1);
        },
        FrameVal::BulkString(b) => {
            let h = dec_nat(b.len());
            let hl = h.len() as int;
            assert(ev == seq![36u8] + h + crlf() + b + crlf());
            assert(s[pos] == ev[0] && ev[0] == 36);
            lemma_dec_nat_digits(b.len());
            assert forall|j: int| 0 <= j < hl + 2 implies s[pos + 1 + j] == (h + crlf())[j] by {
                assert(ev[1 + j] == (h + crlf())[j]);
            }
            assert forall|j: int| 0 <= j < hl implies s[pos + 1 + j] == h[j] by {
                assert((h + crlf())[j] == h[j]);
            }
            assert(s[pos + 1 + hl] == 13 && s[pos + 1 + hl + 1] == 10) by {
                assert((h + crlf())[hl] == 13);
                assert((h + crlf())[hl + 1] == 10);
            }
            assert(clean_text(h)) by {
                lemma_dec_int_clean(b.len() as int);
                assert(dec_int(b.len() as int) == h);
            }
            lemma_parse_line_of(s, pos + 1, h);
            let e = pos + 1 + hl + 2;
            assert(dec_int(b.len() as int) == h);
            lemma_parse_signed_of_dec(b.len() as int);
            let n = b.len() as int;
            assert forall|j: int| 0 <= j < b.len() implies s[e + j] == b[j] by {
                assert(ev[1 + hl + 2 + j] == b[j]);
            }
            assert(s[e + n] == 13 && s[e + n + 1] == 10) by {
                assert(ev[1 + hl + 2 + n] == 13);
                assert(ev[1 + hl + 2 + n + 1] == 10);
            }
            assert(e + n + 2 == pos + ev.len());
            assert(s.subrange(e, e + n) =~= b);
        },
        FrameVal::Array(items) => {
            let h = dec_nat(items.len());
            let hl = h.len() as int;
            let body = enc_items_from(items, 0);
            assert(ev == seq![42u8] + h + crlf() + body);
            assert(s[pos] == ev[0] && ev[0] == 42);
            assert(clean_text(h)) by {
                lemma_dec_int_clean(items.len() as int);
                assert(dec_int(items.len() as int) == h);
            }
            lemma_header_glue(s, pos, h, ev);
            let e = pos + 1 + hl + 2;
            lemma_parse_line_of(s, pos + 1, h);
            assert(dec_int(items.len() as int) == h);
            lemma_parse_signed_of_dec(items.len() as int);
            assert forall|j: int| 0 <= j < body.len() implies s[e + j] == #[trigger] body[j] by {
                assert(ev[1 + hl + 2 + j] == body[j]);
            }
            lemma_parse_items_of_enc(s, e, items, 0);
            assert(items.subrange(0, items.len() as int) =~= items);
            assert(e + body.len() == pos + ev.len());
        },
        FrameVal::Collection(items) => {
            let h = dec_nat(items.len());
            let hl = h.len() as int;
            let body = enc_items_from(items, 0);
            assert(ev == seq![126u8] + h + crlf() + body);
            assert(s[pos] == ev[0] && ev[0] == 126);
            assert(clean_text(h)) by {
                lemma_dec_int_clean(items.len() as int);
                assert(dec_int(items.len() as int) == h);
            }
            lemma_header_glue(s, pos, h, ev);
            let e = pos + 1 + hl + 2;
            lemma_parse_line_of(s, pos + 1, h);
            assert(dec_int(items.len() as int) == h);
            lemma_parse_signed_of_dec(items.len() as int);
            assert forall|j: int| 0 <= j < body.len() implies s[e + j] == #[trigger] body[j] by {
                assert(ev[1 + hl + 2 + j] == body[j]);
            }
            lemma_parse_items_of_enc(s, e, items, 0);
            assert(items.subrange(0, items.len() as int) =~= items);
            assert(e + body.len() == pos + ev.len());
        },
        FrameVal::Mapping(entries) => {
            let h = dec_nat(entries.len());
            let hl = h.len() as int;
            let body = enc_entries_from(entries, 0);
            assert(ev == seq![37u8] + h + crlf() + body);
            assert(s[pos] == ev[0] && ev[0] == 37);
            assert(clean_text(h)) by {
                lemma_dec_int_clean(entries.len() as int);
                assert(dec_int(entries.len() as int) == h);
            }
            lemma_header_glue(s, pos, h, ev);
            let e = pos + 1 + hl + 2;
            lemma_parse_line_of(s, pos + 1, h);
            assert(dec_int(entries.len() as int) == h);
            lemma_parse_signed_of_dec(entries.len() as int);
            assert forall|j: int| 0 <= j < body.len() implies s[e + j] == #[trigger] body[j] by {
                assert(ev[1 + hl + 2 + j] == body[j]);
            }
            lemma_parse_entries_of_enc(s, e, entries, 0);
            assert(entries.subrange(0, 0) =~= Seq::<(Seq<u8>, FrameVal)>::empty());
            assert(e + body.len() == pos + ev.len());
        },
    }
}

/// Pointwise glue for a marker-line encoding `[marker] + t + CRLF`.
proof fn lemma_line_glue(s: Seq<u8>, pos: int, t: Seq<u8>, ev: Seq<u8>)
    requires
        0 <= pos,
        ev.len() == t.len() + 3,
        pos + ev.len() <= s.len(),
        forall|j: int| 0 <= j < ev.len() ==> s[pos + j] == #[trigger] ev[j],
        forall|j: int| 0 <= j < t.len() ==> ev[1 + j] == #[trigger] t[j],
        ev[1 + t.len() as int] == 13,
        ev[2 + t.len() as int] == 10,
    ensures
        forall|j: int| 0 <= j < t.len() ==> s[pos + 1 + j] == #[trigger] t[j],
        s[pos + 1 + t.len()] == 13,
        s[pos + 1 + t.len() + 1] == 10,
{
    assert forall|j: int| 0 <= j < t.len() implies s[pos + 1 + j] == #[trigger] t[j] by {
        assert(s[pos + (1 + j)] == ev[1 + j]);
    }
    assert(s[pos + 1 + t.len() as int] == ev[1 + t.len() as int]);
    assert(s[pos + 2 + t.len() as int] == ev[2 + t.len() as int]);
}

/// Pointwise glue for a count header `[marker] + digits + CRLF + body`.
proof fn lemma_header_glue(s: Seq<u8>, pos: int, h: Seq<u8>, ev: Seq<u8>)
    requires
        0 <= pos,
        ev.len() >= h.len() + 3,
        pos + ev.len() <= s.len(),
        forall|j: int| 0 <= j < ev.len() ==> s[pos + j] == #[trigger] ev[j],
        forall|j: int| 0 <= j < h.len() ==> ev[1 + j] == #[trigger] h[j],
        ev[1 + h.len() as int] == 13,
        ev[2 + h.len() as int] == 10,
        clean_text(h),
    ensures
        forall|j: int| 0 <= j < h.len() ==> s[pos + 1 + j] == #[trigger] h[j],
        s[pos + 1 + h.len()] == 13,
        s[pos + 1 + h.len() + 1] == 10,
{
    assert forall|j: int| 0 <= j < h.len() implies s[pos + 1 + j] == #[trigger] h[j] by {
        assert(s[pos + (1 + j)] == ev[1 + j]);
    }
    assert(s[pos + 1 + h.len() as int] == ev[1 + h.len() as int]);
    assert(s[pos + 2 + h.len() as int] == ev[2 + h.len() as int]);
}

/// Reading `n` encoded items in a row yields them all.
proof fn lemma_parse_items_of_enc(s: Seq<u8>, pos: int, items: Seq<FrameVal>, i: int)
    requires
        0 <= i <= items.len(),
        wf_vals_from(items, i),
        0 <= pos,
        pos + enc_items_from(items, i).len() <= s.len(),
        forall|j: int|
            0 <= j < enc_items_from(items, i).len() ==> s[pos + j] == #[trigger] enc_items_from(
                items,
                i,
            )[j],
    ensures
        parse_items(s, pos, (items.len() - i) as nat) == ParsedItems::Found(
            items.subrange(i, items.len() as int),
            pos + enc_items_from(items, i).len(),
        ),
    decreases items, items.len() - i, 1int,
{
    if i == items.len() {
        assert(items.subrange(i, items.len() as int) =~= Seq::<FrameVal>::empty());
    } else {
        let ev = enc(items[i]);
        let rest = enc_items_from(items, i + 1);
        assert(enc_items_from(items, i) == ev + rest);
        assert forall|j: int| 0 <= j < ev.len() implies s[pos + j] == #[trigger] ev[j] by {
            assert(s[pos + j] == enc_items_from(items, i)[j]);
            assert((ev + rest)[j] == ev[j]);
        }
        lemma_parse_of_enc(s, pos, items[i]);
        lemma_enc_len_min(items[i]);
        let e = pos + ev.len();
        assert forall|j: int| 0 <= j < rest.len() implies s[e + j] == #[trigger] rest[j] by {
            assert(s[pos + (ev.len() + j)] == enc_items_from(items, i)[ev.len() + j]);
            assert((ev + rest)[ev.len() + j] == rest[j]);
        }
        lemma_parse_items_of_enc(s, e, items, i + 1);
        assert(seq![items[i]] + items.subrange(i + 1, items.len() as int) =~= items.subrange(
            i,
            items.len() as int,
        ));
    }
}

/// Reading `n` encoded map entries in a row, folding each into the sorted
/// accumulator, rebuilds exactly the sorted entry sequence.
proof fn lemma_parse_entries_of_enc(s: Seq<u8>, pos: int, entries: Seq<(Seq<u8>, FrameVal)>, i: int)
    requires
        0 <= i <= entries.len(),
        wf_entries_from(entries, i),
        key_sorted_from(entries, 0),
        0 <= pos,
        pos + enc_entries_from(entries, i).len() <= s.len(),
        forall|j: int|
            0 <= j < enc_entries_from(entries, i).len() ==> s[pos + j]
                == #[trigger] enc_entries_from(entries, i)[j],
    ensures
        parse_entries(s, pos, (entries.len() - i) as nat, entries.subrange(0, i))
            == ParsedEntries::Found(entries, pos + enc_entries_from(entries, i).len()),
    decreases entries, entries.len() - i, 1int,
{
    if i == entries.len() {
        assert(entries.subrange(0, i) =~= entries);
    } else {
        let k = entries[i].0;
        let kv = seq![43u8] + k + crlf();
        let vv = enc(entries[i].1);
        let rest = enc_entries_from(entries, i + 1);
        assert(enc_entries_from(entries, i) == kv + vv + rest);
        // the key reads as a simple string
        assert forall|j: int| 0 <= j < kv.len() implies s[pos + j] == #[trigger] kv[j] by {
            assert(s[pos + j] == enc_entries_from(entries, i)[j]);
            assert((kv + vv + rest)[j] == kv[j]);
        }
        assert(s[pos] == kv[0] && kv[0] == 43);
        assert forall|j: int| 0 <= j < k.len() implies s[pos + 1 + j] == #[trigger] k[j] by {
            assert(s[pos + (1 + j)] == kv[1 + j]);
            assert(kv[1 + j] == k[j]);
        }
        assert(s[pos + 1 + k.len()] == 13) by {
            assert(s[pos + 1 + k.len() as int] == kv[1 + k.len() as int]);
        }
        assert(s[pos + 1 + k.len() + 1] == 10) by {
            assert(s[pos + 2 + k.len() as int] == kv[2 + k.len() as int]);
        }
        lemma_parse_line_of(s, pos + 1, k);
        let e1 = pos + 1 + k.len() + 2;
        assert(e1 == pos + kv.len());
        // the value reads back by induction
        assert forall|j: int| 0 <= j < vv.len() implies s[e1 + j] == #[trigger] vv[j] by {
            assert(s[pos + (kv.len() + j)] == enc_entries_from(entries, i)[kv.len() + j]);
            assert((kv + vv + rest)[kv.len() + j] == vv[j]);
        }
        lemma_parse_of_enc(s, e1, entries[i].1);
        lemma_enc_len_min(entries[i].1);
        let e2 = e1 + vv.len();
        // folding the pair into the accumulator appends it
        let acc = entries.subrange(0, i);
        assert forall|j: int| 0 <= j < acc.len() implies bytes_lt(#[trigger] acc[j].0, k) by {
            assert(acc[j] == entries[j]);
        }
        lemma_map_insert_append(acc, k, entries[i].1);
        assert(acc.push((k, entries[i].1)) =~= entries.subrange(0, i + 1));
        assert forall|j: int| 0 <= j < rest.len() implies s[e2 + j] == #[trigger] rest[j] by {
            assert(s[pos + (kv.len() + vv.len() + j)] == enc_entries_from(entries, i)[kv.len()
                + vv.len() + j]);
            assert((kv + vv + rest)[kv.len() + vv.len() + j] == rest[j]);
        }
        lemma_parse_entries_of_enc(s, e2, entries, i + 1);
        assert(pos < s.len());
        assert(parse_frame(s, pos) == Parsed::Found(FrameVal::SimpleString(k), e1));
        assert(parse_frame(s, e1) == Parsed::Found(entries[i].1, e2));
        assert(map_insert(entries.subrange(0, i), k, entries[i].1) == entries.subrange(0, i + 1));
        assert(parse_entries(s, e2, (entries.len() - (i + 1)) as nat, entries.subrange(0, i + 1))
            == ParsedEntries::Found(entries, e2 + rest.len()));
        assert(e2 + rest.len() == pos + enc_entries_from(entries, i).len());
        assert((entries.len() - i) as nat != 0);
    }
}

// ---------------------------------------------------------------------------
// Prefixes: a cut-off encoding always reads as Incomplete
// ---------------------------------------------------------------------------
/// A buffer that ends inside the encoding of a well-formed value reads as
/// Incomplete at that value's position: never as Malformed, and never as
/// some other frame.
pub proof fn lemma_parse_of_enc_prefix(s: Seq<u8>, pos: int, v: FrameVal)
    requires
        wf_val(v),
        0 <= pos <= s.len(),
        s.len() < pos + enc(v).len(),
        forall|j: int| 0 <= j < s.len() - pos ==> s[pos + j] == #[trigger] enc(v)[j],
    ensures
        parse_frame(s, pos) == Parsed::Incomplete,
    decreases v, 0int, 0int,
{
    let ev = enc(v);
    if pos == s.len() {
    } else {
        assert(s[pos + 0] == ev[0]);
        match v {
            FrameVal::SimpleString(t) => {
                assert(ev == seq![43u8] + t + crlf());
                lemma_line_prefix_glue(s, pos, t, ev);
                lemma_parse_line_prefix(s, pos + 1, t);
            },
            FrameVal::Error(t) => {
                assert(ev == seq![45u8] + t + crlf());
                lemma_line_prefix_glue(s, pos, t, ev);
                lemma_parse_line_prefix(s, pos + 1, t);
            },
            FrameVal::Integer(n) => {
                let t = dec_int(n);
                assert(ev == seq![58u8] + t + crlf());
                lemma_dec_int_clean(n);
                lemma_line_prefix_glue(s, pos, t, ev);
                lemma_parse_line_prefix(s, pos + 1, t);
            },
            FrameVal::Boolean(b) => {
                let t: Seq<u8> = if b {
                    seq![116u8]
                } else {
                    seq![102u8]
                };
                assert(ev =~= seq![35u8] + t + crlf());
                lemma_line_prefix_glue(s, pos, t, ev);
                lemma_parse_line_prefix(s, pos + 1, t);
            },
            FrameVal::Null => {
                let t = Seq::<u8>::empty();
                assert(ev =~= seq![95u8] + t + crlf());
                lemma_line_prefix_glue(s, pos, t, ev);
                lemma_parse_line_prefix(s, pos + 1, t);
            },
            FrameVal::Double(t) => {
                assert(ev == seq![44u8] + t + crlf());
                lemma_double_text_clean(t);
                lemma_line_prefix_glue(s, pos, t, ev);
                lemma_parse_line_prefix(s, pos + 1, t);
            },
            FrameVal::NullBulkString => {
                let t = seq![45u8, 49u8];
                assert(ev =~= seq![36u8] + t + crlf());
                lemma_line_prefix_glue(s, pos, t, ev);
                lemma_parse_line_prefix(s, pos + 1, t);
            },
            FrameVal::NullArray => {
                let t = seq![45u8, 49u8];
                assert(ev =~= seq![42u8] + t + crlf());
                lemma_line_prefix_glue(s, pos, t, ev);
                lemma_parse_line_prefix(s, pos + 1, t);
            },
            FrameVal::BulkString(b) => {
                let h = dec_nat(b.len());
                let hl = h.len() as int;
                assert(ev == seq![36u8] + h + crlf() + b + crlf());
                assert(clean_text(h)) by {
                    lemma_dec_int_clean(b.len() as int);
                    assert(dec_int(b.len() as int) == h);
                }
                if s.len() < pos + 1 + hl + 2 {
                    lemma_head_prefix_glue(s, pos, h, ev);
                    lemma_parse_line_prefix(s, pos + 1, h);
                } else {
                    lemma_full_header_glue(s, pos, h, ev);
                    lemma_parse_line_of(s, pos + 1, h);
                    assert(dec_int(b.len() as int) == h);
                    lemma_parse_signed_of_dec(b.len() as int);
                    let e = pos + 1 + hl + 2;
                    assert(e + b.len() + 2 > s.len());
                }
            },
            FrameVal::Array(items) => {
                let h = dec_nat(items.len());
                let hl = h.len() as int;
                let body = enc_items_from(items, 0);
                assert(ev == seq![42u8] + h + crlf() + body);
                assert(clean_text(h)) by {
                    lemma_dec_int_clean(items.len() as int);
                    assert(dec_int(items.len() as int) == h);
                }
                if s.len() < pos + 1 + hl + 2 {
                    lemma_head_prefix_glue(s, pos, h, ev);
                    lemma_parse_line_prefix(s, pos + 1, h);
                } else {
                    lemma_full_header_glue(s, pos, h, ev);
                    lemma_parse_line_of(s, pos + 1, h);
                    assert(dec_int(items.len() as int) == h);
                    lemma_parse_signed_of_dec(items.len() as int);
                    let e = pos + 1 + hl + 2;
                    assert forall|j: int| 0 <= j < s.len() - e implies s[e + j]
                        == #[trigger] body[j] by {
                        assert(s[pos + (1 + hl + 2 + j)] == ev[1 + hl + 2 + j]);
                        assert(ev[1 + hl + 2 + j] == body[j]);
                    }
                    lemma_parse_items_of_enc_prefix(s, e, items, 0);
                }
            },
            FrameVal::Collection(items) => {
                let h = dec_nat(items.len());
                let hl = h.len() as int;
                let body = enc_items_from(items, 0);
                assert(ev == seq![126u8] + h + crlf() + body);
                assert(clean_text(h)) by {
                    lemma_dec_int_clean(items.len() as int);
                    assert(dec_int(items.len() as int) == h);
                }
                if s.len() < pos + 1 + hl + 2 {
                    lemma_head_prefix_glue(s, pos, h, ev);
                    lemma_parse_line_prefix(s, pos + 1, h);
                } else {
                    lemma_full_header_glue(s, pos, h, ev);
                    lemma_parse_line_of(s, pos + 1, h);
                    assert(dec_int(items.len() as int) == h);
                    lemma_parse_signed_of_dec(items.len() as int);
                    let e = pos + 1 + hl + 2;
                    assert forall|j: int| 0 <= j < s.len() - e implies s[e + j]
                        == #[trigger] body[j] by {
                        assert(s[pos + (1 + hl + 2 + j)] == ev[1 + hl + 2 + j]);
                        assert(ev[1 + hl + 2 + j] == body[j]);
                    }
                    lemma_parse_items_of_enc_prefix(s, e, items, 0);
                }
            },
            FrameVal::Mapping(entries) => {
                let h = dec_nat(entries.len());
                let hl = h.len() as int;
                let body = enc_entries_from(entries, 0);
                assert(ev == seq![37u8] + h + crlf() + body);
                assert(clean_text(h)) by {
                    lemma_dec_int_clean(entries.len() as int);
                    assert(dec_int(entries.len() as int) == h);
                }
                if s.len() < pos + 1 + hl + 2 {
                    lemma_head_prefix_glue(s, pos, h, ev);
                    lemma_parse_line_prefix(s, pos + 1, h);
                } else {
                    lemma_full_header_glue(s, pos, h, ev);
                    lemma_parse_line_of(s, pos + 1, h);
                    assert(dec_int(entries.len() as int) == h);
                    lemma_parse_signed_of_dec(entries.len() as int);
                    let e = pos + 1 + hl + 2;
                    assert forall|j: int| 0 <= j < s.len() - e implies s[e + j]
                        == #[trigger] body[j] by {
                        assert(s[pos + (1 + hl + 2 + j)] == ev[1 + hl + 2 + j]);
                        assert(ev[1 + hl + 2 + j] == body[j]);
                    }
                    lemma_parse_entries_of_enc_prefix(s, e, entries, 0, Seq::empty());
                }
            },
        }
    }
}

/// Pointwise glue for the truncated tail of a marker-line encoding.
proof fn lemma_line_prefix_glue(s: Seq<u8>, pos: int, t: Seq<u8>, ev: Seq<u8>)
    requires
        0 <= pos < s.len(),
        ev.len() == t.len() + 3,
        s.len() < pos + ev.len(),
        forall|j: int| 0 <= j < s.len() - pos ==> s[pos + j] == #[trigger] ev[j],
        forall|j: int| 0 <= j < t.len() ==> ev[1 + j] == #[trigger] t[j],
        ev[1 + t.len() as int] == 13,
    ensures
        forall|j: int|
            pos + 1 <= j < s.len() && j - pos - 1 < t.len() ==> s[j] == t[j - pos - 1],
        s.len() > pos + 1 + t.len() ==> s[pos + 1 + t.len() as int] == 13,
    decreases 0int,
{
    assert forall|j: int|
        pos + 1 <= j < s.len() && j - pos - 1 < t.len() implies s[j] == t[j - pos - 1] by {
        assert(s[pos + (j - pos)] == ev[j - pos]);
        assert(ev[1 + (j - pos - 1)] == t[j - pos - 1]);
    }
    if s.len() > pos + 1 + t.len() {
        assert(s[pos + (1 + t.len() as int)] == ev[1 + t.len() as int]);
    }
}

/// Pointwise glue for a truncated count header.
proof fn lemma_head_prefix_glue(s: Seq<u8>, pos: int, h: Seq<u8>, ev: Seq<u8>)
    requires
        0 <= pos < s.len(),
        ev.len() >= h.len() + 3,
        s.len() < pos + h.len() + 3,
        forall|j: int| 0 <= j < s.len() - pos ==> s[pos + j] == #[trigger] ev[j],
        forall|j: int| 0 <= j < h.len() ==> ev[1 + j] == #[trigger] h[j],
        ev[1 + h.len() as int] == 13,
    ensures
        forall|j: int|
            pos + 1 <= j < s.len() && j - pos - 1 < h.len() ==> s[j] == h[j - pos - 1],
        s.len() > pos + 1 + h.len() ==> s[pos + 1 + h.len() as int] == 13,
{
    assert forall|j: int|
        pos + 1 <= j < s.len() && j - pos - 1 < h.len() implies s[j] == h[j - pos - 1] by {
        assert(s[pos + (j - pos)] == ev[j - pos]);
        assert(ev[1 + (j - pos - 1)] == h[j - pos - 1]);
    }
    if s.len() > pos + 1 + h.len() {
        assert(s[pos + (1 + h.len() as int)] == ev[1 + h.len() as int]);
    }
}

/// Pointwise glue for a complete count header inside a truncated encoding.
proof fn lemma_full_header_glue(s: Seq<u8>, pos: int, h: Seq<u8>, ev: Seq<u8>)
    requires
        0 <= pos,
        ev.len() >= h.len() + 3,
        pos + h.len() + 3 <= s.len(),
        s.len() < pos + ev.len(),
        forall|j: int| 0 <= j < s.len() - pos ==> s[pos + j] == #[trigger] ev[j],
        forall|j: int| 0 <= j < h.len() ==> ev[1 + j] == #[trigger] h[j],
        ev[1 + h.len() as int] == 13,
        ev[2 + h.len() as int] == 10,
    ensures
        forall|j: int| 0 <= j < h.len() ==> s[pos + 1 + j] == #[trigger] h[j],
        s[pos + 1 + h.len() as int] == 13,
        s[pos + 1 + h.len() as int + 1] == 10,
{
    assert forall|j: int| 0 <= j < h.len() implies s[pos + 1 + j] == #[trigger] h[j] by {
        assert(s[pos + (1 + j)] == ev[1 + j]);
    }
    assert(s[pos + (1 + h.len() as int)] == ev[1 + h.len() as int]);
    assert(s[pos + (2 + h.len() as int)] == ev[2 + h.len() as int]);
}

/// A truncated run of encoded items reads as Incomplete.
proof fn lemma_parse_items_of_enc_prefix(s: Seq<u8>, pos: int, items: Seq<FrameVal>, i: int)
    requires
        0 <= i <= items.len(),
        wf_vals_from(items, i),
        0 <= pos <= s.len(),
        s.len() < pos + enc_items_from(items, i).len(),
        forall|j: int|
            0 <= j < s.len() - pos ==> s[pos + j] == #[trigger] enc_items_from(items, i)[j],
    ensures
        parse_items(s, pos, (items.len() - i) as nat) == ParsedItems::Incomplete,
    decreases items, items.len() - i, 1int,
{
    assert(i < items.len());
    let ev = enc(items[i]);
    let rest = enc_items_from(items, i + 1);
    assert(enc_items_from(items, i) == ev + rest);
    if s.len() < pos + ev.len() {
        assert forall|j: int| 0 <= j < s.len() - pos implies s[pos + j] == #[trigger] ev[j] by {
            assert(s[pos + j] == enc_items_from(items, i)[j]);
            assert((ev + rest)[j] == ev[j]);
        }
        lemma_parse_of_enc_prefix(s, pos, items[i]);
    } else {
        assert forall|j: int| 0 <= j < ev.len() implies s[pos + j] == #[trigger] ev[j] by {
            assert(s[pos + j] == enc_items_from(items, i)[j]);
            assert((ev + rest)[j] == ev[j]);
        }
        lemma_parse_of_enc(s, pos, items[i]);
        lemma_enc_len_min(items[i]);
        let e = pos + ev.len();
        assert forall|j: int| 0 <= j < s.len() - e implies s[e + j] == #[trigger] rest[j] by {
            assert(s[pos + (ev.len() + j)] == enc_items_from(items, i)[ev.len() + j]);
            assert((ev + rest)[ev.len() + j] == rest[j]);
        }
        lemma_parse_items_of_enc_prefix(s, e, items, i + 1);
    }
}

/// A truncated run of encoded map entries reads as Incomplete, whatever has
/// been folded so far.
proof fn lemma_parse_entries_of_enc_prefix(
    s: Seq<u8>,
    pos: int,
    entries: Seq<(Seq<u8>, FrameVal)>,
    i: int,
    acc: Seq<(Seq<u8>, FrameVal)>,
)
    requires
        0 <= i <= entries.len(),
        wf_entries_from(entries, i),
        0 <= pos <= s.len(),
        s.len() < pos + enc_entries_from(entries, i).len(),
        forall|j: int|
            0 <= j < s.len() - pos ==> s[pos + j] == #[trigger] enc_entries_from(entries, i)[j],
    ensures
        parse_entries(s, pos, (entries.len() - i) as nat, acc) == ParsedEntries::Incomplete,
    decreases entries, entries.len() - i, 1int,
{
    assert(i < entries.len());
    let k = entries[i].0;
    let kv = seq![43u8] + k + crlf();
    let vv = enc(entries[i].1);
    let rest = enc_entries_from(entries, i + 1);
    assert(enc_entries_from(entries, i) == kv + vv + rest);
    if s.len() < pos + kv.len() {
        // the key's own line is cut off
        if pos < s.len() {
            assert(s[pos + 0] == enc_entries_from(entries, i)[0]);
            assert((kv + vv + rest)[0] == kv[0]);
            assert(kv[0] == 43);
            assert forall|j: int|
                pos + 1 <= j < s.len() && j - pos - 1 < k.len() implies s[j] == k[j - pos
                - 1] by {
                assert(s[pos + (j - pos)] == enc_entries_from(entries, i)[j - pos]);
                assert((kv + vv + rest)[j - pos] == kv[j - pos]);
                assert(kv[1 + (j - pos - 1)] == k[j - pos - 1]);
            }
            if s.len() > pos + 1 + k.len() {
                assert(s[pos + (1 + k.len() as int)] == enc_entries_from(entries, i)[1 + k.len() as int]);
                assert((kv + vv + rest)[1 + k.len() as int] == kv[1 + k.len() as int]);
            }
            lemma_parse_line_prefix(s, pos + 1, k);
            assert(parse_frame(s, pos) == Parsed::Incomplete);
        }
        assert((entries.len() - i) as nat != 0);
    } else if s.len() < pos + kv.len() + vv.len() {
        // the key is whole, the value is cut off
        assert forall|j: int| 0 <= j < kv.len() implies s[pos + j] == #[trigger] kv[j] by {
            assert(s[pos + j] == enc_entries_from(entries, i)[j]);
            assert((kv + vv + rest)[j] == kv[j]);
        }
        assert(s[pos] == kv[0] && kv[0] == 43);
        assert forall|j: int| 0 <= j < k.len() implies s[pos + 1 + j] == #[trigger] k[j] by {
            assert(s[pos + (1 + j)] == kv[1 + j]);
            assert(kv[1 + j] == k[j]);
        }
        assert(s[pos + 1 + k.len() as int] == 13) by {
            assert(s[pos + (1 + k.len() as int)] == kv[1 + k.len() as int]);
        }
        assert(s[pos + 1 + k.len() as int + 1] == 10) by {
            assert(s[pos + (2 + k.len() as int)] == kv[2 + k.len() as int]);
        }
        lemma_parse_line_of(s, pos + 1, k);
        let e1 = pos + kv.len();
        assert forall|j: int| 0 <= j < s.len() - e1 implies s[e1 + j] == #[trigger] vv[j] by {
            assert(s[pos + (kv.len() + j)] == enc_entries_from(entries, i)[kv.len() + j]);
            assert((kv + vv + rest)[kv.len() + j] == vv[j]);
        }
        lemma_parse_of_enc_prefix(s, e1, entries[i].1);
        assert(parse_frame(s, pos) == Parsed::Found(FrameVal::SimpleString(k), e1));
        assert(parse_frame(s, e1) == Parsed::Incomplete);
        assert((entries.len() - i) as nat != 0);
    } else {
        // key and value are whole; the cut is further on
        assert forall|j: int| 0 <= j < kv.len() implies s[pos + j] == #[trigger] kv[j] by {
            assert(s[pos + j] == enc_entries_from(entries, i)[j]);
            assert((kv + vv + rest)[j] == kv[j]);
        }
        assert(s[pos] == kv[0] && kv[0] == 43);
        assert forall|j: int| 0 <= j < k.len() implies s[pos + 1 + j] == #[trigger] k[j] by {
            assert(s[pos + (1 + j)] == kv[1 + j]);
            assert(kv[1 + j] == k[j]);
        }
        assert(s[pos + 1 + k.len() as int] == 13) by {
            assert(s[pos + (1 + k.len() as int)] == kv[1 + k.len() as int]);
        }
        assert(s[pos + 1 + k.len() as int + 1] == 10) by {
            assert(s[pos + (2 + k.len() as int)] == kv[2 + k.len() as int]);
        }
        lemma_parse_line_of(s, pos + 1, k);
        let e1 = pos + kv.len();
        assert forall|j: int| 0 <= j < vv.len() implies s[e1 + j] == #[trigger] vv[j] by {
            assert(s[pos + (kv.len() + j)] == enc_entries_from(entries, i)[kv.len() + j]);
            assert((kv + vv + rest)[kv.len() + j] == vv[j]);
        }
        lemma_parse_of_enc(s, e1, entries[i].1);
        lemma_enc_len_min(entries[i].1);
        let e2 = e1 + vv.len();
        assert forall|j: int| 0 <= j < s.len() - e2 implies s[e2 + j] == #[trigger] rest[j] by {
            assert(s[pos + (kv.len() + vv.len() + j)] == enc_entries_from(entries, i)[kv.len()
                + vv.len() + j]);
            assert((kv + vv + rest)[kv.len() + vv.len() + j] == rest[j]);
        }
        lemma_parse_entries_of_enc_prefix(s, e2, entries, i + 1, map_insert(acc, k, entries[i].1));
        assert(parse_frame(s, pos) == Parsed::Found(FrameVal::SimpleString(k), e1));
        assert(parse_frame(s, e1) == Parsed::Found(entries[i].1, e2));
        assert((entries.len() - i) as nat != 0);
        assert(parse_entries(s, e2, (entries.len() - (i + 1)) as nat, map_insert(acc, k, entries[i].1))
            == ParsedEntries::Incomplete);
    }
}

/// Incomplete-then-complete: a well-formed frame's encoding cut anywhere
/// short reads as Incomplete, and once the remaining bytes arrive the whole
/// buffer reads as the frame itself, exactly as a single-shot decode would
/// (see [`lemma_round_trip`]).
pub proof fn lemma_prefix_incomplete(v: FrameVal, cut: int)
    requires
        wf_val(v),
        0 <= cut < enc(v).len(),
    ensures
        parse_frame(enc(v).subrange(0, cut), 0) == Parsed::Incomplete,
{
    let s = enc(v).subrange(0, cut);
    assert forall|j: int| 0 <= j < s.len() - 0 implies s[0 + j] == #[trigger] enc(v)[j] by {
        assert(s[j] == enc(v)[j]);
    }
    lemma_parse_of_enc_prefix(s, 0, v);
}

/// Round trip: the encoding of any well-formed frame value, with any bytes
/// after it, decodes to that value, consuming exactly the encoding.
pub proof fn lemma_round_trip(v: FrameVal, rest: Seq<u8>)
    requires
        wf_val(v),
    ensures
        parse_frame(enc(v) + rest, 0) == Parsed::Found(v, enc(v).len() as int),
{
    let s = enc(v) + rest;
    assert forall|j: int| 0 <= j < enc(v).len() implies s[0 + j] == #[trigger] enc(v)[j] by {
        assert((enc(v) + rest)[j] == enc(v)[j]);
    }
    lemma_parse_of_enc(s, 0, v);
}

} // verus!
