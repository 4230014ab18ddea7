//! The executable decoder: reads one frame off the front of a streaming
//! buffer, proved to follow the wire grammar's [`parse_frame`] exactly.
//! Nothing is consumed until a whole frame is recognized, so a caller can
//! feed more bytes after an `Incomplete` outcome and retry.
use vstd::prelude::*;

verus! {

use crate::resp::{
    BulkString, NullBulkString, RespArray, RespDouble, RespError, RespFrame, RespMap, RespNull,
    RespNullArray, RespSet, SimpleError, SimpleString, FrameVal,
};
use crate::resp::text::check_double_text;
use crate::resp::wire::{
    digits_val, find_eol, frame_val, frame_vals_from, parse_entries, parse_frame,
    parse_items, parse_line, parse_signed, Parsed, ParsedEntries, ParsedItems,
    lemma_frame_vals,
};
use vstd::slice::{slice_subrange, slice_to_vec};

// ---------------------------------------------------------------------------
// The receive buffer (bytes::BytesMut), taken on trust
// ---------------------------------------------------------------------------
#[verifier::external_type_specification]
#[verifier::external_body]
pub struct ExBytesMut(bytes::BytesMut);

/// The bytes a `BytesMut` currently holds, front first.
pub uninterp spec fn buf_bytes(b: bytes::BytesMut) -> Seq<u8>;

/// Relies on BytesMut's deref to `[u8]`: a view of all held bytes.
#[verifier::external_body]
fn buf_slice(b: &bytes::BytesMut) -> (r: &[u8])
    ensures
        r@ == buf_bytes(*b),
{
    &b[..]
}

/// Relies on bytes::Buf::advance for BytesMut: drops the first `n` bytes
/// and keeps the rest; it panics when `n` is past the end, so that is
/// excluded here.
#[verifier::external_body]
fn buf_advance(b: &mut bytes::BytesMut, n: usize)
    requires
        n <= buf_bytes(*old(b)).len(),
    ensures
        buf_bytes(*final(b)) == buf_bytes(*old(b)).skip(n as int),
{
    bytes::Buf::advance(b, n)
}

// ---------------------------------------------------------------------------
// Reading pieces of the grammar
// ---------------------------------------------------------------------------
/// Outcome of one read attempt at a position in a byte slice.
pub enum FrameRead {
    Incomplete,
    Malformed,
    Found(RespFrame, usize),
}

enum LineRead {
    Incomplete,
    Malformed,
    Found(Vec<u8>, usize),
}

enum ItemsRead {
    Incomplete,
    Malformed,
    Found(Vec<RespFrame>, usize),
}

enum EntriesRead {
    Incomplete,
    Malformed,
    Found(RespMap, usize),
}

/// The read outcome names the same case and frame as the grammar's outcome.
pub open spec fn read_matches(r: FrameRead, p: Parsed) -> bool {
    match r {
        FrameRead::Incomplete => p is Incomplete,
        FrameRead::Malformed => p is Malformed,
        FrameRead::Found(f, e) => p == Parsed::Found(frame_val(f), e as int),
    }
}

fn find_eol_exec(s: &[u8], pos: usize) -> (r: Option<usize>)
    requires
        pos <= s@.len(),
    ensures
        (match r {
            Option::Some(e) => find_eol(s@, pos as int) == Option::Some(e as int) && pos <= e
                < s@.len(),
            Option::None => find_eol(s@, pos as int) is None,
        }),
{
    let mut i: usize = pos;
    while i < s.len()
        invariant
            pos <= i <= s@.len(),
            find_eol(s@, pos as int) == find_eol(s@, i as int),
        decreases s@.len() - i,
    {
        if s[i] == 13 || s[i] == 10 {
            return Some(i);
        }
        i += 1;
    }
    None
}

/// Reads one simple-framed payload past a marker at `pos - 1`.
fn read_line(s: &[u8], pos: usize) -> (r: LineRead)
    requires
        pos <= s@.len(),
    ensures
        (match r {
            LineRead::Incomplete => parse_line(s@, pos as int) is Incomplete,
            LineRead::Malformed => parse_line(s@, pos as int) is Malformed,
            LineRead::Found(t, e) => parse_line(s@, pos as int) == Parsed::Found(
                FrameVal::SimpleString(t@),
                e as int,
            ) && pos + 2 <= e <= s@.len() && t@ == s@.subrange(pos as int, e - 2),
        }),
{
    match find_eol_exec(s, pos) {
        Option::None => LineRead::Incomplete,
        Option::Some(e) => {
            if s[e] == 10 {
                LineRead::Malformed
            } else if e + 1 >= s.len() {
                LineRead::Incomplete
            } else if s[e + 1] != 10 {
                LineRead::Malformed
            } else {
                let t = slice_to_vec(slice_subrange(s, pos, e));
                LineRead::Found(t, e + 2)
            }
        },
    }
}

/// Reads the signed decimal value of a whole payload, as the grammar's
/// [`parse_signed`] does.
fn parse_i64_text(t: &[u8]) -> (r: Option<i64>)
    ensures
        (match r {
            Option::Some(v) => parse_signed(t@, 0, t@.len() as int) == Option::Some(v as int),
            Option::None => parse_signed(t@, 0, t@.len() as int) is None,
        }),
{
    if t.len() == 0 {
        return None;
    }
    let neg = t[0] == 45;
    let start: usize = if t[0] == 45 || t[0] == 43 {
        1
    } else {
        0
    };
    if start >= t.len() {
        return None;
    }
    let bound: u64 = if neg {
        0x8000_0000_0000_0000
    } else {
        0x7fff_ffff_ffff_ffff
    };
    let mut acc: u64 = 0;
    let mut i: usize = start;
    while i < t.len()
        invariant
            t@.len() > 0,
            neg == (t@[0] == 45),
            start == if t@[0] == 45 || t@[0] == 43 {
                1int
            } else {
                0int
            },
            start < t@.len(),
            start <= i <= t@.len(),
            acc <= bound,
            bound == if neg {
                0x8000_0000_0000_0000u64
            } else {
                0x7fff_ffff_ffff_ffffu64
            },
            digits_val(t@, start as int, t@.len() as int, 0, bound as int) == digits_val(
                t@,
                i as int,
                t@.len() as int,
                acc as int,
                bound as int,
            ),
        decreases t@.len() - i,
    {
        let b = t[i];
        if b < 48 || b > 57 {
            return None;
        }
        let d = (b - 48) as u64;
        if acc > (bound - d) / 10 {
            proof {
                assert((acc as int) * 10 + (d as int) > bound as int) by (nonlinear_arith)
                    requires
                        acc as int > (bound as int - d as int) / 10,
                        0 <= d as int <= 9,
                        d as int <= bound as int,
                ;
            }
            return None;
        }
        proof {
            assert((acc as int) * 10 + (d as int) <= bound as int) by (nonlinear_arith)
                requires
                    acc as int <= (bound as int - d as int) / 10,
                    0 <= d as int <= 9,
                    d as int <= bound as int,
            ;
        }
        acc = acc * 10 + d;
        i += 1;
    }
    if neg {
        if acc == 0x8000_0000_0000_0000 {
            let v: i64 = -0x7fff_ffff_ffff_ffff - 1;
            Some(v)
        } else {
            Some(-(acc as i64))
        }
    } else {
        Some(acc as i64)
    }
}

// ---------------------------------------------------------------------------
// Reading whole frames
// ---------------------------------------------------------------------------
/// Reads one frame starting at `pos`, following [`parse_frame`] exactly.
pub fn parse_at(s: &[u8], pos: usize) -> (r: FrameRead)
    requires
        pos <= s@.len(),
    ensures
        read_matches(r, parse_frame(s@, pos as int)),
        (match r {
            FrameRead::Found(_, e) => pos < e <= s@.len(),
            _ => true,
        }),
    decreases s@.len() - pos, 0int, 0int,
{
    if pos >= s.len() {
        return FrameRead::Incomplete;
    }
    let m = s[pos];
    if m == 43 {
        // '+'
        match read_line(s, pos + 1) {
            LineRead::Found(t, e) => FrameRead::Found(
                RespFrame::SimpleString(SimpleString(t)),
                e,
            ),
            LineRead::Incomplete => FrameRead::Incomplete,
            LineRead::Malformed => FrameRead::Malformed,
        }
    } else if m == 45 {
        // '-'
        match read_line(s, pos + 1) {
            LineRead::Found(t, e) => FrameRead::Found(RespFrame::Error(SimpleError(t)), e),
            LineRead::Incomplete => FrameRead::Incomplete,
            LineRead::Malformed => FrameRead::Malformed,
        }
    } else if m == 58 {
        // ':'
        match read_line(s, pos + 1) {
            LineRead::Found(t, e) => match parse_i64_text(t.as_slice()) {
                Option::Some(n) => FrameRead::Found(RespFrame::Integer(n), e),
                Option::None => FrameRead::Malformed,
            },
            LineRead::Incomplete => FrameRead::Incomplete,
            LineRead::Malformed => FrameRead::Malformed,
        }
    } else if m == 35 {
        // '#'
        match read_line(s, pos + 1) {
            LineRead::Found(t, e) => {
                if t.len() == 1 && t[0] == 116 {
                    proof {
                        assert(t@ =~= seq![116u8]);
                    }
                    FrameRead::Found(RespFrame::Boolean(true), e)
                } else if t.len() == 1 && t[0] == 102 {
                    proof {
                        assert(t@ =~= seq![102u8]);
                        assert(!(t@ =~= seq![116u8]));
                    }
                    FrameRead::Found(RespFrame::Boolean(false), e)
                } else {
                    proof {
                        assert(!(t@ =~= seq![116u8]));
                        assert(!(t@ =~= seq![102u8]));
                    }
                    FrameRead::Malformed
                }
            },
            LineRead::Incomplete => FrameRead::Incomplete,
            LineRead::Malformed => FrameRead::Malformed,
        }
    } else if m == 95 {
        // '_'
        match read_line(s, pos + 1) {
            LineRead::Found(t, e) => {
                if t.len() == 0 {
                    FrameRead::Found(RespFrame::Null(RespNull), e)
                } else {
                    FrameRead::Malformed
                }
            },
            LineRead::Incomplete => FrameRead::Incomplete,
            LineRead::Malformed => FrameRead::Malformed,
        }
    } else if m == 44 {
        // ','
        match read_line(s, pos + 1) {
            LineRead::Found(t, e) => {
                if check_double_text(t.as_slice()) {
                    FrameRead::Found(RespFrame::Double(RespDouble(t)), e)
                } else {
                    FrameRead::Malformed
                }
            },
            LineRead::Incomplete => FrameRead::Incomplete,
            LineRead::Malformed => FrameRead::Malformed,
        }
    } else if m == 36 {
        // '$'
        match read_line(s, pos + 1) {
            LineRead::Found(t, e) => match parse_i64_text(t.as_slice()) {
                Option::Some(n) => {
                    if n == -1 {
                        FrameRead::Found(RespFrame::NullBulkString(NullBulkString), e)
                    } else if n < 0 {
                        FrameRead::Malformed
                    } else {
                        let rem = s.len() - e;
                        if rem < 2 || (n as u64) > (rem as u64) - 2 {
                            proof {
                                assert(e + n + 2 > s@.len());
                            }
                            FrameRead::Incomplete
                        } else {
                            let nu = n as usize;
                            proof {
                                assert(nu == n);
                                assert(e + nu + 2 <= s@.len());
                            }
                            if s[e + nu] == 13 && s[e + nu + 1] == 10 {
                                let payload = slice_to_vec(slice_subrange(s, e, e + nu));
                                FrameRead::Found(
                                    RespFrame::BulkString(BulkString(payload)),
                                    e + nu + 2,
                                )
                            } else {
                                FrameRead::Malformed
                            }
                        }
                    }
                },
                Option::None => FrameRead::Malformed,
            },
            LineRead::Incomplete => FrameRead::Incomplete,
            LineRead::Malformed => FrameRead::Malformed,
        }
    } else if m == 42 {
        // '*'
        match read_line(s, pos + 1) {
            LineRead::Found(t, e) => match parse_i64_text(t.as_slice()) {
                Option::Some(n) => {
                    if n == -1 {
                        FrameRead::Found(RespFrame::NullArray(RespNullArray), e)
                    } else if n < 0 {
                        FrameRead::Malformed
                    } else {
                        match parse_items_at(s, e, n as u64) {
                            ItemsRead::Found(items, e2) => FrameRead::Found(
                                RespFrame::Array(RespArray(items)),
                                e2,
                            ),
                            ItemsRead::Incomplete => FrameRead::Incomplete,
                            ItemsRead::Malformed => FrameRead::Malformed,
                        }
                    }
                },
                Option::None => FrameRead::Malformed,
            },
            LineRead::Incomplete => FrameRead::Incomplete,
            LineRead::Malformed => FrameRead::Malformed,
        }
    } else if m == 126 {
        // '~'
        match read_line(s, pos + 1) {
            LineRead::Found(t, e) => match parse_i64_text(t.as_slice()) {
                Option::Some(n) => {
                    if n < 0 {
                        FrameRead::Malformed
                    } else {
                        match parse_items_at(s, e, n as u64) {
                            ItemsRead::Found(items, e2) => FrameRead::Found(
                                RespFrame::Collection(RespSet(items)),
                                e2,
                            ),
                            ItemsRead::Incomplete => FrameRead::Incomplete,
                            ItemsRead::Malformed => FrameRead::Malformed,
                        }
                    }
                },
                Option::None => FrameRead::Malformed,
            },
            LineRead::Incomplete => FrameRead::Incomplete,
            LineRead::Malformed => FrameRead::Malformed,
        }
    } else if m == 37 {
        // '%'
        match read_line(s, pos + 1) {
            LineRead::Found(t, e) => match parse_i64_text(t.as_slice()) {
                Option::Some(n) => {
                    if n < 0 {
                        FrameRead::Malformed
                    } else {
                        let acc = RespMap(Vec::new());
                        proof {
                            assert(acc@ =~= Seq::<(Seq<u8>, FrameVal)>::empty());
                        }
                        match parse_entries_at(s, e, n as u64, acc) {
                            EntriesRead::Found(rm, e2) => FrameRead::Found(
                                RespFrame::Mapping(rm),
                                e2,
                            ),
                            EntriesRead::Incomplete => FrameRead::Incomplete,
                            EntriesRead::Malformed => FrameRead::Malformed,
                        }
                    }
                },
                Option::None => FrameRead::Malformed,
            },
            LineRead::Incomplete => FrameRead::Incomplete,
            LineRead::Malformed => FrameRead::Malformed,
        }
    } else {
        FrameRead::Malformed
    }
}

/// Reads `n` frames one after the other, following [`parse_items`].
fn parse_items_at(s: &[u8], pos: usize, n: u64) -> (r: ItemsRead)
    requires
        pos <= s@.len(),
    ensures
        (match r {
            ItemsRead::Incomplete => parse_items(s@, pos as int, n as nat) is Incomplete,
            ItemsRead::Malformed => parse_items(s@, pos as int, n as nat) is Malformed,
            ItemsRead::Found(items, e) => parse_items(s@, pos as int, n as nat)
                == ParsedItems::Found(frame_vals_from(items@, 0), e as int) && pos <= e <= s@.len(),
        }),
    decreases s@.len() - pos, n, 1int,
{
    if n == 0 {
        let items: Vec<RespFrame> = Vec::new();
        proof {
            lemma_frame_vals(items@);
            assert(frame_vals_from(items@, 0) =~= Seq::<FrameVal>::empty());
        }
        return ItemsRead::Found(items, pos);
    }
    match parse_at(s, pos) {
        FrameRead::Found(f, e) => {
            match parse_items_at(s, e, n - 1) {
                ItemsRead::Found(rest, e2) => {
                    let ghost rest0 = rest@;
                    let mut items = rest;
                    items.insert(0, f);
                    proof {
                        lemma_frame_vals(items@);
                        lemma_frame_vals(rest0);
                        assert(frame_vals_from(items@, 0) =~= seq![frame_val(f)]
                            + frame_vals_from(rest0, 0));
                    }
                    ItemsRead::Found(items, e2)
                },
                ItemsRead::Incomplete => ItemsRead::Incomplete,
                ItemsRead::Malformed => ItemsRead::Malformed,
            }
        },
        FrameRead::Incomplete => ItemsRead::Incomplete,
        FrameRead::Malformed => ItemsRead::Malformed,
    }
}

/// Reads `n` key-value pairs into `acc`, following [`parse_entries`].
fn parse_entries_at(s: &[u8], pos: usize, n: u64, acc: RespMap) -> (r: EntriesRead)
    requires
        pos <= s@.len(),
        acc.key_sorted(),
    ensures
        (match r {
            EntriesRead::Incomplete => parse_entries(s@, pos as int, n as nat, acc@) is Incomplete,
            EntriesRead::Malformed => parse_entries(s@, pos as int, n as nat, acc@) is Malformed,
            EntriesRead::Found(rm, e) => parse_entries(s@, pos as int, n as nat, acc@)
                == ParsedEntries::Found(rm@, e as int) && pos <= e <= s@.len() && rm.key_sorted(),
        }),
    decreases s@.len() - pos, n, 1int,
{
    if n == 0 {
        return EntriesRead::Found(acc, pos);
    }
    match parse_at(s, pos) {
        FrameRead::Found(kf, e) => {
            match kf {
                RespFrame::SimpleString(ss) => {
                    match parse_at(s, e) {
                        FrameRead::Found(vf, e2) => {
                            let mut acc2 = acc;
                            acc2.insert_bytes(ss.0, vf);
                            parse_entries_at(s, e2, n - 1, acc2)
                        },
                        FrameRead::Incomplete => EntriesRead::Incomplete,
                        FrameRead::Malformed => EntriesRead::Malformed,
                    }
                },
                _ => EntriesRead::Malformed,
            }
        },
        FrameRead::Incomplete => EntriesRead::Incomplete,
        FrameRead::Malformed => EntriesRead::Malformed,
    }
}

// ---------------------------------------------------------------------------
// Decoding from the streaming buffer
// ---------------------------------------------------------------------------
impl RespFrame {
    /// Reads one frame off the front of `buf`.  On success exactly the
    /// frame's bytes are consumed; on `Incomplete` or `Malformed` the buffer
    /// is left untouched, so the caller can retry after reading more bytes.
    pub fn decode(buf: &mut bytes::BytesMut) -> (r: Result<RespFrame, RespError>)
        ensures
            (match parse_frame(buf_bytes(*old(buf)), 0) {
                Parsed::Found(v, e) => r is Ok && r.unwrap()@ == v && buf_bytes(*final(buf))
                    == buf_bytes(*old(buf)).skip(e),
                Parsed::Incomplete => r == Result::<RespFrame, RespError>::Err(
                    RespError::Incomplete,
                ) && buf_bytes(*final(buf)) == buf_bytes(*old(buf)),
                Parsed::Malformed => r == Result::<RespFrame, RespError>::Err(
                    RespError::Malformed,
                ) && buf_bytes(*final(buf)) == buf_bytes(*old(buf)),
            }),
    {
        let (r, consumed) = {
            let s = buf_slice(buf);
            match parse_at(s, 0) {
                FrameRead::Found(f, e) => (Ok(f), e),
                FrameRead::Incomplete => (Err(RespError::Incomplete), 0),
                FrameRead::Malformed => (Err(RespError::Malformed), 0),
            }
        };
        buf_advance(buf, consumed);
        proof {
            if parse_frame(buf_bytes(*old(buf)), 0) is Incomplete || parse_frame(
                buf_bytes(*old(buf)),
                0,
            ) is Malformed {
                assert(buf_bytes(*final(buf)) =~= buf_bytes(*old(buf)));
            }
        }
        r
    }
}

impl RespArray {
    /// Reads one frame off the front of `buf` and takes it as an array.
    /// A whole frame of any other kind is refused without consuming it.
    pub fn decode(buf: &mut bytes::BytesMut) -> (r: Result<RespArray, RespError>)
        ensures
            (match parse_frame(buf_bytes(*old(buf)), 0) {
                Parsed::Found(v, e) => (match v {
                    FrameVal::Array(items) => r is Ok && r.unwrap()@ == items && buf_bytes(
                        *final(buf),
                    ) == buf_bytes(*old(buf)).skip(e),
                    _ => r == Result::<RespArray, RespError>::Err(RespError::Malformed)
                        && buf_bytes(*final(buf)) == buf_bytes(*old(buf)),
                }),
                Parsed::Incomplete => r == Result::<RespArray, RespError>::Err(
                    RespError::Incomplete,
                ) && buf_bytes(*final(buf)) == buf_bytes(*old(buf)),
                Parsed::Malformed => r == Result::<RespArray, RespError>::Err(
                    RespError::Malformed,
                ) && buf_bytes(*final(buf)) == buf_bytes(*old(buf)),
            }),
    {
        let (r, consumed) = {
            let s = buf_slice(buf);
            match parse_at(s, 0) {
                FrameRead::Found(f, e) => match f {
                    RespFrame::Array(a) => (Ok(a), e),
                    _ => (Err(RespError::Malformed), 0),
                },
                FrameRead::Incomplete => (Err(RespError::Incomplete), 0),
                FrameRead::Malformed => (Err(RespError::Malformed), 0),
            }
        };
        buf_advance(buf, consumed);
        proof {
            if consumed == 0 {
                assert(buf_bytes(*final(buf)) =~= buf_bytes(*old(buf)));
            }
        }
        r
    }
}

impl SimpleError {
    /// Reads one frame off the front of `buf` and takes it as an error
    /// frame.  A whole frame of any other kind is refused without
    /// consuming it.
    pub fn decode(buf: &mut bytes::BytesMut) -> (r: Result<SimpleError, RespError>)
        ensures
            (match parse_frame(buf_bytes(*old(buf)), 0) {
                Parsed::Found(v, e) => (match v {
                    FrameVal::Error(t) => r is Ok && r.unwrap().0@ == t && buf_bytes(*final(buf))
                        == buf_bytes(*old(buf)).skip(e),
                    _ => r == Result::<SimpleError, RespError>::Err(RespError::Malformed)
                        && buf_bytes(*final(buf)) == buf_bytes(*old(buf)),
                }),
                Parsed::Incomplete => r == Result::<SimpleError, RespError>::Err(
                    RespError::Incomplete,
                ) && buf_bytes(*final(buf)) == buf_bytes(*old(buf)),
                Parsed::Malformed => r == Result::<SimpleError, RespError>::Err(
                    RespError::Malformed,
                ) && buf_bytes(*final(buf)) == buf_bytes(*old(buf)),
            }),
    {
        let (r, consumed) = {
            let s = buf_slice(buf);
            match parse_at(s, 0) {
                FrameRead::Found(f, e) => match f {
                    RespFrame::Error(se) => (Ok(se), e),
                    _ => (Err(RespError::Malformed), 0),
                },
                FrameRead::Incomplete => (Err(RespError::Incomplete), 0),
                FrameRead::Malformed => (Err(RespError::Malformed), 0),
            }
        };
        buf_advance(buf, consumed);
        proof {
            if consumed == 0 {
                assert(buf_bytes(*final(buf)) =~= buf_bytes(*old(buf)));
            }
        }
        r
    }
}

} // verus!
