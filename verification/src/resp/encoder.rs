//! The executable encoder: every frame type encodes to exactly the bytes
//! that the wire grammar's [`enc`] function names.
use vstd::prelude::*;

verus! {

use crate::resp::{
    BulkString, FrameVal, NullBulkString, RespArray, RespDouble, RespFrame, RespMap, RespNull,
    RespNullArray, RespSet, SimpleError, SimpleString,
};
use crate::resp::text::{copy_bytes, fmt_i64, fmt_len};
use crate::resp::wire::{
    crlf, dec_nat, enc, enc_entries_from, enc_items_from, frame_val, frame_vals_from,
    entry_vals_from, lemma_entry_vals, lemma_frame_vals,
};

/// A value with an exact byte encoding on the wire.
pub trait RespEncoder: Sized {
    /// The bytes this value encodes to.
    spec fn wire_form(&self) -> Seq<u8>;

    /// Encodes the value to exactly its wire bytes.
    fn encode(self) -> (r: Vec<u8>)
        ensures
            r@ == self.wire_form(),
    ;
}

/// Payload framed by a one-byte marker and CRLF.
fn marker_line(marker: u8, payload: Vec<u8>) -> (r: Vec<u8>)
    ensures
        r@ == seq![marker] + payload@ + crlf(),
{
    let ghost p0 = payload@;
    let mut r = payload;
    r.insert(0, marker);
    r.push(13);
    r.push(10);
    proof {
        assert(r@ =~= seq![marker] + p0 + crlf());
    }
    r
}

/// Count header: a marker byte, the decimal count, CRLF.
fn count_header(marker: u8, n: usize) -> (r: Vec<u8>)
    ensures
        r@ == seq![marker] + dec_nat(n as nat) + crlf(),
{
    let mut r: Vec<u8> = Vec::new();
    r.push(marker);
    let mut d = fmt_len(n);
    r.append(&mut d);
    r.push(13);
    r.push(10);
    proof {
        assert(r@ =~= seq![marker] + dec_nat(n as nat) + crlf());
    }
    r
}

/// Encodes one frame; the workhorse behind every [`RespEncoder`] impl.
pub fn encode_frame(f: &RespFrame) -> (r: Vec<u8>)
    ensures
        r@ == enc(frame_val(*f)),
    decreases *f, 0int,
{
    match f {
        RespFrame::SimpleString(s) => marker_line(43, copy_bytes(s.0.as_slice())),
        RespFrame::Error(e) => marker_line(45, copy_bytes(e.0.as_slice())),
        RespFrame::Integer(n) => {
            let r = marker_line(58, fmt_i64(*n));
            proof {
                assert(r@ == enc(frame_val(*f)));
            }
            r
        },
        RespFrame::BulkString(b) => {
            let mut r = count_header(36, b.0.len());
            let mut p = copy_bytes(b.0.as_slice());
            r.append(&mut p);
            r.push(13);
            r.push(10);
            proof {
                assert(r@ =~= seq![36u8] + dec_nat(b.0@.len()) + crlf() + b.0@ + crlf());
            }
            r
        },
        RespFrame::NullBulkString(_) => {
            let mut r: Vec<u8> = Vec::new();
            r.push(36);
            r.push(45);
            r.push(49);
            r.push(13);
            r.push(10);
            proof {
                assert(r@ =~= seq![36u8, 45u8, 49u8, 13u8, 10u8]);
            }
            r
        },
        RespFrame::NullArray(_) => {
            let mut r: Vec<u8> = Vec::new();
            r.push(42);
            r.push(45);
            r.push(49);
            r.push(13);
            r.push(10);
            proof {
                assert(r@ =~= seq![42u8, 45u8, 49u8, 13u8, 10u8]);
            }
            r
        },
        RespFrame::Null(_) => {
            let mut r: Vec<u8> = Vec::new();
            r.push(95);
            r.push(13);
            r.push(10);
            proof {
                assert(r@ =~= seq![95u8, 13u8, 10u8]);
            }
            r
        },
        RespFrame::Boolean(b) => {
            let mut r: Vec<u8> = Vec::new();
            r.push(35);
            if *b {
                r.push(116);
            } else {
                r.push(102);
            }
            r.push(13);
            r.push(10);
            proof {
                if *b {
                    assert(r@ =~= seq![35u8, 116u8, 13u8, 10u8]);
                } else {
                    assert(r@ =~= seq![35u8, 102u8, 13u8, 10u8]);
                }
            }
            r
        },
        RespFrame::Double(d) => marker_line(44, copy_bytes(d.0.as_slice())),
        RespFrame::Array(a) => {
            proof {
                lemma_frame_vals(a.0@);
            }
            encode_items(&a.0, 42)
        },
        RespFrame::Collection(s) => {
            proof {
                lemma_frame_vals(s.0@);
            }
            encode_items(&s.0, 126)
        },
        RespFrame::Mapping(m) => {
            proof {
                lemma_entry_vals(m.0@);
            }
            encode_entries(&m.0)
        },
    }
}

/// Encodes a count header followed by each item's encoding.
fn encode_items(items: &Vec<RespFrame>, marker: u8) -> (r: Vec<u8>)
    ensures
        r@ == seq![marker] + dec_nat(items@.len()) + crlf() + enc_items_from(
            frame_vals_from(items@, 0),
            0,
        ),
    decreases *items, 1int,
{
    let ghost vals = frame_vals_from(items@, 0);
    proof {
        lemma_frame_vals(items@);
    }
    let mut r = count_header(marker, items.len());
    let ghost target = seq![marker] + dec_nat(items@.len()) + crlf() + enc_items_from(vals, 0);
    proof {
        assert(r@ + enc_items_from(vals, 0) =~= target);
    }
    let mut k: usize = 0;
    while k < items.len()
        invariant
            k <= items@.len(),
            vals == frame_vals_from(items@, 0),
            vals.len() == items@.len(),
            forall|j: int| 0 <= j < items@.len() ==> vals[j] == frame_val(items@[j]),
            target == seq![marker] + dec_nat(items@.len()) + crlf() + enc_items_from(vals, 0),
            r@ + enc_items_from(vals, k as int) == target,
        decreases items@.len() - k,
    {
        proof {
            assert(decreases_to!(*items => items@[k as int]));
        }
        let mut e = encode_frame(&items[k]);
        r.append(&mut e);
        proof {
            assert(enc_items_from(vals, k as int) == enc(vals[k as int]) + enc_items_from(
                vals,
                k + 1,
            ));
            assert(r@ + enc_items_from(vals, k + 1) =~= target);
        }
        k += 1;
    }
    proof {
        assert(enc_items_from(vals, k as int).len() == 0);
        assert(r@ =~= target);
    }
    r
}

/// Encodes a map: count header, then each entry as a simple-string key
/// followed by its value.
fn encode_entries(entries: &Vec<(Vec<u8>, RespFrame)>) -> (r: Vec<u8>)
    ensures
        r@ == seq![37u8] + dec_nat(entries@.len()) + crlf() + enc_entries_from(
            entry_vals_from(entries@, 0),
            0,
        ),
    decreases *entries, 1int,
{
    let ghost vals = entry_vals_from(entries@, 0);
    proof {
        lemma_entry_vals(entries@);
    }
    let mut r = count_header(37, entries.len());
    let ghost target = seq![37u8] + dec_nat(entries@.len()) + crlf() + enc_entries_from(vals, 0);
    proof {
        assert(r@ + enc_entries_from(vals, 0) =~= target);
    }
    let mut k: usize = 0;
    while k < entries.len()
        invariant
            k <= entries@.len(),
            vals == entry_vals_from(entries@, 0),
            vals.len() == entries@.len(),
            forall|j: int|
                0 <= j < entries@.len() ==> vals[j] == (entries@[j].0@, frame_val(entries@[j].1)),
            target == seq![37u8] + dec_nat(entries@.len()) + crlf() + enc_entries_from(vals, 0),
            r@ + enc_entries_from(vals, k as int) == target,
        decreases entries@.len() - k,
    {
        let mut kb = marker_line(43, copy_bytes(entries[k].0.as_slice()));
        r.append(&mut kb);
        proof {
            assert(decreases_to!(*entries => entries@[k as int]));
            assert(decreases_to!(entries@[k as int] => entries@[k as int].1));
        }
        let mut e = encode_frame(&entries[k].1);
        r.append(&mut e);
        proof {
            assert(enc_entries_from(vals, k as int) == seq![43u8] + vals[k as int].0 + crlf()
                + enc(vals[k as int].1) + enc_entries_from(vals, k + 1));
            assert(r@ + enc_entries_from(vals, k + 1) =~= target);
        }
        k += 1;
    }
    proof {
        assert(enc_entries_from(vals, k as int).len() == 0);
        assert(r@ =~= target);
    }
    r
}

impl RespEncoder for SimpleString {
    open spec fn wire_form(&self) -> Seq<u8> {
        enc(FrameVal::SimpleString(self.0@))
    }

    fn encode(self) -> (r: Vec<u8>) {
        marker_line(43, self.0)
    }
}

impl RespEncoder for SimpleError {
    open spec fn wire_form(&self) -> Seq<u8> {
        enc(FrameVal::Error(self.0@))
    }

    fn encode(self) -> (r: Vec<u8>) {
        marker_line(45, self.0)
    }
}

impl RespEncoder for i64 {
    open spec fn wire_form(&self) -> Seq<u8> {
        enc(FrameVal::Integer(*self as int))
    }

    fn encode(self) -> (r: Vec<u8>) {
        marker_line(58, fmt_i64(self))
    }
}

impl RespEncoder for bool {
    open spec fn wire_form(&self) -> Seq<u8> {
        enc(FrameVal::Boolean(*self))
    }

    fn encode(self) -> (r: Vec<u8>) {
        encode_frame(&RespFrame::Boolean(self))
    }
}

impl RespEncoder for BulkString {
    open spec fn wire_form(&self) -> Seq<u8> {
        enc(FrameVal::BulkString(self.0@))
    }

    fn encode(self) -> (r: Vec<u8>) {
        encode_frame(&RespFrame::BulkString(self))
    }
}

impl RespEncoder for NullBulkString {
    open spec fn wire_form(&self) -> Seq<u8> {
        enc(FrameVal::NullBulkString)
    }

    fn encode(self) -> (r: Vec<u8>) {
        encode_frame(&RespFrame::NullBulkString(self))
    }
}

impl RespEncoder for RespNullArray {
    open spec fn wire_form(&self) -> Seq<u8> {
        enc(FrameVal::NullArray)
    }

    fn encode(self) -> (r: Vec<u8>) {
        encode_frame(&RespFrame::NullArray(self))
    }
}

impl RespEncoder for RespNull {
    open spec fn wire_form(&self) -> Seq<u8> {
        enc(FrameVal::Null)
    }

    fn encode(self) -> (r: Vec<u8>) {
        encode_frame(&RespFrame::Null(self))
    }
}

impl RespEncoder for RespDouble {
    open spec fn wire_form(&self) -> Seq<u8> {
        enc(FrameVal::Double(self.0@))
    }

    fn encode(self) -> (r: Vec<u8>) {
        marker_line(44, self.0)
    }
}

impl RespEncoder for RespArray {
    open spec fn wire_form(&self) -> Seq<u8> {
        enc(FrameVal::Array(self@))
    }

    fn encode(self) -> (r: Vec<u8>) {
        proof {
            lemma_frame_vals(self.0@);
        }
        encode_items(&self.0, 42)
    }
}

impl RespEncoder for RespSet {
    open spec fn wire_form(&self) -> Seq<u8> {
        enc(FrameVal::Collection(self@))
    }

    fn encode(self) -> (r: Vec<u8>) {
        proof {
            lemma_frame_vals(self.0@);
        }
        encode_items(&self.0, 126)
    }
}

impl RespEncoder for RespMap {
    open spec fn wire_form(&self) -> Seq<u8> {
        enc(FrameVal::Mapping(self@))
    }

    fn encode(self) -> (r: Vec<u8>) {
        proof {
            lemma_entry_vals(self.0@);
        }
        encode_entries(&self.0)
    }
}

impl RespEncoder for RespFrame {
    open spec fn wire_form(&self) -> Seq<u8> {
        enc(self@)
    }

    fn encode(self) -> (r: Vec<u8>) {
        encode_frame(&self)
    }
}

} // verus!
