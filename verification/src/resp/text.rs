//! Executable helpers over byte strings: comparison, the digit scanners of
//! the double grammar, and decimal formatting, each proved against the
//! specification functions of the wire grammar.
use vstd::prelude::*;

verus! {

use crate::resp::wire::{
    bytes_lt, dec_int, dec_nat, is_double_text, is_digit, scan_digits, lemma_bytes_lt_at,
    lemma_bytes_lt_irrefl, lemma_bytes_lt_prefix,
};

/// Result of a three-way byte-string comparison.
#[derive(Debug, PartialEq, Eq)]
pub enum KeyOrder {
    Less,
    Equal,
    Greater,
}

/// True exactly when the two byte strings hold the same bytes.
pub fn bytes_eq(a: &[u8], b: &[u8]) -> (r: bool)
    ensures
        r == (a@ == b@),
{
    if a.len() != b.len() {
        proof {
            assert(a@ != b@) by {
                assert(a@.len() != b@.len());
            }
        }
        return false;
    }
    let mut i: usize = 0;
    while i < a.len()
        invariant
            a@.len() == b@.len(),
            i <= a@.len(),
            forall|j: int| 0 <= j < i ==> a@[j] == b@[j],
        decreases a@.len() - i,
    {
        if a[i] != b[i] {
            return false;
        }
        i += 1;
    }
    proof {
        assert(a@ =~= b@);
    }
    true
}

/// Three-way lexicographic comparison, proved against [`bytes_lt`].
pub fn bytes_cmp(a: &[u8], b: &[u8]) -> (r: KeyOrder)
    ensures
        r == KeyOrder::Less <==> bytes_lt(a@, b@),
        r == KeyOrder::Equal <==> a@ == b@,
        r == KeyOrder::Greater <==> bytes_lt(b@, a@),
{
    let mut i: usize = 0;
    while i < a.len() && i < b.len()
        invariant
            i <= a@.len(),
            i <= b@.len(),
            forall|j: int| 0 <= j < i ==> a@[j] == b@[j],
        decreases a@.len() - i,
    {
        if a[i] < b[i] {
            proof {
                lemma_bytes_lt_at(a@, b@, i as int);
            }
            return KeyOrder::Less;
        }
        if a[i] > b[i] {
            proof {
                lemma_bytes_lt_at(b@, a@, i as int);
            }
            return KeyOrder::Greater;
        }
        i += 1;
    }
    if a.len() == b.len() {
        proof {
            assert(a@ =~= b@);
            lemma_bytes_lt_irrefl(a@);
        }
        KeyOrder::Equal
    } else if a.len() < b.len() {
        proof {
            lemma_bytes_lt_prefix(a@, b@);
        }
        KeyOrder::Less
    } else {
        proof {
            lemma_bytes_lt_prefix(b@, a@);
        }
        KeyOrder::Greater
    }
}

/// First index at or past `pos` holding a non-digit byte, or the end.
pub fn scan_digits_exec(t: &[u8], pos: usize) -> (r: usize)
    requires
        pos <= t@.len(),
    ensures
        r == scan_digits(t@, pos as int),
        pos <= r <= t@.len(),
    decreases t@.len() - pos,
{
    if pos < t.len() && 48 <= t[pos] && t[pos] <= 57 {
        scan_digits_exec(t, pos + 1)
    } else {
        pos
    }
}

/// Decides the double grammar, proved against [`is_double_text`].
pub fn check_double_text(t: &[u8]) -> (r: bool)
    ensures
        r == is_double_text(t@),
{
    let p0: usize = if t.len() > 0 && (t[0] == 43 || t[0] == 45) {
        1
    } else {
        0
    };
    let p1 = scan_digits_exec(t, p0);
    if p1 == p0 {
        return false;
    }
    if p1 == t.len() {
        return true;
    }
    let p2: usize = if t[p1] == 46 {
        let q = scan_digits_exec(t, p1 + 1);
        if q == p1 + 1 {
            return false;
        }
        q
    } else {
        p1
    };
    if p2 == t.len() {
        return true;
    }
    if t[p2] != 101 && t[p2] != 69 {
        return false;
    }
    let p3: usize = if p2 + 1 < t.len() && (t[p2 + 1] == 43 || t[p2 + 1] == 45) {
        p2 + 2
    } else {
        p2 + 1
    };
    if p3 > t.len() {
        return false;
    }
    let p4 = scan_digits_exec(t, p3);
    p4 > p3 && p4 == t.len()
}

/// Relies on String::from_utf8: it accepts exactly the valid UTF-8 byte
/// strings, and the accepted string holds exactly the given bytes.
#[verifier::external_body]
pub fn bytes_to_string(v: Vec<u8>) -> (r: Option<String>)
    ensures
        r is Some <==> vstd::utf8::valid_utf8(v@),
        r is Some ==> vstd::utf8::encode_utf8(r.unwrap()@) == v@,
{
    String::from_utf8(v).ok()
}

/// A fresh vector holding the same bytes.
pub fn copy_bytes(b: &[u8]) -> (r: Vec<u8>)
    ensures
        r@ == b@,
{
    let mut r: Vec<u8> = Vec::new();
    let mut i: usize = 0;
    while i < b.len()
        invariant
            i <= b@.len(),
            r@ == b@.subrange(0, i as int),
        decreases b@.len() - i,
    {
        r.push(b[i]);
        i += 1;
        proof {
            assert(r@ =~= b@.subrange(0, i as int));
        }
    }
    proof {
        assert(r@ =~= b@);
    }
    r
}

/// Decimal digits of `n`, most significant first.
pub fn fmt_u64(n: u64) -> (r: Vec<u8>)
    ensures
        r@ == dec_nat(n as nat),
    decreases n,
{
    if n < 10 {
        let mut r: Vec<u8> = Vec::new();
        r.push(48 + n as u8);
        proof {
            assert(r@ =~= dec_nat(n as nat));
        }
        r
    } else {
        let mut r = fmt_u64(n / 10);
        r.push(48 + (n % 10) as u8);
        proof {
            assert(r@ =~= dec_nat((n / 10) as nat) + seq![(48 + (n as nat) % 10) as u8]);
        }
        r
    }
}

/// Signed decimal text of `n`.
pub fn fmt_i64(n: i64) -> (r: Vec<u8>)
    ensures
        r@ == dec_int(n as int),
{
    if n >= 0 {
        fmt_u64(n as u64)
    } else {
        // magnitude computed without overflowing at the minimum value
        let m: u64 = ((-(n + 1)) as u64) + 1;
        proof {
            assert(m == -(n as int));
        }
        let mut r: Vec<u8> = Vec::new();
        r.push(45);
        let mut d = fmt_u64(m);
        r.append(&mut d);
        proof {
            assert(r@ =~= seq![45u8] + dec_nat((-(n as int)) as nat));
        }
        r
    }
}

/// Decimal digits of a length value.
pub fn fmt_len(n: usize) -> (r: Vec<u8>)
    ensures
        r@ == dec_nat(n as nat),
{
    fmt_u64(n as u64)
}

} // verus!
