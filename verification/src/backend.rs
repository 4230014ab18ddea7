//! The in-memory multi-type key-value store: one shared table from text
//! keys to a scalar frame, a hash of fields, or a set of members.  Every
//! operation's effect is stated over the table's model, a sequence of
//! key/entry pairs read front to back (first match wins).
//!
//! Access is exclusive (`&mut`), which makes each operation atomic by
//! construction; concurrent connection handlers share the table behind one
//! lock, taken per operation, in the surrounding program.
use vstd::prelude::*;

verus! {

use crate::resp::RespFrame;
use crate::resp::FrameVal;
use crate::resp::wire::frame_val;

/// One stored entry.
pub enum StoreEntry {
    Value(RespFrame),
    Hash(Vec<(String, RespFrame)>),
    Members(Vec<String>),
}

/// The model of one stored entry.
pub enum EntryVal {
    Value(FrameVal),
    Hash(Seq<(Seq<char>, FrameVal)>),
    Members(Seq<Seq<char>>),
}

/// The shared table.
pub struct Backend {
    pub entries: Vec<(String, StoreEntry)>,
}

// ---------------------------------------------------------------------------
// Models
// ---------------------------------------------------------------------------
pub open spec fn hash_vals_from(es: Seq<(String, RespFrame)>, i: int) -> Seq<(Seq<char>, FrameVal)>
    decreases es, es.len() - i, 1int,
{
    if 0 <= i < es.len() {
        seq![(es[i].0@, frame_val(es[i].1))] + hash_vals_from(es, i + 1)
    } else {
        Seq::empty()
    }
}

pub open spec fn member_vals_from(ms: Seq<String>, i: int) -> Seq<Seq<char>>
    decreases ms, ms.len() - i, 1int,
{
    if 0 <= i < ms.len() {
        seq![ms[i]@] + member_vals_from(ms, i + 1)
    } else {
        Seq::empty()
    }
}

pub open spec fn entry_val(e: StoreEntry) -> EntryVal {
    match e {
        StoreEntry::Value(f) => EntryVal::Value(frame_val(f)),
        StoreEntry::Hash(h) => EntryVal::Hash(hash_vals_from(h@, 0)),
        StoreEntry::Members(m) => EntryVal::Members(member_vals_from(m@, 0)),
    }
}

pub open spec fn store_vals_from(es: Seq<(String, StoreEntry)>, i: int) -> Seq<
    (Seq<char>, EntryVal),
>
    decreases es, es.len() - i, 1int,
{
    if 0 <= i < es.len() {
        seq![(es[i].0@, entry_val(es[i].1))] + store_vals_from(es, i + 1)
    } else {
        Seq::empty()
    }
}

impl View for Backend {
    type V = Seq<(Seq<char>, EntryVal)>;

    open spec fn view(&self) -> Seq<(Seq<char>, EntryVal)> {
        store_vals_from(self.entries@, 0)
    }
}

pub proof fn lemma_hash_vals(es: Seq<(String, RespFrame)>)
    ensures
        hash_vals_from(es, 0).len() == es.len(),
        forall|j: int|
            0 <= j < es.len() ==> #[trigger] hash_vals_from(es, 0)[j] == (
            es[j].0@,
            frame_val(es[j].1),
            ),
{
    lemma_hash_vals_from(es, 0);
    assert forall|j: int|
        0 <= j < es.len() implies #[trigger] hash_vals_from(es, 0)[j] == (
        es[j].0@,
        frame_val(es[j].1),
    ) by {
        assert(hash_vals_from(es, 0)[j - 0] == (es[j].0@, frame_val(es[j].1)));
    }
}

proof fn lemma_hash_vals_from(es: Seq<(String, RespFrame)>, i: int)
    requires
        0 <= i <= es.len(),
    ensures
        hash_vals_from(es, i).len() == es.len() - i,
        forall|j: int|
            i <= j < es.len() ==> hash_vals_from(es, i)[j - i] == (es[j].0@, frame_val(es[j].1)),
    decreases es.len() - i,
{
    if i < es.len() {
        lemma_hash_vals_from(es, i + 1);
        assert forall|j: int|
            i <= j < es.len() implies hash_vals_from(es, i)[j - i] == (
            es[j].0@,
            frame_val(es[j].1),
        ) by {
            if j > i {
                assert(hash_vals_from(es, i + 1)[j - i - 1] == (es[j].0@, frame_val(es[j].1)));
            }
        }
    }
}

pub proof fn lemma_member_vals(ms: Seq<String>)
    ensures
        member_vals_from(ms, 0).len() == ms.len(),
        forall|j: int| 0 <= j < ms.len() ==> #[trigger] member_vals_from(ms, 0)[j] == ms[j]@,
{
    lemma_member_vals_from(ms, 0);
    assert forall|j: int|
        0 <= j < ms.len() implies #[trigger] member_vals_from(ms, 0)[j] == ms[j]@ by {
        assert(member_vals_from(ms, 0)[j - 0] == ms[j]@);
    }
}

proof fn lemma_member_vals_from(ms: Seq<String>, i: int)
    requires
        0 <= i <= ms.len(),
    ensures
        member_vals_from(ms, i).len() == ms.len() - i,
        forall|j: int| i <= j < ms.len() ==> member_vals_from(ms, i)[j - i] == ms[j]@,
    decreases ms.len() - i,
{
    if i < ms.len() {
        lemma_member_vals_from(ms, i + 1);
        assert forall|j: int| i <= j < ms.len() implies member_vals_from(ms, i)[j - i]
            == ms[j]@ by {
            if j > i {
                assert(member_vals_from(ms, i + 1)[j - i - 1] == ms[j]@);
            }
        }
    }
}

pub proof fn lemma_store_vals(es: Seq<(String, StoreEntry)>)
    ensures
        store_vals_from(es, 0).len() == es.len(),
        forall|j: int|
            0 <= j < es.len() ==> #[trigger] store_vals_from(es, 0)[j] == (
            es[j].0@,
            entry_val(es[j].1),
            ),
{
    lemma_store_vals_from(es, 0);
    assert forall|j: int|
        0 <= j < es.len() implies #[trigger] store_vals_from(es, 0)[j] == (
        es[j].0@,
        entry_val(es[j].1),
    ) by {
        assert(store_vals_from(es, 0)[j - 0] == (es[j].0@, entry_val(es[j].1)));
    }
}

proof fn lemma_store_vals_from(es: Seq<(String, StoreEntry)>, i: int)
    requires
        0 <= i <= es.len(),
    ensures
        store_vals_from(es, i).len() == es.len() - i,
        forall|j: int|
            i <= j < es.len() ==> store_vals_from(es, i)[j - i] == (es[j].0@, entry_val(es[j].1)),
    decreases es.len() - i,
{
    if i < es.len() {
        lemma_store_vals_from(es, i + 1);
        assert forall|j: int|
            i <= j < es.len() implies store_vals_from(es, i)[j - i] == (
            es[j].0@,
            entry_val(es[j].1),
        ) by {
            if j > i {
                assert(store_vals_from(es, i + 1)[j - i - 1] == (es[j].0@, entry_val(es[j].1)));
            }
        }
    }
}

// ---------------------------------------------------------------------------
// Lookup and update, in specification form
// ---------------------------------------------------------------------------
/// First value stored under `k`, if any.
pub open spec fn assoc<V>(s: Seq<(Seq<char>, V)>, k: Seq<char>) -> Option<V>
    decreases s.len(),
{
    if s.len() == 0 {
        None
    } else if s[0].0 == k {
        Some(s[0].1)
    } else {
        assoc(s.drop_first(), k)
    }
}

/// Replaces the first entry under `k` in place, or appends a new one.
pub open spec fn put<V>(s: Seq<(Seq<char>, V)>, k: Seq<char>, v: V) -> Seq<(Seq<char>, V)>
    decreases s.len(),
{
    if s.len() == 0 {
        seq![(k, v)]
    } else if s[0].0 == k {
        seq![(k, v)] + s.drop_first()
    } else {
        seq![s[0]] + put(s.drop_first(), k, v)
    }
}

/// Where a scan lands: with no key match before `i` and a match at `i` (or
/// none at all), `assoc` and `put` read off the index.
pub proof fn lemma_assoc_put_at<V>(s: Seq<(Seq<char>, V)>, k: Seq<char>, v: V, i: int)
    requires
        0 <= i <= s.len(),
        forall|j: int| 0 <= j < i ==> (#[trigger] s[j].0) != k,
        i < s.len() ==> s[i].0 == k,
    ensures
        assoc(s, k) == if i < s.len() {
            Some(s[i].1)
        } else {
            Option::<V>::None
        },
        put(s, k, v) == if i < s.len() {
            s.update(i, (k, v))
        } else {
            s.push((k, v))
        },
    decreases i,
{
    if i == 0 {
        if s.len() == 0 {
            assert(put(s, k, v) =~= s.push((k, v)));
        } else if s[0].0 == k {
            assert(put(s, k, v) =~= s.update(0, (k, v)));
        } else {
            // i == 0 == s.len() is impossible here, so s[0].0 == k
            assert(false);
        }
    } else {
        assert(s[0].0 != k);
        let t = s.drop_first();
        assert forall|j: int| 0 <= j < i - 1 implies (#[trigger] t[j].0) != k by {
            assert(t[j] == s[j + 1]);
        }
        assert(i - 1 < t.len() ==> t[i - 1].0 == k);
        lemma_assoc_put_at(t, k, v, i - 1);
        if i < s.len() {
            assert(put(s, k, v) =~= s.update(i, (k, v)));
        } else {
            assert(put(s, k, v) =~= s.push((k, v)));
        }
    }
}

/// The lookup after an update: the updated key reads back the new value and
/// every other key is untouched.
pub proof fn lemma_assoc_after_put<V>(s: Seq<(Seq<char>, V)>, k: Seq<char>, v: V, q: Seq<char>)
    ensures
        assoc(put(s, k, v), q) == if q == k {
            Some(v)
        } else {
            assoc(s, q)
        },
    decreases s.len(),
{
    if s.len() == 0 {
        if q == k {
            assert(assoc(put(s, k, v), q) == Some(v));
        } else {
            assert(seq![(k, v)].drop_first() =~= Seq::<(Seq<char>, V)>::empty());
        }
    } else if s[0].0 == k {
        let p = put(s, k, v);
        assert(p == seq![(k, v)] + s.drop_first());
        assert(p[0] == (k, v));
        assert(p.drop_first() =~= s.drop_first());
        if q != k {
            assert(assoc(s, q) == assoc(s.drop_first(), q));
        }
    } else {
        let p = put(s, k, v);
        assert(p == seq![s[0]] + put(s.drop_first(), k, v));
        assert(p[0] == s[0]);
        assert(p.drop_first() =~= put(s.drop_first(), k, v));
        lemma_assoc_after_put(s.drop_first(), k, v, q);
    }
}

// ---------------------------------------------------------------------------
// Whole-operation transitions
// ---------------------------------------------------------------------------
/// Effect of storing a scalar under a key.
pub open spec fn store_set(s: Seq<(Seq<char>, EntryVal)>, k: Seq<char>, v: FrameVal) -> Seq<
    (Seq<char>, EntryVal),
> {
    put(s, k, EntryVal::Value(v))
}

/// Effect of upserting one hash field.  A key that does not hold a hash is
/// started over as a fresh hash: a wrong-typed key is treated as absent.
pub open spec fn store_hset(
    s: Seq<(Seq<char>, EntryVal)>,
    k: Seq<char>,
    f: Seq<char>,
    v: FrameVal,
) -> Seq<(Seq<char>, EntryVal)> {
    match assoc(s, k) {
        Some(EntryVal::Hash(h)) => put(s, k, EntryVal::Hash(put(h, f, v))),
        _ => put(s, k, EntryVal::Hash(seq![(f, v)])),
    }
}

/// Effect and reply of one set-member insertion: `true` exactly when the
/// member was not there yet.  A key that does not hold a set is started over
/// as a fresh set.
pub open spec fn store_sadd(s: Seq<(Seq<char>, EntryVal)>, k: Seq<char>, m: Seq<char>) -> (
    Seq<(Seq<char>, EntryVal)>,
    bool,
) {
    match assoc(s, k) {
        Some(EntryVal::Members(ms)) => if ms.contains(m) {
            (s, false)
        } else {
            (put(s, k, EntryVal::Members(ms.push(m))), true)
        },
        _ => (put(s, k, EntryVal::Members(seq![m])), true),
    }
}

/// The hash stored under `k`, or empty when `k` is absent or not a hash.
pub open spec fn store_hash_of(s: Seq<(Seq<char>, EntryVal)>, k: Seq<char>) -> Seq<
    (Seq<char>, FrameVal),
> {
    match assoc(s, k) {
        Some(EntryVal::Hash(h)) => h,
        _ => Seq::empty(),
    }
}

/// The reply of a hash-field read: the stored value, or nothing.
pub open spec fn store_hget(s: Seq<(Seq<char>, EntryVal)>, k: Seq<char>, f: Seq<char>) -> Option<
    FrameVal,
> {
    assoc(store_hash_of(s, k), f)
}

/// The reply of a set-membership test: absent keys hold the empty set.
pub open spec fn store_sismember(s: Seq<(Seq<char>, EntryVal)>, k: Seq<char>, m: Seq<char>) -> bool {
    match assoc(s, k) {
        Some(EntryVal::Members(ms)) => ms.contains(m),
        _ => false,
    }
}

// ---------------------------------------------------------------------------
// The executable store
// ---------------------------------------------------------------------------
/// First index in a hash holding `field`, if any.
fn hash_find(h: &Vec<(String, RespFrame)>, field: &String) -> (r: Option<usize>)
    ensures
        (match r {
            Option::Some(i) => i < h@.len() && h@[i as int].0@ == field@ && forall|j: int|
                0 <= j < i ==> (#[trigger] h@[j].0)@ != field@,
            Option::None => forall|j: int| 0 <= j < h@.len() ==> (#[trigger] h@[j].0)@ != field@,
        }),
{
    let mut i: usize = 0;
    while i < h.len()
        invariant
            i <= h@.len(),
            forall|j: int| 0 <= j < i ==> (#[trigger] h@[j].0)@ != field@,
        decreases h@.len() - i,
    {
        if h[i].0 == *field {
            return Some(i);
        }
        i += 1;
    }
    None
}

/// First index in a member list holding `m`, if any.
fn member_find(ms: &Vec<String>, m: &String) -> (r: Option<usize>)
    ensures
        r is Some <==> member_vals_from(ms@, 0).contains(m@),
{
    proof {
        lemma_member_vals(ms@);
    }
    let mut i: usize = 0;
    while i < ms.len()
        invariant
            i <= ms@.len(),
            forall|j: int| 0 <= j < i ==> (#[trigger] ms@[j])@ != m@,
        decreases ms@.len() - i,
    {
        if ms[i] == *m {
            proof {
                lemma_member_vals(ms@);
                assert(member_vals_from(ms@, 0)[i as int] == m@);
            }
            return Some(i);
        }
        i += 1;
    }
    proof {
        lemma_member_vals(ms@);
        assert forall|j: int|
            0 <= j < member_vals_from(ms@, 0).len() implies member_vals_from(ms@, 0)[j]
            != m@ by {}
    }
    None
}

impl Backend {
    /// An empty table.
    pub fn new() -> (r: Backend)
        ensures
            r@ == Seq::<(Seq<char>, EntryVal)>::empty(),
    {
        let b = Backend { entries: Vec::new() };
        proof {
            assert(b@ =~= Seq::<(Seq<char>, EntryVal)>::empty());
        }
        b
    }

    /// First index holding `key`, if any.
    fn find(&self, key: &String) -> (r: Option<usize>)
        ensures
            (match r {
                Option::Some(i) => i < self@.len() && self@[i as int].0 == key@ && forall|j: int|
                    0 <= j < i ==> (#[trigger] self@[j]).0 != key@,
                Option::None => forall|j: int|
                    0 <= j < self@.len() ==> (#[trigger] self@[j]).0 != key@,
            }),
    {
        proof {
            lemma_store_vals(self.entries@);
        }
        let mut i: usize = 0;
        while i < self.entries.len()
            invariant
                i <= self.entries@.len(),
                self@.len() == self.entries@.len(),
                forall|j: int|
                    0 <= j < self@.len() ==> #[trigger] self@[j] == (
                    self.entries@[j].0@,
                    entry_val(self.entries@[j].1),
                    ),
                forall|j: int| 0 <= j < i ==> (#[trigger] self@[j]).0 != key@,
            decreases self.entries@.len() - i,
        {
            if self.entries[i].0 == *key {
                return Some(i);
            }
            i += 1;
        }
        None
    }

    /// The scalar under `key`, or nothing when the key is absent or holds a
    /// hash or a set (a wrong-typed key reads as absent).
    pub fn get(&self, key: &String) -> (r: Option<RespFrame>)
        ensures
            (match assoc(self@, key@) {
                Some(EntryVal::Value(v)) => r is Some && r.unwrap()@ == v,
                _ => r is None,
            }),
    {
        proof {
            lemma_store_vals(self.entries@);
        }
        match self.find(key) {
            Option::Some(i) => {
                proof {
                    lemma_assoc_put_at::<EntryVal>(
                        self@,
                        key@,
                        arbitrary(),
                        i as int,
                    );
                }
                match &self.entries[i].1 {
                    StoreEntry::Value(f) => Some(f.clone()),
                    _ => None,
                }
            },
            Option::None => {
                proof {
                    lemma_assoc_put_at::<EntryVal>(
                        self@,
                        key@,
                        arbitrary(),
                        self@.len() as int,
                    );
                }
                None
            },
        }
    }

    /// Stores `value` under `key`, replacing whatever was there.
    pub fn set(&mut self, key: String, value: RespFrame)
        ensures
            final(self)@ == store_set(old(self)@, key@, frame_val(value)),
    {
        let ghost s0 = self@;
        let ghost ev = EntryVal::Value(frame_val(value));
        proof {
            lemma_store_vals(self.entries@);
        }
        match self.find(&key) {
            Option::Some(i) => {
                proof {
                    lemma_assoc_put_at(s0, key@, ev, i as int);
                }
                self.entries.remove(i);
                self.entries.insert(i, (key, StoreEntry::Value(value)));
                proof {
                    lemma_store_vals(self.entries@);
                    assert(self@ =~= s0.update(i as int, (key@, ev)));
                }
            },
            Option::None => {
                proof {
                    lemma_assoc_put_at(s0, key@, ev, s0.len() as int);
                }
                self.entries.push((key, StoreEntry::Value(value)));
                proof {
                    lemma_store_vals(self.entries@);
                    assert(self@ =~= s0.push((key@, ev)));
                }
            },
        }
    }

    /// The value of `field` in the hash under `key`, or nothing: an absent
    /// key, a wrong-typed key or a missing field all read as nothing.
    pub fn hget(&self, key: &String, field: &String) -> (r: Option<RespFrame>)
        ensures
            (match store_hget(self@, key@, field@) {
                Some(v) => r is Some && r.unwrap()@ == v,
                None => r is None,
            }),
    {
        proof {
            lemma_store_vals(self.entries@);
        }
        match self.find(key) {
            Option::Some(i) => {
                proof {
                    lemma_assoc_put_at::<EntryVal>(self@, key@, arbitrary(), i as int);
                }
                match &self.entries[i].1 {
                    StoreEntry::Hash(h) => {
                        proof {
                            lemma_hash_vals(h@);
                        }
                        match hash_find(h, field) {
                            Option::Some(j) => {
                                proof {
                                    lemma_assoc_put_at::<FrameVal>(
                                        hash_vals_from(h@, 0),
                                        field@,
                                        arbitrary(),
                                        j as int,
                                    );
                                }
                                Some(h[j].1.clone())
                            },
                            Option::None => {
                                proof {
                                    lemma_assoc_put_at::<FrameVal>(
                                        hash_vals_from(h@, 0),
                                        field@,
                                        arbitrary(),
                                        h@.len() as int,
                                    );
                                }
                                None
                            },
                        }
                    },
                    _ => None,
                }
            },
            Option::None => {
                proof {
                    lemma_assoc_put_at::<EntryVal>(self@, key@, arbitrary(), self@.len() as int);
                }
                None
            },
        }
    }

    /// Upserts `field` in the hash under `key`; an absent or wrong-typed key
    /// starts a fresh hash.
    pub fn hset(&mut self, key: String, field: String, value: RespFrame)
        ensures
            final(self)@ == store_hset(old(self)@, key@, field@, frame_val(value)),
    {
        let ghost s0 = self@;
        proof {
            lemma_store_vals(self.entries@);
        }
        match self.find(&key) {
            Option::Some(i) => {
                proof {
                    lemma_assoc_put_at::<EntryVal>(self@, key@, arbitrary(), i as int);
                }
                let (k, e) = self.entries.remove(i);
                match e {
                    StoreEntry::Hash(mut h) => {
                        let ghost h0 = hash_vals_from(h@, 0);
                        let ghost fv = frame_val(value);
                        proof {
                            lemma_hash_vals(h@);
                        }
                        match hash_find(&h, &field) {
                            Option::Some(j) => {
                                proof {
                                    lemma_assoc_put_at(h0, field@, fv, j as int);
                                }
                                h.remove(j);
                                h.insert(j, (field, value));
                                proof {
                                    lemma_hash_vals(h@);
                                    assert(hash_vals_from(h@, 0) =~= h0.update(
                                        j as int,
                                        (field@, fv),
                                    ));
                                }
                            },
                            Option::None => {
                                proof {
                                    lemma_assoc_put_at(h0, field@, fv, h0.len() as int);
                                }
                                h.push((field, value));
                                proof {
                                    lemma_hash_vals(h@);
                                    assert(hash_vals_from(h@, 0) =~= h0.push((field@, fv)));
                                }
                            },
                        }
                        let ghost ev = EntryVal::Hash(put(h0, field@, fv));
                        proof {
                            lemma_assoc_put_at(s0, key@, ev, i as int);
                        }
                        self.entries.insert(i, (k, StoreEntry::Hash(h)));
                        proof {
                            lemma_store_vals(self.entries@);
                            assert(self@ =~= s0.update(i as int, (key@, ev)));
                        }
                    },
                    _ => {
                        let mut h: Vec<(String, RespFrame)> = Vec::new();
                        let ghost fv = frame_val(value);
                        h.push((field, value));
                        let ghost ev = EntryVal::Hash(seq![(h@[0].0@, fv)]);
                        proof {
                            lemma_hash_vals(h@);
                            assert(hash_vals_from(h@, 0) =~= seq![(h@[0].0@, fv)]);
                            lemma_assoc_put_at(s0, key@, ev, i as int);
                        }
                        self.entries.insert(i, (k, StoreEntry::Hash(h)));
                        proof {
                            lemma_store_vals(self.entries@);
                            assert(self@ =~= s0.update(i as int, (key@, ev)));
                        }
                    },
                }
            },
            Option::None => {
                proof {
                    lemma_assoc_put_at::<EntryVal>(self@, key@, arbitrary(), self@.len() as int);
                }
                let mut h: Vec<(String, RespFrame)> = Vec::new();
                let ghost fv = frame_val(value);
                h.push((field, value));
                let ghost ev = EntryVal::Hash(seq![(h@[0].0@, fv)]);
                proof {
                    lemma_hash_vals(h@);
                    assert(hash_vals_from(h@, 0) =~= seq![(h@[0].0@, fv)]);
                    lemma_assoc_put_at(s0, key@, ev, s0.len() as int);
                }
                self.entries.push((key, StoreEntry::Hash(h)));
                proof {
                    lemma_store_vals(self.entries@);
                    assert(self@ =~= s0.push((key@, ev)));
                }
            },
        }
    }

    /// A copy of the hash under `key` in its stored (insertion) order;
    /// empty when the key is absent or wrong-typed.
    pub fn hgetall(&self, key: &String) -> (r: Vec<(String, RespFrame)>)
        ensures
            hash_vals_from(r@, 0) == store_hash_of(self@, key@),
    {
        proof {
            lemma_store_vals(self.entries@);
        }
        match self.find(key) {
            Option::Some(i) => {
                proof {
                    lemma_assoc_put_at::<EntryVal>(self@, key@, arbitrary(), i as int);
                }
                match &self.entries[i].1 {
                    StoreEntry::Hash(h) => {
                        let ghost h0 = hash_vals_from(h@, 0);
                        proof {
                            lemma_hash_vals(h@);
                        }
                        let mut r: Vec<(String, RespFrame)> = Vec::new();
                        let mut j: usize = 0;
                        while j < h.len()
                            invariant
                                j <= h@.len(),
                                r@.len() == j,
                                forall|t: int|
                                    0 <= t < j ==> (#[trigger] r@[t]).0@ == h@[t].0@ && frame_val(
                                        r@[t].1,
                                    ) == frame_val(h@[t].1),
                            decreases h@.len() - j,
                        {
                            let ks = h[j].0.clone();
                            let vf = h[j].1.clone();
                            r.push((ks, vf));
                            j += 1;
                        }
                        proof {
                            lemma_hash_vals(r@);
                            lemma_hash_vals(h@);
                            assert(hash_vals_from(r@, 0) =~= h0);
                        }
                        r
                    },
                    _ => {
                        let r: Vec<(String, RespFrame)> = Vec::new();
                        proof {
                            lemma_hash_vals(r@);
                            assert(hash_vals_from(r@, 0) =~= Seq::<(Seq<char>, FrameVal)>::empty());
                        }
                        r
                    },
                }
            },
            Option::None => {
                proof {
                    lemma_assoc_put_at::<EntryVal>(self@, key@, arbitrary(), self@.len() as int);
                }
                let r: Vec<(String, RespFrame)> = Vec::new();
                proof {
                    lemma_hash_vals(r@);
                    assert(hash_vals_from(r@, 0) =~= Seq::<(Seq<char>, FrameVal)>::empty());
                }
                r
            },
        }
    }

    /// Inserts `member` into the set under `key`, replying whether it was
    /// new; an absent or wrong-typed key starts a fresh set.
    pub fn sadd(&mut self, key: String, member: String) -> (r: bool)
        ensures
            final(self)@ == store_sadd(old(self)@, key@, member@).0,
            r == store_sadd(old(self)@, key@, member@).1,
    {
        let ghost s0 = self@;
        proof {
            lemma_store_vals(self.entries@);
        }
        match self.find(&key) {
            Option::Some(i) => {
                proof {
                    lemma_assoc_put_at::<EntryVal>(self@, key@, arbitrary(), i as int);
                }
                let (k, e) = self.entries.remove(i);
                match e {
                    StoreEntry::Members(mut ms) => {
                        let ghost m0 = member_vals_from(ms@, 0);
                        proof {
                            lemma_member_vals(ms@);
                        }
                        match member_find(&ms, &member) {
                            Option::Some(_) => {
                                self.entries.insert(i, (k, StoreEntry::Members(ms)));
                                proof {
                                    lemma_store_vals(self.entries@);
                                    assert(self@ =~= s0);
                                }
                                false
                            },
                            Option::None => {
                                ms.push(member);
                                let ghost ev = EntryVal::Members(m0.push(ms@[ms@.len() - 1]@));
                                proof {
                                    lemma_member_vals(ms@);
                                    assert(member_vals_from(ms@, 0) =~= m0.push(
                                        ms@[ms@.len() - 1]@,
                                    ));
                                    lemma_assoc_put_at(s0, key@, ev, i as int);
                                }
                                self.entries.insert(i, (k, StoreEntry::Members(ms)));
                                proof {
                                    lemma_store_vals(self.entries@);
                                    assert(self@ =~= s0.update(i as int, (key@, ev)));
                                }
                                true
                            },
                        }
                    },
                    _ => {
                        let mut ms: Vec<String> = Vec::new();
                        ms.push(member);
                        let ghost ev = EntryVal::Members(seq![ms@[0]@]);
                        proof {
                            lemma_member_vals(ms@);
                            assert(member_vals_from(ms@, 0) =~= seq![ms@[0]@]);
                            lemma_assoc_put_at(s0, key@, ev, i as int);
                        }
                        self.entries.insert(i, (k, StoreEntry::Members(ms)));
                        proof {
                            lemma_store_vals(self.entries@);
                            assert(self@ =~= s0.update(i as int, (key@, ev)));
                        }
                        true
                    },
                }
            },
            Option::None => {
                proof {
                    lemma_assoc_put_at::<EntryVal>(self@, key@, arbitrary(), self@.len() as int);
                }
                let mut ms: Vec<String> = Vec::new();
                ms.push(member);
                let ghost ev = EntryVal::Members(seq![ms@[0]@]);
                proof {
                    lemma_member_vals(ms@);
                    assert(member_vals_from(ms@, 0) =~= seq![ms@[0]@]);
                    lemma_assoc_put_at(s0, key@, ev, s0.len() as int);
                }
                self.entries.push((key, StoreEntry::Members(ms)));
                proof {
                    lemma_store_vals(self.entries@);
                    assert(self@ =~= s0.push((key@, ev)));
                }
                true
            },
        }
    }

    /// Whether `member` is in the set under `key`; an absent or wrong-typed
    /// key reads as the empty set.
    pub fn sismember(&self, key: &String, member: &String) -> (r: bool)
        ensures
            r == store_sismember(self@, key@, member@),
    {
        proof {
            lemma_store_vals(self.entries@);
        }
        match self.find(key) {
            Option::Some(i) => {
                proof {
                    lemma_assoc_put_at::<EntryVal>(self@, key@, arbitrary(), i as int);
                }
                match &self.entries[i].1 {
                    StoreEntry::Members(ms) => match member_find(ms, member) {
                        Option::Some(_) => true,
                        Option::None => false,
                    },
                    _ => false,
                }
            },
            Option::None => {
                proof {
                    lemma_assoc_put_at::<EntryVal>(self@, key@, arbitrary(), self@.len() as int);
                }
                false
            },
        }
    }
}

} // verus!
