//! The hash commands: HGET, HSET, HGETALL and HMGET.
use vstd::prelude::*;

verus! {

use crate::backend::{
    Backend, lemma_hash_vals, store_hash_of, store_hget, store_hset,
};
use crate::cmd::{
    arg_err_post, arg_ok, arg_string, arg_text, args_utf8, kw_hget, kw_hgetall, kw_hmget,
    kw_hset, lemma_first_bad_at, lemma_first_bad_none, name_matches, ok_frame, ok_text,
    validate_command, CommandError, HGet, HGetAll, HMGet, HSet,
};
use crate::resp::{FrameVal, RespArray, RespFrame, RespMap, RespNull};
use crate::resp::wire::{frame_val, frame_vals_from, map_insert, lemma_frame_vals};
use vstd::utf8::encode_utf8;
use vstd::string::StringExecFns;

/// The reply for one requested hash field: the stored value, or Null.
pub open spec fn hmget_val(
    s: Seq<(Seq<char>, crate::backend::EntryVal)>,
    k: Seq<char>,
    f: Seq<char>,
) -> FrameVal {
    match store_hget(s, k, f) {
        Some(v) => v,
        None => FrameVal::Null,
    }
}

/// The key-sorted map collecting a hash's fields, keyed by their UTF-8
/// bytes, entry by entry in stored order.
pub open spec fn map_from_hash_from(
    h: Seq<(Seq<char>, FrameVal)>,
    i: int,
    acc: Seq<(Seq<u8>, FrameVal)>,
) -> Seq<(Seq<u8>, FrameVal)>
    decreases h.len() - i,
{
    if 0 <= i < h.len() {
        map_from_hash_from(h, i + 1, map_insert(acc, encode_utf8(h[i].0), h[i].1))
    } else {
        acc
    }
}

pub open spec fn map_from_hash(h: Seq<(Seq<char>, FrameVal)>) -> Seq<(Seq<u8>, FrameVal)> {
    map_from_hash_from(h, 0, Seq::empty())
}

impl HGet {
    /// Takes an `HGET key field` array.
    pub fn parse(value: RespArray) -> (r: Result<HGet, CommandError>)
        ensures
            r is Ok <==> value@.len() == 3 && name_matches(value@, kw_hget()) && args_utf8(
                value@,
                1,
                3,
            ),
            (r matches Ok(c) ==> arg_text(value@, 1, c.key@) && arg_text(value@, 2, c.field@)),
            value@.len() != 3 ==> (r matches Err(CommandError::InvalidCommand(_))),
            value@.len() == 3 && !name_matches(value@, kw_hget()) ==> (r matches Err(
                CommandError::InvalidArgument(_),
            )),
            value@.len() == 3 && name_matches(value@, kw_hget()) ==> arg_err_post(value@, 1, 3, r),
    {
        let kw: [u8; 4] = [104, 103, 101, 116];
        proof {
            assert(kw@ =~= kw_hget());
        }
        match validate_command(&value, kw.as_slice(), 2) {
            Ok(_) => {},
            Err(e) => {
                return Err(e);
            },
        }
        let key = match arg_string(&value, 1) {
            Ok(s) => s,
            Err(e) => {
                proof {
                    lemma_first_bad_at(value@, 1, 3, 1);
                }
                return Err(e);
            },
        };
        let field = match arg_string(&value, 2) {
            Ok(s) => s,
            Err(e) => {
                proof {
                    lemma_first_bad_at(value@, 1, 3, 2);
                }
                return Err(e);
            },
        };
        proof {
            lemma_first_bad_none(value@, 1, 3);
        }
        Ok(HGet { key, field })
    }

    /// Replies the field's value, or Null when the key or field is absent;
    /// the store is untouched.
    pub fn execute(self, backend: &mut Backend) -> (r: RespFrame)
        ensures
            final(backend)@ == old(backend)@,
            r@ == hmget_val(old(backend)@, self.key@, self.field@),
    {
        match backend.hget(&self.key, &self.field) {
            Option::Some(f) => f,
            Option::None => RespFrame::Null(RespNull),
        }
    }
}

impl HSet {
    /// Takes an `HSET key field value` array; the value may be any frame.
    pub fn parse(value: RespArray) -> (r: Result<HSet, CommandError>)
        ensures
            r is Ok <==> value@.len() == 4 && name_matches(value@, kw_hset()) && args_utf8(
                value@,
                1,
                3,
            ),
            (r matches Ok(c) ==> arg_text(value@, 1, c.key@) && arg_text(value@, 2, c.field@)
                && c.value@ == value@[3]),
            value@.len() != 4 ==> (r matches Err(CommandError::InvalidCommand(_))),
            value@.len() == 4 && !name_matches(value@, kw_hset()) ==> (r matches Err(
                CommandError::InvalidArgument(_),
            )),
            value@.len() == 4 && name_matches(value@, kw_hset()) ==> arg_err_post(value@, 1, 3, r),
    {
        let kw: [u8; 4] = [104, 115, 101, 116];
        proof {
            assert(kw@ =~= kw_hset());
        }
        match validate_command(&value, kw.as_slice(), 3) {
            Ok(_) => {},
            Err(e) => {
                return Err(e);
            },
        }
        let key = match arg_string(&value, 1) {
            Ok(s) => s,
            Err(e) => {
                proof {
                    lemma_first_bad_at(value@, 1, 3, 1);
                }
                return Err(e);
            },
        };
        let field = match arg_string(&value, 2) {
            Ok(s) => s,
            Err(e) => {
                proof {
                    lemma_first_bad_at(value@, 1, 3, 2);
                }
                return Err(e);
            },
        };
        proof {
            lemma_first_bad_none(value@, 1, 3);
            lemma_frame_vals(value.0@);
        }
        let mut items = value.0;
        let v = items.remove(3);
        proof {
            assert(frame_val(v) == value@[3]);
        }
        Ok(HSet { key, field, value: v })
    }

    /// Upserts the field in the key's hash (creating it if absent) and
    /// replies OK.
    pub fn execute(self, backend: &mut Backend) -> (r: RespFrame)
        ensures
            final(backend)@ == store_hset(old(backend)@, self.key@, self.field@, self.value@),
            r@ == FrameVal::SimpleString(ok_text()),
    {
        backend.hset(self.key, self.field, self.value);
        ok_frame()
    }
}

impl HGetAll {
    /// Takes an `HGETALL key` array.
    pub fn parse(value: RespArray) -> (r: Result<HGetAll, CommandError>)
        ensures
            r is Ok <==> value@.len() == 2 && name_matches(value@, kw_hgetall()) && arg_ok(
                value@,
                1,
            ),
            (r matches Ok(c) ==> arg_text(value@, 1, c.key@) && c.sort),
            value@.len() != 2 ==> (r matches Err(CommandError::InvalidCommand(_))),
            value@.len() == 2 && !name_matches(value@, kw_hgetall()) ==> (r matches Err(
                CommandError::InvalidArgument(_),
            )),
            value@.len() == 2 && name_matches(value@, kw_hgetall()) ==> arg_err_post(value@, 1, 2, r),
    {
        let kw: [u8; 7] = [104, 103, 101, 116, 97, 108, 108];
        proof {
            assert(kw@ =~= kw_hgetall());
        }
        match validate_command(&value, kw.as_slice(), 1) {
            Ok(_) => {},
            Err(e) => {
                return Err(e);
            },
        }
        let key = match arg_string(&value, 1) {
            Ok(s) => s,
            Err(e) => {
                proof {
                    lemma_first_bad_at(value@, 1, 2, 1);
                }
                return Err(e);
            },
        };
        proof {
            lemma_first_bad_none(value@, 1, 2);
        }
        Ok(HGetAll { key, sort: true })
    }

    /// Replies every field of the key's hash as a key-sorted map (empty when
    /// the key is absent); the store is untouched.
    pub fn execute(self, backend: &mut Backend) -> (r: RespFrame)
        ensures
            final(backend)@ == old(backend)@,
            r@ == FrameVal::Mapping(map_from_hash(store_hash_of(old(backend)@, self.key@))),
    {
        let pairs = backend.hgetall(&self.key);
        let ghost h = store_hash_of(backend@, self.key@);
        proof {
            lemma_hash_vals(pairs@);
        }
        let mut m = RespMap::new();
        let mut i: usize = 0;
        while i < pairs.len()
            invariant
                i <= pairs@.len(),
                h.len() == pairs@.len(),
                forall|j: int| 0 <= j < pairs@.len() ==> h[j] == (pairs@[j].0@, frame_val(
                    pairs@[j].1,
                )),
                m.key_sorted(),
                map_from_hash_from(h, 0, Seq::empty()) == map_from_hash_from(h, i as int, m@),
            decreases pairs@.len() - i,
        {
            let ks = pairs[i].0.clone();
            let vf = pairs[i].1.clone();
            m.insert(ks, vf);
            i += 1;
        }
        RespFrame::Mapping(m)
    }
}

impl HMGet {
    /// Takes an `HMGET key field [field ...]` array: at least one field.
    pub fn parse(value: RespArray) -> (r: Result<HMGet, CommandError>)
        ensures
            r is Ok <==> value@.len() >= 3 && name_matches(value@, kw_hmget()) && args_utf8(
                value@,
                1,
                value@.len() as int,
            ),
            (r matches Ok(c) ==> arg_text(value@, 1, c.hash@) && c.fields@.len() == value@.len()
                - 2 && (forall|j: int|
                0 <= j < c.fields@.len() ==> arg_text(value@, j + 2, (#[trigger] c.fields@[j])@))),
            value@.len() < 3 ==> (r matches Err(CommandError::InvalidCommand(_))),
            value@.len() >= 3 && !name_matches(value@, kw_hmget()) ==> (r matches Err(
                CommandError::InvalidArgument(_),
            )),
            value@.len() >= 3 && name_matches(value@, kw_hmget()) ==> arg_err_post(
                value@,
                1,
                value@.len() as int,
                r,
            ),
    {
        proof {
            lemma_frame_vals(value.0@);
        }
        if value.0.len() < 3 {
            return Err(
                CommandError::InvalidCommand(
                    String::from_str("hmget needs a key and at least one field"),
                ),
            );
        }
        let kw: [u8; 5] = [104, 109, 103, 101, 116];
        proof {
            assert(kw@ =~= kw_hmget());
        }
        let n_args = value.0.len() - 1;
        match validate_command(&value, kw.as_slice(), n_args) {
            Ok(_) => {},
            Err(e) => {
                return Err(e);
            },
        }
        let hash = match arg_string(&value, 1) {
            Ok(s) => s,
            Err(e) => {
                proof {
                    lemma_first_bad_at(value@, 1, value@.len() as int, 1);
                }
                return Err(e);
            },
        };
        let mut fields: Vec<String> = Vec::new();
        let mut i: usize = 2;
        while i < value.0.len()
            invariant
                2 <= i <= value@.len(),
                value@.len() == value.0@.len(),
                value@.len() >= 3,
                name_matches(value@, kw_hmget()),
                arg_ok(value@, 1),
                fields@.len() == i - 2,
                forall|j: int|
                    0 <= j < fields@.len() ==> arg_text(value@, j + 2, (#[trigger] fields@[j])@),
            decreases value.0@.len() - i,
        {
            let f = match arg_string(&value, i) {
                Ok(s) => s,
                Err(e) => {
                    proof {
                        assert forall|j: int| 1 <= j < i implies arg_ok(value@, j) by {
                            if j >= 2 {
                                assert(arg_text(value@, (j - 2) + 2, (fields@[j - 2])@));
                            }
                        }
                        lemma_first_bad_at(value@, 1, value@.len() as int, i as int);
                    }
                    return Err(e);
                },
            };
            fields.push(f);
            i += 1;
        }
        proof {
            assert forall|j: int| 1 <= j < value@.len() implies arg_ok(value@, j) by {
                if j >= 2 {
                    assert(arg_text(value@, (j - 2) + 2, (fields@[j - 2])@));
                }
            }
            lemma_first_bad_none(value@, 1, value@.len() as int);
        }
        Ok(HMGet { hash, fields })
    }

    /// Replies one value per requested field, in the requested order, with
    /// Null standing in for missing fields; the store is untouched.
    pub fn execute(self, backend: &mut Backend) -> (r: RespFrame)
        ensures
            final(backend)@ == old(backend)@,
            r@ == FrameVal::Array(
                Seq::new(
                    self.fields@.len(),
                    |i: int| hmget_val(old(backend)@, self.hash@, self.fields@[i]@),
                ),
            ),
    {
        let mut out: Vec<RespFrame> = Vec::new();
        let mut i: usize = 0;
        while i < self.fields.len()
            invariant
                i <= self.fields@.len(),
                out@.len() == i,
                forall|j: int|
                    0 <= j < i ==> frame_val(#[trigger] out@[j]) == hmget_val(
                        backend@,
                        self.hash@,
                        self.fields@[j]@,
                    ),
            decreases self.fields@.len() - i,
        {
            let f = match backend.hget(&self.hash, &self.fields[i]) {
                Option::Some(v) => v,
                Option::None => RespFrame::Null(RespNull),
            };
            out.push(f);
            i += 1;
        }
        proof {
            lemma_frame_vals(out@);
            assert(frame_vals_from(out@, 0) =~= Seq::new(
                self.fields@.len(),
                |i: int| hmget_val(backend@, self.hash@, self.fields@[i]@),
            ));
        }
        RespFrame::Array(RespArray(out))
    }
}

} // verus!
