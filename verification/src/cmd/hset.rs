//! The set commands: SADD and SISMEMBER.
use vstd::prelude::*;

verus! {

use crate::backend::{Backend, EntryVal, member_vals_from, lemma_member_vals, store_sadd, store_sismember};
use crate::cmd::{
    arg_err_post, arg_ok, arg_string, arg_text, args_utf8, kw_sadd, kw_sismember,
    lemma_first_bad_at, lemma_first_bad_none, name_matches, validate_command, CommandError, SAdd,
    SIsMember,
};
use crate::resp::{FrameVal, RespArray, RespFrame};
use crate::resp::wire::{frame_val, frame_vals_from, lemma_frame_vals};
use vstd::string::StringExecFns;

/// Store and replies after inserting the members from index `i` on, one at
/// a time and each insertion judged independently: the reply for a member
/// is 1 exactly when it was not present just before its own insertion.
pub open spec fn sadd_fold(
    s: Seq<(Seq<char>, EntryVal)>,
    k: Seq<char>,
    ms: Seq<Seq<char>>,
    i: int,
) -> (Seq<(Seq<char>, EntryVal)>, Seq<FrameVal>)
    decreases ms.len() - i,
{
    if 0 <= i < ms.len() {
        let sr = store_sadd(s, k, ms[i]);
        let rest = sadd_fold(sr.0, k, ms, i + 1);
        (
            rest.0,
            seq![
                FrameVal::Integer(
                    if sr.1 {
                        1int
                    } else {
                        0int
                    },
                )
            ] + rest.1,
        )
    } else {
        (s, Seq::empty())
    }
}

impl SAdd {
    /// Takes an `SADD key member [member ...]` array: at least one member.
    pub fn parse(value: RespArray) -> (r: Result<SAdd, CommandError>)
        ensures
            r is Ok <==> value@.len() >= 3 && name_matches(value@, kw_sadd()) && args_utf8(
                value@,
                1,
                value@.len() as int,
            ),
            (r matches Ok(c) ==> arg_text(value@, 1, c.key@) && c.members@.len() == value@.len()
                - 2 && (forall|j: int|
                0 <= j < c.members@.len() ==> arg_text(value@, j + 2, (#[trigger] c.members@[j])@))),
            value@.len() < 3 ==> (r matches Err(CommandError::InvalidCommand(_))),
            value@.len() >= 3 && !name_matches(value@, kw_sadd()) ==> (r matches Err(
                CommandError::InvalidArgument(_),
            )),
            value@.len() >= 3 && name_matches(value@, kw_sadd()) ==> arg_err_post(
                value@,
                1,
                value@.len() as int,
                r,
            ),
    {
        proof {
            lemma_frame_vals(value.0@);
        }
        if value.0.len() < 3 {
            return Err(
                CommandError::InvalidCommand(
                    String::from_str("sadd needs a key and at least one member"),
                ),
            );
        }
        let kw: [u8; 4] = [115, 97, 100, 100];
        proof {
            assert(kw@ =~= kw_sadd());
        }
        let n_args = value.0.len() - 1;
        match validate_command(&value, kw.as_slice(), n_args) {
            Ok(_) => {},
            Err(e) => {
                return Err(e);
            },
        }
        let key = match arg_string(&value, 1) {
            Ok(s) => s,
            Err(e) => {
                proof {
                    lemma_first_bad_at(value@, 1, value@.len() as int, 1);
                }
                return Err(e);
            },
        };
        let mut members: Vec<String> = Vec::new();
        let mut i: usize = 2;
        while i < value.0.len()
            invariant
                2 <= i <= value@.len(),
                value@.len() == value.0@.len(),
                value@.len() >= 3,
                name_matches(value@, kw_sadd()),
                arg_ok(value@, 1),
                members@.len() == i - 2,
                forall|j: int|
                    0 <= j < members@.len() ==> arg_text(value@, j + 2, (#[trigger] members@[j])@),
            decreases value.0@.len() - i,
        {
            let m = match arg_string(&value, i) {
                Ok(s) => s,
                Err(e) => {
                    proof {
                        assert forall|j: int| 1 <= j < i implies arg_ok(value@, j) by {
                            if j >= 2 {
                                assert(arg_text(value@, (j - 2) + 2, (members@[j - 2])@));
                            }
                        }
                        lemma_first_bad_at(value@, 1, value@.len() as int, i as int);
                    }
                    return Err(e);
                },
            };
            members.push(m);
            i += 1;
        }
        proof {
            assert forall|j: int| 1 <= j < value@.len() implies arg_ok(value@, j) by {
                if j >= 2 {
                    assert(arg_text(value@, (j - 2) + 2, (members@[j - 2])@));
                }
            }
            lemma_first_bad_none(value@, 1, value@.len() as int);
        }
        Ok(SAdd { key, members })
    }

    /// Inserts each member in order into the key's set (creating it if
    /// absent) and replies one integer per member: 1 for a new member, 0
    /// for one already present, later duplicates in the same call included.
    pub fn execute(self, backend: &mut Backend) -> (r: RespFrame)
        ensures
            final(backend)@ == sadd_fold(
                old(backend)@,
                self.key@,
                member_vals_from(self.members@, 0),
                0,
            ).0,
            r@ == FrameVal::Array(
                sadd_fold(old(backend)@, self.key@, member_vals_from(self.members@, 0), 0).1,
            ),
    {
        let ghost s0 = backend@;
        let ghost mv = member_vals_from(self.members@, 0);
        proof {
            lemma_member_vals(self.members@);
        }
        let mut out: Vec<RespFrame> = Vec::new();
        let mut i: usize = 0;
        while i < self.members.len()
            invariant
                i <= self.members@.len(),
                mv == member_vals_from(self.members@, 0),
                mv.len() == self.members@.len(),
                forall|j: int| 0 <= j < self.members@.len() ==> mv[j] == (#[trigger] self.members@[j])@,
                out@.len() == i,
                sadd_fold(s0, self.key@, mv, 0).0 == sadd_fold(backend@, self.key@, mv, i as int).0,
                sadd_fold(s0, self.key@, mv, 0).1 == frame_vals_from(out@, 0) + sadd_fold(
                    backend@,
                    self.key@,
                    mv,
                    i as int,
                ).1,
            decreases self.members@.len() - i,
        {
            let ghost b_pre = backend@;
            let ghost out_pre = out@;
            let m = self.members[i].clone();
            let added = backend.sadd(self.key.clone(), m);
            let reply = if added {
                RespFrame::Integer(1)
            } else {
                RespFrame::Integer(0)
            };
            out.push(reply);
            i += 1;
            proof {
                lemma_frame_vals(out@);
                lemma_frame_vals(out_pre);
                assert(frame_vals_from(out@, 0) =~= frame_vals_from(out_pre, 0) + seq![
                    FrameVal::Integer(
                        if added {
                            1int
                        } else {
                            0int
                        },
                    )
                ]);
            }
        }
        proof {
            assert(sadd_fold(backend@, self.key@, mv, i as int).1 =~= Seq::<FrameVal>::empty());
            assert(frame_vals_from(out@, 0) + Seq::<FrameVal>::empty() =~= frame_vals_from(
                out@,
                0,
            ));
        }
        RespFrame::Array(RespArray(out))
    }
}

/// Adding one member under a key where it is not yet present signals 1,
/// and adding the same member under the same key again, in a later
/// execution, signals 0: the first insertion is seen by the second.
pub proof fn lemma_sadd_signals_once(s: Seq<(Seq<char>, EntryVal)>, k: Seq<char>, m: Seq<char>)
    requires
        !store_sismember(s, k, m),
    ensures
        store_sadd(s, k, m).1,
        store_sismember(store_sadd(s, k, m).0, k, m),
        !store_sadd(store_sadd(s, k, m).0, k, m).1,
        store_sadd(store_sadd(s, k, m).0, k, m).0 == store_sadd(s, k, m).0,
{
    let s1 = store_sadd(s, k, m).0;
    match crate::backend::assoc(s, k) {
        Some(EntryVal::Members(ms)) => {
            crate::backend::lemma_assoc_after_put(s, k, EntryVal::Members(ms.push(m)), k);
            assert(ms.push(m)[ms.len() as int] == m);
            assert(ms.push(m).contains(m));
        },
        _ => {
            crate::backend::lemma_assoc_after_put(s, k, EntryVal::Members(seq![m]), k);
            assert(seq![m][0] == m);
            assert(seq![m].contains(m));
        },
    }
}

/// Membership under a key that was never created reads as absent: the
/// reply is 0 for every member.
pub proof fn lemma_sismember_absent_key(s: Seq<(Seq<char>, EntryVal)>, k: Seq<char>, m: Seq<char>)
    requires
        crate::backend::assoc(s, k) is None,
    ensures
        !store_sismember(s, k, m),
{
}

impl SIsMember {
    /// Takes an `SISMEMBER key member` array.
    pub fn parse(value: RespArray) -> (r: Result<SIsMember, CommandError>)
        ensures
            r is Ok <==> value@.len() == 3 && name_matches(value@, kw_sismember()) && args_utf8(
                value@,
                1,
                3,
            ),
            (r matches Ok(c) ==> arg_text(value@, 1, c.key@) && arg_text(value@, 2, c.member@)),
            value@.len() != 3 ==> (r matches Err(CommandError::InvalidCommand(_))),
            value@.len() == 3 && !name_matches(value@, kw_sismember()) ==> (r matches Err(
                CommandError::InvalidArgument(_),
            )),
            value@.len() == 3 && name_matches(value@, kw_sismember()) ==> arg_err_post(
                value@,
                1,
                3,
                r,
            ),
    {
        let kw: [u8; 9] = [115, 105, 115, 109, 101, 109, 98, 101, 114];
        proof {
            assert(kw@ =~= kw_sismember());
        }
        match validate_command(&value, kw.as_slice(), 2) {
            Ok(_) => {},
            Err(e) => {
                return Err(e);
            },
        }
        let key = match arg_string(&value, 1) {
            Ok(s) => s,
            Err(e) => {
                proof {
                    lemma_first_bad_at(value@, 1, 3, 1);
                }
                return Err(e);
            },
        };
        let member = match arg_string(&value, 2) {
            Ok(s) => s,
            Err(e) => {
                proof {
                    lemma_first_bad_at(value@, 1, 3, 2);
                }
                return Err(e);
            },
        };
        proof {
            lemma_first_bad_none(value@, 1, 3);
        }
        Ok(SIsMember { key, member })
    }

    /// Replies 1 when the member is in the key's set, else 0; a key never
    /// created reads as the empty set; the store is untouched.
    pub fn execute(self, backend: &mut Backend) -> (r: RespFrame)
        ensures
            final(backend)@ == old(backend)@,
            r@ == FrameVal::Integer(
                if store_sismember(old(backend)@, self.key@, self.member@) {
                    1int
                } else {
                    0int
                },
            ),
    {
        if backend.sismember(&self.key, &self.member) {
            RespFrame::Integer(1)
        } else {
            RespFrame::Integer(0)
        }
    }
}

} // verus!
