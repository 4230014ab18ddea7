//! The plain key-value commands: GET, SET and ECHO.
use vstd::prelude::*;

verus! {

use crate::backend::{assoc, Backend, EntryVal, store_set};
use crate::cmd::{
    arg_err_post, arg_ok, arg_string, arg_text, kw_echo, kw_get, kw_set, lemma_first_bad_at,
    lemma_first_bad_none, name_matches, ok_frame, ok_text, validate_command, CommandError, Echo,
    Get, SetCmd,
};
use crate::resp::{BulkString, FrameVal, RespArray, RespFrame, RespNull};
use crate::resp::wire::frame_val;
use vstd::string::StrSliceExecFns;
use vstd::utf8::encode_utf8;

impl Get {
    /// Takes a `GET key` array.
    pub fn parse(value: RespArray) -> (r: Result<Get, CommandError>)
        ensures
            r is Ok <==> value@.len() == 2 && name_matches(value@, kw_get()) && arg_ok(value@, 1),
            (r matches Ok(c) ==> arg_text(value@, 1, c.key@)),
            value@.len() != 2 ==> (r matches Err(CommandError::InvalidCommand(_))),
            value@.len() == 2 && !name_matches(value@, kw_get()) ==> (r matches Err(
                CommandError::InvalidArgument(_),
            )),
            value@.len() == 2 && name_matches(value@, kw_get()) ==> arg_err_post(value@, 1, 2, r),
    {
        let kw: [u8; 3] = [103, 101, 116];
        proof {
            assert(kw@ =~= kw_get());
        }
        match validate_command(&value, kw.as_slice(), 1) {
            Ok(_) => {},
            Err(e) => {
                return Err(e);
            },
        }
        let key = match arg_string(&value, 1) {
            Ok(s) => s,
            Err(e) => {
                proof {
                    lemma_first_bad_at(value@, 1, 2, 1);
                }
                return Err(e);
            },
        };
        proof {
            lemma_first_bad_none(value@, 1, 2);
        }
        Ok(Get { key })
    }

    /// Replies the scalar under the key, or Null when the key is absent or
    /// wrong-typed; the store is untouched.
    pub fn execute(self, backend: &mut Backend) -> (r: RespFrame)
        ensures
            final(backend)@ == old(backend)@,
            r@ == (match assoc(old(backend)@, self.key@) {
                Some(EntryVal::Value(v)) => v,
                _ => FrameVal::Null,
            }),
    {
        match backend.get(&self.key) {
            Option::Some(f) => f,
            Option::None => RespFrame::Null(RespNull),
        }
    }
}

impl SetCmd {
    /// Takes a `SET key value` array; the value may be any frame.
    pub fn parse(value: RespArray) -> (r: Result<SetCmd, CommandError>)
        ensures
            r is Ok <==> value@.len() == 3 && name_matches(value@, kw_set()) && arg_ok(value@, 1),
            (r matches Ok(c) ==> arg_text(value@, 1, c.key@) && c.value@ == value@[2]),
            value@.len() != 3 ==> (r matches Err(CommandError::InvalidCommand(_))),
            value@.len() == 3 && !name_matches(value@, kw_set()) ==> (r matches Err(
                CommandError::InvalidArgument(_),
            )),
            value@.len() == 3 && name_matches(value@, kw_set()) ==> arg_err_post(value@, 1, 2, r),
    {
        let kw: [u8; 3] = [115, 101, 116];
        proof {
            assert(kw@ =~= kw_set());
        }
        match validate_command(&value, kw.as_slice(), 2) {
            Ok(_) => {},
            Err(e) => {
                return Err(e);
            },
        }
        let key = match arg_string(&value, 1) {
            Ok(s) => s,
            Err(e) => {
                proof {
                    lemma_first_bad_at(value@, 1, 2, 1);
                }
                return Err(e);
            },
        };
        proof {
            lemma_first_bad_none(value@, 1, 2);
            crate::resp::wire::lemma_frame_vals(value.0@);
        }
        let mut items = value.0;
        let v = items.remove(2);
        proof {
            assert(frame_val(v) == value@[2]);
        }
        Ok(SetCmd { key, value: v })
    }

    /// Stores the value under the key and replies OK.
    pub fn execute(self, backend: &mut Backend) -> (r: RespFrame)
        ensures
            final(backend)@ == store_set(old(backend)@, self.key@, self.value@),
            r@ == FrameVal::SimpleString(ok_text()),
    {
        backend.set(self.key, self.value);
        ok_frame()
    }
}

impl Echo {
    /// Takes an `ECHO message` array.
    pub fn parse(value: RespArray) -> (r: Result<Echo, CommandError>)
        ensures
            r is Ok <==> value@.len() == 2 && name_matches(value@, kw_echo()) && arg_ok(value@, 1),
            (r matches Ok(c) ==> arg_text(value@, 1, c.message@)),
            value@.len() != 2 ==> (r matches Err(CommandError::InvalidCommand(_))),
            value@.len() == 2 && !name_matches(value@, kw_echo()) ==> (r matches Err(
                CommandError::InvalidArgument(_),
            )),
            value@.len() == 2 && name_matches(value@, kw_echo()) ==> arg_err_post(value@, 1, 2, r),
    {
        let kw: [u8; 4] = [101, 99, 104, 111];
        proof {
            assert(kw@ =~= kw_echo());
        }
        match validate_command(&value, kw.as_slice(), 1) {
            Ok(_) => {},
            Err(e) => {
                return Err(e);
            },
        }
        let message = match arg_string(&value, 1) {
            Ok(s) => s,
            Err(e) => {
                proof {
                    lemma_first_bad_at(value@, 1, 2, 1);
                }
                return Err(e);
            },
        };
        proof {
            lemma_first_bad_none(value@, 1, 2);
        }
        Ok(Echo { message })
    }

    /// Replies the message back as a bulk string; the store is untouched.
    pub fn execute(self, backend: &mut Backend) -> (r: RespFrame)
        ensures
            final(backend)@ == old(backend)@,
            r@ == FrameVal::BulkString(encode_utf8(self.message@)),
    {
        RespFrame::BulkString(BulkString(self.message.as_str().as_bytes_vec()))
    }
}

} // verus!
