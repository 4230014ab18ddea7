//! The command layer: a decoded array frame is parsed into one typed,
//! validated command, and a command executes against the backend store.
//! Dispatch goes by the lowercased first element; an unknown name parses to
//! [`Unrecognized`], which executes to a fixed OK reply.
use vstd::prelude::*;

pub mod hmap;
pub mod hset;
pub mod map;

verus! {

use crate::backend::{
    assoc, Backend, EntryVal, member_vals_from, store_hash_of, store_hget, store_hset, store_sadd,
    store_set, store_sismember,
};
use crate::resp::{FrameVal, RespArray, RespError, RespFrame, SimpleString};
use crate::resp::wire::frame_val;
use vstd::utf8::{encode_utf8, valid_utf8};
use vstd::string::StringExecFns;

/// Why a frame could not be taken as a command.
#[derive(Debug, PartialEq, Eq)]
pub enum CommandError {
    InvalidCommand(String),
    InvalidArgument(String),
    RespError(RespError),
    Utf8Error,
}

#[derive(Debug)]
pub struct Get {
    pub key: String,
}

#[derive(Debug)]
pub struct SetCmd {
    pub key: String,
    pub value: RespFrame,
}

#[derive(Debug)]
pub struct Echo {
    pub message: String,
}

#[derive(Debug)]
pub struct HGet {
    pub key: String,
    pub field: String,
}

#[derive(Debug)]
pub struct HSet {
    pub key: String,
    pub field: String,
    pub value: RespFrame,
}

#[derive(Debug)]
pub struct HGetAll {
    pub key: String,
    /// Kept for callers that ask for sorted output; the reply is a
    /// key-sorted map either way, so it does not change the result here.
    pub sort: bool,
}

#[derive(Debug)]
pub struct HMGet {
    pub hash: String,
    pub fields: Vec<String>,
}

#[derive(Debug)]
pub struct SAdd {
    pub key: String,
    pub members: Vec<String>,
}

#[derive(Debug)]
pub struct SIsMember {
    pub key: String,
    pub member: String,
}

#[derive(Debug)]
pub struct Unrecognized;

/// One validated command, ready to execute.
#[derive(Debug)]
pub enum Command {
    Get(Get),
    SetCmd(SetCmd),
    Echo(Echo),
    HGet(HGet),
    HSet(HSet),
    HGetAll(HGetAll),
    HMGet(HMGet),
    SAdd(SAdd),
    SIsMember(SIsMember),
    Unrecognized(Unrecognized),
}

// ---------------------------------------------------------------------------
// Name handling
// ---------------------------------------------------------------------------
/// ASCII lowercasing of one byte.
pub open spec fn to_lower_byte(b: u8) -> u8 {
    if 65 <= b <= 90 {
        (b + 32) as u8
    } else {
        b
    }
}

/// ASCII lowercasing of a byte string.
pub open spec fn lower(s: Seq<u8>) -> Seq<u8> {
    Seq::new(s.len(), |i: int| to_lower_byte(s[i]))
}

/// The lowercased name a command array dispatches on, if its first element
/// is a bulk string.
pub open spec fn cmd_name(items: Seq<FrameVal>) -> Option<Seq<u8>> {
    if items.len() > 0 {
        match items[0] {
            FrameVal::BulkString(b) => Some(lower(b)),
            _ => None,
        }
    } else {
        None
    }
}

pub open spec fn kw_get() -> Seq<u8> {
    seq![103u8, 101u8, 116u8]
}

pub open spec fn kw_set() -> Seq<u8> {
    seq![115u8, 101u8, 116u8]
}

pub open spec fn kw_echo() -> Seq<u8> {
    seq![101u8, 99u8, 104u8, 111u8]
}

pub open spec fn kw_hget() -> Seq<u8> {
    seq![104u8, 103u8, 101u8, 116u8]
}

pub open spec fn kw_hset() -> Seq<u8> {
    seq![104u8, 115u8, 101u8, 116u8]
}

pub open spec fn kw_hgetall() -> Seq<u8> {
    seq![104u8, 103u8, 101u8, 116u8, 97u8, 108u8, 108u8]
}

pub open spec fn kw_hmget() -> Seq<u8> {
    seq![104u8, 109u8, 103u8, 101u8, 116u8]
}

pub open spec fn kw_sadd() -> Seq<u8> {
    seq![115u8, 97u8, 100u8, 100u8]
}

pub open spec fn kw_sismember() -> Seq<u8> {
    seq![115u8, 105u8, 115u8, 109u8, 101u8, 109u8, 98u8, 101u8, 114u8]
}

/// The reply text of OK answers.
pub open spec fn ok_text() -> Seq<u8> {
    seq![79u8, 75u8]
}

/// ASCII lowercasing, executable.
pub fn lower_bytes(v: &[u8]) -> (r: Vec<u8>)
    ensures
        r@ == lower(v@),
{
    let mut r: Vec<u8> = Vec::new();
    let mut i: usize = 0;
    while i < v.len()
        invariant
            i <= v@.len(),
            r@.len() == i,
            forall|j: int| 0 <= j < i ==> r@[j] == to_lower_byte(v@[j]),
        decreases v@.len() - i,
    {
        let b = v[i];
        if 65 <= b && b <= 90 {
            r.push(b + 32);
        } else {
            r.push(b);
        }
        i += 1;
    }
    proof {
        assert(r@ =~= lower(v@));
    }
    r
}

/// The fixed OK reply frame.
pub fn ok_frame() -> (r: RespFrame)
    ensures
        r@ == FrameVal::SimpleString(ok_text()),
{
    let mut t: Vec<u8> = Vec::new();
    t.push(79);
    t.push(75);
    proof {
        assert(t@ =~= ok_text());
    }
    RespFrame::SimpleString(SimpleString(t))
}

// ---------------------------------------------------------------------------
// Validation helpers
// ---------------------------------------------------------------------------
/// The first element is a bulk string whose lowercased bytes are `name`.
pub open spec fn name_matches(items: Seq<FrameVal>, name: Seq<u8>) -> bool {
    items.len() > 0 && items[0] is BulkString && cmd_name(items) == Some(name)
}

/// Decimal text of a count, for error messages.
fn count_text(n: usize) -> String {
    let d = crate::resp::text::fmt_len(n);
    match crate::resp::text::bytes_to_string(d) {
        Option::Some(s) => s,
        Option::None => String::new(),
    }
}

/// Checks that the array holds `name` and then exactly `n_args` arguments.
/// The count is checked first: a wrong count answers `InvalidCommand`,
/// naming the expected and actual counts; a right count with a wrong or
/// missing name token answers `InvalidArgument`.
pub fn validate_command(value: &RespArray, name: &[u8], n_args: usize) -> (r: Result<
    (),
    CommandError,
>)
    requires
        n_args < usize::MAX,
    ensures
        r is Ok <==> value@.len() == n_args + 1 && name_matches(value@, name@),
        value@.len() != n_args + 1 ==> (r matches Err(CommandError::InvalidCommand(_))),
        value@.len() == n_args + 1 && !name_matches(value@, name@) ==> (r matches Err(
            CommandError::InvalidArgument(_),
        )),
{
    proof {
        crate::resp::wire::lemma_frame_vals(value.0@);
    }
    if value.0.len() != n_args + 1 {
        let actual: usize = if value.0.len() >= 1 {
            value.0.len() - 1
        } else {
            0
        };
        let mut msg = String::from_str("command must have exactly ");
        let expected_text = count_text(n_args);
        msg.append(expected_text.as_str());
        msg.append(" arguments, got ");
        let actual_text = count_text(actual);
        msg.append(actual_text.as_str());
        return Err(CommandError::InvalidCommand(msg));
    }
    match &value.0[0] {
        RespFrame::BulkString(b) => {
            let low = lower_bytes(b.0.as_slice());
            if crate::resp::text::bytes_eq(low.as_slice(), name) {
                proof {
                    assert(value@[0] == frame_val(value.0@[0]));
                }
                Ok(())
            } else {
                Err(CommandError::InvalidArgument(String::from_str("unexpected command name")))
            }
        },
        _ => Err(
            CommandError::InvalidArgument(
                String::from_str("command must start with a bulk string"),
            ),
        ),
    }
}

/// Position `j` holds a bulk string of valid UTF-8.
pub open spec fn arg_ok(items: Seq<FrameVal>, j: int) -> bool {
    items[j] is BulkString && valid_utf8(items[j]->BulkString_0)
}

/// Positions `from..to` all hold bulk strings of valid UTF-8.
pub open spec fn args_utf8(items: Seq<FrameVal>, from: int, to: int) -> bool {
    forall|j: int| from <= j < to ==> arg_ok(items, j)
}

/// `s` is the text whose UTF-8 bytes stand at position `j`.
pub open spec fn arg_text(items: Seq<FrameVal>, j: int, s: Seq<char>) -> bool {
    arg_ok(items, j) && encode_utf8(s) == items[j]->BulkString_0
}

/// Least position in `[from, to)` not holding a bulk string of valid
/// UTF-8, or `to` when every position does.
pub open spec fn first_bad_arg(items: Seq<FrameVal>, from: int, to: int) -> int
    decreases to - from,
{
    if from >= to {
        to
    } else if !arg_ok(items, from) {
        from
    } else {
        first_bad_arg(items, from + 1, to)
    }
}

/// What a failed argument read answers, judged at the first offending
/// position: a non-bulk-string argument is `InvalidArgument`, a bulk string
/// of invalid UTF-8 is the UTF-8 error.
pub open spec fn arg_err_post<T>(
    items: Seq<FrameVal>,
    from: int,
    to: int,
    r: Result<T, CommandError>,
) -> bool {
    first_bad_arg(items, from, to) < to ==> {
        if items[first_bad_arg(items, from, to)] is BulkString {
            r == Result::<T, CommandError>::Err(CommandError::Utf8Error)
        } else {
            r matches Err(CommandError::InvalidArgument(_))
        }
    }
}

/// The first offence stands at `i` when everything before `i` is fine and
/// `i` is not.
pub proof fn lemma_first_bad_at(items: Seq<FrameVal>, from: int, to: int, i: int)
    requires
        from <= i < to,
        forall|j: int| from <= j < i ==> arg_ok(items, j),
        !arg_ok(items, i),
    ensures
        first_bad_arg(items, from, to) == i,
    decreases i - from,
{
    if from < i {
        lemma_first_bad_at(items, from + 1, to, i);
    }
}

/// With every position fine there is no offence.
pub proof fn lemma_first_bad_none(items: Seq<FrameVal>, from: int, to: int)
    requires
        forall|j: int| from <= j < to ==> arg_ok(items, j),
    ensures
        first_bad_arg(items, from, to) == to,
    decreases to - from,
{
    if from < to {
        lemma_first_bad_none(items, from + 1, to);
    }
}

/// Takes the argument at position `i` as UTF-8 text.
pub fn arg_string(value: &RespArray, i: usize) -> (r: Result<String, CommandError>)
    requires
        i < value@.len(),
    ensures
        r is Ok <==> arg_ok(value@, i as int),
        (match r {
            Ok(s) => arg_text(value@, i as int, s@),
            Err(CommandError::InvalidArgument(_)) => !(value@[i as int] is BulkString),
            Err(CommandError::Utf8Error) => value@[i as int] is BulkString && !valid_utf8(
                value@[i as int]->BulkString_0,
            ),
            Err(_) => false,
        }),
{
    proof {
        crate::resp::wire::lemma_frame_vals(value.0@);
    }
    match &value.0[i] {
        RespFrame::BulkString(b) => {
            let bytes = crate::resp::text::copy_bytes(b.0.as_slice());
            match crate::resp::text::bytes_to_string(bytes) {
                Option::Some(s) => Ok(s),
                Option::None => Err(CommandError::Utf8Error),
            }
        },
        _ => Err(CommandError::InvalidArgument(String::from_str("expected a bulk string"))),
    }
}

impl Unrecognized {
    /// Any unknown command executes to the fixed OK reply and leaves the
    /// store untouched.
    pub fn execute(self, backend: &mut Backend) -> (r: RespFrame)
        ensures
            final(backend)@ == old(backend)@,
            r@ == FrameVal::SimpleString(ok_text()),
    {
        ok_frame()
    }
}

// ---------------------------------------------------------------------------
// Dispatch
// ---------------------------------------------------------------------------
/// The names the dispatch table knows.
pub open spec fn known_name(nm: Seq<u8>) -> bool {
    ||| nm == kw_get()
    ||| nm == kw_set()
    ||| nm == kw_echo()
    ||| nm == kw_hget()
    ||| nm == kw_hset()
    ||| nm == kw_hmget()
    ||| nm == kw_hgetall()
    ||| nm == kw_sadd()
    ||| nm == kw_sismember()
}

/// Dispatch is case-insensitive: which command an array is read as depends
/// on its first element only through that element's lowercased bytes.
pub proof fn lemma_dispatch_case_insensitive(items1: Seq<FrameVal>, items2: Seq<FrameVal>)
    requires
        items1.len() > 0,
        items2.len() > 0,
        items1[0] is BulkString,
        items2[0] is BulkString,
        lower(items1[0]->BulkString_0) == lower(items2[0]->BulkString_0),
    ensures
        cmd_name(items1) == cmd_name(items2),
{
    lemma_lower_idempotent(items1[0]->BulkString_0);
    lemma_lower_idempotent(items2[0]->BulkString_0);
}

/// Lowercasing is idempotent, so an already-lowercase name dispatches the
/// same as any mixed-case spelling of it.
pub proof fn lemma_lower_idempotent(s: Seq<u8>)
    ensures
        lower(lower(s)) == lower(s),
{
    assert(lower(lower(s)) =~= lower(s));
}

impl Command {
    /// Reads a whole frame as a command: only an array frame can be one.
    pub fn parse(frame: RespFrame) -> (r: Result<Command, CommandError>)
        ensures
            !(frame@ is Array) ==> (r matches Err(CommandError::InvalidCommand(_))),
            (frame@ matches FrameVal::Array(items) ==> parse_array_post(items, r)),
    {
        match frame {
            RespFrame::Array(array) => Command::parse_array(array),
            _ => Err(
                CommandError::InvalidCommand(String::from_str("command must be an array")),
            ),
        }
    }

    /// Reads an array frame as a command, dispatching on the lowercased
    /// first element; an unknown name is accepted as [`Unrecognized`].
    pub fn parse_array(v: RespArray) -> (r: Result<Command, CommandError>)
        ensures
            parse_array_post(v@, r),
    {
        proof {
            crate::resp::wire::lemma_frame_vals(v.0@);
        }
        if v.0.len() == 0 {
            return Err(CommandError::InvalidCommand(String::from_str("empty command array")));
        }
        let low_opt = match &v.0[0] {
            RespFrame::BulkString(b) => Some(lower_bytes(b.0.as_slice())),
            _ => None,
        };
        let low = match low_opt {
            Option::Some(l) => l,
            Option::None => {
                return Err(
                    CommandError::InvalidCommand(
                        String::from_str("command must start with a bulk string"),
                    ),
                );
            },
        };
        let kwget: [u8; 3] = [103, 101, 116];
        let kwset: [u8; 3] = [115, 101, 116];
        let kwecho: [u8; 4] = [101, 99, 104, 111];
        let kwhget: [u8; 4] = [104, 103, 101, 116];
        let kwhset: [u8; 4] = [104, 115, 101, 116];
        let kwhmget: [u8; 5] = [104, 109, 103, 101, 116];
        let kwhgetall: [u8; 7] = [104, 103, 101, 116, 97, 108, 108];
        let kwsadd: [u8; 4] = [115, 97, 100, 100];
        let kwsismember: [u8; 9] = [115, 105, 115, 109, 101, 109, 98, 101, 114];
        proof {
            assert(kwget@ =~= kw_get());
            assert(kwset@ =~= kw_set());
            assert(kwecho@ =~= kw_echo());
            assert(kwhget@ =~= kw_hget());
            assert(kwhset@ =~= kw_hset());
            assert(kwhmget@ =~= kw_hmget());
            assert(kwhgetall@ =~= kw_hgetall());
            assert(kwsadd@ =~= kw_sadd());
            assert(kwsismember@ =~= kw_sismember());
        }
        if crate::resp::text::bytes_eq(low.as_slice(), kwget.as_slice()) {
            match Get::parse(v) {
                Ok(c) => Ok(Command::Get(c)),
                Err(e) => Err(e),
            }
        } else if crate::resp::text::bytes_eq(low.as_slice(), kwset.as_slice()) {
            match SetCmd::parse(v) {
                Ok(c) => Ok(Command::SetCmd(c)),
                Err(e) => Err(e),
            }
        } else if crate::resp::text::bytes_eq(low.as_slice(), kwecho.as_slice()) {
            match Echo::parse(v) {
                Ok(c) => Ok(Command::Echo(c)),
                Err(e) => Err(e),
            }
        } else if crate::resp::text::bytes_eq(low.as_slice(), kwhget.as_slice()) {
            match HGet::parse(v) {
                Ok(c) => Ok(Command::HGet(c)),
                Err(e) => Err(e),
            }
        } else if crate::resp::text::bytes_eq(low.as_slice(), kwhset.as_slice()) {
            match HSet::parse(v) {
                Ok(c) => Ok(Command::HSet(c)),
                Err(e) => Err(e),
            }
        } else if crate::resp::text::bytes_eq(low.as_slice(), kwhmget.as_slice()) {
            match HMGet::parse(v) {
                Ok(c) => Ok(Command::HMGet(c)),
                Err(e) => Err(e),
            }
        } else if crate::resp::text::bytes_eq(low.as_slice(), kwhgetall.as_slice()) {
            match HGetAll::parse(v) {
                Ok(c) => Ok(Command::HGetAll(c)),
                Err(e) => Err(e),
            }
        } else if crate::resp::text::bytes_eq(low.as_slice(), kwsadd.as_slice()) {
            match SAdd::parse(v) {
                Ok(c) => Ok(Command::SAdd(c)),
                Err(e) => Err(e),
            }
        } else if crate::resp::text::bytes_eq(low.as_slice(), kwsismember.as_slice()) {
            match SIsMember::parse(v) {
                Ok(c) => Ok(Command::SIsMember(c)),
                Err(e) => Err(e),
            }
        } else {
            Ok(Command::Unrecognized(Unrecognized))
        }
    }

    /// Runs the command against the store: the new store contents and the
    /// reply are exactly what [`cmd_step`] names.
    pub fn execute(self, backend: &mut Backend) -> (r: RespFrame)
        ensures
            final(backend)@ == cmd_step(self, old(backend)@).0,
            r@ == cmd_step(self, old(backend)@).1,
    {
        match self {
            Command::Get(c) => c.execute(backend),
            Command::SetCmd(c) => c.execute(backend),
            Command::Echo(c) => c.execute(backend),
            Command::HGet(c) => c.execute(backend),
            Command::HSet(c) => c.execute(backend),
            Command::HGetAll(c) => c.execute(backend),
            Command::HMGet(c) => c.execute(backend),
            Command::SAdd(c) => c.execute(backend),
            Command::SIsMember(c) => c.execute(backend),
            Command::Unrecognized(c) => c.execute(backend),
        }
    }
}

/// What parsing a command array must yield, name by name.
pub open spec fn parse_array_post(items: Seq<FrameVal>, r: Result<Command, CommandError>) -> bool {
    &&& items.len() == 0 ==> (r matches Err(CommandError::InvalidCommand(_)))
    &&& items.len() > 0 && !(items[0] is BulkString) ==> (r matches Err(
        CommandError::InvalidCommand(_),
    ))
    &&& (match cmd_name(items) {
        Some(nm) => {
            &&& !known_name(nm) ==> r == Result::<Command, CommandError>::Ok(
                Command::Unrecognized(Unrecognized),
            )
            &&& nm == kw_get() ==> {
                &&& (r is Ok <==> items.len() == 2 && arg_ok(items, 1))
                &&& (match r {
                    Ok(Command::Get(c)) => arg_text(items, 1, c.key@),
                    Ok(_) => false,
                    Err(_) => true,
                })
                &&& items.len() != 2 ==> (r matches Err(CommandError::InvalidCommand(_)))
                &&& items.len() == 2 ==> arg_err_post(items, 1, 2, r)
            }
            &&& nm == kw_set() ==> {
                &&& (r is Ok <==> items.len() == 3 && arg_ok(items, 1))
                &&& (match r {
                    Ok(Command::SetCmd(c)) => arg_text(items, 1, c.key@) && c.value@ == items[2],
                    Ok(_) => false,
                    Err(_) => true,
                })
                &&& items.len() != 3 ==> (r matches Err(CommandError::InvalidCommand(_)))
                &&& items.len() == 3 ==> arg_err_post(items, 1, 2, r)
            }
            &&& nm == kw_echo() ==> {
                &&& (r is Ok <==> items.len() == 2 && arg_ok(items, 1))
                &&& (match r {
                    Ok(Command::Echo(c)) => arg_text(items, 1, c.message@),
                    Ok(_) => false,
                    Err(_) => true,
                })
                &&& items.len() != 2 ==> (r matches Err(CommandError::InvalidCommand(_)))
                &&& items.len() == 2 ==> arg_err_post(items, 1, 2, r)
            }
            &&& nm == kw_hget() ==> {
                &&& (r is Ok <==> items.len() == 3 && args_utf8(items, 1, 3))
                &&& (match r {
                    Ok(Command::HGet(c)) => arg_text(items, 1, c.key@) && arg_text(
                        items,
                        2,
                        c.field@,
                    ),
                    Ok(_) => false,
                    Err(_) => true,
                })
                &&& items.len() != 3 ==> (r matches Err(CommandError::InvalidCommand(_)))
                &&& items.len() == 3 ==> arg_err_post(items, 1, 3, r)
            }
            &&& nm == kw_hset() ==> {
                &&& (r is Ok <==> items.len() == 4 && args_utf8(items, 1, 3))
                &&& (match r {
                    Ok(Command::HSet(c)) => arg_text(items, 1, c.key@) && arg_text(
                        items,
                        2,
                        c.field@,
                    ) && c.value@ == items[3],
                    Ok(_) => false,
                    Err(_) => true,
                })
                &&& items.len() != 4 ==> (r matches Err(CommandError::InvalidCommand(_)))
                &&& items.len() == 4 ==> arg_err_post(items, 1, 3, r)
            }
            &&& nm == kw_hgetall() ==> {
                &&& (r is Ok <==> items.len() == 2 && arg_ok(items, 1))
                &&& (match r {
                    Ok(Command::HGetAll(c)) => arg_text(items, 1, c.key@) && c.sort,
                    Ok(_) => false,
                    Err(_) => true,
                })
                &&& items.len() != 2 ==> (r matches Err(CommandError::InvalidCommand(_)))
                &&& items.len() == 2 ==> arg_err_post(items, 1, 2, r)
            }
            &&& nm == kw_hmget() ==> {
                &&& (r is Ok <==> items.len() >= 3 && args_utf8(items, 1, items.len() as int))
                &&& (match r {
                    Ok(Command::HMGet(c)) => arg_text(items, 1, c.hash@) && c.fields@.len()
                        == items.len() - 2 && (forall|j: int|
                        0 <= j < c.fields@.len() ==> arg_text(
                            items,
                            j + 2,
                            (#[trigger] c.fields@[j])@,
                        )),
                    Ok(_) => false,
                    Err(_) => true,
                })
                &&& items.len() < 3 ==> (r matches Err(CommandError::InvalidCommand(_)))
                &&& items.len() >= 3 ==> arg_err_post(items, 1, items.len() as int, r)
            }
            &&& nm == kw_sadd() ==> {
                &&& (r is Ok <==> items.len() >= 3 && args_utf8(items, 1, items.len() as int))
                &&& (match r {
                    Ok(Command::SAdd(c)) => arg_text(items, 1, c.key@) && c.members@.len()
                        == items.len() - 2 && (forall|j: int|
                        0 <= j < c.members@.len() ==> arg_text(
                            items,
                            j + 2,
                            (#[trigger] c.members@[j])@,
                        )),
                    Ok(_) => false,
                    Err(_) => true,
                })
                &&& items.len() < 3 ==> (r matches Err(CommandError::InvalidCommand(_)))
                &&& items.len() >= 3 ==> arg_err_post(items, 1, items.len() as int, r)
            }
            &&& nm == kw_sismember() ==> {
                &&& (r is Ok <==> items.len() == 3 && args_utf8(items, 1, 3))
                &&& (match r {
                    Ok(Command::SIsMember(c)) => arg_text(items, 1, c.key@) && arg_text(
                        items,
                        2,
                        c.member@,
                    ),
                    Ok(_) => false,
                    Err(_) => true,
                })
                &&& items.len() != 3 ==> (r matches Err(CommandError::InvalidCommand(_)))
                &&& items.len() == 3 ==> arg_err_post(items, 1, 3, r)
            }
        },
        None => r matches Err(CommandError::InvalidCommand(_)),
    })
}

/// One command's whole effect: the store after it and the reply frame.
pub open spec fn cmd_step(c: Command, s: Seq<(Seq<char>, EntryVal)>) -> (
    Seq<(Seq<char>, EntryVal)>,
    FrameVal,
) {
    match c {
        Command::Get(g) => (
            s,
            match assoc(s, g.key@) {
                Some(EntryVal::Value(v)) => v,
                _ => FrameVal::Null,
            },
        ),
        Command::SetCmd(sc) => (store_set(s, sc.key@, sc.value@), FrameVal::SimpleString(ok_text())),
        Command::Echo(e) => (s, FrameVal::BulkString(encode_utf8(e.message@))),
        Command::HGet(h) => (s, crate::cmd::hmap::hmget_val(s, h.key@, h.field@)),
        Command::HSet(h) => (
            store_hset(s, h.key@, h.field@, h.value@),
            FrameVal::SimpleString(ok_text()),
        ),
        Command::HGetAll(h) => (
            s,
            FrameVal::Mapping(crate::cmd::hmap::map_from_hash(store_hash_of(s, h.key@))),
        ),
        Command::HMGet(h) => (
            s,
            FrameVal::Array(
                Seq::new(
                    h.fields@.len(),
                    |i: int| crate::cmd::hmap::hmget_val(s, h.hash@, h.fields@[i]@),
                ),
            ),
        ),
        Command::SAdd(a) => {
            let f = crate::cmd::hset::sadd_fold(s, a.key@, member_vals_from(a.members@, 0), 0);
            (f.0, FrameVal::Array(f.1))
        },
        Command::SIsMember(m) => (
            s,
            FrameVal::Integer(
                if store_sismember(s, m.key@, m.member@) {
                    1int
                } else {
                    0int
                },
            ),
        ),
        Command::Unrecognized(_) => (s, FrameVal::SimpleString(ok_text())),
    }
}

} // verus!
