//! Commands, responses, and their wire form.
//!
//! A request is one encoded [`Command`]; a reply is one encoded
//! [`CommandResponse`].  Both are framed with the string fields of
//! [`crate::codec`] behind a one-byte tag, so the records are
//! self-delimiting: a reader at a record start takes exactly one record and
//! ends at the next record start.  The engine appends the same record form
//! to its segments, which is what makes byte offsets usable as log pointers.

use crate::codec::{
    decode_str, encode_str_into, lemma_decode_encoded_str, lemma_decode_str_canonical,
    lemma_encode_str_len, spec_decode_str, spec_encode_str,
};
use crate::engines::KvsEngine;
use crate::errors::{spec_error_message, KvsError};
use vstd::prelude::*;
use vstd::string::StringExecFns;
use vstd::utf8::encode_utf8;

verus! {

/// Save the given string value to the given string key.
#[derive(Clone, Debug)]
pub struct SetCmd {
    pub key: String,
    pub value: String,
}

/// Get the string value of a given string key.
#[derive(Clone, Debug)]
pub struct Get {
    pub key: String,
}

/// Remove the given string key.
#[derive(Clone, Debug)]
pub struct Remove {
    pub key: String,
}

/// One request to the store: the tagged union carried by the wire protocol
/// and, for `Set` and `Rm`, appended to the write log.
#[derive(Clone, Debug)]
pub enum Command {
    /// Save the given string value to the given string key
    SetCmd(SetCmd),
    /// Get the string value of a given string key
    Get(Get),
    /// Remove the given string key
    Rm(Remove),
}

/// The mathematical shape of a [`Command`]: its fields as character
/// sequences.
pub enum CommandView {
    SetCmd { key: Seq<char>, value: Seq<char> },
    Get { key: Seq<char> },
    Rm { key: Seq<char> },
}

impl View for Command {
    type V = CommandView;

    open spec fn view(&self) -> CommandView {
        match self {
            Command::SetCmd(c) => CommandView::SetCmd { key: c.key@, value: c.value@ },
            Command::Get(c) => CommandView::Get { key: c.key@ },
            Command::Rm(c) => CommandView::Rm { key: c.key@ },
        }
    }
}

impl CommandView {
    /// The key every command names.
    pub open spec fn key(self) -> Seq<char> {
        match self {
            CommandView::SetCmd { key, .. } => key,
            CommandView::Get { key } => key,
            CommandView::Rm { key } => key,
        }
    }
}

pub const TAG_SET: u8 = 0;

pub const TAG_GET: u8 = 1;

pub const TAG_RM: u8 = 2;

/// The wire and log bytes of one command.
pub open spec fn spec_encode_command(c: CommandView) -> Seq<u8> {
    match c {
        CommandView::SetCmd { key, value } => seq![TAG_SET] + spec_encode_str(key) + spec_encode_str(
            value,
        ),
        CommandView::Get { key } => seq![TAG_GET] + spec_encode_str(key),
        CommandView::Rm { key } => seq![TAG_RM] + spec_encode_str(key),
    }
}

/// Whether a command's fields are small enough for the 8-byte length
/// prefix; every command held in memory is.
pub open spec fn spec_command_encodable(c: CommandView) -> bool {
    match c {
        CommandView::SetCmd { key, value } => encode_utf8(key).len() <= u64::MAX && encode_utf8(
            value,
        ).len() <= u64::MAX,
        CommandView::Get { key } => encode_utf8(key).len() <= u64::MAX,
        CommandView::Rm { key } => encode_utf8(key).len() <= u64::MAX,
    }
}

/// Reading one command record of `bytes` that starts at `pos`: the command
/// and the position just past its record, or nothing when the bytes from
/// `pos` on do not begin with a whole, well-formed record.
pub open spec fn spec_decode_command(bytes: Seq<u8>, pos: int) -> Option<(CommandView, int)> {
    if 0 <= pos < bytes.len() {
        let tag = bytes[pos];
        if tag == TAG_SET {
            match spec_decode_str(bytes, pos + 1) {
                Some((key, p1)) => match spec_decode_str(bytes, p1) {
                    Some((value, end)) => Some((CommandView::SetCmd { key, value }, end)),
                    None => None,
                },
                None => None,
            }
        } else if tag == TAG_GET {
            match spec_decode_str(bytes, pos + 1) {
                Some((key, end)) => Some((CommandView::Get { key }, end)),
                None => None,
            }
        } else if tag == TAG_RM {
            match spec_decode_str(bytes, pos + 1) {
                Some((key, end)) => Some((CommandView::Rm { key }, end)),
                None => None,
            }
        } else {
            None
        }
    } else {
        None
    }
}

/// A command record decodes to exactly the command that was encoded,
/// whatever bytes surround it.
pub proof fn lemma_decode_encoded_command(bytes: Seq<u8>, pos: int, c: CommandView)
    requires
        0 <= pos,
        spec_command_encodable(c),
        pos + spec_encode_command(c).len() <= bytes.len(),
        bytes.subrange(pos, pos + spec_encode_command(c).len()) == spec_encode_command(c),
    ensures
        spec_decode_command(bytes, pos) == Some((c, pos + spec_encode_command(c).len())),
{
    let enc = spec_encode_command(c);
    assert(bytes[pos] == enc[0]);
    match c {
        CommandView::SetCmd { key, value } => {
            lemma_encode_str_len(key);
            lemma_encode_str_len(value);
            let k = spec_encode_str(key);
            let v = spec_encode_str(value);
            assert(bytes.subrange(pos + 1, pos + 1 + k.len() as int) =~= enc.subrange(
                1,
                1 + k.len() as int,
            ));
            assert(enc.subrange(1, 1 + k.len() as int) =~= k);
            lemma_decode_encoded_str(bytes, pos + 1, key);
            let p1 = pos + 1 + k.len() as int;
            let a = 1 + k.len() as int;
            let b = a + v.len() as int;
            assert(bytes.subrange(p1, p1 + v.len() as int) =~= enc.subrange(a, b));
            assert(enc.subrange(a, b) =~= v);
            lemma_decode_encoded_str(bytes, p1, value);
        },
        CommandView::Get { key } => {
            lemma_encode_str_len(key);
            let k = spec_encode_str(key);
            assert(bytes.subrange(pos + 1, pos + 1 + k.len() as int) =~= enc.subrange(
                1,
                1 + k.len() as int,
            ));
            assert(enc.subrange(1, 1 + k.len() as int) =~= k);
            lemma_decode_encoded_str(bytes, pos + 1, key);
        },
        CommandView::Rm { key } => {
            lemma_encode_str_len(key);
            let k = spec_encode_str(key);
            assert(bytes.subrange(pos + 1, pos + 1 + k.len() as int) =~= enc.subrange(
                1,
                1 + k.len() as int,
            ));
            assert(enc.subrange(1, 1 + k.len() as int) =~= k);
            lemma_decode_encoded_str(bytes, pos + 1, key);
        },
    }
}

/// How long a record is: a tag byte plus one or two length-prefixed
/// fields; and a record that fits an address space fits its length
/// prefixes.
pub proof fn lemma_encode_command_len(c: CommandView)
    ensures
        spec_encode_command(c).len() >= 9,
        spec_encode_command(c).len() <= u64::MAX ==> spec_command_encodable(c),
        match c {
            CommandView::SetCmd { key, value } => spec_encode_command(c).len() == 17 + encode_utf8(
                key,
            ).len() + encode_utf8(value).len(),
            CommandView::Get { key } => spec_encode_command(c).len() == 9 + encode_utf8(key).len(),
            CommandView::Rm { key } => spec_encode_command(c).len() == 9 + encode_utf8(key).len(),
        },
{
    match c {
        CommandView::SetCmd { key, value } => {
            lemma_encode_str_len(key);
            lemma_encode_str_len(value);
        },
        CommandView::Get { key } => {
            lemma_encode_str_len(key);
        },
        CommandView::Rm { key } => {
            lemma_encode_str_len(key);
        },
    }
}

/// The bytes one decoded command occupied are its own encoding, and a
/// record is never shorter than a tag and one length prefix.
pub proof fn lemma_decode_command_canonical(bytes: Seq<u8>, pos: int)
    requires
        spec_decode_command(bytes, pos) is Some,
    ensures
        ({
            let (c, end) = spec_decode_command(bytes, pos)->Some_0;
            &&& pos + 9 <= end <= bytes.len()
            &&& spec_command_encodable(c)
            &&& spec_encode_command(c).len() == end - pos
            &&& bytes.subrange(pos, end) == spec_encode_command(c)
        }),
{
    let (c, end) = spec_decode_command(bytes, pos)->Some_0;
    match c {
        CommandView::SetCmd { key, value } => {
            lemma_decode_str_canonical(bytes, pos + 1);
            let (_, p1) = spec_decode_str(bytes, pos + 1)->Some_0;
            lemma_decode_str_canonical(bytes, p1);
            lemma_encode_str_len(key);
            lemma_encode_str_len(value);
            assert(bytes.subrange(pos, end) =~= seq![TAG_SET] + bytes.subrange(pos + 1, p1)
                + bytes.subrange(p1, end));
        },
        CommandView::Get { key } => {
            lemma_decode_str_canonical(bytes, pos + 1);
            lemma_encode_str_len(key);
            assert(bytes.subrange(pos, end) =~= seq![TAG_GET] + bytes.subrange(pos + 1, end));
        },
        CommandView::Rm { key } => {
            lemma_decode_str_canonical(bytes, pos + 1);
            lemma_encode_str_len(key);
            assert(bytes.subrange(pos, end) =~= seq![TAG_RM] + bytes.subrange(pos + 1, end));
        },
    }
}

/// A record already decodable stays the same when bytes are appended after
/// it: committed offsets keep their meaning while the log grows.
pub proof fn lemma_decode_command_extend(bytes: Seq<u8>, more: Seq<u8>, pos: int)
    requires
        spec_decode_command(bytes, pos) is Some,
    ensures
        spec_decode_command(bytes + more, pos) == spec_decode_command(bytes, pos),
{
    let (c, end) = spec_decode_command(bytes, pos)->Some_0;
    lemma_decode_command_canonical(bytes, pos);
    assert((bytes + more).subrange(pos, pos + spec_encode_command(c).len()) =~= bytes.subrange(
        pos,
        end,
    ));
    lemma_decode_encoded_command(bytes + more, pos, c);
}

/// Encodes one command as the bytes of its record.
pub fn encode_command(c: &Command) -> (r: Vec<u8>)
    ensures
        r@ == spec_encode_command(c@),
{
    let mut buf: Vec<u8> = Vec::new();
    match c {
        Command::SetCmd(cmd) => {
            buf.push(TAG_SET);
            encode_str_into(&mut buf, cmd.key.as_str());
            encode_str_into(&mut buf, cmd.value.as_str());
        },
        Command::Get(cmd) => {
            buf.push(TAG_GET);
            encode_str_into(&mut buf, cmd.key.as_str());
        },
        Command::Rm(cmd) => {
            buf.push(TAG_RM);
            encode_str_into(&mut buf, cmd.key.as_str());
        },
    }
    assert(buf@ =~= spec_encode_command(c@));
    buf
}

/// Decodes one command record of `bytes` starting at `pos`, returning the
/// command and the position just past its record.
pub fn decode_command(bytes: &[u8], pos: usize) -> (r: Result<(Command, usize), KvsError>)
    ensures
        r is Ok <==> spec_decode_command(bytes@, pos as int) is Some,
        r matches Ok((c, end)) ==> spec_decode_command(bytes@, pos as int) == Some((
            c@,
            end as int,
        )),
        r matches Err(e) ==> e == KvsError::SerializationError,
{
    if pos >= bytes.len() {
        return Err(KvsError::SerializationError);
    }
    let tag = bytes[pos];
    if tag == TAG_SET {
        let (key, p1) = match decode_str(bytes, pos + 1) {
            Ok(kp) => kp,
            Err(e) => {
                return Err(e);
            },
        };
        let (value, end) = match decode_str(bytes, p1) {
            Ok(vp) => vp,
            Err(e) => {
                return Err(e);
            },
        };
        Ok((Command::SetCmd(SetCmd { key, value }), end))
    } else if tag == TAG_GET {
        match decode_str(bytes, pos + 1) {
            Ok((key, end)) => Ok((Command::Get(Get { key }), end)),
            Err(e) => Err(e),
        }
    } else if tag == TAG_RM {
        match decode_str(bytes, pos + 1) {
            Ok((key, end)) => Ok((Command::Rm(Remove { key }), end)),
            Err(e) => Err(e),
        }
    } else {
        Err(KvsError::SerializationError)
    }
}

/// The reply to a `Set` or `Rm` command: done, or an error message.
#[derive(Clone, Debug)]
pub enum ResultWithNoResponse {
    Done,
    Failed(String),
}

/// The reply to a `Get` command: the value when the key is present, no
/// value when it is absent, or an error message.
#[derive(Clone, Debug)]
pub enum ResultWithPossibleValue {
    Value(Option<String>),
    Failed(String),
}

/// One reply on the wire, one variant per command shape.
#[derive(Clone, Debug)]
pub enum CommandResponse {
    ResultWithNoResponse(ResultWithNoResponse),
    ResultWithPossibleValue(ResultWithPossibleValue),
}

/// The mathematical shape of a [`CommandResponse`].
pub enum CommandResponseView {
    Done,
    DoneFailed(Seq<char>),
    Value(Option<Seq<char>>),
    ValueFailed(Seq<char>),
}

impl View for CommandResponse {
    type V = CommandResponseView;

    open spec fn view(&self) -> CommandResponseView {
        match self {
            CommandResponse::ResultWithNoResponse(r) => match r {
                ResultWithNoResponse::Done => CommandResponseView::Done,
                ResultWithNoResponse::Failed(e) => CommandResponseView::DoneFailed(e@),
            },
            CommandResponse::ResultWithPossibleValue(r) => match r {
                ResultWithPossibleValue::Value(v) => CommandResponseView::Value(
                    match v {
                        Some(s) => Some(s@),
                        None => None,
                    },
                ),
                ResultWithPossibleValue::Failed(e) => CommandResponseView::ValueFailed(e@),
            },
        }
    }
}

pub const TAG_RESP_DONE: u8 = 0;

pub const TAG_RESP_DONE_FAILED: u8 = 1;

pub const TAG_RESP_NO_VALUE: u8 = 2;

pub const TAG_RESP_VALUE: u8 = 3;

pub const TAG_RESP_VALUE_FAILED: u8 = 4;

/// The wire bytes of one response.
pub open spec fn spec_encode_response(r: CommandResponseView) -> Seq<u8> {
    match r {
        CommandResponseView::Done => seq![TAG_RESP_DONE],
        CommandResponseView::DoneFailed(e) => seq![TAG_RESP_DONE_FAILED] + spec_encode_str(e),
        CommandResponseView::Value(None) => seq![TAG_RESP_NO_VALUE],
        CommandResponseView::Value(Some(v)) => seq![TAG_RESP_VALUE] + spec_encode_str(v),
        CommandResponseView::ValueFailed(e) => seq![TAG_RESP_VALUE_FAILED] + spec_encode_str(e),
    }
}

/// Whether a response's fields are small enough for the 8-byte length
/// prefix; every response held in memory is.
pub open spec fn spec_response_encodable(r: CommandResponseView) -> bool {
    match r {
        CommandResponseView::Done => true,
        CommandResponseView::DoneFailed(e) => encode_utf8(e).len() <= u64::MAX,
        CommandResponseView::Value(None) => true,
        CommandResponseView::Value(Some(v)) => encode_utf8(v).len() <= u64::MAX,
        CommandResponseView::ValueFailed(e) => encode_utf8(e).len() <= u64::MAX,
    }
}

/// Reading one response of `bytes` that starts at `pos`.
pub open spec fn spec_decode_response(bytes: Seq<u8>, pos: int) -> Option<(
    CommandResponseView,
    int,
)> {
    if 0 <= pos < bytes.len() {
        let tag = bytes[pos];
        if tag == TAG_RESP_DONE {
            Some((CommandResponseView::Done, pos + 1))
        } else if tag == TAG_RESP_DONE_FAILED {
            match spec_decode_str(bytes, pos + 1) {
                Some((e, end)) => Some((CommandResponseView::DoneFailed(e), end)),
                None => None,
            }
        } else if tag == TAG_RESP_NO_VALUE {
            Some((CommandResponseView::Value(None), pos + 1))
        } else if tag == TAG_RESP_VALUE {
            match spec_decode_str(bytes, pos + 1) {
                Some((v, end)) => Some((CommandResponseView::Value(Some(v)), end)),
                None => None,
            }
        } else if tag == TAG_RESP_VALUE_FAILED {
            match spec_decode_str(bytes, pos + 1) {
                Some((e, end)) => Some((CommandResponseView::ValueFailed(e), end)),
                None => None,
            }
        } else {
            None
        }
    } else {
        None
    }
}

/// A response decodes to exactly what was encoded, whatever bytes surround
/// it.
pub proof fn lemma_decode_encoded_response(bytes: Seq<u8>, pos: int, r: CommandResponseView)
    requires
        0 <= pos,
        spec_response_encodable(r),
        pos + spec_encode_response(r).len() <= bytes.len(),
        bytes.subrange(pos, pos + spec_encode_response(r).len()) == spec_encode_response(r),
    ensures
        spec_decode_response(bytes, pos) == Some((r, pos + spec_encode_response(r).len())),
{
    let enc = spec_encode_response(r);
    assert(bytes[pos] == enc[0]);
    match r {
        CommandResponseView::Done => {
        },
        CommandResponseView::DoneFailed(e) => {
            lemma_encode_str_len(e);
            let k = spec_encode_str(e);
            assert(bytes.subrange(pos + 1, pos + 1 + k.len() as int) =~= enc.subrange(
                1,
                1 + k.len() as int,
            ));
            assert(enc.subrange(1, 1 + k.len() as int) =~= k);
            lemma_decode_encoded_str(bytes, pos + 1, e);
        },
        CommandResponseView::Value(None) => {
        },
        CommandResponseView::Value(Some(v)) => {
            lemma_encode_str_len(v);
            let k = spec_encode_str(v);
            assert(bytes.subrange(pos + 1, pos + 1 + k.len() as int) =~= enc.subrange(
                1,
                1 + k.len() as int,
            ));
            assert(enc.subrange(1, 1 + k.len() as int) =~= k);
            lemma_decode_encoded_str(bytes, pos + 1, v);
        },
        CommandResponseView::ValueFailed(e) => {
            lemma_encode_str_len(e);
            let k = spec_encode_str(e);
            assert(bytes.subrange(pos + 1, pos + 1 + k.len() as int) =~= enc.subrange(
                1,
                1 + k.len() as int,
            ));
            assert(enc.subrange(1, 1 + k.len() as int) =~= k);
            lemma_decode_encoded_str(bytes, pos + 1, e);
        },
    }
}

/// Encodes one response as its wire bytes.
pub fn encode_response(r: &CommandResponse) -> (out: Vec<u8>)
    ensures
        out@ == spec_encode_response(r@),
{
    let mut buf: Vec<u8> = Vec::new();
    match r {
        CommandResponse::ResultWithNoResponse(ResultWithNoResponse::Done) => {
            buf.push(TAG_RESP_DONE);
        },
        CommandResponse::ResultWithNoResponse(ResultWithNoResponse::Failed(e)) => {
            buf.push(TAG_RESP_DONE_FAILED);
            encode_str_into(&mut buf, e.as_str());
        },
        CommandResponse::ResultWithPossibleValue(ResultWithPossibleValue::Value(None)) => {
            buf.push(TAG_RESP_NO_VALUE);
        },
        CommandResponse::ResultWithPossibleValue(ResultWithPossibleValue::Value(Some(v))) => {
            buf.push(TAG_RESP_VALUE);
            encode_str_into(&mut buf, v.as_str());
        },
        CommandResponse::ResultWithPossibleValue(ResultWithPossibleValue::Failed(e)) => {
            buf.push(TAG_RESP_VALUE_FAILED);
            encode_str_into(&mut buf, e.as_str());
        },
    }
    assert(buf@ =~= spec_encode_response(r@));
    buf
}

/// Decodes one response of `bytes` starting at `pos`, returning the
/// response and the position just past it.
pub fn decode_response(bytes: &[u8], pos: usize) -> (r: Result<(CommandResponse, usize), KvsError>)
    ensures
        r is Ok <==> spec_decode_response(bytes@, pos as int) is Some,
        r matches Ok((resp, end)) ==> spec_decode_response(bytes@, pos as int) == Some((
            resp@,
            end as int,
        )),
        r matches Err(e) ==> e == KvsError::SerializationError,
{
    if pos >= bytes.len() {
        return Err(KvsError::SerializationError);
    }
    let tag = bytes[pos];
    if tag == TAG_RESP_DONE {
        Ok((CommandResponse::ResultWithNoResponse(ResultWithNoResponse::Done), pos + 1))
    } else if tag == TAG_RESP_DONE_FAILED {
        match decode_str(bytes, pos + 1) {
            Ok((e, end)) => Ok(
                (CommandResponse::ResultWithNoResponse(ResultWithNoResponse::Failed(e)), end),
            ),
            Err(e) => Err(e),
        }
    } else if tag == TAG_RESP_NO_VALUE {
        Ok((CommandResponse::ResultWithPossibleValue(ResultWithPossibleValue::Value(None)), pos
            + 1))
    } else if tag == TAG_RESP_VALUE {
        match decode_str(bytes, pos + 1) {
            Ok((v, end)) => Ok(
                (
                    CommandResponse::ResultWithPossibleValue(
                        ResultWithPossibleValue::Value(Some(v)),
                    ),
                    end,
                ),
            ),
            Err(e) => Err(e),
        }
    } else if tag == TAG_RESP_VALUE_FAILED {
        match decode_str(bytes, pos + 1) {
            Ok((e, end)) => Ok(
                (CommandResponse::ResultWithPossibleValue(ResultWithPossibleValue::Failed(e)), end),
            ),
            Err(e) => Err(e),
        }
    } else {
        Err(KvsError::SerializationError)
    }
}

impl CommandResponse {
    /// Whether this reply reports a failure.
    pub fn is_err(&self) -> (r: bool)
        ensures
            r == (self@ is DoneFailed || self@ is ValueFailed),
    {
        match self {
            CommandResponse::ResultWithNoResponse(ResultWithNoResponse::Failed(_)) => true,
            CommandResponse::ResultWithPossibleValue(ResultWithPossibleValue::Failed(_)) => true,
            _ => false,
        }
    }

    /// The reply for the outcome of a `Get`: the value looked up, or the
    /// error's message.
    pub fn from_get_result(value: Result<Option<String>, KvsError>) -> (r: CommandResponse)
        ensures
            r@ == match value {
                Ok(Some(v)) => CommandResponseView::Value(Some(v@)),
                Ok(None) => CommandResponseView::Value(None::<Seq<char>>),
                Err(e) => CommandResponseView::ValueFailed(spec_error_message(e)),
            },
    {
        match value {
            Ok(v) => CommandResponse::ResultWithPossibleValue(ResultWithPossibleValue::Value(v)),
            Err(e) => CommandResponse::ResultWithPossibleValue(
                ResultWithPossibleValue::Failed(e.message()),
            ),
        }
    }

    /// The reply for the outcome of a `Set` or `Rm`: done, or the error's
    /// message.
    pub fn from_unit_result(value: Result<(), KvsError>) -> (r: CommandResponse)
        ensures
            r@ == match value {
                Ok(()) => CommandResponseView::Done,
                Err(e) => CommandResponseView::DoneFailed(spec_error_message(e)),
            },
    {
        match value {
            Ok(()) => CommandResponse::ResultWithNoResponse(ResultWithNoResponse::Done),
            Err(e) => CommandResponse::ResultWithNoResponse(
                ResultWithNoResponse::Failed(e.message()),
            ),
        }
    }
}

/// The text a reply prints: the value or message, with a trailing newline
/// when there is something to say.
pub open spec fn spec_response_text(r: CommandResponseView) -> Seq<char> {
    match r {
        CommandResponseView::Done => ""@,
        CommandResponseView::DoneFailed(e) => e + "\n"@,
        CommandResponseView::Value(None) => ""@,
        CommandResponseView::Value(Some(v)) => if v.len() == 0 {
            v
        } else {
            v + "\n"@
        },
        CommandResponseView::ValueFailed(e) => if e.len() == 0 {
            e
        } else {
            e + "\n"@
        },
    }
}

impl ResultWithNoResponse {
    /// The text this reply prints.
    pub fn text(&self) -> (r: String)
        ensures
            r@ == spec_response_text(
                CommandResponse::ResultWithNoResponse(*self)@,
            ),
    {
        match self {
            ResultWithNoResponse::Done => String::from_str(""),
            ResultWithNoResponse::Failed(e) => e.clone().concat("\n"),
        }
    }
}

impl ResultWithPossibleValue {
    /// The text this reply prints.
    pub fn text(&self) -> (r: String)
        ensures
            r@ == spec_response_text(
                CommandResponse::ResultWithPossibleValue(*self)@,
            ),
    {
        match self {
            ResultWithPossibleValue::Value(None) => String::from_str(""),
            ResultWithPossibleValue::Value(Some(v)) => {
                if v.as_str().is_empty() {
                    v.clone()
                } else {
                    v.clone().concat("\n")
                }
            },
            ResultWithPossibleValue::Failed(e) => {
                if e.as_str().is_empty() {
                    e.clone()
                } else {
                    e.clone().concat("\n")
                }
            },
        }
    }
}

impl CommandResponse {
    /// The text this reply prints.
    pub fn text(&self) -> (r: String)
        ensures
            r@ == spec_response_text(self@),
    {
        match self {
            CommandResponse::ResultWithNoResponse(rr) => rr.text(),
            CommandResponse::ResultWithPossibleValue(rr) => rr.text(),
        }
    }
}

/// Shapes a lookup's outcome as the reply the wire carries back: a missing
/// key reads as its own message, never as a bare empty value.
pub fn lookup_outcome(found: Result<Option<String>, KvsError>) -> (r: CommandResponse)
    ensures
        r@ == match found {
            Ok(Some(v)) => CommandResponseView::Value(Some(v@)),
            Ok(None) => CommandResponseView::ValueFailed(spec_error_message(KvsError::KeyNotFound)),
            Err(e) => CommandResponseView::ValueFailed(spec_error_message(e)),
        },
{
    let looked_up = match found {
        Ok(data) => match data {
            None => Err(KvsError::KeyNotFound),
            Some(e) => Ok(Some(e)),
        },
        Err(e) => Err(e),
    };
    CommandResponse::from_get_result(looked_up)
}

/// Looks one key up and shapes the reply the wire carries back: the value
/// when the key is present, a key-not-found message when it is absent.
/// Reads need no exclusive hold on the engine.
pub fn lookup_response<Engine: KvsEngine>(kv: &Engine, key: String) -> (r: CommandResponse)
    requires
        kv.wf(),
    ensures
        r@ == if kv.kv().dom().contains(key@) {
            CommandResponseView::Value(Some(kv.kv()[key@]))
        } else {
            CommandResponseView::ValueFailed(spec_error_message(KvsError::KeyNotFound))
        },
{
    lookup_outcome(kv.get(key))
}

impl Command {
    /// Runs one command against an engine and shapes the reply the wire
    /// carries back: the outcome for `Set` and `Rm`, the value or a
    /// key-not-found message for `Get`.
    pub fn process<Engine: KvsEngine>(self, kv: &mut Engine) -> (r: CommandResponse)
        requires
            old(kv).wf(),
        ensures
            final(kv).wf(),
            match self@ {
                CommandView::SetCmd { key, value } => final(kv).kv() == old(kv).kv().insert(
                    key,
                    value,
                ) && r@ == CommandResponseView::Done,
                CommandView::Get { key } => final(kv).kv() == old(kv).kv() && r@ == if old(
                    kv,
                ).kv().dom().contains(key) {
                    CommandResponseView::Value(Some(old(kv).kv()[key]))
                } else {
                    CommandResponseView::ValueFailed(spec_error_message(KvsError::KeyNotFound))
                },
                CommandView::Rm { key } => if old(kv).kv().dom().contains(key) {
                    final(kv).kv() == old(kv).kv().remove(key) && r@ == CommandResponseView::Done
                } else {
                    final(kv).kv() == old(kv).kv() && r@ == CommandResponseView::DoneFailed(
                        spec_error_message(KvsError::KeyNotFound),
                    )
                },
            },
    {
        match self {
            Command::SetCmd(SetCmd { key, value }) => CommandResponse::from_unit_result(
                kv.set(key, value),
            ),
            Command::Get(Get { key }) => lookup_response(&*kv, key),
            Command::Rm(Remove { key }) => CommandResponse::from_unit_result(kv.remove(key)),
        }
    }

    /// The value a command carries: the payload of a `Set`, nothing for
    /// `Get` and `Rm`.
    pub fn value(&self) -> (r: Option<&String>)
        ensures
            self is SetCmd <==> r is Some,
            r matches Some(v) ==> (self matches Command::SetCmd(c) && v == c.value),
    {
        match self {
            Command::SetCmd(cmd) => Some(&cmd.value),
            Command::Rm(_) | Command::Get(_) => None,
        }
    }
}

/// The wire framing is self-delimiting: a reader at an encoded command's
/// first byte decodes exactly that command and stops at its end, whatever
/// bytes follow.
pub proof fn lemma_command_round_trip(c: CommandView, extra: Seq<u8>)
    requires
        spec_command_encodable(c),
    ensures
        spec_decode_command(spec_encode_command(c) + extra, 0) == Some((
            c,
            spec_encode_command(c).len() as int,
        )),
{
    let bytes = spec_encode_command(c) + extra;
    assert(bytes.subrange(0, spec_encode_command(c).len() as int) =~= spec_encode_command(c));
    lemma_decode_encoded_command(bytes, 0, c);
}

/// The reply framing is self-delimiting in the same way.
pub proof fn lemma_response_round_trip(r: CommandResponseView, extra: Seq<u8>)
    requires
        spec_response_encodable(r),
    ensures
        spec_decode_response(spec_encode_response(r) + extra, 0) == Some((
            r,
            spec_encode_response(r).len() as int,
        )),
{
    let bytes = spec_encode_response(r) + extra;
    assert(bytes.subrange(0, spec_encode_response(r).len() as int) =~= spec_encode_response(r));
    lemma_decode_encoded_response(bytes, 0, r);
}

} // verus!
