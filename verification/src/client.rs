//! The client's half of each command: the exact bytes a connection writes
//! for every opcode, and the checks it makes on what comes back.
//!
//! The socket itself lives outside the library; callers write these frames,
//! flush, and hand the reply bytes to [`crate::codec::decode`] under the
//! response schema of the command table.

use vstd::prelude::*;

use crate::codec::{enc, encode, model, model_pairs, model_seq, Value, ValueModel};
use crate::command::{opcode_of, Command};
use crate::protocol::ProtocolRequest;

verus! {

/// The header of a command addressed to one namespace.
pub struct CommandHeader {
    /// The command to run.
    pub cmd: Command,
    /// The namespace to run it against.
    pub ns: u8,
}

impl ProtocolRequest for CommandHeader {
    open spec fn action_spec(&self) -> u8 {
        opcode_of(self.cmd)
    }

    open spec fn cache_type_spec(&self) -> u8 {
        self.ns
    }

    fn action(&self) -> (r: u8) {
        self.cmd.as_u8()
    }

    fn cache_type(&self) -> (r: u8) {
        self.ns
    }
}

/// The one-byte ping frame.
pub fn ping_frame() -> (r: Vec<u8>)
    ensures
        r@ == seq![opcode_of(Command::Ping)],
{
    let mut out: Vec<u8> = Vec::new();
    out.push(254u8);
    assert(out@ =~= seq![opcode_of(Command::Ping)]);
    out
}

/// Whether a reply byte is the pong the server answers a ping with.
pub fn is_pong(b: u8) -> (r: bool)
    ensures
        r == (b == opcode_of(Command::Pong)),
{
    b == 255
}

/// The header every command but ping starts with: opcode, then namespace.
fn header(c: Command, ns: u8) -> (r: Vec<u8>)
    ensures
        r@ == seq![opcode_of(c), ns],
{
    let mut out: Vec<u8> = Vec::new();
    out.push(c.as_u8());
    out.push(ns);
    assert(out@ =~= seq![opcode_of(c), ns]);
    out
}

/// The frame that asks namespace `ns` for the value under `key`.
pub fn get_request(ns: u8, key: &Value) -> (r: Vec<u8>)
    ensures
        r@ == seq![opcode_of(Command::Get), ns] + enc(model(*key)),
{
    let mut out = header(Command::Get, ns);
    encode(key, &mut out);
    out
}

/// The frame that asks for many keys at once; replies keep this order.
pub fn mget_request(ns: u8, keys: Vec<Value>) -> (r: Vec<u8>)
    ensures
        r@ == seq![opcode_of(Command::MGet), ns] + enc(ValueModel::List(model_seq(keys@))),
{
    let mut out = header(Command::MGet, ns);
    let wrapped = Value::List(keys);
    encode(&wrapped, &mut out);
    out
}

/// The frame that asks for every key of the namespace.
pub fn keys_request(ns: u8) -> (r: Vec<u8>)
    ensures
        r@ == seq![opcode_of(Command::Keys), ns],
{
    header(Command::Keys, ns)
}

/// The frame that asks whether `key` exists.
pub fn exists_request(ns: u8, key: &Value) -> (r: Vec<u8>)
    ensures
        r@ == seq![opcode_of(Command::Exists), ns] + enc(model(*key)),
{
    let mut out = header(Command::Exists, ns);
    encode(key, &mut out);
    out
}

/// The frame that asks whether each of `keys` exists.
pub fn mexists_request(ns: u8, keys: Vec<Value>) -> (r: Vec<u8>)
    ensures
        r@ == seq![opcode_of(Command::MExists), ns] + enc(ValueModel::List(model_seq(keys@))),
{
    let mut out = header(Command::MExists, ns);
    let wrapped = Value::List(keys);
    encode(&wrapped, &mut out);
    out
}

/// The frame that stores `val` under `key`.
pub fn set_request(ns: u8, key: &Value, val: &Value) -> (r: Vec<u8>)
    ensures
        r@ == seq![opcode_of(Command::Put), ns] + enc(model(*key)) + enc(model(*val)),
{
    let mut out = header(Command::Put, ns);
    encode(key, &mut out);
    encode(val, &mut out);
    out
}

/// The frame that stores a whole map of entries.
pub fn mset_request(ns: u8, entries: Vec<(Value, Value)>) -> (r: Vec<u8>)
    ensures
        r@ == seq![opcode_of(Command::MSet), ns] + enc(ValueModel::Dict(model_pairs(entries@))),
{
    let mut out = header(Command::MSet, ns);
    let wrapped = Value::Dict(entries);
    encode(&wrapped, &mut out);
    out
}

/// The frame that deletes the entry under `key`.
pub fn del_request(ns: u8, key: &Value) -> (r: Vec<u8>)
    ensures
        r@ == seq![opcode_of(Command::Del), ns] + enc(model(*key)),
{
    let mut out = header(Command::Del, ns);
    encode(key, &mut out);
    out
}

/// The frame that deletes every entry under one of `keys`.
pub fn mdel_request(ns: u8, keys: Vec<Value>) -> (r: Vec<u8>)
    ensures
        r@ == seq![opcode_of(Command::MDel), ns] + enc(ValueModel::List(model_seq(keys@))),
{
    let mut out = header(Command::MDel, ns);
    let wrapped = Value::List(keys);
    encode(&wrapped, &mut out);
    out
}

/// The frame that asks the namespace to persist itself.
pub fn save_request(ns: u8) -> (r: Vec<u8>)
    ensures
        r@ == seq![opcode_of(Command::Save), ns],
{
    header(Command::Save, ns)
}

/// Reads the one-byte status that answers every write command:
/// zero means the namespace accepted the write.
pub fn parse_status(data: &[u8], pos: usize) -> (r: Option<u8>)
    requires
        pos <= data@.len(),
    ensures
        match r {
            Some(x) => pos < data@.len() && x == data@[pos as int],
            None => pos == data@.len(),
        },
{
    if pos < data.len() {
        Some(data[pos])
    } else {
        None
    }
}

} // verus!
