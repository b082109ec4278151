//! Framing helpers: how a request or a reply is laid out around its payload.

use vstd::prelude::*;

use crate::codec::{dec, decode, enc, encode, model, Schema, Value, ValueModel};
use crate::error::CachemError;

verus! {

/// The empty message: a single byte on the wire, ignored on read, written so
/// the other side knows the transmission is over.
pub struct EmptyMsg;

impl EmptyMsg {
    /// Appends the one empty-marker byte.
    pub fn write_to(&self, out: &mut Vec<u8>)
        ensures
            final(out)@ == old(out)@ + seq![0u8],
    {
        out.push(0u8);
        assert(out@ =~= old(out)@ + seq![0u8]);
    }

    /// Consumes the one empty-marker byte, whatever its value.
    pub fn read_from(data: &[u8], pos: usize) -> (r: Option<(EmptyMsg, usize)>)
        requires
            pos <= data@.len(),
        ensures
            match r {
                Some(p) => pos < data@.len() && p.1 == pos + 1,
                None => pos == data@.len(),
            },
    {
        if pos < data.len() {
            Some((EmptyMsg, pos + 1))
        } else {
            None
        }
    }
}

/// What a request must say about itself so that a frame can be built
/// around its payload.
pub trait ProtocolRequest {
    /// The opcode this request initiates.
    spec fn action_spec(&self) -> u8;

    /// The namespace this request addresses.
    spec fn cache_type_spec(&self) -> u8;

    /// The opcode byte of the frame.
    fn action(&self) -> (r: u8)
        ensures
            r == self.action_spec(),
    ;

    /// The namespace byte of the frame.
    fn cache_type(&self) -> (r: u8)
        ensures
            r == self.cache_type_spec(),
    ;
}

/// Builds frames around payloads: the two header bytes of a request, the
/// bare payload of a response.
pub struct Protocol;

impl Protocol {
    /// The full request frame: opcode, namespace, then the encoded payload.
    pub fn request<T: ProtocolRequest>(data: &T, payload: &Value) -> (r: Vec<u8>)
        ensures
            r@ == seq![data.action_spec(), data.cache_type_spec()] + enc(model(*payload)),
    {
        let mut out: Vec<u8> = Vec::new();
        out.push(data.action());
        out.push(data.cache_type());
        let ghost head = out@;
        assert(head =~= seq![data.action_spec(), data.cache_type_spec()]);
        encode(payload, &mut out);
        out
    }

    /// A response is the bare encoding of its payload, appended to `out`.
    pub fn response(out: &mut Vec<u8>, payload: &Value)
        ensures
            final(out)@ == old(out)@ + enc(model(*payload)),
    {
        encode(payload, out);
    }

    /// Reads one payload of schema `s` back out of a reply buffer.
    pub fn read(s: &Schema, data: &[u8], pos: usize) -> (r: Result<(Value, usize), CachemError>)
        requires
            pos <= data@.len(),
        ensures
            match r {
                Ok(p) => pos <= p.1 <= data@.len() && dec(*s, data@.skip(pos as int)) == Ok::<
                    (ValueModel, int),
                    crate::error::CodecError,
                >((model(p.0), p.1 - pos)),
                Err(e) => e matches CachemError::CodecError(c) && dec(*s, data@.skip(pos as int))
                    == Err::<(ValueModel, int), crate::error::CodecError>(c),
            },
    {
        match decode(s, data, pos) {
            Ok(p) => Ok(p),
            Err(e) => Err(CachemError::CodecError(e)),
        }
    }
}

} // verus!
