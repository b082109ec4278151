//! The snapshot layout: a u32 record count, then that many records.
//!
//! Reading and writing the file itself happens outside the library; these
//! functions turn the file's bytes into records and back.

use vstd::prelude::*;

use crate::codec::{
    be_bytes, dec_seq, decode_seq_n, enc_seq, model_seq, push_be, take_fixed, Schema, Value,
};
use crate::error::{CachemError, CodecError};

verus! {

/// Reads and writes whole tables of records in the snapshot layout.
pub struct FileUtils;

impl FileUtils {
    /// Parses a snapshot: a u32 record count, then that many records of
    /// schema `schema`. An empty byte string is an empty table; anything
    /// else is read exactly as a count followed by that many records.
    pub fn open(data: &[u8], schema: &Schema) -> (r: Result<Vec<Value>, CachemError>)
        ensures
            ({
                if data@.len() == 0 {
                    r matches Ok(v) && v@.len() == 0
                } else if data@.len() < 4 {
                    r == Err::<Vec<Value>, CachemError>(
                        CachemError::CodecError(CodecError::UnexpectedEnd),
                    )
                } else {
                    match dec_seq(
                        *schema,
                        crate::codec::be_val(data@.take(4)),
                        data@.skip(4),
                    ) {
                        Ok(p) => r matches Ok(v) && model_seq(v@) == p.0,
                        Err(e) => r == Err::<Vec<Value>, CachemError>(
                            CachemError::CodecError(e),
                        ),
                    }
                }
            }),
    {
        if data.len() == 0 {
            let empty: Vec<Value> = Vec::new();
            return Ok(empty);
        }
        match take_fixed(data, 0, 4) {
            Err(_) => Err(CachemError::CodecError(CodecError::UnexpectedEnd)),
            Ok(n128) => {
                let n = n128 as usize;
                proof {
                    crate::codec::lemma_pow256_16();
                    assert(data@.skip(0).take(4) =~= data@.take(4));
                    assert(data@.skip(0).skip(4) =~= data@.skip(4));
                }
                match decode_seq_n(schema, n, data, 4) {
                    Err(e) => Err(CachemError::CodecError(e)),
                    Ok((records, _)) => Ok(records),
                }
            },
        }
    }

    /// Serializes a table of records into the snapshot layout.
    pub fn save(entries: Vec<Value>) -> (r: Vec<u8>)
        ensures
            r@ == be_bytes(entries@.len(), 4) + enc_seq(model_seq(entries@)),
    {
        let mut out: Vec<u8> = Vec::new();
        let n = entries.len();
        push_be(&mut out, n as u128, 4);
        let ghost head = out@;
        let wrapped = Value::List(entries);
        match wrapped {
            Value::List(es) => {
                let m = es.len();
                let ghost msq = model_seq(es@);
                proof {
                    crate::codec::lemma_model_seq(es@);
                }
                let mut i: usize = 0;
                while i < m
                    invariant
                        0 <= i <= m,
                        m == es@.len(),
                        msq == model_seq(es@),
                        msq.len() == m,
                        out@ == head + crate::codec::enc_seq(msq.take(i as int)),
                    decreases m - i,
                {
                    crate::codec::encode(&es[i], &mut out);
                    proof {
                        crate::codec::lemma_enc_seq_take(msq, i as int);
                        crate::codec::lemma_model_seq(es@);
                    }
                    assert(out@ =~= head + crate::codec::enc_seq(msq.take(i + 1)));
                    i = i + 1;
                }
                assert(msq.take(m as int) =~= msq);
            },
            _ => {},
        }
        out
    }
}

} // verus!
