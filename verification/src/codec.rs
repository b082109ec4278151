//! The wire codec: a self-describing family of big-endian binary layouts.
//!
//! A [`Schema`] names the layout the reader expects; a [`Value`] is the
//! executable value tree; [`ValueModel`] is its mathematical shadow, with
//! sequences in place of vectors. The functions [`enc`] and [`dec`] are the
//! ground truth of the wire format; the executable [`encode`] and [`decode`]
//! are proved to follow them exactly.

use vstd::prelude::*;

use crate::error::CodecError;

verus! {

// ---------------------------------------------------------------------------
// Layout descriptions
// ---------------------------------------------------------------------------

/// Wire-layout description of one value. The stream itself carries no type
/// information: the reader must know the schema from the command table.
///
/// An aggregate with a single unnamed field is transparent on the wire: its
/// schema is simply the inner field's schema, so no case of its own stands
/// here. An aggregate with no fields at all is the one-byte [`Schema::Empty`].
#[derive(Debug)]
pub enum Schema {
    U8,
    U16,
    U32,
    U64,
    U128,
    I8,
    I16,
    I32,
    I64,
    I128,
    /// IEEE-754 single precision, carried as its raw big-endian bit pattern.
    F32,
    /// IEEE-754 double precision, carried as its raw big-endian bit pattern.
    F64,
    /// One byte: 0x01 is true, any other byte is false.
    Bool,
    /// Encodes to nothing at all.
    Unit,
    /// The empty marker: exactly one byte, ignored on read.
    Empty,
    /// UTF-8 bytes terminated by a single 0x00 sentinel.
    Text,
    /// A u32 element count, then that many encodings of the element schema.
    List(Box<Schema>),
    /// A u32 pair count, then that many key/value encodings.
    /// Duplicate keys refuse to decode.
    Dict(Box<Schema>, Box<Schema>),
    /// One bool byte; the payload follows only when it is true.
    Optional(Box<Schema>),
    /// One bool byte; true is followed by the first schema, false by the second.
    Fallible(Box<Schema>, Box<Schema>),
    /// Named-field aggregate: the fields' encodings, concatenated in order.
    Record(Vec<Schema>),
    /// Tagged variant: a one-byte 0-based tag picks the arm; an arm with a
    /// payload schema is followed by that payload, an arm without one by a
    /// single empty-marker byte.
    Tagged(Vec<Option<Schema>>),
}

// ---------------------------------------------------------------------------
// Values
// ---------------------------------------------------------------------------

/// An executable wire value.
///
/// Floating-point payloads are carried as their IEEE-754 bit patterns so that
/// the codec itself never computes on floats.
#[derive(Debug)]
pub enum Value {
    U8(u8),
    U16(u16),
    U32(u32),
    U64(u64),
    U128(u128),
    I8(i8),
    I16(i16),
    I32(i32),
    I64(i64),
    I128(i128),
    F32(u32),
    F64(u64),
    Bool(bool),
    Unit,
    Empty,
    Text(Vec<u8>),
    List(Vec<Value>),
    Dict(Vec<(Value, Value)>),
    Optional(Option<Box<Value>>),
    Fallible(Result<Box<Value>, Box<Value>>),
    Record(Vec<Value>),
    Tagged(u8, Option<Box<Value>>),
}

/// The mathematical shadow of a [`Value`]: vectors become sequences.
pub enum ValueModel {
    U8(u8),
    U16(u16),
    U32(u32),
    U64(u64),
    U128(u128),
    I8(i8),
    I16(i16),
    I32(i32),
    I64(i64),
    I128(i128),
    F32(u32),
    F64(u64),
    Bool(bool),
    Unit,
    Empty,
    Text(Seq<u8>),
    List(Seq<ValueModel>),
    Dict(Seq<(ValueModel, ValueModel)>),
    Optional(Option<Box<ValueModel>>),
    Fallible(Result<Box<ValueModel>, Box<ValueModel>>),
    Record(Seq<ValueModel>),
    Tagged(u8, Option<Box<ValueModel>>),
}

/// The model of an executable value: vectors become sequences.
pub open spec fn model(v: Value) -> ValueModel
    decreases v,
{
    match v {
        Value::U8(x) => ValueModel::U8(x),
        Value::U16(x) => ValueModel::U16(x),
        Value::U32(x) => ValueModel::U32(x),
        Value::U64(x) => ValueModel::U64(x),
        Value::U128(x) => ValueModel::U128(x),
        Value::I8(x) => ValueModel::I8(x),
        Value::I16(x) => ValueModel::I16(x),
        Value::I32(x) => ValueModel::I32(x),
        Value::I64(x) => ValueModel::I64(x),
        Value::I128(x) => ValueModel::I128(x),
        Value::F32(x) => ValueModel::F32(x),
        Value::F64(x) => ValueModel::F64(x),
        Value::Bool(x) => ValueModel::Bool(x),
        Value::Unit => ValueModel::Unit,
        Value::Empty => ValueModel::Empty,
        Value::Text(bs) => ValueModel::Text(bs@),
        Value::List(vs) => ValueModel::List(model_seq(vs@)),
        Value::Dict(ps) => ValueModel::Dict(model_pairs(ps@)),
        Value::Optional(o) => ValueModel::Optional(
            match o {
                Some(bv) => Some(Box::new(model(*bv))),
                None => None,
            },
        ),
        Value::Fallible(r) => ValueModel::Fallible(
            match r {
                Ok(bv) => Ok(Box::new(model(*bv))),
                Err(bv) => Err(Box::new(model(*bv))),
            },
        ),
        Value::Record(vs) => ValueModel::Record(model_seq(vs@)),
        Value::Tagged(tag, p) => ValueModel::Tagged(
            tag,
            match p {
                Some(bv) => Some(Box::new(model(*bv))),
                None => None,
            },
        ),
    }
}

/// The models of the elements of `vs`, in order.
pub open spec fn model_seq(vs: Seq<Value>) -> Seq<ValueModel>
    decreases vs,
{
    if vs.len() == 0 {
        Seq::empty()
    } else {
        seq![model(vs[0])] + model_seq(vs.drop_first())
    }
}

/// The models of the pairs of `ps`, in order.
pub open spec fn model_pairs(ps: Seq<(Value, Value)>) -> Seq<(ValueModel, ValueModel)>
    decreases ps,
{
    if ps.len() == 0 {
        Seq::empty()
    } else {
        seq![(model(ps[0].0), model(ps[0].1))] + model_pairs(ps.drop_first())
    }
}

// ---------------------------------------------------------------------------
// Big-endian integers
// ---------------------------------------------------------------------------

/// 256 to the power `w`: the number of values a `w`-byte field can carry.
pub open spec fn pow256(w: nat) -> nat
    decreases w,
{
    if w == 0 {
        1
    } else {
        256 * pow256((w - 1) as nat)
    }
}

/// The `w` big-endian bytes of `x` (low bytes of `x` if it does not fit).
pub open spec fn be_bytes(x: nat, w: nat) -> Seq<u8>
    decreases w,
{
    if w == 0 {
        Seq::empty()
    } else {
        be_bytes(x / 256, (w - 1) as nat).push((x % 256) as u8)
    }
}

/// The value of a big-endian byte string.
pub open spec fn be_val(b: Seq<u8>) -> nat
    decreases b.len(),
{
    if b.len() == 0 {
        0
    } else {
        be_val(b.drop_last()) * 256 + (b.last() as nat)
    }
}

/// The two's-complement bit pattern of the signed value `x`, where `m` is
/// 2 to the bit width.
pub open spec fn sign_to_bits(x: int, m: nat) -> nat {
    if x >= 0 {
        x as nat
    } else {
        (x + m) as nat
    }
}

/// The signed value of the two's-complement bit pattern `u`, where `m` is
/// 2 to the bit width.
pub open spec fn bits_to_sign(u: nat, m: nat) -> int {
    if u < m / 2 {
        u as int
    } else {
        u - m
    }
}

// ---------------------------------------------------------------------------
// UTF-8
// ---------------------------------------------------------------------------

/// Whether `b` is a UTF-8 continuation byte.
pub open spec fn is_cont(b: u8) -> bool {
    0x80 <= b <= 0xBF
}

/// Whether `s` is well-formed UTF-8, by the shortest-form table of RFC 3629:
/// no overlong encodings, no surrogates, nothing above U+10FFFF.
pub open spec fn is_utf8(s: Seq<u8>) -> bool
    decreases s.len(),
{
    if s.len() == 0 {
        true
    } else {
        let b0 = s[0];
        if b0 < 0x80 {
            is_utf8(s.skip(1))
        } else if 0xC2 <= b0 <= 0xDF {
            s.len() >= 2 && is_cont(s[1]) && is_utf8(s.skip(2))
        } else if b0 == 0xE0 {
            s.len() >= 3 && 0xA0 <= s[1] <= 0xBF && is_cont(s[2]) && is_utf8(s.skip(3))
        } else if 0xE1 <= b0 <= 0xEC || 0xEE <= b0 <= 0xEF {
            s.len() >= 3 && is_cont(s[1]) && is_cont(s[2]) && is_utf8(s.skip(3))
        } else if b0 == 0xED {
            s.len() >= 3 && 0x80 <= s[1] <= 0x9F && is_cont(s[2]) && is_utf8(s.skip(3))
        } else if b0 == 0xF0 {
            s.len() >= 4 && 0x90 <= s[1] <= 0xBF && is_cont(s[2]) && is_cont(s[3]) && is_utf8(
                s.skip(4),
            )
        } else if 0xF1 <= b0 <= 0xF3 {
            s.len() >= 4 && is_cont(s[1]) && is_cont(s[2]) && is_cont(s[3]) && is_utf8(s.skip(4))
        } else if b0 == 0xF4 {
            s.len() >= 4 && 0x80 <= s[1] <= 0x8F && is_cont(s[2]) && is_cont(s[3]) && is_utf8(
                s.skip(4),
            )
        } else {
            false
        }
    }
}

// ---------------------------------------------------------------------------
// Well-formed values
// ---------------------------------------------------------------------------

/// Whether the model value `v` matches the schema `s` and respects every
/// wire-format side condition: list and map lengths fit a u32, map keys are
/// pairwise distinct, text holds NUL-free well-formed UTF-8, and a tag names
/// a declared arm.
pub open spec fn wf(s: Schema, v: ValueModel) -> bool
    decreases v,
{
    match (s, v) {
        (Schema::U8, ValueModel::U8(_)) => true,
        (Schema::U16, ValueModel::U16(_)) => true,
        (Schema::U32, ValueModel::U32(_)) => true,
        (Schema::U64, ValueModel::U64(_)) => true,
        (Schema::U128, ValueModel::U128(_)) => true,
        (Schema::I8, ValueModel::I8(_)) => true,
        (Schema::I16, ValueModel::I16(_)) => true,
        (Schema::I32, ValueModel::I32(_)) => true,
        (Schema::I64, ValueModel::I64(_)) => true,
        (Schema::I128, ValueModel::I128(_)) => true,
        (Schema::F32, ValueModel::F32(_)) => true,
        (Schema::F64, ValueModel::F64(_)) => true,
        (Schema::Bool, ValueModel::Bool(_)) => true,
        (Schema::Unit, ValueModel::Unit) => true,
        (Schema::Empty, ValueModel::Empty) => true,
        (Schema::Text, ValueModel::Text(bs)) => (forall|i: int|
            0 <= i < bs.len() ==> bs[i] != 0) && is_utf8(bs),
        (Schema::List(t), ValueModel::List(vs)) => vs.len() < 0x1_0000_0000 && (forall|i: int|
            0 <= i < vs.len() ==> wf(*t, #[trigger] vs[i])),
        (Schema::Dict(tk, tv), ValueModel::Dict(ps)) => ps.len() < 0x1_0000_0000 && (forall|
            i: int,
        |
            0 <= i < ps.len() ==> wf(*tk, (#[trigger] ps[i]).0) && wf(*tv, ps[i].1)) && (forall|
            i: int,
            j: int,
        |
            0 <= i < j < ps.len() ==> (#[trigger] ps[i]).0 != (#[trigger] ps[j]).0),
        (Schema::Optional(t), ValueModel::Optional(o)) => match o {
            Some(bv) => wf(*t, *bv),
            None => true,
        },
        (Schema::Fallible(ta, te), ValueModel::Fallible(r)) => match r {
            Ok(bv) => wf(*ta, *bv),
            Err(bv) => wf(*te, *bv),
        },
        (Schema::Record(fs), ValueModel::Record(vs)) => vs.len() == fs@.len() && (forall|i: int|
            0 <= i < vs.len() ==> wf(fs@[i], #[trigger] vs[i])),
        (Schema::Tagged(arms), ValueModel::Tagged(tag, p)) => (tag as int) < arms@.len()
            && match arms@[tag as int] {
            Some(t) => p matches Some(bv) && wf(t, *bv),
            None => p is None,
        },
        _ => false,
    }
}

// ---------------------------------------------------------------------------
// Encoding
// ---------------------------------------------------------------------------

/// The bytes of `v` on the wire. Total over all model values; only
/// well-formed values ([`wf`]) are promised to decode back.
pub open spec fn enc(v: ValueModel) -> Seq<u8>
    decreases v,
{
    match v {
        ValueModel::U8(x) => seq![x],
        ValueModel::U16(x) => be_bytes(x as nat, 2),
        ValueModel::U32(x) => be_bytes(x as nat, 4),
        ValueModel::U64(x) => be_bytes(x as nat, 8),
        ValueModel::U128(x) => be_bytes(x as nat, 16),
        ValueModel::I8(x) => be_bytes(sign_to_bits(x as int, pow256(1)), 1),
        ValueModel::I16(x) => be_bytes(sign_to_bits(x as int, pow256(2)), 2),
        ValueModel::I32(x) => be_bytes(sign_to_bits(x as int, pow256(4)), 4),
        ValueModel::I64(x) => be_bytes(sign_to_bits(x as int, pow256(8)), 8),
        ValueModel::I128(x) => be_bytes(
            sign_to_bits(x as int, pow256(16)),
            16,
        ),
        ValueModel::F32(bits) => be_bytes(bits as nat, 4),
        ValueModel::F64(bits) => be_bytes(bits as nat, 8),
        ValueModel::Bool(x) => seq![if x { 1u8 } else { 0u8 }],
        ValueModel::Unit => Seq::empty(),
        ValueModel::Empty => seq![0u8],
        ValueModel::Text(bs) => bs.push(0u8),
        ValueModel::List(vs) => be_bytes(vs.len(), 4) + enc_seq(vs),
        ValueModel::Dict(ps) => be_bytes(ps.len(), 4) + enc_pairs(ps),
        ValueModel::Optional(o) => match o {
            Some(bv) => seq![1u8] + enc(*bv),
            None => seq![0u8],
        },
        ValueModel::Fallible(r) => match r {
            Ok(bv) => seq![1u8] + enc(*bv),
            Err(bv) => seq![0u8] + enc(*bv),
        },
        ValueModel::Record(vs) => enc_seq(vs),
        ValueModel::Tagged(tag, p) => match p {
            Some(bv) => seq![tag] + enc(*bv),
            None => seq![tag, 0u8],
        },
    }
}

/// The concatenation of the encodings of the elements of `vs`.
pub open spec fn enc_seq(vs: Seq<ValueModel>) -> Seq<u8>
    decreases vs,
{
    if vs.len() == 0 {
        Seq::empty()
    } else {
        enc(vs[0]) + enc_seq(vs.drop_first())
    }
}

/// The concatenation of the encodings of the pairs of `ps`, key before value.
pub open spec fn enc_pairs(ps: Seq<(ValueModel, ValueModel)>) -> Seq<u8>
    decreases ps,
{
    if ps.len() == 0 {
        Seq::empty()
    } else {
        enc(ps[0].0) + enc(ps[0].1) + enc_pairs(ps.drop_first())
    }
}

// ---------------------------------------------------------------------------
// Minimum encoded size
// ---------------------------------------------------------------------------

/// A lower bound on the number of bytes any well-formed value of schema `s`
/// occupies on the wire. The list decoder uses it to refuse element counts
/// that cannot fit in the bytes that remain.
pub open spec fn min_len(s: Schema) -> nat
    decreases s,
{
    match s {
        Schema::U8 => 1,
        Schema::U16 => 2,
        Schema::U32 => 4,
        Schema::U64 => 8,
        Schema::U128 => 16,
        Schema::I8 => 1,
        Schema::I16 => 2,
        Schema::I32 => 4,
        Schema::I64 => 8,
        Schema::I128 => 16,
        Schema::F32 => 4,
        Schema::F64 => 8,
        Schema::Bool => 1,
        Schema::Unit => 0,
        Schema::Empty => 1,
        Schema::Text => 1,
        Schema::List(_) => 4,
        Schema::Dict(_, _) => 4,
        Schema::Optional(_) => 1,
        Schema::Fallible(_, _) => 1,
        Schema::Record(fs) => fields_min(fs@),
        Schema::Tagged(_) => 1,
    }
}

/// The sum of the fields' minimum sizes.
pub open spec fn fields_min(fs: Seq<Schema>) -> nat
    decreases fs,
{
    if fs.len() == 0 {
        0
    } else {
        min_len(fs[0]) + fields_min(fs.drop_first())
    }
}

// ---------------------------------------------------------------------------
// Decoding
// ---------------------------------------------------------------------------

/// The position of the first NUL byte of `b`, if any.
pub open spec fn find_nul(b: Seq<u8>) -> Option<int>
    decreases b.len(),
{
    if b.len() == 0 {
        None
    } else if b[0] == 0 {
        Some(0)
    } else {
        match find_nul(b.skip(1)) {
            Some(i) => Some(i + 1),
            None => None,
        }
    }
}

/// Whether some key occurs twice among the pairs of `ps`.
pub open spec fn has_dup_key(ps: Seq<(ValueModel, ValueModel)>) -> bool {
    exists|i: int, j: int| 0 <= i < j < ps.len() && (#[trigger] ps[i]).0 == (#[trigger] ps[j]).0
}

/// How many fields of the record schema `s` remain from position `i` on.
pub open spec fn rec_rem(s: Schema, i: nat) -> nat {
    match s {
        Schema::Record(fs) => if i <= fs@.len() {
            (fs@.len() - i) as nat
        } else {
            0
        },
        _ => 0,
    }
}

/// What the front of the byte string `b` means under schema `s`: the decoded
/// value and the number of bytes it occupied, or the exact error. This is the
/// ground truth the executable decoder is held to.
pub open spec fn dec(s: Schema, b: Seq<u8>) -> Result<(ValueModel, int), CodecError>
    decreases s, 1nat, 0nat,
{
    match s {
        Schema::U8 => if b.len() < 1 {
            Err(CodecError::UnexpectedEnd)
        } else {
            Ok((ValueModel::U8(b[0]), 1))
        },
        Schema::U16 => if b.len() < 2 {
            Err(CodecError::UnexpectedEnd)
        } else {
            Ok((ValueModel::U16(be_val(b.take(2)) as u16), 2))
        },
        Schema::U32 => if b.len() < 4 {
            Err(CodecError::UnexpectedEnd)
        } else {
            Ok((ValueModel::U32(be_val(b.take(4)) as u32), 4))
        },
        Schema::U64 => if b.len() < 8 {
            Err(CodecError::UnexpectedEnd)
        } else {
            Ok((ValueModel::U64(be_val(b.take(8)) as u64), 8))
        },
        Schema::U128 => if b.len() < 16 {
            Err(CodecError::UnexpectedEnd)
        } else {
            Ok((ValueModel::U128(be_val(b.take(16)) as u128), 16))
        },
        Schema::I8 => if b.len() < 1 {
            Err(CodecError::UnexpectedEnd)
        } else {
            Ok((ValueModel::I8(bits_to_sign(be_val(b.take(1)), pow256(1)) as i8), 1))
        },
        Schema::I16 => if b.len() < 2 {
            Err(CodecError::UnexpectedEnd)
        } else {
            Ok((ValueModel::I16(bits_to_sign(be_val(b.take(2)), pow256(2)) as i16), 2))
        },
        Schema::I32 => if b.len() < 4 {
            Err(CodecError::UnexpectedEnd)
        } else {
            Ok((ValueModel::I32(bits_to_sign(be_val(b.take(4)), pow256(4)) as i32), 4))
        },
        Schema::I64 => if b.len() < 8 {
            Err(CodecError::UnexpectedEnd)
        } else {
            Ok(
                (
                    ValueModel::I64(
                        bits_to_sign(be_val(b.take(8)), pow256(8)) as i64,
                    ),
                    8,
                ),
            )
        },
        Schema::I128 => if b.len() < 16 {
            Err(CodecError::UnexpectedEnd)
        } else {
            Ok(
                (
                    ValueModel::I128(
                        bits_to_sign(be_val(b.take(16)), pow256(16)) as i128,
                    ),
                    16,
                ),
            )
        },
        Schema::F32 => if b.len() < 4 {
            Err(CodecError::UnexpectedEnd)
        } else {
            Ok((ValueModel::F32(be_val(b.take(4)) as u32), 4))
        },
        Schema::F64 => if b.len() < 8 {
            Err(CodecError::UnexpectedEnd)
        } else {
            Ok((ValueModel::F64(be_val(b.take(8)) as u64), 8))
        },
        Schema::Bool => if b.len() < 1 {
            Err(CodecError::UnexpectedEnd)
        } else {
            Ok((ValueModel::Bool(b[0] == 1), 1))
        },
        Schema::Unit => Ok((ValueModel::Unit, 0)),
        Schema::Empty => if b.len() < 1 {
            Err(CodecError::UnexpectedEnd)
        } else {
            Ok((ValueModel::Empty, 1))
        },
        Schema::Text => match find_nul(b) {
            None => Err(CodecError::UnexpectedEnd),
            Some(i) => if is_utf8(b.take(i)) {
                Ok((ValueModel::Text(b.take(i)), i + 1))
            } else {
                Err(CodecError::InvalidUtf8)
            },
        },
        Schema::List(t) => if b.len() < 4 {
            Err(CodecError::UnexpectedEnd)
        } else {
            let n = be_val(b.take(4));
            if min_len(*t) >= 1 && n > b.len() - 4 {
                Err(CodecError::OversizedLength)
            } else {
                match dec_seq(*t, n, b.skip(4)) {
                    Ok((vs, m)) => Ok((ValueModel::List(vs), 4 + m)),
                    Err(e) => Err(e),
                }
            }
        },
        Schema::Dict(_, _) => if b.len() < 4 {
            Err(CodecError::UnexpectedEnd)
        } else {
            let n = be_val(b.take(4));
            if pair_min(s) >= 1 && n > b.len() - 4 {
                Err(CodecError::OversizedLength)
            } else {
                match dec_pairs(s, n, b.skip(4)) {
                    Ok((ps, m)) => if has_dup_key(ps) {
                        Err(CodecError::DuplicateKey)
                    } else {
                        Ok((ValueModel::Dict(ps), 4 + m))
                    },
                    Err(e) => Err(e),
                }
            }
        },
        Schema::Optional(t) => if b.len() < 1 {
            Err(CodecError::UnexpectedEnd)
        } else if b[0] == 1 {
            match dec(*t, b.skip(1)) {
                Ok((p, n)) => Ok((ValueModel::Optional(Some(Box::new(p))), 1 + n)),
                Err(e) => Err(e),
            }
        } else {
            Ok((ValueModel::Optional(None), 1))
        },
        Schema::Fallible(ta, te) => if b.len() < 1 {
            Err(CodecError::UnexpectedEnd)
        } else if b[0] == 1 {
            match dec(*ta, b.skip(1)) {
                Ok((p, n)) => Ok((ValueModel::Fallible(Ok(Box::new(p))), 1 + n)),
                Err(e) => Err(e),
            }
        } else {
            match dec(*te, b.skip(1)) {
                Ok((p, n)) => Ok((ValueModel::Fallible(Err(Box::new(p))), 1 + n)),
                Err(e) => Err(e),
            }
        },
        Schema::Record(_) => match dec_fields(s, 0, b) {
            Ok((vs, m)) => Ok((ValueModel::Record(vs), m)),
            Err(e) => Err(e),
        },
        Schema::Tagged(arms) => if b.len() < 1 {
            Err(CodecError::UnexpectedEnd)
        } else {
            let tag = b[0];
            if arms@.len() <= tag as int {
                Err(CodecError::BadVariantTag)
            } else {
                match arms@[tag as int] {
                    Some(t) => match dec(t, b.skip(1)) {
                        Ok((p, n)) => Ok((ValueModel::Tagged(tag, Some(Box::new(p))), 1 + n)),
                        Err(e) => Err(e),
                    },
                    None => if b.len() < 2 {
                        Err(CodecError::UnexpectedEnd)
                    } else {
                        Ok((ValueModel::Tagged(tag, None), 2))
                    },
                }
            }
        },
    }
}

/// The least bytes one key/value pair of the map schema `s` can occupy.
pub open spec fn pair_min(s: Schema) -> nat {
    match s {
        Schema::Dict(tk, tv) => min_len(*tk) + min_len(*tv),
        _ => 0,
    }
}

/// `n` consecutive values of schema `t` at the front of `b`.
pub open spec fn dec_seq(t: Schema, n: nat, b: Seq<u8>) -> Result<
    (Seq<ValueModel>, int),
    CodecError,
>
    decreases t, 2nat, n,
{
    if n == 0 {
        Ok((Seq::empty(), 0))
    } else {
        match dec(t, b) {
            Ok((v, k)) => match dec_seq(t, (n - 1) as nat, b.skip(k)) {
                Ok((vs, m)) => Ok((seq![v] + vs, k + m)),
                Err(e) => Err(e),
            },
            Err(e) => Err(e),
        }
    }
}

/// `n` consecutive key/value pairs of the map schema `s` at the front of `b`.
pub open spec fn dec_pairs(s: Schema, n: nat, b: Seq<u8>) -> Result<
    (Seq<(ValueModel, ValueModel)>, int),
    CodecError,
>
    decreases s, 0nat, n,
{
    match s {
        Schema::Dict(tk, tv) => if n == 0 {
            Ok((Seq::empty(), 0))
        } else {
            match dec(*tk, b) {
                Ok((kv, kn)) => match dec(*tv, b.skip(kn)) {
                    Ok((vv, vn)) => match dec_pairs(s, (n - 1) as nat, b.skip(kn + vn)) {
                        Ok((ps, m)) => Ok((seq![(kv, vv)] + ps, kn + vn + m)),
                        Err(e) => Err(e),
                    },
                    Err(e) => Err(e),
                },
                Err(e) => Err(e),
            }
        },
        _ => Err(CodecError::UnexpectedEnd),
    }
}

/// The fields of the record schema `s` from field `i` on, at the front of `b`.
pub open spec fn dec_fields(s: Schema, i: nat, b: Seq<u8>) -> Result<
    (Seq<ValueModel>, int),
    CodecError,
>
    decreases s, 0nat, rec_rem(s, i),
{
    match s {
        Schema::Record(fs) => if i >= fs@.len() {
            Ok((Seq::empty(), 0))
        } else {
            match dec(fs@[i as int], b) {
                Ok((v, k)) => match dec_fields(s, i + 1, b.skip(k)) {
                    Ok((vs, m)) => Ok((seq![v] + vs, k + m)),
                    Err(e) => Err(e),
                },
                Err(e) => Err(e),
            }
        },
        _ => Err(CodecError::UnexpectedEnd),
    }
}


// ---------------------------------------------------------------------------
// Facts about big-endian integers
// ---------------------------------------------------------------------------

/// Powers of 256 never shrink as the exponent grows.
pub proof fn lemma_pow256_mono(a: nat, b: nat)
    requires
        a <= b,
    ensures
        pow256(a) <= pow256(b),
    decreases b,
{
    if a < b {
        lemma_pow256_mono(a, (b - 1) as nat);
        assert(pow256(b) == 256 * pow256((b - 1) as nat));
    }
}

/// A `w`-byte field is exactly `w` bytes long.
pub proof fn lemma_be_bytes_len(x: nat, w: nat)
    ensures
        be_bytes(x, w).len() == w,
    decreases w,
{
    if w > 0 {
        lemma_be_bytes_len(x / 256, (w - 1) as nat);
    }
}

/// The value of a byte string fits in as many bytes as it has.
pub proof fn lemma_be_val_bound(b: Seq<u8>)
    ensures
        be_val(b) < pow256(b.len()),
    decreases b.len(),
{
    if b.len() > 0 {
        lemma_be_val_bound(b.drop_last());
        let p = pow256((b.len() - 1) as nat);
        assert(be_val(b.drop_last()) * 256 + (b.last() as nat) < 256 * p) by (nonlinear_arith)
            requires
                be_val(b.drop_last()) < p,
                b.last() < 256,
        ;
    }
}

/// Writing a value that fits and reading it back is the identity.
pub proof fn lemma_be_val_be_bytes(x: nat, w: nat)
    requires
        x < pow256(w),
    ensures
        be_val(be_bytes(x, w)) == x,
    decreases w,
{
    if w == 0 {
        assert(pow256(0) == 1);
    } else {
        let w1 = (w - 1) as nat;
        lemma_be_bytes_len(x / 256, w1);
        assert(be_bytes(x, w).drop_last() =~= be_bytes(x / 256, w1));
        assert(x / 256 < pow256(w1)) by (nonlinear_arith)
            requires
                x < 256 * pow256(w1),
        ;
        lemma_be_val_be_bytes(x / 256, w1);
        assert((x / 256) * 256 + x % 256 == x) by (nonlinear_arith);
    }
}

// ---------------------------------------------------------------------------
// Facts about models
// ---------------------------------------------------------------------------

/// `model_seq` is the pointwise model of its input.
pub proof fn lemma_model_seq(vs: Seq<Value>)
    ensures
        model_seq(vs).len() == vs.len(),
        forall|i: int| 0 <= i < vs.len() ==> model_seq(vs)[i] == model(#[trigger] vs[i]),
    decreases vs,
{
    if vs.len() > 0 {
        lemma_model_seq(vs.drop_first());
        assert forall|i: int| 0 <= i < vs.len() implies model_seq(vs)[i] == model(
            #[trigger] vs[i],
        ) by {
            if i > 0 {
                assert(vs.drop_first()[i - 1] == vs[i]);
                assert(model_seq(vs)[i] == model_seq(vs.drop_first())[i - 1]);
            }
        }
    }
}

/// `model_pairs` is the pointwise model of its input.
pub proof fn lemma_model_pairs(ps: Seq<(Value, Value)>)
    ensures
        model_pairs(ps).len() == ps.len(),
        forall|i: int|
            0 <= i < ps.len() ==> model_pairs(ps)[i] == (
                model((#[trigger] ps[i]).0),
                model(ps[i].1),
            ),
    decreases ps,
{
    if ps.len() > 0 {
        lemma_model_pairs(ps.drop_first());
        assert forall|i: int|
            0 <= i < ps.len() implies model_pairs(ps)[i] == (
            model((#[trigger] ps[i]).0),
            model(ps[i].1),
        ) by {
            if i > 0 {
                assert(ps.drop_first()[i - 1] == ps[i]);
                assert(model_pairs(ps)[i] == model_pairs(ps.drop_first())[i - 1]);
            }
        }
    }
}

// ---------------------------------------------------------------------------
// Executable big-endian helpers
// ---------------------------------------------------------------------------

/// The largest field width in use spans the whole of `u128`.
pub proof fn lemma_pow256_16()
    ensures
        pow256(1) == 0x100,
        pow256(2) == 0x1_0000,
        pow256(4) == 0x1_0000_0000,
        pow256(8) == 0x1_0000_0000_0000_0000,
        pow256(16) == 0x1_0000_0000_0000_0000_0000_0000_0000_0000,
{
    reveal_with_fuel(pow256, 17);
}

/// Appends the `w` big-endian bytes of `x` to `out`.
pub(crate) fn push_be(out: &mut Vec<u8>, x: u128, w: usize)
    ensures
        final(out)@ == old(out)@ + be_bytes(x as nat, w as nat),
    decreases w,
{
    if w == 0 {
        assert(out@ =~= old(out)@ + be_bytes(x as nat, 0));
    } else {
        push_be(out, x / 256, w - 1);
        out.push((x % 256) as u8);
        assert(out@ =~= old(out)@ + be_bytes(x as nat, w as nat));
    }
}

/// Reads a `w`-byte big-endian unsigned integer at `pos`.
fn read_be(data: &[u8], pos: usize, w: usize) -> (r: u128)
    requires
        pos + w <= data@.len(),
        w <= 16,
    ensures
        r as nat == be_val(data@.subrange(pos as int, pos + w)),
{
    proof {
        lemma_pow256_16();
    }
    let dlen: usize = data.len();
    let mut acc: u128 = 0;
    let mut i: usize = 0;
    while i < w
        invariant
            0 <= i <= w,
            w <= 16,
            pos + w <= dlen,
            dlen == data@.len(),
            acc as nat == be_val(data@.subrange(pos as int, pos + i)),
            pow256(16) == 0x1_0000_0000_0000_0000_0000_0000_0000_0000,
        decreases w - i,
    {
        proof {
            lemma_be_val_bound(data@.subrange(pos as int, pos + i));
            lemma_pow256_mono((i + 1) as nat, 16);
            assert(data@.subrange(pos as int, pos + i + 1).drop_last() =~= data@.subrange(
                pos as int,
                pos + i,
            ));
            assert(acc as nat * 256 + (data@[pos + i] as nat) < 256 * pow256(i as nat))
                by (nonlinear_arith)
                requires
                    (acc as nat) < pow256(i as nat),
                    data@[pos + i] < 256,
            ;
        }
        acc = acc * 256 + (data[pos + i] as u128);
        i = i + 1;
    }
    assert(data@.subrange(pos as int, pos + w) =~= data@.subrange(pos as int, pos + i));
    acc
}


/// Appending one value appends its model.
pub proof fn lemma_model_seq_push(vs: Seq<Value>, v: Value)
    ensures
        model_seq(vs.push(v)) == model_seq(vs).push(model(v)),
{
    lemma_model_seq(vs);
    lemma_model_seq(vs.push(v));
    assert forall|k: int|
        0 <= k < vs.len() + 1 implies model_seq(vs.push(v))[k] == model_seq(vs).push(model(v))[k] by {
        if k < vs.len() {
            assert(vs.push(v)[k] == vs[k]);
        } else {
            assert(vs.push(v)[k] == v);
        }
    }
    assert(model_seq(vs.push(v)) =~= model_seq(vs).push(model(v)));
}

/// Appending one pair appends its model.
pub proof fn lemma_model_pairs_push(ps: Seq<(Value, Value)>, kv: Value, vv: Value)
    ensures
        model_pairs(ps.push((kv, vv))) == model_pairs(ps).push((model(kv), model(vv))),
{
    lemma_model_pairs(ps);
    lemma_model_pairs(ps.push((kv, vv)));
    assert forall|k: int|
        0 <= k < ps.len() + 1 implies model_pairs(ps.push((kv, vv)))[k] == model_pairs(ps).push(
        (model(kv), model(vv)),
    )[k] by {
        if k < ps.len() {
            assert(ps.push((kv, vv))[k] == ps[k]);
        } else {
            assert(ps.push((kv, vv))[k] == (kv, vv));
        }
    }
    assert(model_pairs(ps.push((kv, vv))) =~= model_pairs(ps).push((model(kv), model(vv))));
}

// ---------------------------------------------------------------------------
// Facts about concatenated encodings
// ---------------------------------------------------------------------------

/// Extending a prefix of a sequence by one element appends that element's
/// encoding.
pub proof fn lemma_enc_seq_take(m: Seq<ValueModel>, i: int)
    requires
        0 <= i < m.len(),
    ensures
        enc_seq(m.take(i + 1)) == enc_seq(m.take(i)) + enc(m[i]),
    decreases i,
{
    if i == 0 {
        assert(m.take(1) =~= seq![m[0]]);
        assert(seq![m[0]].drop_first() =~= Seq::<ValueModel>::empty());
        assert(m.take(0) =~= Seq::<ValueModel>::empty());
        assert(enc_seq(m.take(i + 1)) =~= enc_seq(m.take(i)) + enc(m[i]));
    } else {
        lemma_enc_seq_take(m.drop_first(), i - 1);
        assert(m.take(i + 1).drop_first() =~= m.drop_first().take(i));
        assert(m.take(i).drop_first() =~= m.drop_first().take(i - 1));
        assert(m.take(i + 1)[0] == m[0]);
        assert(m.take(i)[0] == m[0]);
        assert(m.drop_first()[i - 1] == m[i]);
        assert(enc_seq(m.take(i + 1)) =~= enc_seq(m.take(i)) + enc(m[i]));
    }
}

/// The pairwise analogue of [`lemma_enc_seq_take`].
pub proof fn lemma_enc_pairs_take(m: Seq<(ValueModel, ValueModel)>, i: int)
    requires
        0 <= i < m.len(),
    ensures
        enc_pairs(m.take(i + 1)) == enc_pairs(m.take(i)) + enc(m[i].0) + enc(m[i].1),
    decreases i,
{
    if i == 0 {
        assert(m.take(1) =~= seq![m[0]]);
        assert(seq![m[0]].drop_first() =~= Seq::<(ValueModel, ValueModel)>::empty());
        assert(m.take(0) =~= Seq::<(ValueModel, ValueModel)>::empty());
        assert(enc_pairs(m.take(i + 1)) =~= enc_pairs(m.take(i)) + enc(m[i].0) + enc(m[i].1));
    } else {
        lemma_enc_pairs_take(m.drop_first(), i - 1);
        assert(m.take(i + 1).drop_first() =~= m.drop_first().take(i));
        assert(m.take(i).drop_first() =~= m.drop_first().take(i - 1));
        assert(m.take(i + 1)[0] == m[0]);
        assert(m.take(i)[0] == m[0]);
        assert(m.drop_first()[i - 1] == m[i]);
        assert(enc_pairs(m.take(i + 1)) =~= enc_pairs(m.take(i)) + enc(m[i].0) + enc(m[i].1));
    }
}

// ---------------------------------------------------------------------------
// The executable encoder
// ---------------------------------------------------------------------------

/// Appends the wire bytes of `v` to `out`: exactly [`enc`] of its model.
#[verifier::loop_isolation(false)]
pub fn encode(v: &Value, out: &mut Vec<u8>)
    ensures
        final(out)@ == old(out)@ + enc(model(*v)),
    decreases v,
{
    proof {
        lemma_pow256_16();
    }
    match v {
        Value::U8(x) => {
            out.push(*x);
            assert(out@ =~= old(out)@ + enc(model(*v)));
        },
        Value::U16(x) => {
            push_be(out, *x as u128, 2);
        },
        Value::U32(x) => {
            push_be(out, *x as u128, 4);
        },
        Value::U64(x) => {
            push_be(out, *x as u128, 8);
        },
        Value::U128(x) => {
            push_be(out, *x, 16);
        },
        Value::I8(x) => {
            let u: u8 = if *x >= 0 {
                *x as u8
            } else {
                ((*x as i16) + 0x100i16) as u8
            };
            assert(u as nat == sign_to_bits(*x as int, pow256(1)));
            push_be(out, u as u128, 1);
        },
        Value::I16(x) => {
            let u: u16 = if *x >= 0 {
                *x as u16
            } else {
                ((*x as i32) + 0x1_0000i32) as u16
            };
            assert(u as nat == sign_to_bits(*x as int, pow256(2)));
            push_be(out, u as u128, 2);
        },
        Value::I32(x) => {
            let u: u32 = if *x >= 0 {
                *x as u32
            } else {
                ((*x as i64) + 0x1_0000_0000i64) as u32
            };
            assert(u as nat == sign_to_bits(*x as int, pow256(4)));
            push_be(out, u as u128, 4);
        },
        Value::I64(x) => {
            let u: u64 = if *x >= 0 {
                *x as u64
            } else {
                ((*x as i128) + 0x1_0000_0000_0000_0000i128) as u64
            };
            assert(u as nat == sign_to_bits(*x as int, pow256(8)));
            push_be(out, u as u128, 8);
        },
        Value::I128(x) => {
            let u: u128 = if *x >= 0 {
                *x as u128
            } else {
                let y: i128 = (*x + 0x4000_0000_0000_0000_0000_0000_0000_0000i128)
                    + 0x4000_0000_0000_0000_0000_0000_0000_0000i128;
                (y as u128) + 0x8000_0000_0000_0000_0000_0000_0000_0000u128
            };
            assert(u as nat == sign_to_bits(*x as int, pow256(16)));
            push_be(out, u, 16);
        },
        Value::F32(bits) => {
            push_be(out, *bits as u128, 4);
        },
        Value::F64(bits) => {
            push_be(out, *bits as u128, 8);
        },
        Value::Bool(x) => {
            out.push(if *x { 1u8 } else { 0u8 });
            assert(out@ =~= old(out)@ + enc(model(*v)));
        },
        Value::Unit => {
            assert(out@ =~= old(out)@ + enc(model(*v)));
        },
        Value::Empty => {
            out.push(0u8);
            assert(out@ =~= old(out)@ + enc(model(*v)));
        },
        Value::Text(bs) => {
            let n = bs.len();
            let mut i: usize = 0;
            while i < n
                invariant
                    0 <= i <= n,
                    n == bs@.len(),
                    out@ == old(out)@ + bs@.take(i as int),
                decreases n - i,
            {
                out.push(bs[i]);
                assert(out@ =~= old(out)@ + bs@.take(i + 1));
                i = i + 1;
            }
            assert(bs@.take(n as int) =~= bs@);
            out.push(0u8);
            assert(out@ =~= old(out)@ + enc(model(*v)));
        },
        Value::List(vs) => {
            proof {
                lemma_model_seq(vs@);
            }
            let n = vs.len();
            push_be(out, n as u128, 4);
            let ghost m = model_seq(vs@);
            let ghost base = out@;
            let mut i: usize = 0;
            while i < n
                invariant
                    0 <= i <= n,
                    n == vs@.len(),
                    m == model_seq(vs@),
                    m.len() == n,
                    forall|k: int| 0 <= k < n ==> m[k] == model(#[trigger] vs@[k]),
                    out@ == base + enc_seq(m.take(i as int)),
                decreases n - i,
            {
                encode(&vs[i], out);
                proof {
                    lemma_enc_seq_take(m, i as int);
                }
                assert(out@ =~= base + enc_seq(m.take(i + 1)));
                i = i + 1;
            }
            assert(m.take(n as int) =~= m);
            assert(out@ =~= old(out)@ + enc(model(*v)));
        },
        Value::Dict(ps) => {
            proof {
                lemma_model_pairs(ps@);
            }
            let n = ps.len();
            push_be(out, n as u128, 4);
            let ghost m = model_pairs(ps@);
            let ghost base = out@;
            let mut i: usize = 0;
            while i < n
                invariant
                    0 <= i <= n,
                    n == ps@.len(),
                    m == model_pairs(ps@),
                    m.len() == n,
                    forall|k: int|
                        0 <= k < n ==> m[k] == (model((#[trigger] ps@[k]).0), model(ps@[k].1)),
                    out@ == base + enc_pairs(m.take(i as int)),
                decreases n - i,
            {
                let pair = &ps[i];
                encode(&pair.0, out);
                encode(&pair.1, out);
                proof {
                    lemma_enc_pairs_take(m, i as int);
                }
                assert(out@ =~= base + enc_pairs(m.take(i + 1)));
                i = i + 1;
            }
            assert(m.take(n as int) =~= m);
            assert(out@ =~= old(out)@ + enc(model(*v)));
        },
        Value::Optional(o) => {
            match o {
                Some(bv) => {
                    out.push(1u8);
                    let ghost mid = out@;
                    encode(&**bv, out);
                    assert(out@ =~= old(out)@ + enc(model(*v)));
                },
                None => {
                    out.push(0u8);
                    assert(out@ =~= old(out)@ + enc(model(*v)));
                },
            }
        },
        Value::Fallible(r) => {
            match r {
                Ok(bv) => {
                    out.push(1u8);
                    encode(&**bv, out);
                    assert(out@ =~= old(out)@ + enc(model(*v)));
                },
                Err(bv) => {
                    out.push(0u8);
                    encode(&**bv, out);
                    assert(out@ =~= old(out)@ + enc(model(*v)));
                },
            }
        },
        Value::Record(vs) => {
            proof {
                lemma_model_seq(vs@);
            }
            let n = vs.len();
            let ghost m = model_seq(vs@);
            let ghost base = out@;
            let mut i: usize = 0;
            while i < n
                invariant
                    0 <= i <= n,
                    n == vs@.len(),
                    m == model_seq(vs@),
                    m.len() == n,
                    forall|k: int| 0 <= k < n ==> m[k] == model(#[trigger] vs@[k]),
                    out@ == base + enc_seq(m.take(i as int)),
                decreases n - i,
            {
                encode(&vs[i], out);
                proof {
                    lemma_enc_seq_take(m, i as int);
                }
                assert(out@ =~= base + enc_seq(m.take(i + 1)));
                i = i + 1;
            }
            assert(m.take(n as int) =~= m);
            assert(out@ =~= old(out)@ + enc(model(*v)));
        },
        Value::Tagged(tag, p) => {
            match p {
                Some(bv) => {
                    out.push(*tag);
                    encode(&**bv, out);
                    assert(out@ =~= old(out)@ + enc(model(*v)));
                },
                None => {
                    out.push(*tag);
                    out.push(0u8);
                    assert(out@ =~= old(out)@ + enc(model(*v)));
                },
            }
        },
    }
}

/// The wire bytes of `v`, as a fresh vector.
pub fn encode_to_vec(v: &Value) -> (r: Vec<u8>)
    ensures
        r@ == enc(model(*v)),
{
    let mut out: Vec<u8> = Vec::new();
    encode(v, &mut out);
    assert(out@ =~= enc(model(*v)));
    out
}


// ---------------------------------------------------------------------------
// Structural equality of values
// ---------------------------------------------------------------------------

/// Whether two executable values have the same model. The decoder uses this
/// to refuse maps that carry a key twice.
#[verifier::loop_isolation(false)]
pub fn value_eq(a: &Value, b: &Value) -> (r: bool)
    ensures
        r == (model(*a) == model(*b)),
    decreases a,
{
    match (a, b) {
        (Value::U8(x), Value::U8(y)) => *x == *y,
        (Value::U16(x), Value::U16(y)) => *x == *y,
        (Value::U32(x), Value::U32(y)) => *x == *y,
        (Value::U64(x), Value::U64(y)) => *x == *y,
        (Value::U128(x), Value::U128(y)) => *x == *y,
        (Value::I8(x), Value::I8(y)) => *x == *y,
        (Value::I16(x), Value::I16(y)) => *x == *y,
        (Value::I32(x), Value::I32(y)) => *x == *y,
        (Value::I64(x), Value::I64(y)) => *x == *y,
        (Value::I128(x), Value::I128(y)) => *x == *y,
        (Value::F32(x), Value::F32(y)) => *x == *y,
        (Value::F64(x), Value::F64(y)) => *x == *y,
        (Value::Bool(x), Value::Bool(y)) => *x == *y,
        (Value::Unit, Value::Unit) => true,
        (Value::Empty, Value::Empty) => true,
        (Value::Text(x), Value::Text(y)) => {
            if x.len() != y.len() {
                assert(model(*a) != model(*b));
                false
            } else {
                let n = x.len();
                let mut i: usize = 0;
                let mut same: bool = true;
                while i < n
                    invariant
                        0 <= i <= n,
                        same == (forall|k: int| 0 <= k < i ==> x@[k] == y@[k]),
                    decreases n - i,
                {
                    if x[i] != y[i] {
                        same = false;
                    }
                    i = i + 1;
                }
                if same {
                    assert(x@ =~= y@);
                }
                same
            }
        },
        (Value::List(x), Value::List(y)) => {
            proof {
                lemma_model_seq(x@);
                lemma_model_seq(y@);
            }
            if x.len() != y.len() {
                assert(model(*a) != model(*b));
                false
            } else {
                let n = x.len();
                let mut i: usize = 0;
                let mut same: bool = true;
                while i < n
                    invariant
                        0 <= i <= n,
                        same == (forall|k: int|
                            0 <= k < i ==> model_seq(x@)[k] == model_seq(y@)[k]),
                    decreases n - i,
                {
                    if !value_eq(&x[i], &y[i]) {
                        same = false;
                    }
                    i = i + 1;
                }
                if same {
                    assert(model_seq(x@) =~= model_seq(y@));
                }
                same
            }
        },
        (Value::Dict(x), Value::Dict(y)) => {
            proof {
                lemma_model_pairs(x@);
                lemma_model_pairs(y@);
            }
            if x.len() != y.len() {
                assert(model(*a) != model(*b));
                false
            } else {
                let n = x.len();
                let mut i: usize = 0;
                let mut same: bool = true;
                while i < n
                    invariant
                        0 <= i <= n,
                        same == (forall|k: int|
                            0 <= k < i ==> model_pairs(x@)[k] == model_pairs(y@)[k]),
                    decreases n - i,
                {
                    let px = &x[i];
                    let py = &y[i];
                    if !value_eq(&px.0, &py.0) || !value_eq(&px.1, &py.1) {
                        same = false;
                    }
                    i = i + 1;
                }
                if same {
                    assert(model_pairs(x@) =~= model_pairs(y@));
                }
                same
            }
        },
        (Value::Optional(x), Value::Optional(y)) => {
            match (x, y) {
                (Some(bx), Some(by)) => value_eq(&**bx, &**by),
                (None, None) => true,
                _ => false,
            }
        },
        (Value::Fallible(x), Value::Fallible(y)) => {
            match (x, y) {
                (Ok(bx), Ok(by)) => value_eq(&**bx, &**by),
                (Err(bx), Err(by)) => value_eq(&**bx, &**by),
                _ => false,
            }
        },
        (Value::Record(x), Value::Record(y)) => {
            proof {
                lemma_model_seq(x@);
                lemma_model_seq(y@);
            }
            if x.len() != y.len() {
                assert(model(*a) != model(*b));
                false
            } else {
                let n = x.len();
                let mut i: usize = 0;
                let mut same: bool = true;
                while i < n
                    invariant
                        0 <= i <= n,
                        same == (forall|k: int|
                            0 <= k < i ==> model_seq(x@)[k] == model_seq(y@)[k]),
                    decreases n - i,
                {
                    if !value_eq(&x[i], &y[i]) {
                        same = false;
                    }
                    i = i + 1;
                }
                if same {
                    assert(model_seq(x@) =~= model_seq(y@));
                }
                same
            }
        },
        (Value::Tagged(tx, px), Value::Tagged(ty, py)) => {
            if *tx != *ty {
                false
            } else {
                match (px, py) {
                    (Some(bx), Some(by)) => value_eq(&**bx, &**by),
                    (None, None) => true,
                    _ => false,
                }
            }
        },
        _ => {
            assert(model(*a) != model(*b));
            false
        },
    }
}


// ---------------------------------------------------------------------------
// Facts about the NUL scan
// ---------------------------------------------------------------------------

/// If position `i` holds the first zero byte, the scan finds exactly it.
pub proof fn lemma_find_nul_at(b: Seq<u8>, i: int)
    requires
        0 <= i < b.len(),
        b[i] == 0,
        forall|k: int| 0 <= k < i ==> b[k] != 0,
    ensures
        find_nul(b) == Some(i),
    decreases i,
{
    if i > 0 {
        assert(forall|k: int| 0 <= k < i - 1 ==> b.skip(1)[k] == b[k + 1]);
        lemma_find_nul_at(b.skip(1), i - 1);
    }
}

/// A byte string without zero bytes has nothing for the scan to find.
pub proof fn lemma_find_nul_none(b: Seq<u8>)
    requires
        forall|k: int| 0 <= k < b.len() ==> b[k] != 0,
    ensures
        find_nul(b) is None,
    decreases b.len(),
{
    if b.len() > 0 {
        assert(forall|k: int| 0 <= k < b.len() - 1 ==> b.skip(1)[k] == b[k + 1]);
        lemma_find_nul_none(b.skip(1));
    }
}

// ---------------------------------------------------------------------------
// Executable decoding helpers
// ---------------------------------------------------------------------------

/// Reads a `w`-byte big-endian field, or reports that too few bytes remain.
pub(crate) fn take_fixed(data: &[u8], pos: usize, w: usize) -> (r: Result<u128, CodecError>)
    requires
        pos <= data@.len(),
        1 <= w <= 16,
    ensures
        match r {
            Ok(u) => pos + w <= data@.len() && (u as nat) == be_val(
                data@.skip(pos as int).take(w as int),
            ) && (u as nat) < pow256(w as nat),
            Err(e) => e == CodecError::UnexpectedEnd && data@.len() - pos < w,
        },
{
    if data.len() - pos < w {
        return Err(CodecError::UnexpectedEnd);
    }
    let u = read_be(data, pos, w);
    proof {
        assert(data@.skip(pos as int).take(w as int) =~= data@.subrange(pos as int, pos + w));
        lemma_be_val_bound(data@.subrange(pos as int, pos + w));
    }
    Ok(u)
}

/// Whether every value of schema `s` occupies at least one wire byte.
fn min_positive(s: &Schema) -> (r: bool)
    ensures
        r == (min_len(*s) >= 1),
    decreases s, 1nat, 0nat,
{
    match s {
        Schema::Unit => false,
        Schema::Record(fs) => {
            assert(fs@.skip(0) =~= fs@);
            rec_min_positive(s, fs, 0)
        },
        _ => true,
    }
}

/// Whether the fields of the record schema from index `i` on take any bytes.
fn rec_min_positive(s: &Schema, fs: &Vec<Schema>, i: usize) -> (r: bool)
    requires
        *s matches Schema::Record(g) && g@ == fs@,
        i <= fs@.len(),
    ensures
        r == (fields_min(fs@.skip(i as int)) >= 1),
    decreases s, 0nat, fs@.len() - i,
{
    if i == fs.len() {
        assert(fs@.skip(i as int) =~= Seq::<Schema>::empty());
        false
    } else {
        assert(fs@.skip(i as int).drop_first() =~= fs@.skip(i + 1));
        assert(fs@.skip(i as int)[0] == fs@[i as int]);
        if min_positive(&fs[i]) {
            true
        } else {
            rec_min_positive(s, fs, i + 1)
        }
    }
}

/// Whether `bs` is well-formed UTF-8.
#[verifier::loop_isolation(false)]
fn validate_utf8(bs: &Vec<u8>) -> (r: bool)
    ensures
        r == is_utf8(bs@),
{
    let n = bs.len();
    assert(bs@.skip(0) =~= bs@);
    let mut i: usize = 0;
    while i < n
        invariant
            0 <= i <= n,
            is_utf8(bs@) == is_utf8(bs@.skip(i as int)),
        decreases n - i,
    {
        let ghost rest = bs@.skip(i as int);
        let b0 = bs[i];
        assert(rest[0] == b0);
        if b0 < 0x80 {
            assert(rest.skip(1) =~= bs@.skip(i + 1));
            i = i + 1;
        } else if 0xC2 <= b0 && b0 <= 0xDF {
            if n - i < 2 {
                return false;
            }
            assert(rest[1] == bs@[i + 1]);
            let b1 = bs[i + 1];
            if !(0x80 <= b1 && b1 <= 0xBF) {
                return false;
            }
            assert(rest.skip(2) =~= bs@.skip(i + 2));
            i = i + 2;
        } else if 0xE0 <= b0 && b0 <= 0xEF {
            if n - i < 3 {
                return false;
            }
            assert(rest[1] == bs@[i + 1]);
            assert(rest[2] == bs@[i + 2]);
            let b1 = bs[i + 1];
            let b2 = bs[i + 2];
            let lo: u8 = if b0 == 0xE0 {
                0xA0
            } else {
                0x80
            };
            let hi: u8 = if b0 == 0xED {
                0x9F
            } else {
                0xBF
            };
            if !(lo <= b1 && b1 <= hi) {
                return false;
            }
            if !(0x80 <= b2 && b2 <= 0xBF) {
                return false;
            }
            assert(rest.skip(3) =~= bs@.skip(i + 3));
            i = i + 3;
        } else if 0xF0 <= b0 && b0 <= 0xF4 {
            if n - i < 4 {
                return false;
            }
            assert(rest[1] == bs@[i + 1]);
            assert(rest[2] == bs@[i + 2]);
            assert(rest[3] == bs@[i + 3]);
            let b1 = bs[i + 1];
            let b2 = bs[i + 2];
            let b3 = bs[i + 3];
            let lo: u8 = if b0 == 0xF0 {
                0x90
            } else {
                0x80
            };
            let hi: u8 = if b0 == 0xF4 {
                0x8F
            } else {
                0xBF
            };
            if !(lo <= b1 && b1 <= hi) {
                return false;
            }
            if !(0x80 <= b2 && b2 <= 0xBF) {
                return false;
            }
            if !(0x80 <= b3 && b3 <= 0xBF) {
                return false;
            }
            assert(rest.skip(4) =~= bs@.skip(i + 4));
            i = i + 4;
        } else {
            return false;
        }
    }
    assert(bs@.skip(n as int) =~= Seq::<u8>::empty());
    true
}


// ---------------------------------------------------------------------------
// The executable decoder
// ---------------------------------------------------------------------------

/// Decodes one value of schema `s` from `data` starting at `pos`: exactly
/// what [`dec`] says of the bytes from `pos` on, both on success and on
/// failure. On success the returned position is just past the value.
#[verifier::loop_isolation(false)]
#[verifier::rlimit(100)]
pub fn decode(s: &Schema, data: &[u8], pos: usize) -> (r: Result<(Value, usize), CodecError>)
    requires
        pos <= data@.len(),
    ensures
        match r {
            Ok(p) => pos <= p.1 <= data@.len() && dec(*s, data@.skip(pos as int)) == Ok::<
                (ValueModel, int),
                CodecError,
            >((model(p.0), p.1 - pos)),
            Err(e) => dec(*s, data@.skip(pos as int)) == Err::<(ValueModel, int), CodecError>(e),
        },
    decreases s, 1nat,
{
    let ghost b = data@.skip(pos as int);
    let data_len: usize = data.len();
    proof {
        lemma_pow256_16();
        assert(data_len == data@.len());
    }
    match s {
        Schema::Optional(t) => {
            if data.len() - pos < 1 {
                return Err(CodecError::UnexpectedEnd);
            }
            assert(b[0] == data@[pos as int]);
            if data[pos] == 1 {
                proof {
                    assert(b.skip(1) =~= data@.skip(pos + 1));
                }
                match decode(t, data, pos + 1) {
                    Ok((v, end)) => Ok((Value::Optional(Some(Box::new(v))), end)),
                    Err(e) => Err(e),
                }
            } else {
                Ok((Value::Optional(None), pos + 1))
            }
        },
        Schema::Fallible(ta, te) => {
            if data.len() - pos < 1 {
                return Err(CodecError::UnexpectedEnd);
            }
            assert(b[0] == data@[pos as int]);
            proof {
                assert(b.skip(1) =~= data@.skip(pos + 1));
            }
            if data[pos] == 1 {
                match decode(ta, data, pos + 1) {
                    Ok((v, end)) => Ok((Value::Fallible(Ok(Box::new(v))), end)),
                    Err(e) => Err(e),
                }
            } else {
                match decode(te, data, pos + 1) {
                    Ok((v, end)) => Ok((Value::Fallible(Err(Box::new(v))), end)),
                    Err(e) => Err(e),
                }
            }
        },
        Schema::Tagged(arms) => {
            if data.len() - pos < 1 {
                return Err(CodecError::UnexpectedEnd);
            }
            assert(b[0] == data@[pos as int]);
            let tag = data[pos];
            if arms.len() <= tag as usize {
                return Err(CodecError::BadVariantTag);
            }
            match &arms[tag as usize] {
                Some(t) => {
                    proof {
                        assert(b.skip(1) =~= data@.skip(pos + 1));
                    }
                    match decode(t, data, pos + 1) {
                        Ok((v, end)) => Ok((Value::Tagged(tag, Some(Box::new(v))), end)),
                        Err(e) => Err(e),
                    }
                },
                None => {
                    if data.len() - pos < 2 {
                        return Err(CodecError::UnexpectedEnd);
                    }
                    Ok((Value::Tagged(tag, None), pos + 2))
                },
            }
        },
        Schema::List(t) => {
            match take_fixed(data, pos, 4) {
                Err(e) => Err(e),
                Ok(n128) => {
                    let n = n128 as usize;
                    if min_positive(t) && n > data.len() - pos - 4 {
                        return Err(CodecError::OversizedLength);
                    }
                    proof {
                        assert(b.skip(4) =~= data@.skip(pos + 4));
                    }
                    match decode_seq_n(t, n, data, pos + 4) {
                        Err(e) => Err(e),
                        Ok((elems, end)) => Ok((Value::List(elems), end)),
                    }
                },
            }
        },
        Schema::Dict(tk, tv) => {
            match take_fixed(data, pos, 4) {
                Err(e) => Err(e),
                Ok(n128) => {
                    let n = n128 as usize;
                    let kp = min_positive(tk);
                    let vp = min_positive(tv);
                    if (kp || vp) && n > data.len() - pos - 4 {
                        return Err(CodecError::OversizedLength);
                    }
                    proof {
                        assert(b.skip(4) =~= data@.skip(pos + 4));
                    }
                    match decode_pairs_n(s, &**tk, &**tv, n, data, pos + 4) {
                        Err(e) => Err(e),
                        Ok((pairs, end)) => {
                            if find_dup_key(&pairs) {
                                Err(CodecError::DuplicateKey)
                            } else {
                                Ok((Value::Dict(pairs), end))
                            }
                        },
                    }
                },
            }
        },
        Schema::Record(fs) => {
            match decode_fields_n(s, fs, data, pos) {
                Err(e) => Err(e),
                Ok((flds, end)) => Ok((Value::Record(flds), end)),
            }
        },
        _ => decode_prim(s, data, pos),
    }
}

/// Decodes one value of a leaf schema (every schema without a nested one).
fn decode_prim(s: &Schema, data: &[u8], pos: usize) -> (r: Result<(Value, usize), CodecError>)
    requires
        pos <= data@.len(),
        !(*s matches Schema::Optional(_)),
        !(*s matches Schema::Fallible(_, _)),
        !(*s matches Schema::Tagged(_)),
        !(*s matches Schema::List(_)),
        !(*s matches Schema::Dict(_, _)),
        !(*s matches Schema::Record(_)),
    ensures
        match r {
            Ok(p) => pos <= p.1 <= data@.len() && dec(*s, data@.skip(pos as int)) == Ok::<
                (ValueModel, int),
                CodecError,
            >((model(p.0), p.1 - pos)),
            Err(e) => dec(*s, data@.skip(pos as int)) == Err::<(ValueModel, int), CodecError>(e),
        },
{
    let ghost b = data@.skip(pos as int);
    let data_len: usize = data.len();
    proof {
        lemma_pow256_16();
        assert(data_len == data@.len());
    }
    match s {
        Schema::U8 => {
            if data.len() - pos < 1 {
                return Err(CodecError::UnexpectedEnd);
            }
            assert(b[0] == data@[pos as int]);
            Ok((Value::U8(data[pos]), pos + 1))
        },
        Schema::U16 => {
            match take_fixed(data, pos, 2) {
                Ok(u) => Ok((Value::U16(u as u16), pos + 2)),
                Err(e) => Err(e),
            }
        },
        Schema::U32 => {
            match take_fixed(data, pos, 4) {
                Ok(u) => Ok((Value::U32(u as u32), pos + 4)),
                Err(e) => Err(e),
            }
        },
        Schema::U64 => {
            match take_fixed(data, pos, 8) {
                Ok(u) => Ok((Value::U64(u as u64), pos + 8)),
                Err(e) => Err(e),
            }
        },
        Schema::U128 => {
            match take_fixed(data, pos, 16) {
                Ok(u) => Ok((Value::U128(u), pos + 16)),
                Err(e) => Err(e),
            }
        },
        Schema::I8 => {
            match take_fixed(data, pos, 1) {
                Ok(u) => Ok((Value::I8(to_i8(u)), pos + 1)),
                Err(e) => Err(e),
            }
        },
        Schema::I16 => {
            match take_fixed(data, pos, 2) {
                Ok(u) => Ok((Value::I16(to_i16(u)), pos + 2)),
                Err(e) => Err(e),
            }
        },
        Schema::I32 => {
            match take_fixed(data, pos, 4) {
                Ok(u) => Ok((Value::I32(to_i32(u)), pos + 4)),
                Err(e) => Err(e),
            }
        },
        Schema::I64 => {
            match take_fixed(data, pos, 8) {
                Ok(u) => Ok((Value::I64(to_i64(u)), pos + 8)),
                Err(e) => Err(e),
            }
        },
        Schema::I128 => {
            match take_fixed(data, pos, 16) {
                Ok(u) => Ok((Value::I128(to_i128(u)), pos + 16)),
                Err(e) => Err(e),
            }
        },
        Schema::F32 => {
            match take_fixed(data, pos, 4) {
                Ok(u) => Ok((Value::F32(u as u32), pos + 4)),
                Err(e) => Err(e),
            }
        },
        Schema::F64 => {
            match take_fixed(data, pos, 8) {
                Ok(u) => Ok((Value::F64(u as u64), pos + 8)),
                Err(e) => Err(e),
            }
        },
        Schema::Bool => {
            if data.len() - pos < 1 {
                return Err(CodecError::UnexpectedEnd);
            }
            assert(b[0] == data@[pos as int]);
            Ok((Value::Bool(data[pos] == 1), pos + 1))
        },
        Schema::Unit => Ok((Value::Unit, pos)),
        Schema::Empty => {
            if data.len() - pos < 1 {
                return Err(CodecError::UnexpectedEnd);
            }
            Ok((Value::Empty, pos + 1))
        },
        Schema::Text => decode_text(data, pos),
        _ => {
            proof {
                assert(false);
            }
            Err(CodecError::UnexpectedEnd)
        },
    }
}

/// The signed reading of a one-byte two's-complement pattern.
fn to_i8(u: u128) -> (x: i8)
    requires
        u < pow256(1),
    ensures
        x as int == bits_to_sign(u as nat, pow256(1)),
{
    proof {
        lemma_pow256_16();
    }
    if u < 0x80 {
        u as i8
    } else {
        ((u as i16) - 0x100i16) as i8
    }
}

/// The signed reading of a two-byte two's-complement pattern.
fn to_i16(u: u128) -> (x: i16)
    requires
        u < pow256(2),
    ensures
        x as int == bits_to_sign(u as nat, pow256(2)),
{
    proof {
        lemma_pow256_16();
    }
    if u < 0x8000 {
        u as i16
    } else {
        ((u as i32) - 0x1_0000i32) as i16
    }
}

/// The signed reading of a four-byte two's-complement pattern.
fn to_i32(u: u128) -> (x: i32)
    requires
        u < pow256(4),
    ensures
        x as int == bits_to_sign(u as nat, pow256(4)),
{
    proof {
        lemma_pow256_16();
    }
    if u < 0x8000_0000 {
        u as i32
    } else {
        ((u as i64) - 0x1_0000_0000i64) as i32
    }
}

/// The signed reading of an eight-byte two's-complement pattern.
fn to_i64(u: u128) -> (x: i64)
    requires
        u < pow256(8),
    ensures
        x as int == bits_to_sign(u as nat, pow256(8)),
{
    proof {
        lemma_pow256_16();
    }
    if u < 0x8000_0000_0000_0000 {
        u as i64
    } else {
        ((u as i128) - 0x1_0000_0000_0000_0000i128) as i64
    }
}

/// The signed reading of a sixteen-byte two's-complement pattern.
fn to_i128(u: u128) -> (x: i128)
    requires
        u < pow256(16),
    ensures
        x as int == bits_to_sign(u as nat, pow256(16)),
{
    proof {
        lemma_pow256_16();
    }
    if u < 0x8000_0000_0000_0000_0000_0000_0000_0000 {
        u as i128
    } else {
        let y: i128 = (u - 0x8000_0000_0000_0000_0000_0000_0000_0000u128) as i128;
        (y - 0x4000_0000_0000_0000_0000_0000_0000_0000i128)
            - 0x4000_0000_0000_0000_0000_0000_0000_0000i128
    }
}

/// Decodes one text value: the bytes up to the first NUL, validated as UTF-8.
#[verifier::loop_isolation(false)]
fn decode_text(data: &[u8], pos: usize) -> (r: Result<(Value, usize), CodecError>)
    requires
        pos <= data@.len(),
    ensures
        match r {
            Ok(p) => pos <= p.1 <= data@.len() && dec(Schema::Text, data@.skip(pos as int)) == Ok::<
                (ValueModel, int),
                CodecError,
            >((model(p.0), p.1 - pos)),
            Err(e) => dec(Schema::Text, data@.skip(pos as int)) == Err::<
                (ValueModel, int),
                CodecError,
            >(e),
        },
{
    let ghost b = data@.skip(pos as int);
    let dlen = data.len();
    let mut i: usize = pos;
    while i < dlen && data[i] != 0
        invariant
            pos <= i <= dlen,
            forall|k: int| pos <= k < i ==> data@[k] != 0,
        decreases dlen - i,
    {
        i = i + 1;
    }
    if i == dlen {
        proof {
            assert(forall|k: int| 0 <= k < b.len() ==> b[k] != 0);
            lemma_find_nul_none(b);
        }
        return Err(CodecError::UnexpectedEnd);
    }
    proof {
        assert(b[i - pos] == data@[i as int]);
        assert(forall|k: int| 0 <= k < i - pos ==> b[k] != 0);
        lemma_find_nul_at(b, i - pos);
    }
    let mut buf: Vec<u8> = Vec::new();
    let mut j: usize = pos;
    while j < i
        invariant
            pos <= j <= i,
            buf@ == data@.subrange(pos as int, j as int),
        decreases i - j,
    {
        buf.push(data[j]);
        assert(buf@ =~= data@.subrange(pos as int, j + 1));
        j = j + 1;
    }
    assert(buf@ =~= b.take(i - pos));
    if validate_utf8(&buf) {
        Ok((Value::Text(buf), i + 1))
    } else {
        Err(CodecError::InvalidUtf8)
    }
}

/// Decodes `n` consecutive values of schema `t` starting at `start`:
/// exactly what [`dec_seq`] says of the bytes from `start` on.
#[verifier::loop_isolation(false)]
pub(crate) fn decode_seq_n(t: &Schema, n: usize, data: &[u8], start: usize) -> (r: Result<
    (Vec<Value>, usize),
    CodecError,
>)
    requires
        start <= data@.len(),
    ensures
        match r {
            Ok(p) => start <= p.1 <= data@.len() && dec_seq(*t, n as nat, data@.skip(start as int))
                == Ok::<(Seq<ValueModel>, int), CodecError>((model_seq(p.0@), p.1 - start)),
            Err(e) => dec_seq(*t, n as nat, data@.skip(start as int)) == Err::<
                (Seq<ValueModel>, int),
                CodecError,
            >(e),
        },
    decreases t, 2nat,
{
    let ghost b0 = data@.skip(start as int);
    let mut elems: Vec<Value> = Vec::new();
    let mut cur: usize = start;
    let mut i: usize = 0;
    proof {
        assert(data@.skip(cur as int) == b0);
        match dec_seq(*t, n as nat, b0) {
            Ok(p) => {
                assert(model_seq(elems@) + p.0 =~= p.0);
            },
            Err(_) => {},
        }
    }
    while i < n
        invariant
            0 <= i <= n,
            start <= cur <= data@.len(),
            model_seq(elems@).len() == i,
            dec_seq(*t, n as nat, b0) == (match dec_seq(
                *t,
                (n - i) as nat,
                data@.skip(cur as int),
            ) {
                Ok(p) => Ok::<(Seq<ValueModel>, int), CodecError>(
                    (model_seq(elems@) + p.0, (cur - start) + p.1),
                ),
                Err(e) => Err(e),
            }),
        decreases n - i,
    {
        proof {
            lemma_model_seq(elems@);
        }
        match decode(t, data, cur) {
            Err(e) => {
                return Err(e);
            },
            Ok((v, end)) => {
                let ghost eold = elems@;
                proof {
                    assert(data@.skip(cur as int).skip(end - cur) =~= data@.skip(end as int));
                    lemma_model_seq_push(eold, v);
                    match dec_seq(*t, ((n - i) - 1) as nat, data@.skip(end as int)) {
                        Ok(p2) => {
                            assert(model_seq(eold.push(v)) + p2.0 =~= model_seq(eold) + (seq![
                                model(v),
                            ] + p2.0));
                        },
                        Err(_) => {},
                    }
                }
                elems.push(v);
                cur = end;
                i = i + 1;
            },
        }
    }
    proof {
        lemma_model_seq(elems@);
        assert(model_seq(elems@) + Seq::<ValueModel>::empty() =~= model_seq(elems@));
    }
    Ok((elems, cur))
}

/// Decodes `n` consecutive key/value pairs of the map schema `s`
/// starting at `start`: exactly what [`dec_pairs`] says.
#[verifier::loop_isolation(false)]
fn decode_pairs_n(s: &Schema, tk: &Schema, tv: &Schema, n: usize, data: &[u8], start: usize) -> (r:
    Result<(Vec<(Value, Value)>, usize), CodecError>)
    requires
        start <= data@.len(),
        *s matches Schema::Dict(bk, bv) && *bk == *tk && *bv == *tv,
    ensures
        match r {
            Ok(p) => start <= p.1 <= data@.len() && dec_pairs(
                *s,
                n as nat,
                data@.skip(start as int),
            ) == Ok::<(Seq<(ValueModel, ValueModel)>, int), CodecError>(
                (model_pairs(p.0@), p.1 - start),
            ),
            Err(e) => dec_pairs(*s, n as nat, data@.skip(start as int)) == Err::<
                (Seq<(ValueModel, ValueModel)>, int),
                CodecError,
            >(e),
        },
    decreases s, 0nat,
{
    let ghost b0 = data@.skip(start as int);
    let mut pairs: Vec<(Value, Value)> = Vec::new();
    let mut cur: usize = start;
    let mut i: usize = 0;
    proof {
        assert(data@.skip(cur as int) == b0);
        match dec_pairs(*s, n as nat, b0) {
            Ok(p) => {
                assert(model_pairs(pairs@) + p.0 =~= p.0);
            },
            Err(_) => {},
        }
    }
    while i < n
        invariant
            0 <= i <= n,
            start <= cur <= data@.len(),
            model_pairs(pairs@).len() == i,
            dec_pairs(*s, n as nat, b0) == (match dec_pairs(
                *s,
                (n - i) as nat,
                data@.skip(cur as int),
            ) {
                Ok(p) => Ok::<(Seq<(ValueModel, ValueModel)>, int), CodecError>(
                    (model_pairs(pairs@) + p.0, (cur - start) + p.1),
                ),
                Err(e) => Err(e),
            }),
        decreases n - i,
    {
        proof {
            lemma_model_pairs(pairs@);
        }
        match decode(tk, data, cur) {
            Err(e) => {
                return Err(e);
            },
            Ok((kv, kend)) => {
                proof {
                    assert(data@.skip(cur as int).skip(kend - cur) =~= data@.skip(kend as int));
                }
                match decode(tv, data, kend) {
                    Err(e) => {
                        return Err(e);
                    },
                    Ok((vv, vend)) => {
                        let ghost pold = pairs@;
                        proof {
                            assert(data@.skip(kend as int).skip(vend - kend) =~= data@.skip(
                                vend as int,
                            ));
                            assert(data@.skip(cur as int).skip(vend - cur) =~= data@.skip(
                                vend as int,
                            ));
                            lemma_model_pairs_push(pold, kv, vv);
                            match dec_pairs(*s, ((n - i) - 1) as nat, data@.skip(vend as int)) {
                                Ok(p2) => {
                                    assert(model_pairs(pold.push((kv, vv))) + p2.0 =~= model_pairs(
                                        pold,
                                    ) + (seq![(model(kv), model(vv))] + p2.0));
                                },
                                Err(_) => {},
                            }
                        }
                        pairs.push((kv, vv));
                        cur = vend;
                        i = i + 1;
                    },
                }
            },
        }
    }
    proof {
        lemma_model_pairs(pairs@);
        assert(model_pairs(pairs@) + Seq::<(ValueModel, ValueModel)>::empty() =~= model_pairs(
            pairs@,
        ));
    }
    Ok((pairs, cur))
}

/// Decodes the fields of the record schema `s` starting at `start`:
/// exactly what [`dec_fields`] says from field 0 on.
#[verifier::loop_isolation(false)]
fn decode_fields_n(s: &Schema, fs: &Vec<Schema>, data: &[u8], start: usize) -> (r: Result<
    (Vec<Value>, usize),
    CodecError,
>)
    requires
        start <= data@.len(),
        *s matches Schema::Record(g) && g@ == fs@,
    ensures
        match r {
            Ok(p) => start <= p.1 <= data@.len() && dec_fields(*s, 0, data@.skip(start as int))
                == Ok::<(Seq<ValueModel>, int), CodecError>((model_seq(p.0@), p.1 - start)),
            Err(e) => dec_fields(*s, 0, data@.skip(start as int)) == Err::<
                (Seq<ValueModel>, int),
                CodecError,
            >(e),
        },
    decreases s, 0nat,
{
    let ghost b0 = data@.skip(start as int);
    let nf = fs.len();
    let mut flds: Vec<Value> = Vec::new();
    let mut cur: usize = start;
    let mut i: usize = 0;
    proof {
        assert(data@.skip(cur as int) == b0);
        match dec_fields(*s, 0, b0) {
            Ok(p) => {
                assert(model_seq(flds@) + p.0 =~= p.0);
            },
            Err(_) => {},
        }
    }
    while i < nf
        invariant
            0 <= i <= nf,
            start <= cur <= data@.len(),
            model_seq(flds@).len() == i,
            dec_fields(*s, 0, b0) == (match dec_fields(*s, i as nat, data@.skip(cur as int)) {
                Ok(p) => Ok::<(Seq<ValueModel>, int), CodecError>(
                    (model_seq(flds@) + p.0, (cur - start) + p.1),
                ),
                Err(e) => Err(e),
            }),
        decreases nf - i,
    {
        proof {
            lemma_model_seq(flds@);
        }
        match decode(&fs[i], data, cur) {
            Err(e) => {
                return Err(e);
            },
            Ok((v, end)) => {
                let ghost fold = flds@;
                proof {
                    assert(data@.skip(cur as int).skip(end - cur) =~= data@.skip(end as int));
                    lemma_model_seq_push(fold, v);
                    match dec_fields(*s, (i + 1) as nat, data@.skip(end as int)) {
                        Ok(p2) => {
                            assert(model_seq(fold.push(v)) + p2.0 =~= model_seq(fold) + (seq![
                                model(v),
                            ] + p2.0));
                        },
                        Err(_) => {},
                    }
                }
                flds.push(v);
                cur = end;
                i = i + 1;
            },
        }
    }
    proof {
        lemma_model_seq(flds@);
        assert(model_seq(flds@) + Seq::<ValueModel>::empty() =~= model_seq(flds@));
    }
    Ok((flds, cur))
}

/// Whether some key occurs twice among the decoded pairs.
#[verifier::loop_isolation(false)]
fn find_dup_key(pairs: &Vec<(Value, Value)>) -> (r: bool)
    ensures
        r == has_dup_key(model_pairs(pairs@)),
{
    proof {
        lemma_model_pairs(pairs@);
    }
    let m = pairs.len();
    let mut dup: bool = false;
    let mut j: usize = 0;
    while j < m
        invariant
            0 <= j <= m,
            m == pairs@.len(),
            model_pairs(pairs@).len() == m,
            dup == (exists|x: int, y: int|
                0 <= x < y < j && (#[trigger] model_pairs(pairs@)[x]).0 == (#[trigger] model_pairs(
                    pairs@,
                )[y]).0),
        decreases m - j,
    {
        let mut k: usize = 0;
        while k < j
            invariant
                0 <= k <= j < m,
                m == pairs@.len(),
                model_pairs(pairs@).len() == m,
                dup == ((exists|x: int, y: int|
                    0 <= x < y < j && (#[trigger] model_pairs(pairs@)[x]).0 == (
                    #[trigger] model_pairs(pairs@)[y]).0) || (exists|x: int|
                    0 <= x < k && (#[trigger] model_pairs(pairs@)[x]).0 == model_pairs(
                        pairs@,
                    )[j as int].0)),
            decreases j - k,
        {
            proof {
                lemma_model_pairs(pairs@);
            }
            if value_eq(&pairs[k].0, &pairs[j].0) {
                dup = true;
            }
            k = k + 1;
        }
        j = j + 1;
    }
    dup
}


// ---------------------------------------------------------------------------
// Encoded values are never shorter than the schema's minimum
// ---------------------------------------------------------------------------

/// A well-formed value occupies at least [`min_len`] of its schema.
pub proof fn lemma_enc_min_len(s: Schema, v: ValueModel)
    requires
        wf(s, v),
    ensures
        enc(v).len() >= min_len(s),
    decreases v,
{
    lemma_pow256_16();
    match (s, v) {
        (Schema::U16, ValueModel::U16(x)) => lemma_be_bytes_len(x as nat, 2),
        (Schema::U32, ValueModel::U32(x)) => lemma_be_bytes_len(x as nat, 4),
        (Schema::U64, ValueModel::U64(x)) => lemma_be_bytes_len(x as nat, 8),
        (Schema::U128, ValueModel::U128(x)) => lemma_be_bytes_len(x as nat, 16),
        (Schema::I8, ValueModel::I8(x)) => lemma_be_bytes_len(
            sign_to_bits(x as int, pow256(1)),
            1,
        ),
        (Schema::I16, ValueModel::I16(x)) => lemma_be_bytes_len(
            sign_to_bits(x as int, pow256(2)),
            2,
        ),
        (Schema::I32, ValueModel::I32(x)) => lemma_be_bytes_len(
            sign_to_bits(x as int, pow256(4)),
            4,
        ),
        (Schema::I64, ValueModel::I64(x)) => lemma_be_bytes_len(
            sign_to_bits(x as int, pow256(8)),
            8,
        ),
        (Schema::I128, ValueModel::I128(x)) => lemma_be_bytes_len(
            sign_to_bits(x as int, pow256(16)),
            16,
        ),
        (Schema::F32, ValueModel::F32(x)) => lemma_be_bytes_len(x as nat, 4),
        (Schema::F64, ValueModel::F64(x)) => lemma_be_bytes_len(x as nat, 8),
        (Schema::List(_), ValueModel::List(vs)) => lemma_be_bytes_len(vs.len(), 4),
        (Schema::Dict(_, _), ValueModel::Dict(ps)) => lemma_be_bytes_len(ps.len(), 4),
        (Schema::Record(fs), ValueModel::Record(vs)) => lemma_enc_fields_min(fs@, vs),
        _ => {},
    }
}

/// The concatenated fields of a record occupy at least the sum of the
/// fields' minima.
pub proof fn lemma_enc_fields_min(fs: Seq<Schema>, vs: Seq<ValueModel>)
    requires
        vs.len() == fs.len(),
        forall|k: int| 0 <= k < vs.len() ==> wf(fs[k], #[trigger] vs[k]),
    ensures
        enc_seq(vs).len() >= fields_min(fs),
    decreases vs,
{
    if vs.len() > 0 {
        lemma_enc_min_len(fs[0], vs[0]);
        assert(forall|k: int|
            0 <= k < vs.len() - 1 ==> wf(fs.drop_first()[k], #[trigger] vs.drop_first()[k]));
        lemma_enc_fields_min(fs.drop_first(), vs.drop_first());
    }
}

/// When each element takes at least one byte, a sequence of `n` well-formed
/// elements takes at least `n` bytes.
pub proof fn lemma_enc_seq_min(t: Schema, vs: Seq<ValueModel>)
    requires
        min_len(t) >= 1,
        forall|i: int| 0 <= i < vs.len() ==> wf(t, #[trigger] vs[i]),
    ensures
        enc_seq(vs).len() >= vs.len(),
    decreases vs,
{
    if vs.len() > 0 {
        lemma_enc_min_len(t, vs[0]);
        assert(forall|i: int| 0 <= i < vs.len() - 1 ==> wf(t, #[trigger] vs.drop_first()[i]));
        lemma_enc_seq_min(t, vs.drop_first());
    }
}

/// When a key or a value takes at least one byte, `n` well-formed pairs take
/// at least `n` bytes.
pub proof fn lemma_enc_pairs_min(s: Schema, ps: Seq<(ValueModel, ValueModel)>)
    requires
        pair_min(s) >= 1,
        s matches Schema::Dict(tk, tv) && (forall|i: int|
            0 <= i < ps.len() ==> wf(*tk, (#[trigger] ps[i]).0) && wf(*tv, ps[i].1)),
    ensures
        enc_pairs(ps).len() >= ps.len(),
    decreases ps,
{
    if ps.len() > 0 {
        let (tk, tv) = match s {
            Schema::Dict(tk, tv) => (*tk, *tv),
            _ => (Schema::Unit, Schema::Unit),
        };
        if min_len(tk) >= 1 {
            lemma_enc_min_len(tk, ps[0].0);
        } else {
            lemma_enc_min_len(tv, ps[0].1);
        }
        assert(forall|i: int| 0 <= i < ps.len() - 1 ==> ps.drop_first()[i] == ps[i + 1]);
        lemma_enc_pairs_min(s, ps.drop_first());
    }
}

// ---------------------------------------------------------------------------
// The round trip: decoding an encoding gives the value back
// ---------------------------------------------------------------------------

/// Reading a `w`-byte field from its own encoding gives the value back.
proof fn lemma_dec_enc_be(x: nat, w: nat, rest: Seq<u8>)
    requires
        x < pow256(w),
        w >= 1,
    ensures
        be_bytes(x, w).len() == w,
        (be_bytes(x, w) + rest).len() >= w,
        be_val((be_bytes(x, w) + rest).take(w as int)) == x,
{
    lemma_be_bytes_len(x, w);
    assert((be_bytes(x, w) + rest).take(w as int) =~= be_bytes(x, w));
    lemma_be_val_be_bytes(x, w);
}

/// Whatever follows it on the wire, a well-formed value decodes from its own
/// encoding, back to itself, consuming exactly its own bytes. This is the
/// round-trip law, and prefix-freeness with it: the decoder never reads into
/// `rest`.
pub proof fn lemma_dec_enc(s: Schema, v: ValueModel, rest: Seq<u8>)
    requires
        wf(s, v),
    ensures
        dec(s, enc(v) + rest) == Ok::<(ValueModel, int), CodecError>((v, enc(v).len() as int)),
    decreases v, 0int,
{
    lemma_pow256_16();
    let b = enc(v) + rest;
    match (s, v) {
        (Schema::U8, ValueModel::U8(x)) => {
            assert(b[0] == x);
        },
        (Schema::U16, ValueModel::U16(x)) => {
            lemma_dec_enc_be(x as nat, 2, rest);
        },
        (Schema::U32, ValueModel::U32(x)) => {
            lemma_dec_enc_be(x as nat, 4, rest);
        },
        (Schema::U64, ValueModel::U64(x)) => {
            lemma_dec_enc_be(x as nat, 8, rest);
        },
        (Schema::U128, ValueModel::U128(x)) => {
            lemma_dec_enc_be(x as nat, 16, rest);
        },
        (Schema::I8, ValueModel::I8(x)) => {
            lemma_dec_enc_be(sign_to_bits(x as int, pow256(1)), 1, rest);
        },
        (Schema::I16, ValueModel::I16(x)) => {
            lemma_dec_enc_be(sign_to_bits(x as int, pow256(2)), 2, rest);
        },
        (Schema::I32, ValueModel::I32(x)) => {
            lemma_dec_enc_be(sign_to_bits(x as int, pow256(4)), 4, rest);
        },
        (Schema::I64, ValueModel::I64(x)) => {
            lemma_dec_enc_be(sign_to_bits(x as int, pow256(8)), 8, rest);
        },
        (Schema::I128, ValueModel::I128(x)) => {
            lemma_dec_enc_be(sign_to_bits(x as int, pow256(16)), 16, rest);
        },
        (Schema::F32, ValueModel::F32(x)) => {
            lemma_dec_enc_be(x as nat, 4, rest);
        },
        (Schema::F64, ValueModel::F64(x)) => {
            lemma_dec_enc_be(x as nat, 8, rest);
        },
        (Schema::Bool, ValueModel::Bool(x)) => {
            assert(b[0] == (if x { 1u8 } else { 0u8 }));
        },
        (Schema::Unit, ValueModel::Unit) => {},
        (Schema::Empty, ValueModel::Empty) => {
            assert(b[0] == 0u8);
        },
        (Schema::Text, ValueModel::Text(bs)) => {
            assert(b.len() == bs.len() + 1 + rest.len());
            assert(forall|k: int| 0 <= k < bs.len() ==> b[k] == bs[k]);
            assert(b[bs.len() as int] == 0u8);
            lemma_find_nul_at(b, bs.len() as int);
            assert(b.take(bs.len() as int) =~= bs);
        },
        (Schema::List(t), ValueModel::List(vs)) => {
            let body = enc_seq(vs);
            lemma_dec_enc_be(vs.len(), 4, body + rest);
            assert(be_bytes(vs.len(), 4) + (body + rest) =~= b);
            lemma_be_bytes_len(vs.len(), 4);
            assert(b.skip(4) =~= body + rest);
            if min_len(*t) >= 1 {
                lemma_enc_seq_min(*t, vs);
            }
            lemma_dec_enc_seq(*t, vs, rest);
        },
        (Schema::Dict(tk, tv), ValueModel::Dict(ps)) => {
            let body = enc_pairs(ps);
            lemma_dec_enc_be(ps.len(), 4, body + rest);
            assert(be_bytes(ps.len(), 4) + (body + rest) =~= b);
            lemma_be_bytes_len(ps.len(), 4);
            assert(b.skip(4) =~= body + rest);
            if pair_min(s) >= 1 {
                lemma_enc_pairs_min(s, ps);
            }
            lemma_dec_enc_pairs(s, ps, rest);
            assert(!has_dup_key(ps));
        },
        (Schema::Optional(t), ValueModel::Optional(o)) => {
            match o {
                Some(bv) => {
                    assert(b[0] == 1u8);
                    assert(b.skip(1) =~= enc(*bv) + rest);
                    lemma_dec_enc(*t, *bv, rest);
                },
                None => {
                    assert(b[0] == 0u8);
                },
            }
        },
        (Schema::Fallible(ta, te), ValueModel::Fallible(r)) => {
            match r {
                Ok(bv) => {
                    assert(b[0] == 1u8);
                    assert(b.skip(1) =~= enc(*bv) + rest);
                    lemma_dec_enc(*ta, *bv, rest);
                },
                Err(bv) => {
                    assert(b[0] == 0u8);
                    assert(b.skip(1) =~= enc(*bv) + rest);
                    lemma_dec_enc(*te, *bv, rest);
                },
            }
        },
        (Schema::Record(fs), ValueModel::Record(vs)) => {
            assert(vs.skip(0) =~= vs);
            lemma_dec_enc_fields(s, fs@, vs, 0, rest);
        },
        (Schema::Tagged(arms), ValueModel::Tagged(tag, p)) => {
            match p {
                Some(bv) => {
                    assert(b[0] == tag);
                    assert(b.skip(1) =~= enc(*bv) + rest);
                    match arms@[tag as int] {
                        Some(t) => {
                            lemma_dec_enc(t, *bv, rest);
                        },
                        None => {
                            assert(false);
                        },
                    }
                },
                None => {
                    assert(b[0] == tag);
                    assert(b[1] == 0u8);
                },
            }
        },
        _ => {
            assert(false);
        },
    }
}

/// A run of well-formed elements decodes from its own encoding, element by
/// element, whatever follows.
pub proof fn lemma_dec_enc_seq(t: Schema, vs: Seq<ValueModel>, rest: Seq<u8>)
    requires
        forall|i: int| 0 <= i < vs.len() ==> wf(t, #[trigger] vs[i]),
    ensures
        dec_seq(t, vs.len(), enc_seq(vs) + rest) == Ok::<(Seq<ValueModel>, int), CodecError>(
            (vs, enc_seq(vs).len() as int),
        ),
    decreases vs, 0int,
{
    if vs.len() == 0 {
        assert(vs =~= Seq::<ValueModel>::empty());
    } else {
        let v0 = vs[0];
        let vtail = vs.drop_first();
        lemma_dec_enc(t, v0, enc_seq(vtail) + rest);
        assert(enc_seq(vs) + rest =~= enc(v0) + (enc_seq(vtail) + rest));
        assert((enc(v0) + (enc_seq(vtail) + rest)).skip(enc(v0).len() as int) =~= enc_seq(vtail)
            + rest);
        assert(forall|i: int| 0 <= i < vtail.len() ==> wf(t, #[trigger] vtail[i]));
        lemma_dec_enc_seq(t, vtail, rest);
        assert(seq![v0] + vtail =~= vs);
    }
}

/// A run of well-formed key/value pairs decodes from its own encoding,
/// whatever follows.
pub proof fn lemma_dec_enc_pairs(s: Schema, ps: Seq<(ValueModel, ValueModel)>, rest: Seq<u8>)
    requires
        s matches Schema::Dict(tk, tv) && (forall|i: int|
            0 <= i < ps.len() ==> wf(*tk, (#[trigger] ps[i]).0) && wf(*tv, ps[i].1)),
    ensures
        dec_pairs(s, ps.len(), enc_pairs(ps) + rest) == Ok::<
            (Seq<(ValueModel, ValueModel)>, int),
            CodecError,
        >((ps, enc_pairs(ps).len() as int)),
    decreases ps, 0int,
{
    if ps.len() == 0 {
        assert(ps =~= Seq::<(ValueModel, ValueModel)>::empty());
    } else {
        let (tk, tv) = match s {
            Schema::Dict(tk, tv) => (*tk, *tv),
            _ => (Schema::Unit, Schema::Unit),
        };
        let k0 = ps[0].0;
        let v0 = ps[0].1;
        let ptail = ps.drop_first();
        lemma_dec_enc(tk, k0, enc(v0) + (enc_pairs(ptail) + rest));
        assert(enc_pairs(ps) + rest =~= enc(k0) + (enc(v0) + (enc_pairs(ptail) + rest)));
        assert((enc(k0) + (enc(v0) + (enc_pairs(ptail) + rest))).skip(enc(k0).len() as int)
            =~= enc(v0) + (enc_pairs(ptail) + rest));
        lemma_dec_enc(tv, v0, enc_pairs(ptail) + rest);
        assert((enc(v0) + (enc_pairs(ptail) + rest)).skip(enc(v0).len() as int) =~= enc_pairs(
            ptail,
        ) + rest);
        assert((enc_pairs(ps) + rest).skip((enc(k0).len() + enc(v0).len()) as int) =~= enc_pairs(ptail)
            + rest);
        assert(forall|i: int| 0 <= i < ptail.len() ==> ptail[i] == ps[i + 1]);
        lemma_dec_enc_pairs(s, ptail, rest);
        assert(seq![(k0, v0)] + ptail =~= ps);
    }
}

/// The fields of a record from position `i` on decode from their own
/// encodings, whatever follows.
pub proof fn lemma_dec_enc_fields(
    s: Schema,
    fs: Seq<Schema>,
    vs: Seq<ValueModel>,
    i: int,
    rest: Seq<u8>,
)
    requires
        s matches Schema::Record(g) && g@ == fs,
        vs.len() == fs.len(),
        0 <= i <= vs.len(),
        forall|k: int| i <= k < vs.len() ==> wf(fs[k], #[trigger] vs[k]),
    ensures
        dec_fields(s, i as nat, enc_seq(vs.skip(i)) + rest) == Ok::<
            (Seq<ValueModel>, int),
            CodecError,
        >((vs.skip(i), enc_seq(vs.skip(i)).len() as int)),
    decreases vs, vs.len() - i,
{
    if i == vs.len() {
        assert(vs.skip(i) =~= Seq::<ValueModel>::empty());
    } else {
        let cut = vs.skip(i);
        assert(cut[0] == vs[i]);
        assert(cut.drop_first() =~= vs.skip(i + 1));
        lemma_dec_enc(fs[i], vs[i], enc_seq(vs.skip(i + 1)) + rest);
        assert(enc_seq(cut) + rest =~= enc(vs[i]) + (enc_seq(vs.skip(i + 1)) + rest));
        assert((enc(vs[i]) + (enc_seq(vs.skip(i + 1)) + rest)).skip(enc(vs[i]).len() as int)
            =~= enc_seq(vs.skip(i + 1)) + rest);
        lemma_dec_enc_fields(s, fs, vs, i + 1, rest);
        assert(seq![vs[i]] + vs.skip(i + 1) =~= cut);
    }
}

// ---------------------------------------------------------------------------
// The codec laws
// ---------------------------------------------------------------------------

/// Round trip: decoding the encoding of any well-formed value gives exactly
/// that value back, consuming the whole encoding.
pub proof fn lemma_round_trip(s: Schema, v: ValueModel)
    requires
        wf(s, v),
    ensures
        dec(s, enc(v)) == Ok::<(ValueModel, int), CodecError>((v, enc(v).len() as int)),
{
    lemma_dec_enc(s, v, Seq::empty());
    assert(enc(v) + Seq::<u8>::empty() =~= enc(v));
}

/// Prefix-freeness within a schema pair: decoding two concatenated encodings
/// yields the two original values in order, each from its own bytes.
pub proof fn lemma_two_in_a_row(s1: Schema, s2: Schema, v1: ValueModel, v2: ValueModel)
    requires
        wf(s1, v1),
        wf(s2, v2),
    ensures
        dec(s1, enc(v1) + enc(v2)) == Ok::<(ValueModel, int), CodecError>(
            (v1, enc(v1).len() as int),
        ),
        dec(s2, (enc(v1) + enc(v2)).skip(enc(v1).len() as int)) == Ok::<
            (ValueModel, int),
            CodecError,
        >((v2, enc(v2).len() as int)),
{
    lemma_dec_enc(s1, v1, enc(v2));
    lemma_round_trip(s2, v2);
    assert((enc(v1) + enc(v2)).skip(enc(v1).len() as int) =~= enc(v2));
}

/// Length-boundedness: a sequence whose announced element count cannot fit in
/// the bytes that remain is refused before its body is read, whenever an
/// element needs at least one byte.
pub proof fn lemma_length_bound(t: Schema, b: Seq<u8>)
    requires
        b.len() >= 4,
        min_len(t) >= 1,
        be_val(b.take(4)) > b.len() - 4,
    ensures
        dec(Schema::List(Box::new(t)), b) == Err::<(ValueModel, int), CodecError>(
            CodecError::OversizedLength,
        ),
{
}

} // verus!
