//! A namespace: one in-memory table from keys to values, both wire values
//! of a fixed schema pair, with the full capability set of the protocol.

use vstd::prelude::*;

use crate::codec::{
    dec, decode, enc, enc_seq, encode, model, model_pairs, model_seq, push_be, take_fixed,
    value_eq, Schema, Value, ValueModel,
};
use crate::command::Command;
use crate::error::{CachemError, CodecError, ProtocolError};

verus! {

// ---------------------------------------------------------------------------
// The table as mathematics
// ---------------------------------------------------------------------------

/// The value under `k`, reading the entries front to back.
pub open spec fn lookup(es: Seq<(ValueModel, ValueModel)>, k: ValueModel) -> Option<ValueModel>
    decreases es,
{
    if es.len() == 0 {
        None
    } else if es[0].0 == k {
        Some(es[0].1)
    } else {
        lookup(es.drop_first(), k)
    }
}

/// The entries after storing `v` under `k`: the first entry under `k` is
/// replaced in place, or a new entry joins the rear.
pub open spec fn update_entry(
    es: Seq<(ValueModel, ValueModel)>,
    k: ValueModel,
    v: ValueModel,
) -> Seq<(ValueModel, ValueModel)>
    decreases es,
{
    if es.len() == 0 {
        seq![(k, v)]
    } else if es[0].0 == k {
        seq![(k, v)] + es.drop_first()
    } else {
        seq![es[0]] + update_entry(es.drop_first(), k, v)
    }
}

/// The entries after deleting the first entry under `k`, if any.
pub open spec fn remove_entry(es: Seq<(ValueModel, ValueModel)>, k: ValueModel) -> Seq<
    (ValueModel, ValueModel),
>
    decreases es,
{
    if es.len() == 0 {
        es
    } else if es[0].0 == k {
        es.drop_first()
    } else {
        seq![es[0]] + remove_entry(es.drop_first(), k)
    }
}

/// The keys of the entries, in table order.
pub open spec fn keys_of(es: Seq<(ValueModel, ValueModel)>) -> Seq<ValueModel>
    decreases es,
{
    if es.len() == 0 {
        Seq::empty()
    } else {
        seq![es[0].0] + keys_of(es.drop_first())
    }
}

/// No key occurs twice among the entries.
pub open spec fn distinct_keys(es: Seq<(ValueModel, ValueModel)>) -> bool {
    forall|i: int, j: int|
        0 <= i < j < es.len() ==> (#[trigger] es[i]).0 != (#[trigger] es[j]).0
}

// ---------------------------------------------------------------------------
// Scan lemmas
// ---------------------------------------------------------------------------

/// When position `j` holds the first entry under `k`, the lookup finds it.
pub proof fn lemma_lookup_at(es: Seq<(ValueModel, ValueModel)>, j: int, k: ValueModel)
    requires
        0 <= j < es.len(),
        es[j].0 == k,
        forall|i: int| 0 <= i < j ==> (#[trigger] es[i]).0 != k,
    ensures
        lookup(es, k) == Some(es[j].1),
    decreases j,
{
    if j > 0 {
        lemma_lookup_at(es.drop_first(), j - 1, k);
    }
}

/// A key under no entry looks up to nothing.
pub proof fn lemma_lookup_none(es: Seq<(ValueModel, ValueModel)>, k: ValueModel)
    requires
        forall|i: int| 0 <= i < es.len() ==> (#[trigger] es[i]).0 != k,
    ensures
        lookup(es, k) is None,
    decreases es,
{
    if es.len() > 0 {
        lemma_lookup_none(es.drop_first(), k);
    }
}

/// When position `j` holds the first entry under `k`, storing under `k`
/// replaces exactly that entry.
pub proof fn lemma_update_at(
    es: Seq<(ValueModel, ValueModel)>,
    j: int,
    k: ValueModel,
    v: ValueModel,
)
    requires
        0 <= j < es.len(),
        es[j].0 == k,
        forall|i: int| 0 <= i < j ==> (#[trigger] es[i]).0 != k,
    ensures
        update_entry(es, k, v) == es.update(j, (k, v)),
    decreases j,
{
    if j == 0 {
        assert(update_entry(es, k, v) =~= es.update(0, (k, v)));
    } else {
        lemma_update_at(es.drop_first(), j - 1, k, v);
        assert(es.drop_first().update(j - 1, (k, v)) =~= es.update(j, (k, v)).drop_first());
        assert(update_entry(es, k, v) =~= es.update(j, (k, v)));
    }
}

/// Storing under a key no entry holds appends a new entry at the rear.
pub proof fn lemma_update_absent(es: Seq<(ValueModel, ValueModel)>, k: ValueModel, v: ValueModel)
    requires
        forall|i: int| 0 <= i < es.len() ==> (#[trigger] es[i]).0 != k,
    ensures
        update_entry(es, k, v) == es.push((k, v)),
    decreases es,
{
    if es.len() == 0 {
        assert(update_entry(es, k, v) =~= es.push((k, v)));
    } else {
        lemma_update_absent(es.drop_first(), k, v);
        assert(update_entry(es, k, v) =~= es.push((k, v)));
    }
}

/// When position `j` holds the first entry under `k`, deleting `k` removes
/// exactly that entry.
pub proof fn lemma_remove_at(es: Seq<(ValueModel, ValueModel)>, j: int, k: ValueModel)
    requires
        0 <= j < es.len(),
        es[j].0 == k,
        forall|i: int| 0 <= i < j ==> (#[trigger] es[i]).0 != k,
    ensures
        remove_entry(es, k) == es.remove(j),
    decreases j,
{
    if j == 0 {
        assert(remove_entry(es, k) =~= es.remove(0));
    } else {
        lemma_remove_at(es.drop_first(), j - 1, k);
        assert(es.drop_first().remove(j - 1) =~= es.remove(j).drop_first());
        assert(es.remove(j)[0] == es[0]);
        assert(remove_entry(es, k) =~= es.remove(j));
    }
}

/// Deleting a key no entry holds changes nothing.
pub proof fn lemma_remove_absent(es: Seq<(ValueModel, ValueModel)>, k: ValueModel)
    requires
        forall|i: int| 0 <= i < es.len() ==> (#[trigger] es[i]).0 != k,
    ensures
        remove_entry(es, k) == es,
    decreases es,
{
    if es.len() > 0 {
        lemma_remove_absent(es.drop_first(), k);
        assert(remove_entry(es, k) =~= es);
    }
}

/// The keys sequence is the pointwise first component.
pub proof fn lemma_keys_of(es: Seq<(ValueModel, ValueModel)>)
    ensures
        keys_of(es).len() == es.len(),
        forall|i: int| 0 <= i < es.len() ==> keys_of(es)[i] == (#[trigger] es[i]).0,
    decreases es,
{
    if es.len() > 0 {
        lemma_keys_of(es.drop_first());
        assert forall|i: int| 0 <= i < es.len() implies keys_of(es)[i] == (#[trigger] es[i]).0 by {
            if i > 0 {
                assert(es.drop_first()[i - 1] == es[i]);
                assert(keys_of(es)[i] == keys_of(es.drop_first())[i - 1]);
            }
        }
    }
}

// ---------------------------------------------------------------------------
// The cache
// ---------------------------------------------------------------------------

/// One namespace: an in-memory table with fixed key and value schemas.
pub struct Cache {
    key_schema: Schema,
    val_schema: Schema,
    entries: Vec<(Value, Value)>,
}

impl View for Cache {
    type V = Seq<(ValueModel, ValueModel)>;

    closed spec fn view(&self) -> Seq<(ValueModel, ValueModel)> {
        model_pairs(self.entries@)
    }
}

impl Cache {
    /// The schema every key of this namespace follows.
    pub closed spec fn key_schema_spec(&self) -> Schema {
        self.key_schema
    }

    /// The schema every value of this namespace follows.
    pub closed spec fn val_schema_spec(&self) -> Schema {
        self.val_schema
    }

    /// An empty namespace over the given schema pair.
    pub fn new(key_schema: Schema, val_schema: Schema) -> (c: Cache)
        ensures
            c@ == Seq::<(ValueModel, ValueModel)>::empty(),
            c.key_schema_spec() == key_schema,
            c.val_schema_spec() == val_schema,
            distinct_keys(c@),
    {
        let c = Cache { key_schema, val_schema, entries: Vec::new() };
        proof {
            crate::codec::lemma_model_pairs(c.entries@);
            assert(c@ =~= Seq::<(ValueModel, ValueModel)>::empty());
        }
        c
    }

    /// How many entries the namespace holds.
    pub fn count(&self) -> (r: usize)
        ensures
            r == self@.len(),
    {
        proof {
            crate::codec::lemma_model_pairs(self.entries@);
        }
        self.entries.len()
    }

    /// The value stored under `key`, if any.
    pub fn get(&self, key: &Value) -> (r: Option<&Value>)
        ensures
            match (r, lookup(self@, model(*key))) {
                (Some(v), Some(m)) => model(*v) == m,
                (None, None) => true,
                _ => false,
            },
    {
        proof {
            crate::codec::lemma_model_pairs(self.entries@);
        }
        let n = self.entries.len();
        let mut i: usize = 0;
        while i < n
            invariant
                0 <= i <= n,
                n == self.entries@.len(),
                self@.len() == n,
                forall|j: int| 0 <= j < i ==> (#[trigger] self@[j]).0 != model(*key),
            decreases n - i,
        {
            proof {
                crate::codec::lemma_model_pairs(self.entries@);
            }
            if value_eq(&self.entries[i].0, key) {
                proof {
                    lemma_lookup_at(self@, i as int, model(*key));
                }
                return Some(&self.entries[i].1);
            }
            i = i + 1;
        }
        proof {
            lemma_lookup_none(self@, model(*key));
        }
        None
    }

    /// Whether `key` holds a value.
    pub fn contains_key(&self, key: &Value) -> (r: bool)
        ensures
            r == (lookup(self@, model(*key)) is Some),
    {
        match self.get(key) {
            Some(_) => true,
            None => false,
        }
    }

    /// Stores `val` under `key`: the first entry under that key is replaced
    /// in place, or a fresh entry joins the rear of the table.
    pub fn set(&mut self, key: Value, val: Value)
        ensures
            final(self)@ == update_entry(old(self)@, model(key), model(val)),
            final(self).key_schema_spec() == old(self).key_schema_spec(),
            final(self).val_schema_spec() == old(self).val_schema_spec(),
            distinct_keys(old(self)@) ==> distinct_keys(final(self)@),
    {
        proof {
            crate::codec::lemma_model_pairs(self.entries@);
        }
        let n = self.entries.len();
        let mut i: usize = 0;
        while i < n
            invariant
                0 <= i <= n,
                n == self.entries@.len(),
                self@.len() == n,
                self == old(self),
                forall|j: int| 0 <= j < i ==> (#[trigger] self@[j]).0 != model(key),
            decreases n - i,
        {
            proof {
                crate::codec::lemma_model_pairs(self.entries@);
            }
            if value_eq(&self.entries[i].0, &key) {
                let ghost oldview = self@;
                let ghost km = model(key);
                let ghost vm = model(val);
                proof {
                    lemma_update_at(oldview, i as int, km, vm);
                }
                let ghost eold = self.entries@;
                self.entries.set(i, (key, val));
                proof {
                    let enew = self.entries@;
                    crate::codec::lemma_model_pairs(eold);
                    crate::codec::lemma_model_pairs(enew);
                    assert forall|j: int|
                        0 <= j < enew.len() implies model_pairs(enew)[j] == oldview.update(
                        i as int,
                        (km, vm),
                    )[j] by {
                        if j != i as int {
                            assert(enew[j] == eold[j]);
                        } else {
                            assert(model_pairs(enew)[j] == (model(enew[j].0), model(enew[j].1)));
                        }
                    }
                    assert(self@ =~= oldview.update(i as int, (km, vm)));
                    if distinct_keys(oldview) {
                        assert forall|a: int, b: int|
                            0 <= a < b < self@.len() implies (#[trigger] self@[a]).0 != (
                        #[trigger] self@[b]).0 by {
                            assert(oldview[a].0 != oldview[b].0);
                            assert(oldview[i as int].0 == km);
                        }
                    }
                }
                return ;
            }
            i = i + 1;
        }
        let ghost oldview = self@;
        let ghost km = model(key);
        let ghost vm = model(val);
        proof {
            lemma_update_absent(oldview, km, vm);
            crate::codec::lemma_model_pairs_push(self.entries@, key, val);
        }
        self.entries.push((key, val));
        proof {
            assert(self@ =~= oldview.push((km, vm)));
            if distinct_keys(oldview) {
                assert forall|a: int, b: int|
                    0 <= a < b < self@.len() implies (#[trigger] self@[a]).0 != (
                #[trigger] self@[b]).0 by {
                    if b < self@.len() - 1 {
                        assert(oldview[a].0 != oldview[b].0);
                    } else {
                        assert(oldview[a].0 != km);
                    }
                }
            }
        }
    }

    /// Deletes the entry under `key`, if any.
    pub fn del(&mut self, key: &Value)
        ensures
            final(self)@ == remove_entry(old(self)@, model(*key)),
            final(self).key_schema_spec() == old(self).key_schema_spec(),
            final(self).val_schema_spec() == old(self).val_schema_spec(),
            distinct_keys(old(self)@) ==> distinct_keys(final(self)@),
    {
        proof {
            crate::codec::lemma_model_pairs(self.entries@);
        }
        let n = self.entries.len();
        let mut i: usize = 0;
        while i < n
            invariant
                0 <= i <= n,
                n == self.entries@.len(),
                self@.len() == n,
                self == old(self),
                forall|j: int| 0 <= j < i ==> (#[trigger] self@[j]).0 != model(*key),
            decreases n - i,
        {
            proof {
                crate::codec::lemma_model_pairs(self.entries@);
            }
            if value_eq(&self.entries[i].0, key) {
                let ghost oldview = self@;
                let ghost km = model(*key);
                proof {
                    lemma_remove_at(oldview, i as int, km);
                }
                let ghost eold = self.entries@;
                self.entries.remove(i);
                proof {
                    let enew = self.entries@;
                    crate::codec::lemma_model_pairs(eold);
                    crate::codec::lemma_model_pairs(enew);
                    assert forall|j: int|
                        0 <= j < enew.len() implies model_pairs(enew)[j] == oldview.remove(
                        i as int,
                    )[j] by {
                        if j < i as int {
                            assert(enew[j] == eold[j]);
                        } else {
                            assert(enew[j] == eold[j + 1]);
                        }
                    }
                    assert(self@ =~= oldview.remove(i as int));
                    if distinct_keys(oldview) {
                        assert forall|a: int, b: int|
                            0 <= a < b < self@.len() implies (#[trigger] self@[a]).0 != (
                        #[trigger] self@[b]).0 by {
                            let a0 = if a < i as int {
                                a
                            } else {
                                a + 1
                            };
                            let b0 = if b < i as int {
                                b
                            } else {
                                b + 1
                            };
                            assert(self@[a] == oldview[a0]);
                            assert(self@[b] == oldview[b0]);
                            assert(oldview[a0].0 != oldview[b0].0);
                        }
                    }
                }
                return ;
            }
            i = i + 1;
        }
        proof {
            lemma_remove_absent(self@, model(*key));
        }
    }
}


// ---------------------------------------------------------------------------
// Replies as mathematics
// ---------------------------------------------------------------------------

/// A lookup result as the wire value that answers a Get.
pub open spec fn opt_model(o: Option<ValueModel>) -> ValueModel {
    match o {
        Some(v) => ValueModel::Optional(Some(Box::new(v))),
        None => ValueModel::Optional(None),
    }
}

/// The values that answer an MGet: one Optional per requested key, in
/// request order, misses present as None.
pub open spec fn mget_reply(es: Seq<(ValueModel, ValueModel)>, ks: Seq<ValueModel>) -> Seq<
    ValueModel,
>
    decreases ks,
{
    if ks.len() == 0 {
        Seq::empty()
    } else {
        seq![opt_model(lookup(es, ks[0]))] + mget_reply(es, ks.drop_first())
    }
}

/// The bools that answer an MExists, in request order.
pub open spec fn mexists_reply(es: Seq<(ValueModel, ValueModel)>, ks: Seq<ValueModel>) -> Seq<
    ValueModel,
>
    decreases ks,
{
    if ks.len() == 0 {
        Seq::empty()
    } else {
        seq![ValueModel::Bool(lookup(es, ks[0]) is Some)] + mexists_reply(es, ks.drop_first())
    }
}

/// The table after an MSet: the pairs stored in wire order.
pub open spec fn mset_entries(
    es: Seq<(ValueModel, ValueModel)>,
    ps: Seq<(ValueModel, ValueModel)>,
) -> Seq<(ValueModel, ValueModel)>
    decreases ps,
{
    if ps.len() == 0 {
        es
    } else {
        mset_entries(update_entry(es, ps[0].0, ps[0].1), ps.drop_first())
    }
}

/// The table after an MDel: the keys deleted in wire order.
pub open spec fn mdel_entries(
    es: Seq<(ValueModel, ValueModel)>,
    ks: Seq<ValueModel>,
) -> Seq<(ValueModel, ValueModel)>
    decreases ks,
{
    if ks.len() == 0 {
        es
    } else {
        mdel_entries(remove_entry(es, ks[0]), ks.drop_first())
    }
}

/// `n` consecutive key/value pairs under the given schema pair.
pub open spec fn dec_kvs(ks: Schema, vs: Schema, n: nat, b: Seq<u8>) -> Result<
    (Seq<(ValueModel, ValueModel)>, int),
    crate::error::CodecError,
>
    decreases n,
{
    if n == 0 {
        Ok((Seq::empty(), 0))
    } else {
        match dec(ks, b) {
            Ok((kv, kn)) => match dec(vs, b.skip(kn)) {
                Ok((vv, vn)) => match dec_kvs(ks, vs, (n - 1) as nat, b.skip(kn + vn)) {
                    Ok((ps, m)) => Ok((seq![(kv, vv)] + ps, kn + vn + m)),
                    Err(e) => Err(e),
                },
                Err(e) => Err(e),
            },
            Err(e) => Err(e),
        }
    }
}

/// The pointwise reading of [`mget_reply`].
pub proof fn lemma_mget_reply(es: Seq<(ValueModel, ValueModel)>, ks: Seq<ValueModel>)
    ensures
        mget_reply(es, ks).len() == ks.len(),
        forall|i: int|
            0 <= i < ks.len() ==> mget_reply(es, ks)[i] == opt_model(
                lookup(es, #[trigger] ks[i]),
            ),
    decreases ks,
{
    if ks.len() > 0 {
        lemma_mget_reply(es, ks.drop_first());
        assert forall|i: int|
            0 <= i < ks.len() implies mget_reply(es, ks)[i] == opt_model(
            lookup(es, #[trigger] ks[i]),
        ) by {
            if i > 0 {
                assert(ks.drop_first()[i - 1] == ks[i]);
                assert(mget_reply(es, ks)[i] == mget_reply(es, ks.drop_first())[i - 1]);
            }
        }
    }
}

/// The pointwise reading of [`mexists_reply`].
pub proof fn lemma_mexists_reply(es: Seq<(ValueModel, ValueModel)>, ks: Seq<ValueModel>)
    ensures
        mexists_reply(es, ks).len() == ks.len(),
        forall|i: int|
            0 <= i < ks.len() ==> mexists_reply(es, ks)[i] == ValueModel::Bool(
                lookup(es, #[trigger] ks[i]) is Some,
            ),
    decreases ks,
{
    if ks.len() > 0 {
        lemma_mexists_reply(es, ks.drop_first());
        assert forall|i: int|
            0 <= i < ks.len() implies mexists_reply(es, ks)[i] == ValueModel::Bool(
            lookup(es, #[trigger] ks[i]) is Some,
        ) by {
            if i > 0 {
                assert(ks.drop_first()[i - 1] == ks[i]);
                assert(mexists_reply(es, ks)[i] == mexists_reply(es, ks.drop_first())[i - 1]);
            }
        }
    }
}

// ---------------------------------------------------------------------------
// The dispatcher's ground truth
// ---------------------------------------------------------------------------

/// What a namespace over schemas `ks`/`vs` and entries `es` does with the
/// command `cmd` whose argument bytes start `b`: the exact reply bytes, the
/// new entries, and the number of argument bytes consumed — or the exact
/// error that closes the connection.
pub open spec fn handle_model(
    ks: Schema,
    vs: Schema,
    es: Seq<(ValueModel, ValueModel)>,
    cmd: Command,
    b: Seq<u8>,
) -> Result<(Seq<u8>, Seq<(ValueModel, ValueModel)>, int), CachemError> {
    match cmd {
        Command::Get => match dec(ks, b) {
            Ok((k, n)) => Ok((enc(opt_model(lookup(es, k))), es, n)),
            Err(e) => Err(CachemError::CodecError(e)),
        },
        Command::MGet => if b.len() < 4 {
            Err(CachemError::CodecError(crate::error::CodecError::UnexpectedEnd))
        } else {
            match crate::codec::dec_seq(ks, crate::codec::be_val(b.take(4)), b.skip(4)) {
                Ok((kms, m)) => Ok((enc(ValueModel::List(mget_reply(es, kms))), es, 4 + m)),
                Err(e) => Err(CachemError::CodecError(e)),
            }
        },
        Command::Keys => Ok((enc(ValueModel::List(keys_of(es))), es, 0)),
        Command::Exists => match dec(ks, b) {
            Ok((k, n)) => Ok((enc(ValueModel::Bool(lookup(es, k) is Some)), es, n)),
            Err(e) => Err(CachemError::CodecError(e)),
        },
        Command::MExists => if b.len() < 4 {
            Err(CachemError::CodecError(crate::error::CodecError::UnexpectedEnd))
        } else {
            match crate::codec::dec_seq(ks, crate::codec::be_val(b.take(4)), b.skip(4)) {
                Ok((kms, m)) => Ok((enc(ValueModel::List(mexists_reply(es, kms))), es, 4 + m)),
                Err(e) => Err(CachemError::CodecError(e)),
            }
        },
        Command::Put => match dec(ks, b) {
            Ok((k, n)) => match dec(vs, b.skip(n)) {
                Ok((v, m)) => Ok((seq![0u8], update_entry(es, k, v), n + m)),
                Err(e) => Err(CachemError::CodecError(e)),
            },
            Err(e) => Err(CachemError::CodecError(e)),
        },
        Command::MSet => if b.len() < 4 {
            Err(CachemError::CodecError(crate::error::CodecError::UnexpectedEnd))
        } else {
            match dec_kvs(ks, vs, crate::codec::be_val(b.take(4)), b.skip(4)) {
                Ok((pms, m)) => Ok((seq![0u8], mset_entries(es, pms), 4 + m)),
                Err(e) => Err(CachemError::CodecError(e)),
            }
        },
        Command::Del => match dec(ks, b) {
            Ok((k, n)) => Ok((seq![0u8], remove_entry(es, k), n)),
            Err(e) => Err(CachemError::CodecError(e)),
        },
        Command::MDel => if b.len() < 4 {
            Err(CachemError::CodecError(crate::error::CodecError::UnexpectedEnd))
        } else {
            match crate::codec::dec_seq(ks, crate::codec::be_val(b.take(4)), b.skip(4)) {
                Ok((kms, m)) => Ok((seq![0u8], mdel_entries(es, kms), 4 + m)),
                Err(e) => Err(CachemError::CodecError(e)),
            }
        },
        Command::Save => Ok((seq![1u8], es, 0)),
        Command::Ping => Err(CachemError::ProtocolError(ProtocolError::UnsupportedCapability)),
        Command::Pong => Err(CachemError::ProtocolError(ProtocolError::UnsupportedCapability)),
    }
}


// ---------------------------------------------------------------------------
// Decoding a run of key/value pairs
// ---------------------------------------------------------------------------

/// Decodes `n` key/value pairs under the schema pair: exactly [`dec_kvs`].
#[verifier::loop_isolation(false)]
#[verifier::rlimit(100)]
fn decode_kvs_n(ks: &Schema, vs: &Schema, n: usize, data: &[u8], start: usize) -> (r: Result<
    (Vec<(Value, Value)>, usize),
    CodecError,
>)
    requires
        start <= data@.len(),
    ensures
        match r {
            Ok(p) => start <= p.1 <= data@.len() && dec_kvs(
                *ks,
                *vs,
                n as nat,
                data@.skip(start as int),
            ) == Ok::<(Seq<(ValueModel, ValueModel)>, int), CodecError>(
                (model_pairs(p.0@), p.1 - start),
            ),
            Err(e) => dec_kvs(*ks, *vs, n as nat, data@.skip(start as int)) == Err::<
                (Seq<(ValueModel, ValueModel)>, int),
                CodecError,
            >(e),
        },
{
    let ghost b0 = data@.skip(start as int);
    let mut pairs: Vec<(Value, Value)> = Vec::new();
    let mut cur: usize = start;
    let mut i: usize = 0;
    proof {
        assert(data@.skip(cur as int) == b0);
        match dec_kvs(*ks, *vs, n as nat, b0) {
            Ok(p) => {
                assert(model_pairs(pairs@) + p.0 =~= p.0);
            },
            Err(_) => {},
        }
    }
    while i < n
        invariant
            0 <= i <= n,
            start <= cur <= data@.len(),
            model_pairs(pairs@).len() == i,
            dec_kvs(*ks, *vs, n as nat, b0) == (match dec_kvs(
                *ks,
                *vs,
                (n - i) as nat,
                data@.skip(cur as int),
            ) {
                Ok(p) => Ok::<(Seq<(ValueModel, ValueModel)>, int), CodecError>(
                    (model_pairs(pairs@) + p.0, (cur - start) + p.1),
                ),
                Err(e) => Err(e),
            }),
        decreases n - i,
    {
        proof {
            crate::codec::lemma_model_pairs(pairs@);
        }
        match decode(ks, data, cur) {
            Err(e) => {
                return Err(e);
            },
            Ok((kv, kend)) => {
                proof {
                    assert(data@.skip(cur as int).skip(kend - cur) =~= data@.skip(kend as int));
                }
                match decode(vs, data, kend) {
                    Err(e) => {
                        return Err(e);
                    },
                    Ok((vv, vend)) => {
                        let ghost pold = pairs@;
                        proof {
                            assert(data@.skip(kend as int).skip(vend - kend) =~= data@.skip(
                                vend as int,
                            ));
                            assert(data@.skip(cur as int).skip(vend - cur) =~= data@.skip(
                                vend as int,
                            ));
                            crate::codec::lemma_model_pairs_push(pold, kv, vv);
                            match dec_kvs(*ks, *vs, ((n - i) - 1) as nat, data@.skip(vend as int)) {
                                Ok(p2) => {
                                    assert(model_pairs(pold.push((kv, vv))) + p2.0 =~= model_pairs(
                                        pold,
                                    ) + (seq![(model(kv), model(vv))] + p2.0));
                                },
                                Err(_) => {},
                            }
                        }
                        pairs.push((kv, vv));
                        cur = vend;
                        i = i + 1;
                    },
                }
            },
        }
    }
    proof {
        crate::codec::lemma_model_pairs(pairs@);
        assert(model_pairs(pairs@) + Seq::<(ValueModel, ValueModel)>::empty() =~= model_pairs(
            pairs@,
        ));
    }
    Ok((pairs, cur))
}

// ---------------------------------------------------------------------------
// The dispatcher
// ---------------------------------------------------------------------------

impl Cache {
    /// The reply to a Keys request: every key, in table order.
    #[verifier::loop_isolation(false)]
    fn reply_keys(&self) -> (out: Vec<u8>)
        ensures
            out@ == enc(ValueModel::List(keys_of(self@))),
    {
        proof {
            crate::codec::lemma_model_pairs(self.entries@);
            lemma_keys_of(self@);
        }
        let n = self.entries.len();
        let ghost kseq = keys_of(self@);
        let mut out: Vec<u8> = Vec::new();
        push_be(&mut out, n as u128, 4);
        let ghost head = out@;
        let mut i: usize = 0;
        while i < n
            invariant
                0 <= i <= n,
                n == self.entries@.len(),
                out@ == head + enc_seq(kseq.take(i as int)),
            decreases n - i,
        {
            proof {
                crate::codec::lemma_model_pairs(self.entries@);
            }
            encode(&self.entries[i].0, &mut out);
            proof {
                crate::codec::lemma_enc_seq_take(kseq, i as int);
            }
            assert(out@ =~= head + enc_seq(kseq.take(i + 1)));
            i = i + 1;
        }
        assert(kseq.take(n as int) =~= kseq);
        out
    }

    /// The reply to an MGet request: one Optional per key, request order.
    #[verifier::loop_isolation(false)]
    fn reply_mget(&self, keys: &Vec<Value>) -> (out: Vec<u8>)
        ensures
            out@ == enc(ValueModel::List(mget_reply(self@, model_seq(keys@)))),
    {
        let ghost kms = model_seq(keys@);
        let ghost reply = mget_reply(self@, kms);
        proof {
            crate::codec::lemma_model_seq(keys@);
            lemma_mget_reply(self@, kms);
        }
        let n = keys.len();
        let mut out: Vec<u8> = Vec::new();
        push_be(&mut out, n as u128, 4);
        let ghost head = out@;
        let mut i: usize = 0;
        while i < n
            invariant
                0 <= i <= n,
                n == keys@.len(),
                out@ == head + enc_seq(reply.take(i as int)),
            decreases n - i,
        {
            match self.get(&keys[i]) {
                Some(fv) => {
                    out.push(1u8);
                    encode(fv, &mut out);
                },
                None => {
                    out.push(0u8);
                },
            }
            proof {
                crate::codec::lemma_enc_seq_take(reply, i as int);
            }
            assert(out@ =~= head + enc_seq(reply.take(i + 1)));
            i = i + 1;
        }
        assert(reply.take(n as int) =~= reply);
        out
    }

    /// The reply to an MExists request: one bool per key, request order.
    #[verifier::loop_isolation(false)]
    fn reply_mexists(&self, keys: &Vec<Value>) -> (out: Vec<u8>)
        ensures
            out@ == enc(ValueModel::List(mexists_reply(self@, model_seq(keys@)))),
    {
        let ghost kms = model_seq(keys@);
        let ghost reply = mexists_reply(self@, kms);
        proof {
            crate::codec::lemma_model_seq(keys@);
            lemma_mexists_reply(self@, kms);
        }
        let n = keys.len();
        let mut out: Vec<u8> = Vec::new();
        push_be(&mut out, n as u128, 4);
        let ghost head = out@;
        let mut i: usize = 0;
        while i < n
            invariant
                0 <= i <= n,
                n == keys@.len(),
                out@ == head + enc_seq(reply.take(i as int)),
            decreases n - i,
        {
            let found = self.contains_key(&keys[i]);
            out.push(if found {
                1u8
            } else {
                0u8
            });
            proof {
                crate::codec::lemma_enc_seq_take(reply, i as int);
            }
            assert(out@ =~= head + enc_seq(reply.take(i + 1)));
            i = i + 1;
        }
        assert(reply.take(n as int) =~= reply);
        out
    }

    /// Stores a run of decoded pairs, in wire order.
    #[verifier::loop_isolation(false)]
    fn apply_mset(&mut self, pairs: Vec<(Value, Value)>)
        ensures
            final(self)@ == mset_entries(old(self)@, model_pairs(pairs@)),
            final(self).key_schema_spec() == old(self).key_schema_spec(),
            final(self).val_schema_spec() == old(self).val_schema_spec(),
            distinct_keys(old(self)@) ==> distinct_keys(final(self)@),
    {
        let ghost target = mset_entries(self@, model_pairs(pairs@));
        let mut ps = pairs;
        while ps.len() > 0
            invariant
                mset_entries(self@, model_pairs(ps@)) == target,
                self.key_schema_spec() == old(self).key_schema_spec(),
                self.val_schema_spec() == old(self).val_schema_spec(),
                distinct_keys(old(self)@) ==> distinct_keys(self@),
            decreases ps@.len(),
        {
            let ghost psv = ps@;
            proof {
                crate::codec::lemma_model_pairs(psv);
            }
            let pair = ps.remove(0);
            proof {
                crate::codec::lemma_model_pairs(ps@);
                assert forall|j: int|
                    0 <= j < ps@.len() implies model_pairs(ps@)[j] == model_pairs(psv)[j + 1] by {
                    assert(ps@[j] == psv[j + 1]);
                }
                assert(model_pairs(ps@) =~= model_pairs(psv).drop_first());
                assert(model_pairs(psv)[0] == (model(pair.0), model(pair.1)));
            }
            self.set(pair.0, pair.1);
        }
        proof {
            crate::codec::lemma_model_pairs(ps@);
            assert(mset_entries(self@, model_pairs(ps@)) == self@);
        }
    }

    /// Deletes a run of decoded keys, in wire order.
    #[verifier::loop_isolation(false)]
    fn apply_mdel(&mut self, keys: Vec<Value>)
        ensures
            final(self)@ == mdel_entries(old(self)@, model_seq(keys@)),
            final(self).key_schema_spec() == old(self).key_schema_spec(),
            final(self).val_schema_spec() == old(self).val_schema_spec(),
            distinct_keys(old(self)@) ==> distinct_keys(final(self)@),
    {
        let ghost target = mdel_entries(self@, model_seq(keys@));
        let mut ks = keys;
        while ks.len() > 0
            invariant
                mdel_entries(self@, model_seq(ks@)) == target,
                self.key_schema_spec() == old(self).key_schema_spec(),
                self.val_schema_spec() == old(self).val_schema_spec(),
                distinct_keys(old(self)@) ==> distinct_keys(self@),
            decreases ks@.len(),
        {
            let ghost ksv = ks@;
            proof {
                crate::codec::lemma_model_seq(ksv);
            }
            let key = ks.remove(0);
            proof {
                crate::codec::lemma_model_seq(ks@);
                assert forall|j: int|
                    0 <= j < ks@.len() implies model_seq(ks@)[j] == model_seq(ksv)[j + 1] by {
                    assert(ks@[j] == ksv[j + 1]);
                }
                assert(model_seq(ks@) =~= model_seq(ksv).drop_first());
                assert(model_seq(ksv)[0] == model(key));
            }
            self.del(&key);
        }
        proof {
            crate::codec::lemma_model_seq(ks@);
            assert(mdel_entries(self@, model_seq(ks@)) == self@);
        }
    }

    /// Routes one command to the capability it names: decodes the argument
    /// bytes by the namespace's schemas, performs the operation, and builds
    /// the exact reply of the command table — all as [`handle_model`] says.
    /// A Save replies a nonzero status in band: this namespace keeps no
    /// snapshotter. Ping never reaches a namespace.
    #[verifier::rlimit(100)]
    pub fn handle(&mut self, cmd: Command, data: &[u8], pos: usize) -> (r: Result<
        (Vec<u8>, usize),
        CachemError,
    >)
        requires
            pos <= data@.len(),
        ensures
            final(self).key_schema_spec() == old(self).key_schema_spec(),
            final(self).val_schema_spec() == old(self).val_schema_spec(),
            distinct_keys(old(self)@) ==> distinct_keys(final(self)@),
            match r {
                Ok(p) => pos <= p.1 <= data@.len() && handle_model(
                    old(self).key_schema_spec(),
                    old(self).val_schema_spec(),
                    old(self)@,
                    cmd,
                    data@.skip(pos as int),
                ) == Ok::<(Seq<u8>, Seq<(ValueModel, ValueModel)>, int), CachemError>(
                    (p.0@, final(self)@, p.1 - pos),
                ),
                Err(e) => handle_model(
                    old(self).key_schema_spec(),
                    old(self).val_schema_spec(),
                    old(self)@,
                    cmd,
                    data@.skip(pos as int),
                ) == Err::<(Seq<u8>, Seq<(ValueModel, ValueModel)>, int), CachemError>(e)
                    && final(self)@ == old(self)@,
            },
    {
        let ghost b = data@.skip(pos as int);
        let data_len: usize = data.len();
        proof {
            crate::codec::lemma_pow256_16();
            assert(data_len == data@.len());
        }
        match cmd {
            Command::Get => {
                match decode(&self.key_schema, data, pos) {
                    Err(e) => Err(CachemError::CodecError(e)),
                    Ok((k, end)) => {
                        let mut out: Vec<u8> = Vec::new();
                        match self.get(&k) {
                            Some(fv) => {
                                out.push(1u8);
                                encode(fv, &mut out);
                                assert(out@ =~= seq![1u8] + enc(model(*fv)));
                            },
                            None => {
                                out.push(0u8);
                                assert(out@ =~= seq![0u8]);
                            },
                        }
                        Ok((out, end))
                    },
                }
            },
            Command::Exists => {
                match decode(&self.key_schema, data, pos) {
                    Err(e) => Err(CachemError::CodecError(e)),
                    Ok((k, end)) => {
                        let found = self.contains_key(&k);
                        let mut out: Vec<u8> = Vec::new();
                        out.push(if found {
                            1u8
                        } else {
                            0u8
                        });
                        assert(out@ =~= seq![if found {
                            1u8
                        } else {
                            0u8
                        }]);
                        Ok((out, end))
                    },
                }
            },
            Command::Keys => {
                let out = self.reply_keys();
                Ok((out, pos))
            },
            Command::Put => {
                match decode(&self.key_schema, data, pos) {
                    Err(e) => Err(CachemError::CodecError(e)),
                    Ok((k, mid)) => {
                        proof {
                            assert(b.skip(mid - pos) =~= data@.skip(mid as int));
                        }
                        match decode(&self.val_schema, data, mid) {
                            Err(e) => Err(CachemError::CodecError(e)),
                            Ok((v, end)) => {
                                self.set(k, v);
                                let mut out: Vec<u8> = Vec::new();
                                out.push(0u8);
                                assert(out@ =~= seq![0u8]);
                                Ok((out, end))
                            },
                        }
                    },
                }
            },
            Command::Del => {
                match decode(&self.key_schema, data, pos) {
                    Err(e) => Err(CachemError::CodecError(e)),
                    Ok((k, end)) => {
                        self.del(&k);
                        let mut out: Vec<u8> = Vec::new();
                        out.push(0u8);
                        assert(out@ =~= seq![0u8]);
                        Ok((out, end))
                    },
                }
            },
            Command::MGet => {
                match take_fixed(data, pos, 4) {
                    Err(e) => Err(CachemError::CodecError(e)),
                    Ok(n128) => {
                        let n = n128 as usize;
                        proof {
                            assert(b.skip(4) =~= data@.skip(pos + 4));
                        }
                        match crate::codec::decode_seq_n(&self.key_schema, n, data, pos + 4) {
                            Err(e) => Err(CachemError::CodecError(e)),
                            Ok((kv, mid)) => {
                                let out = self.reply_mget(&kv);
                                Ok((out, mid))
                            },
                        }
                    },
                }
            },
            Command::MExists => {
                match take_fixed(data, pos, 4) {
                    Err(e) => Err(CachemError::CodecError(e)),
                    Ok(n128) => {
                        let n = n128 as usize;
                        proof {
                            assert(b.skip(4) =~= data@.skip(pos + 4));
                        }
                        match crate::codec::decode_seq_n(&self.key_schema, n, data, pos + 4) {
                            Err(e) => Err(CachemError::CodecError(e)),
                            Ok((kv, mid)) => {
                                let out = self.reply_mexists(&kv);
                                Ok((out, mid))
                            },
                        }
                    },
                }
            },
            Command::MSet => {
                match take_fixed(data, pos, 4) {
                    Err(e) => Err(CachemError::CodecError(e)),
                    Ok(n128) => {
                        let n = n128 as usize;
                        proof {
                            assert(b.skip(4) =~= data@.skip(pos + 4));
                        }
                        match decode_kvs_n(&self.key_schema, &self.val_schema, n, data, pos + 4) {
                            Err(e) => Err(CachemError::CodecError(e)),
                            Ok((pairs, mid)) => {
                                self.apply_mset(pairs);
                                let mut out: Vec<u8> = Vec::new();
                                out.push(0u8);
                                assert(out@ =~= seq![0u8]);
                                Ok((out, mid))
                            },
                        }
                    },
                }
            },
            Command::MDel => {
                match take_fixed(data, pos, 4) {
                    Err(e) => Err(CachemError::CodecError(e)),
                    Ok(n128) => {
                        let n = n128 as usize;
                        proof {
                            assert(b.skip(4) =~= data@.skip(pos + 4));
                        }
                        match crate::codec::decode_seq_n(&self.key_schema, n, data, pos + 4) {
                            Err(e) => Err(CachemError::CodecError(e)),
                            Ok((kv, mid)) => {
                                self.apply_mdel(kv);
                                let mut out: Vec<u8> = Vec::new();
                                out.push(0u8);
                                assert(out@ =~= seq![0u8]);
                                Ok((out, mid))
                            },
                        }
                    },
                }
            },
            Command::Save => {
                let mut out: Vec<u8> = Vec::new();
                out.push(1u8);
                assert(out@ =~= seq![1u8]);
                Ok((out, pos))
            },
            Command::Ping => Err(
                CachemError::ProtocolError(ProtocolError::UnsupportedCapability),
            ),
            Command::Pong => Err(
                CachemError::ProtocolError(ProtocolError::UnsupportedCapability),
            ),
        }
    }
}

} // verus!
