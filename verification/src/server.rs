//! The server side: a registry from namespace ids to caches, and the step a
//! connection's read loop takes for each incoming frame.
//!
//! The TCP accept loop, the per-connection task, and the broadcast channel
//! live outside the library; they feed each frame in through
//! [`Server::connection_step`], write the returned reply before reading any
//! further byte, publish the returned control signal if one is named, and
//! drop the connection when the step reports an error.

use vstd::prelude::*;

use crate::cache::{handle_model, Cache};
use crate::codec::{Schema, ValueModel};
use crate::command::{command_of, opcode_of, Command};
use crate::error::{CachemError, CodecError, ProtocolError};

verus! {

/// The namespace id reserved for the control channel. It never holds data;
/// a request against it broadcasts its opcode to every namespace.
pub const CONTROL_NS: u8 = 255;

/// What one registered namespace looks like from outside: its id, its
/// schema pair, and its entries.
pub struct NamespaceView {
    /// The id the namespace answers under.
    pub id: u8,
    /// The schema of its keys.
    pub key_schema: Schema,
    /// The schema of its values.
    pub val_schema: Schema,
    /// The entries the namespace holds.
    pub entries: Seq<(ValueModel, ValueModel)>,
}

/// A server: an insertion-ordered registry of namespaces. The control
/// namespace is not a table; it is handled by the step function itself.
pub struct Server {
    namespaces: Vec<(u8, Cache)>,
}

impl View for Server {
    type V = Seq<NamespaceView>;

    closed spec fn view(&self) -> Seq<NamespaceView> {
        Seq::new(
            self.namespaces@.len(),
            |i: int|
                NamespaceView {
                    id: self.namespaces@[i].0,
                    key_schema: self.namespaces@[i].1.key_schema_spec(),
                    val_schema: self.namespaces@[i].1.val_schema_spec(),
                    entries: self.namespaces@[i].1@,
                },
        )
    }
}

/// Every registered id names at most one namespace, and none is the
/// control id.
pub open spec fn server_wf(v: Seq<NamespaceView>) -> bool {
    &&& forall|i: int, j: int|
        0 <= i < j < v.len() ==> (#[trigger] v[i]).id != (#[trigger] v[j]).id
    &&& forall|i: int| 0 <= i < v.len() ==> (#[trigger] v[i]).id != CONTROL_NS
}

/// The position of the namespace registered under `id`, if any.
pub open spec fn find_ns(v: Seq<NamespaceView>, id: u8) -> Option<int> {
    if exists|i: int| 0 <= i < v.len() && (#[trigger] v[i]).id == id {
        Some(choose|i: int| 0 <= i < v.len() && (#[trigger] v[i]).id == id)
    } else {
        None
    }
}

impl Server {
    /// A fresh server with no user namespace. The control namespace exists
    /// from the start, handled by the step function under [`CONTROL_NS`].
    pub fn new() -> (s: Server)
        ensures
            s@ == Seq::<NamespaceView>::empty(),
            server_wf(s@),
    {
        let s = Server { namespaces: Vec::new() };
        proof {
            assert(s@ =~= Seq::<NamespaceView>::empty());
        }
        s
    }

    /// Registers `cache` under `id`, overwriting a namespace already there.
    /// The control id cannot be taken.
    #[verifier::loop_isolation(false)]
    pub fn add(&mut self, id: u8, cache: Cache)
        requires
            id != CONTROL_NS,
            server_wf(old(self)@),
        ensures
            server_wf(final(self)@),
            // an id already registered is overwritten in place; a fresh id
            // joins the rear of the registry
            ({
                let entry = NamespaceView {
                    id,
                    key_schema: cache.key_schema_spec(),
                    val_schema: cache.val_schema_spec(),
                    entries: cache@,
                };
                match find_ns(old(self)@, id) {
                    Some(i) => final(self)@ == old(self)@.update(i, entry),
                    None => final(self)@ == old(self)@.push(entry),
                }
            }),
    {
        let n = self.namespaces.len();
        let mut i: usize = 0;
        while i < n
            invariant
                0 <= i <= n,
                n == self.namespaces@.len(),
                self == old(self),
                forall|j: int| 0 <= j < i ==> (#[trigger] self@[j]).id != id,
            decreases n - i,
        {
            if self.namespaces[i].0 == id {
                proof {
                    let oldv = self@;
                    assert(oldv[i as int].id == id);
                    let j = choose|j: int| 0 <= j < oldv.len() && (#[trigger] oldv[j]).id == id;
                    assert(find_ns(oldv, id) == Some(j));
                    assert(j == i as int);
                }
                self.namespaces.set(i, (id, cache));
                proof {
                    let oldv = old(self)@;
                    assert forall|j: int|
                        0 <= j < self@.len() && j != i implies #[trigger] self@[j] == oldv[j] by {
                        assert(self.namespaces@[j] == old(self).namespaces@[j]);
                    }
                    assert(self@[i as int].id == id);
                    assert(oldv[i as int].id == id);
                    assert forall|a: int, b: int|
                        0 <= a < b < self@.len() implies (#[trigger] self@[a]).id != (
                    #[trigger] self@[b]).id by {
                        assert(oldv[a].id != oldv[b].id);
                    }
                    assert(self@ =~= oldv.update(
                        i as int,
                        NamespaceView {
                            id,
                            key_schema: self.namespaces@[i as int].1.key_schema_spec(),
                            val_schema: self.namespaces@[i as int].1.val_schema_spec(),
                            entries: self.namespaces@[i as int].1@,
                        },
                    ));
                }
                return ;
            }
            i = i + 1;
        }
        proof {
            assert(find_ns(self@, id) is None);
        }
        self.namespaces.push((id, cache));
        proof {
            let oldv = old(self)@;
            assert forall|j: int|
                0 <= j < self@.len() - 1 implies #[trigger] self@[j] == oldv[j] by {
                assert(self.namespaces@[j] == old(self).namespaces@[j]);
            }
            assert(self@[self@.len() - 1].id == id);
            let n = self@.len() - 1;
            assert(self@ =~= oldv.push(
                NamespaceView {
                    id,
                    key_schema: self.namespaces@[n].1.key_schema_spec(),
                    val_schema: self.namespaces@[n].1.val_schema_spec(),
                    entries: self.namespaces@[n].1@,
                },
            ));
            assert forall|a: int, b: int|
                0 <= a < b < self@.len() implies (#[trigger] self@[a]).id != (
            #[trigger] self@[b]).id by {
                if b < self@.len() - 1 {
                    assert(oldv[a].id != oldv[b].id);
                } else {
                    assert(oldv[a].id != id);
                }
            }
        }
    }

    /// How many user namespaces are registered.
    pub fn namespace_count(&self) -> (r: usize)
        ensures
            r == self@.len(),
    {
        self.namespaces.len()
    }

    /// One step of a connection's read loop, on the frame that starts at
    /// `pos`. On success the caller writes the reply, publishes the control
    /// signal if one is named, and continues at the returned position; on
    /// error it drops the connection.
    ///
    /// The contract carries the protocol's laws: a ping is answered by the
    /// single pong byte with nothing else touched; every step leaves every
    /// namespace other than the addressed one exactly as it was; and every
    /// accepted request yields exactly one reply while consuming its frame
    /// before the next read.
    #[verifier::loop_isolation(false)]
    #[verifier::rlimit(100)]
    pub fn connection_step(&mut self, data: &[u8], pos: usize) -> (r: Result<
        (Vec<u8>, usize, Option<u8>),
        CachemError,
    >)
        requires
            pos < data@.len(),
            server_wf(old(self)@),
        ensures
            server_wf(final(self)@),
            // the registry keeps its shape: same namespaces, same order,
            // same schemas
            final(self)@.len() == old(self)@.len(),
            forall|i: int|
                0 <= i < old(self)@.len() ==> (#[trigger] final(self)@[i]).id == old(self)@[i].id
                    && final(self)@[i].key_schema == old(self)@[i].key_schema
                    && final(self)@[i].val_schema == old(self)@[i].val_schema,
            // namespace isolation: only the addressed namespace may change
            forall|i: int|
                0 <= i < old(self)@.len() && (#[trigger] final(self)@[i]).entries != old(
                    self,
                )@[i].entries ==> data@[pos as int] != opcode_of(Command::Ping) && pos + 1
                    < data@.len() && old(self)@[i].id == data@[pos + 1],
            // ping liveness: a ping is answered by pong, nothing else moves
            data@[pos as int] == opcode_of(Command::Ping) ==> (r matches Ok(p) && p.0@ == seq![
                opcode_of(Command::Pong),
            ] && p.1 == pos + 1 && p.2 is None && final(self)@ == old(self)@),
            // an error closes the connection with the state unchanged
            r is Err ==> final(self)@ == old(self)@,
            // progress: a reply always consumes at least the opcode byte
            r matches Ok(p) ==> pos < p.1 <= data@.len(),
            // exactly what each frame gets: pong for a ping; a refusal for a
            // byte that names no request; the empty marker and a broadcast on
            // the control id; the namespace's own reply otherwise
            ({
                let op = data@[pos as int];
                if op == opcode_of(Command::Ping) {
                    true  // pinned by the ping clause above
                } else if op > 9 {
                    r == Err::<(Vec<u8>, usize, Option<u8>), CachemError>(
                        CachemError::ProtocolError(ProtocolError::UnknownOpcode),
                    )
                } else if pos + 1 >= data@.len() {
                    r == Err::<(Vec<u8>, usize, Option<u8>), CachemError>(
                        CachemError::CodecError(CodecError::UnexpectedEnd),
                    )
                } else if data@[pos + 1] == CONTROL_NS {
                    r matches Ok(p) && p.0@ == seq![0u8] && p.1 == pos + 2 && p.2 == Some(op)
                        && final(self)@ == old(self)@
                } else {
                    match find_ns(old(self)@, data@[pos + 1]) {
                        Some(i) => match handle_model(
                            old(self)@[i].key_schema,
                            old(self)@[i].val_schema,
                            old(self)@[i].entries,
                            command_of(op),
                            data@.skip(pos + 2),
                        ) {
                            Ok(out) => r matches Ok(p) && p.0@ == out.0 && p.1 == pos + 2 + out.2
                                && p.2 is None && final(self)@[i].entries == out.1,
                            Err(e) => r == Err::<(Vec<u8>, usize, Option<u8>), CachemError>(e),
                        },
                        None => r == Err::<(Vec<u8>, usize, Option<u8>), CachemError>(
                            CachemError::ProtocolError(ProtocolError::UnknownNamespace),
                        ),
                    }
                }
            }),
    {
        let data_len: usize = data.len();
        proof {
            assert(data_len == data@.len());
        }
        let opcode = data[pos];
        if opcode == 254 {
            let mut out: Vec<u8> = Vec::new();
            out.push(255u8);
            assert(out@ =~= seq![opcode_of(Command::Pong)]);
            return Ok((out, pos + 1, None));
        }
        if opcode > 9 {
            return Err(CachemError::ProtocolError(ProtocolError::UnknownOpcode));
        }
        if pos + 1 >= data.len() {
            return Err(CachemError::CodecError(CodecError::UnexpectedEnd));
        }
        let ns = data[pos + 1];
        let cmd = Command::from_u8(opcode);
        if ns == 255 {
            // the control namespace: broadcast the opcode, reply the
            // empty marker
            let mut out: Vec<u8> = Vec::new();
            out.push(0u8);
            return Ok((out, pos + 2, Some(opcode)));
        }
        let n = self.namespaces.len();
        let mut i: usize = 0;
        while i < n
            invariant
                0 <= i <= n,
                n == self.namespaces@.len(),
                self == old(self),
                forall|j: int| 0 <= j < i ==> (#[trigger] self@[j]).id != ns,
            decreases n - i,
        {
            if self.namespaces[i].0 == ns {
                let ghost oldv = self@;
                let ghost oldns = self.namespaces@;
                proof {
                    assert(oldv[i as int].id == ns);
                    let j = choose|j: int| 0 <= j < oldv.len() && (#[trigger] oldv[j]).id == ns;
                    assert(find_ns(oldv, ns) == Some(j));
                    assert(j == i as int);
                }
                let mut entry = self.namespaces.remove(i);
                let hres = entry.1.handle(cmd, data, pos + 2);
                self.namespaces.insert(i, entry);
                proof {
                    assert forall|j: int|
                        0 <= j < self@.len() implies (#[trigger] self@[j]).id == oldv[j].id && (j
                        != i ==> self@[j].entries == oldv[j].entries) by {
                        if j < i as int {
                            assert(self.namespaces@[j] == oldns[j]);
                        } else if j > i as int {
                            assert(self.namespaces@[j] == oldns[j]);
                        }
                    }
                    assert(self@[i as int].id == ns);
                }
                match hres {
                    Err(e) => {
                        assert(self@ =~= oldv);
                        return Err(e);
                    },
                    Ok((reply, newpos)) => {
                        return Ok((reply, newpos, None));
                    },
                }
            }
            i = i + 1;
        }
        proof {
            assert(find_ns(self@, ns) is None);
        }
        Err(CachemError::ProtocolError(ProtocolError::UnknownNamespace))
    }
}

} // verus!
