//! The client-side connection pool: a FIFO queue of live connections with
//! counters, a dead-marker, and a reconnect discipline.
//!
//! The pool itself never touches a socket. Connections are named by opaque
//! handles; whoever runs the pool opens sockets, keeps the handle-to-socket
//! table, performs the ping probes, and feeds every outcome back in. Each
//! decision the pool makes — what to hand out, when to refuse, when to mark
//! itself dead, how to rebuild — lives here, verified.

use vstd::prelude::*;

use crate::error::ConnectionPoolError;

verus! {

/// The pool's state as mathematics: the queue front is index 0.
pub struct PoolView {
    /// How many connections sit in the queue right now.
    pub available: nat,
    /// How many connections the pool aims to hold.
    pub pool_size: nat,
    /// Whether a connection failed its probe since the last rebuild.
    pub dead: bool,
    /// The handles of the queued connections, front first.
    pub queue: Seq<u64>,
}

/// A pool view is well formed when the counter matches the queue and never
/// exceeds the target size.
pub open spec fn pool_wf(v: PoolView) -> bool {
    v.available == v.queue.len() && v.available <= v.pool_size
}

/// The state after handing the front connection out.
pub open spec fn take_front(v: PoolView) -> PoolView {
    PoolView {
        available: (v.available - 1) as nat,
        queue: v.queue.drop_first(),
        ..v
    }
}

/// The state after a connection came back to the rear of the queue.
pub open spec fn give_back(v: PoolView, c: u64) -> PoolView {
    PoolView { available: v.available + 1, queue: v.queue.push(c), ..v }
}

/// The state after `n` successful hand-outs in a row.
pub open spec fn after_acquires(v: PoolView, n: nat) -> PoolView
    decreases n,
{
    if n == 0 {
        v
    } else {
        after_acquires(take_front(v), (n - 1) as nat)
    }
}

/// The state after every handle in `cs` was released, in order.
pub open spec fn after_releases(v: PoolView, cs: Seq<u64>) -> PoolView
    decreases cs,
{
    if cs.len() == 0 {
        v
    } else {
        after_releases(give_back(v, cs[0]), cs.drop_first())
    }
}

/// The connection pool. All I/O stays with the caller; see the module text.
pub struct ConnectionPool {
    available: usize,
    pool_size: usize,
    has_dead_con: bool,
    connections: Vec<u64>,
}

impl View for ConnectionPool {
    type V = PoolView;

    closed spec fn view(&self) -> PoolView {
        PoolView {
            available: self.available as nat,
            pool_size: self.pool_size as nat,
            dead: self.has_dead_con,
            queue: self.connections@,
        }
    }
}

impl ConnectionPool {
    /// A fresh pool over the given opened connections: full and healthy.
    pub fn new(connections: Vec<u64>) -> (p: Self)
        ensures
            p@.queue == connections@,
            p@.available == connections@.len(),
            p@.pool_size == connections@.len(),
            !p@.dead,
            pool_wf(p@),
    {
        let n = connections.len();
        ConnectionPool { available: n, pool_size: n, has_dead_con: false, connections }
    }

    /// How many connections could be handed out right now.
    pub fn available_connections(&self) -> (r: usize)
        ensures
            r == self@.available,
    {
        self.available
    }

    /// The target size of the pool.
    pub fn pool_size(&self) -> (r: usize)
        ensures
            r == self@.pool_size,
    {
        self.pool_size
    }

    /// Whether a probe failure has marked the pool dead since the last
    /// rebuild. While this holds, nothing is handed out.
    pub fn is_dead(&self) -> (r: bool)
        ensures
            r == self@.dead,
    {
        self.has_dead_con
    }

    /// Takes the front connection for a health probe. Refuses while the pool
    /// is dead, and when nothing is queued; hands out the front otherwise.
    /// The caller must probe the returned handle and report the outcome
    /// through [`ConnectionPool::note_probe`].
    pub fn try_acquire(&mut self) -> (r: Result<u64, ConnectionPoolError>)
        requires
            pool_wf(old(self)@),
        ensures
            pool_wf(final(self)@),
            old(self)@.dead ==> r == Err::<u64, ConnectionPoolError>(
                ConnectionPoolError::NoConnectionAvailable,
            ) && final(self)@ == old(self)@,
            !old(self)@.dead && old(self)@.available == 0 ==> r == Err::<
                u64,
                ConnectionPoolError,
            >(ConnectionPoolError::NoConnectionAvailable) && final(self)@ == old(self)@,
            !old(self)@.dead && old(self)@.available > 0 ==> r == Ok::<u64, ConnectionPoolError>(
                old(self)@.queue[0],
            ) && final(self)@ == take_front(old(self)@),
    {
        if self.has_dead_con {
            return Err(ConnectionPoolError::NoConnectionAvailable);
        }
        if self.available == 0 {
            return Err(ConnectionPoolError::NoConnectionAvailable);
        }
        let c = self.connections.remove(0);
        self.available = self.available - 1;
        assert(self@.queue =~= take_front(old(self)@).queue);
        Ok(c)
    }

    /// Settles an acquire after the probe: a healthy connection becomes the
    /// caller's guard; an unhealthy one is dropped for good and the pool is
    /// marked dead, so nothing more is handed out until the rebuild. No
    /// handle that ever failed a probe is returned or kept.
    pub fn note_probe(&mut self, conn: u64, healthy: bool) -> (r: Result<
        u64,
        ConnectionPoolError,
    >)
        requires
            pool_wf(old(self)@),
        ensures
            pool_wf(final(self)@),
            healthy ==> r == Ok::<u64, ConnectionPoolError>(conn) && final(self)@ == old(self)@,
            !healthy ==> r == Err::<u64, ConnectionPoolError>(ConnectionPoolError::CannotConnect)
                && final(self)@ == (PoolView { dead: true, ..old(self)@ }),
    {
        if healthy {
            Ok(conn)
        } else {
            self.has_dead_con = true;
            Err(ConnectionPoolError::CannotConnect)
        }
    }

    /// Returns a guarded connection to the rear of the queue. Release never
    /// blocks and never fails.
    pub fn release(&mut self, conn: u64)
        requires
            pool_wf(old(self)@),
            old(self)@.available < old(self)@.pool_size,
        ensures
            pool_wf(final(self)@),
            final(self)@ == give_back(old(self)@, conn),
    {
        self.connections.push(conn);
        self.available = self.available + 1;
    }

    /// Grows the pool by the connections the caller has just opened.
    pub fn scale_up(&mut self, opened: Vec<u64>)
        requires
            pool_wf(old(self)@),
            old(self)@.pool_size + opened@.len() <= usize::MAX,
        ensures
            pool_wf(final(self)@),
            final(self)@.queue == old(self)@.queue + opened@,
            final(self)@.available == old(self)@.available + opened@.len(),
            final(self)@.pool_size == old(self)@.pool_size + opened@.len(),
            final(self)@.dead == old(self)@.dead,
    {
        let k = opened.len();
        let mut opened_q = opened;
        let ghost oldq = self.connections@;
        let ghost addq = opened_q@;
        let mut i: usize = 0;
        while i < k
            invariant
                0 <= i <= k,
                k == addq.len(),
                opened_q@ == addq,
                self.connections@ == oldq + addq.take(i as int),
                self.available == old(self).available,
                self.pool_size == old(self).pool_size,
                self.has_dead_con == old(self).has_dead_con,
            decreases k - i,
        {
            let c = opened_q[i];
            self.connections.push(c);
            assert(self.connections@ =~= oldq + addq.take(i + 1));
            i = i + 1;
        }
        assert(addq.take(k as int) =~= addq);
        self.pool_size = self.pool_size + k;
        self.available = self.available + k;
    }

    /// Shrinks the pool by `count`, closing that many queued connections
    /// from the front; the returned handles are for the caller to close.
    /// Refused when the pool has fewer than `count` connections in total,
    /// and when fewer than `count` are available to take.
    pub fn scale_down(&mut self, count: usize) -> (r: Result<Vec<u64>, ConnectionPoolError>)
        requires
            pool_wf(old(self)@),
        ensures
            pool_wf(final(self)@),
            old(self)@.pool_size < count ==> r == Err::<Vec<u64>, ConnectionPoolError>(
                ConnectionPoolError::NotEnoughConnectionsInPool,
            ) && final(self)@ == old(self)@,
            old(self)@.pool_size >= count && old(self)@.available < count ==> r == Err::<
                Vec<u64>,
                ConnectionPoolError,
            >(ConnectionPoolError::NotEnoughConnectionsAvailable) && final(self)@ == old(self)@,
            old(self)@.pool_size >= count && old(self)@.available >= count ==> (match r {
                Ok(closed) => closed@ == old(self)@.queue.take(count as int) && final(self)@
                    == (PoolView {
                    available: (old(self)@.available - count) as nat,
                    pool_size: (old(self)@.pool_size - count) as nat,
                    dead: old(self)@.dead,
                    queue: old(self)@.queue.skip(count as int),
                }),
                Err(_) => false,
            }),
    {
        if self.pool_size < count {
            return Err(ConnectionPoolError::NotEnoughConnectionsInPool);
        }
        if self.available < count {
            return Err(ConnectionPoolError::NotEnoughConnectionsAvailable);
        }
        let ghost oldq = self.connections@;
        let mut closed: Vec<u64> = Vec::new();
        let mut i: usize = 0;
        while i < count
            invariant
                0 <= i <= count,
                count <= oldq.len(),
                closed@ == oldq.take(i as int),
                self.connections@ == oldq.skip(i as int),
                self.available == old(self).available,
                self.pool_size == old(self).pool_size,
                self.has_dead_con == old(self).has_dead_con,
            decreases count - i,
        {
            let c = self.connections.remove(0);
            assert(oldq.skip(i as int)[0] == oldq[i as int]);
            closed.push(c);
            assert(closed@ =~= oldq.take(i + 1));
            assert(self.connections@ =~= oldq.skip(i + 1));
            i = i + 1;
        }
        self.pool_size = self.pool_size - count;
        self.available = self.available - count;
        Ok(closed)
    }

    /// Whether the periodic task should rebuild now: exactly when a failed
    /// probe has marked the pool dead.
    pub fn reconnect_due(&self) -> (r: bool)
        ensures
            r == self@.dead,
    {
        self.has_dead_con
    }

    /// First step of the rebuild: drop every queued connection. The caller
    /// closes the returned handles and then opens `pool_size` fresh
    /// connections, feeding each in through [`ConnectionPool::refill`].
    pub fn drop_all(&mut self) -> (r: Vec<u64>)
        requires
            pool_wf(old(self)@),
        ensures
            pool_wf(final(self)@),
            r@ == old(self)@.queue,
            final(self)@ == (PoolView {
                available: 0,
                queue: Seq::empty(),
                ..old(self)@
            }),
    {
        let mut drained: Vec<u64> = Vec::new();
        core::mem::swap(&mut drained, &mut self.connections);
        self.available = 0;
        assert(self.connections@ =~= Seq::<u64>::empty());
        drained
    }

    /// One successfully reopened connection joins the rear of the queue.
    pub fn refill(&mut self, conn: u64)
        requires
            pool_wf(old(self)@),
            old(self)@.available < old(self)@.pool_size,
        ensures
            pool_wf(final(self)@),
            final(self)@ == give_back(old(self)@, conn),
    {
        self.connections.push(conn);
        self.available = self.available + 1;
    }

    /// Last step of the rebuild: clear the dead-marker, even if some opens
    /// failed. The next acquire sets it again if the next connection is bad;
    /// this keeps a flapping upstream from locking the pool out for good.
    pub fn finish_reconnect(&mut self)
        requires
            pool_wf(old(self)@),
        ensures
            pool_wf(final(self)@),
            final(self)@ == (PoolView { dead: false, ..old(self)@ }),
    {
        self.has_dead_con = false;
    }
}

// ---------------------------------------------------------------------------
// Pool laws
// ---------------------------------------------------------------------------

/// Acquire/release balance: after `n` successful hand-outs and the release
/// of `n` guards — none poisoned — `available` is back where it began, and
/// the pool is exactly as large as before.
pub proof fn lemma_acquire_release_balance(v: PoolView, n: nat, cs: Seq<u64>)
    requires
        pool_wf(v),
        n <= v.available,
        cs.len() == n,
    ensures
        after_releases(after_acquires(v, n), cs).available == v.available,
        after_releases(after_acquires(v, n), cs).pool_size == v.pool_size,
        pool_wf(after_acquires(v, n)),
{
    lemma_acquires_available(v, n);
    lemma_releases_available(after_acquires(v, n), cs);
}

/// Releasing a run of guards raises `available` by exactly their number.
pub proof fn lemma_releases_available(v: PoolView, cs: Seq<u64>)
    ensures
        after_releases(v, cs).available == v.available + cs.len(),
        after_releases(v, cs).pool_size == v.pool_size,
    decreases cs,
{
    if cs.len() > 0 {
        lemma_releases_available(give_back(v, cs[0]), cs.drop_first());
    }
}

/// A run of hand-outs lowers `available` by exactly their number.
pub proof fn lemma_acquires_available(v: PoolView, n: nat)
    requires
        pool_wf(v),
        n <= v.available,
    ensures
        after_acquires(v, n).available == v.available - n,
        after_acquires(v, n).pool_size == v.pool_size,
        pool_wf(after_acquires(v, n)),
    decreases n,
{
    if n > 0 {
        lemma_acquires_available(take_front(v), (n - 1) as nat);
    }
}

/// Steady state after a fault: once the rebuild has dropped the queue and
/// every one of the `pool_size` fresh connections came up, the pool is full
/// again and the dead-marker is gone.
pub proof fn lemma_reconnect_restores(v: PoolView, cs: Seq<u64>)
    requires
        pool_wf(v),
        cs.len() == v.pool_size,
    ensures
        ({
            let flushed = PoolView { available: 0, queue: Seq::empty(), ..v };
            let refilled = after_releases(flushed, cs);
            let done = PoolView { dead: false, ..refilled };
            done.available == done.pool_size && !done.dead && pool_wf(done)
        }),
{
    let flushed = PoolView { available: 0, queue: Seq::empty(), ..v };
    lemma_releases_available(flushed, cs);
    lemma_releases_queue_len(flushed, cs);
}

/// Releasing a run of guards grows the queue by exactly their number.
pub proof fn lemma_releases_queue_len(v: PoolView, cs: Seq<u64>)
    ensures
        after_releases(v, cs).queue.len() == v.queue.len() + cs.len(),
    decreases cs,
{
    if cs.len() > 0 {
        lemma_releases_queue_len(give_back(v, cs[0]), cs.drop_first());
    }
}

} // verus!
