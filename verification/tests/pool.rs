use cachem::error::ConnectionPoolError;
use cachem::pool::ConnectionPool;

fn healthy_acquire(pool: &mut ConnectionPool) -> u64 {
    let conn = pool.try_acquire().unwrap();
    pool.note_probe(conn, true).unwrap()
}

#[test]
fn acquire_release_balance() {
    let mut pool = ConnectionPool::new(vec![10, 11, 12]);
    assert_eq!(pool.available_connections(), 3);
    let a = healthy_acquire(&mut pool);
    let b = healthy_acquire(&mut pool);
    assert_eq!(pool.available_connections(), 1);
    pool.release(a);
    pool.release(b);
    assert_eq!(pool.available_connections(), 3);
    assert_eq!(pool.pool_size(), 3);
}

#[test]
fn acquire_is_fifo() {
    let mut pool = ConnectionPool::new(vec![1, 2, 3]);
    assert_eq!(healthy_acquire(&mut pool), 1);
    assert_eq!(healthy_acquire(&mut pool), 2);
    pool.release(1);
    assert_eq!(healthy_acquire(&mut pool), 3);
    assert_eq!(healthy_acquire(&mut pool), 1);
}

#[test]
fn empty_pool_refuses() {
    let mut pool = ConnectionPool::new(vec![1]);
    let _ = healthy_acquire(&mut pool);
    assert_eq!(
        pool.try_acquire().unwrap_err(),
        ConnectionPoolError::NoConnectionAvailable
    );
}

#[test]
fn failed_probe_marks_dead_and_drops() {
    let mut pool = ConnectionPool::new(vec![1, 2]);
    let conn = pool.try_acquire().unwrap();
    let err = pool.note_probe(conn, false).unwrap_err();
    assert_eq!(err, ConnectionPoolError::CannotConnect);
    assert!(pool.is_dead());
    // while dead, nothing is handed out, though one connection is queued
    assert_eq!(
        pool.try_acquire().unwrap_err(),
        ConnectionPoolError::NoConnectionAvailable
    );
}

#[test]
fn pool_heals_after_kill() {
    let mut pool = ConnectionPool::new(vec![1, 2, 3, 4]);
    // the upstream died: the next probe fails and sets the dead-marker
    let conn = pool.try_acquire().unwrap();
    assert_eq!(
        pool.note_probe(conn, false).unwrap_err(),
        ConnectionPoolError::CannotConnect
    );
    assert!(pool.is_dead());

    // the upstream is back: the reconnect pass rebuilds to steady state
    assert!(pool.reconnect_due());
    let stale = pool.drop_all();
    assert_eq!(stale, vec![2, 3, 4]);
    for fresh in [5, 6, 7, 8] {
        pool.refill(fresh);
    }
    pool.finish_reconnect();
    assert!(!pool.is_dead());
    assert_eq!(pool.available_connections(), 4);

    // a fresh acquire succeeds again
    let conn = healthy_acquire(&mut pool);
    assert_eq!(conn, 5);
    pool.release(conn);
    assert_eq!(pool.available_connections(), 4);
}

#[test]
fn flapping_upstream_does_not_lock_out() {
    let mut pool = ConnectionPool::new(vec![1]);
    let conn = pool.try_acquire().unwrap();
    let _ = pool.note_probe(conn, false);
    // the rebuild found nothing to open, but still clears the marker
    let _ = pool.drop_all();
    pool.finish_reconnect();
    assert!(!pool.is_dead());
    assert_eq!(pool.available_connections(), 0);
}

#[test]
fn scale_down_respects_availability() {
    let mut pool = ConnectionPool::new(vec![1, 2, 3]);
    let a = healthy_acquire(&mut pool);
    let _b = healthy_acquire(&mut pool);
    assert_eq!(
        pool.scale_down(2).unwrap_err(),
        ConnectionPoolError::NotEnoughConnectionsAvailable
    );
    pool.release(a);
    let closed = pool.scale_down(2).unwrap();
    assert_eq!(closed.len(), 2);
    assert_eq!(pool.available_connections(), 0);
    assert_eq!(pool.pool_size(), 1);
}

#[test]
fn scale_down_needs_enough_in_pool() {
    let mut pool = ConnectionPool::new(vec![1]);
    assert_eq!(
        pool.scale_down(2).unwrap_err(),
        ConnectionPoolError::NotEnoughConnectionsInPool
    );
}

#[test]
fn scale_up_grows_both_counters() {
    let mut pool = ConnectionPool::new(vec![1]);
    pool.scale_up(vec![2, 3]);
    assert_eq!(pool.available_connections(), 3);
    assert_eq!(pool.pool_size(), 3);
}
