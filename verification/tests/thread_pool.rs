use simple_kv::thread_pool::SharedQueueThreadPool;

fn at_strength(threads: u32) -> SharedQueueThreadPool {
    let mut pool = SharedQueueThreadPool::new(threads).unwrap();
    for _ in 0..pool.missing() {
        assert!(pool.worker_started());
    }
    pool
}

#[test]
fn a_new_pool_has_all_its_workers_to_start() {
    let pool = SharedQueueThreadPool::new(4).unwrap();
    assert_eq!(pool.threads(), 4);
    assert_eq!(pool.running(), 0);
    assert_eq!(pool.missing(), 4);
}

#[test]
fn a_pool_without_workers_is_at_strength() {
    let mut pool = SharedQueueThreadPool::new(0).unwrap();
    assert_eq!(pool.missing(), 0);
    assert!(!pool.worker_started());
    assert!(!pool.worker_exited(false));
    assert_eq!(pool.running(), 0);
}

#[test]
fn no_worker_is_started_beyond_the_strength_of_the_pool() {
    let mut pool = at_strength(2);
    assert!(!pool.worker_started());
    assert_eq!(pool.running(), 2);
}

#[test]
fn a_worker_that_panicked_is_replaced() {
    let mut pool = at_strength(4);
    assert!(pool.worker_exited(true));
    assert_eq!(pool.missing(), 1);
    assert!(pool.worker_started());
    assert_eq!(pool.running(), 4);
}

#[test]
fn a_worker_that_ended_with_the_queue_is_not_replaced() {
    let mut pool = at_strength(4);
    assert!(!pool.worker_exited(false));
    assert_eq!(pool.running(), 3);
}

#[test]
fn worker_pool_panic_resilience() {
    let mut pool = at_strength(4);
    let mut done = 0;
    for job in 1..=1000 {
        if job % 7 == 0 {
            if pool.worker_exited(true) {
                assert!(pool.worker_started());
            }
        } else {
            done += 1;
        }
    }
    assert_eq!(done, 1000 - 142);
    assert_eq!(pool.running(), 4);
    assert_eq!(pool.threads(), 4);
    assert_eq!(pool.missing(), 0);
}
