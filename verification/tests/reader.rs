use simple_kv::engine::reader::KvStoreReader;

#[test]
fn a_new_pool_holds_no_handle() {
    let pool: KvStoreReader<&str> = KvStoreReader::new();
    assert!(!pool.is_open(1));
}

#[test]
fn a_handle_that_was_checked_in_is_handed_out_again() {
    let mut pool = KvStoreReader::new();
    pool.checkin(3, "three");
    assert!(pool.is_open(3));
    assert_eq!(pool.checkout(0, 3), Some("three"));
    assert!(!pool.is_open(3));
    assert_eq!(pool.checkout(0, 3), None);
}

#[test]
fn handles_below_the_safe_point_are_closed() {
    let mut pool = KvStoreReader::new();
    for gen in [1, 2, 3, 4, 5] {
        pool.checkin(gen, gen * 10);
    }
    pool.close_stale_handle(3);
    assert!(!pool.is_open(1));
    assert!(!pool.is_open(2));
    assert!(pool.is_open(3));
    assert!(pool.is_open(4));
    assert!(pool.is_open(5));
    assert_eq!(pool.checkout(3, 4), Some(40));
}

#[test]
fn a_safe_point_of_zero_closes_nothing() {
    let mut pool = KvStoreReader::new();
    pool.checkin(0, 'a');
    pool.checkin(7, 'b');
    pool.close_stale_handle(0);
    assert!(pool.is_open(0));
    assert!(pool.is_open(7));
}

#[test]
fn checkout_closes_stale_handles_first() {
    let mut pool = KvStoreReader::new();
    pool.checkin(1, "old");
    pool.checkin(6, "new");
    assert_eq!(pool.checkout(5, 1), None);
    assert!(!pool.is_open(1));
    assert!(pool.is_open(6));
}

#[test]
fn a_second_handle_for_a_generation_takes_the_place_of_the_first() {
    let mut pool = KvStoreReader::new();
    pool.checkin(2, "first");
    pool.checkin(2, "second");
    assert_eq!(pool.checkout(0, 2), Some("second"));
}
