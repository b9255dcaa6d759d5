use gitlab_collector::pool::ClientPool;

#[test]
fn pool_hands_out_each_client_once() {
    let mut pool = ClientPool::new(3);
    assert_eq!(pool.capacity(), 3);
    let mut seen = vec![];
    while let Some(client) = pool.checkout() {
        assert!(client < 3);
        assert!(!seen.contains(&client));
        seen.push(client);
    }
    assert_eq!(seen.len(), 3);
    assert_eq!(pool.checkout(), None);
}

#[test]
fn pool_hands_out_the_client_that_came_back_last() {
    let mut pool = ClientPool::new(3);
    assert_eq!(pool.checkout(), Some(2));
    assert_eq!(pool.checkout(), Some(1));
    pool.checkin(2);
    assert_eq!(pool.checkout(), Some(2));
    assert_eq!(pool.checkout(), Some(0));
    assert_eq!(pool.checkout(), None);
    pool.checkin(1);
    pool.checkin(0);
    assert_eq!(pool.checkout(), Some(0));
    assert_eq!(pool.checkout(), Some(1));
    assert_eq!(pool.checkout(), None);
}

#[test]
fn empty_pool_has_no_client() {
    let mut pool = ClientPool::new(0);
    assert_eq!(pool.capacity(), 0);
    assert_eq!(pool.checkout(), None);
}

#[test]
fn pool_of_one_serves_again_and_again() {
    let mut pool = ClientPool::new(1);
    for _ in 0..10 {
        assert_eq!(pool.checkout(), Some(0));
        assert_eq!(pool.checkout(), None);
        pool.checkin(0);
    }
    assert_eq!(pool.capacity(), 1);
}
