use adp::semaphore::{adjustment, sync_semaphore, Adjustment};
use named_semaphore::Semaphore;

fn test_semaphore(name: &str, capacity: usize) -> Semaphore {
    let sem = Semaphore::open(name, capacity).unwrap();
    sem.unlink().unwrap();
    sem
}

#[test]
fn adjustment_lowers_a_semaphore_that_is_too_high() {
    assert_eq!(adjustment(5, 2), Adjustment::Lower(3));
    assert_eq!(adjustment(1, 0), Adjustment::Lower(1));
}

#[test]
fn adjustment_raises_a_semaphore_that_is_too_low() {
    assert_eq!(adjustment(2, 5), Adjustment::Raise(3));
    assert_eq!(adjustment(0, usize::MAX), Adjustment::Raise(usize::MAX));
}

#[test]
fn adjustment_keeps_a_semaphore_that_is_right() {
    assert_eq!(adjustment(0, 0), Adjustment::Keep);
    assert_eq!(adjustment(4, 4), Adjustment::Keep);
}

#[test]
fn sync_raises_the_semaphore_to_the_free_slots() {
    let sem = test_semaphore("adp_sync_raises", 0);

    assert_eq!(sync_semaphore(&sem, 2).unwrap(), Adjustment::Raise(2));

    assert_eq!(sem.value().unwrap(), 2);
}

#[test]
fn sync_lowers_the_semaphore_to_the_free_slots() {
    let sem = test_semaphore("adp_sync_lowers", 3);

    assert_eq!(sync_semaphore(&sem, 1).unwrap(), Adjustment::Lower(2));

    assert_eq!(sem.value().unwrap(), 1);
}

#[test]
fn sync_leaves_a_semaphore_that_is_right() {
    let sem = test_semaphore("adp_sync_keeps", 2);

    assert_eq!(sync_semaphore(&sem, 2).unwrap(), Adjustment::Keep);

    assert_eq!(sem.value().unwrap(), 2);
}
