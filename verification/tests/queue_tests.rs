use rust_prime::Queue;

#[test]
fn new_queue_is_empty_and_not_full() {
    let q = Queue::<4>::new();
    assert!(q.is_empty());
    assert!(!q.is_full());
    let d: Queue<4> = Queue::default();
    assert!(d.is_empty());
}

#[test]
fn push_returns_consecutive_cells_and_fills_up() {
    let mut q = Queue::<3>::new();
    assert_eq!(q.push(0), 0);
    assert!(!q.is_empty());
    assert!(!q.is_full());
    assert_eq!(q.push(0), 1);
    assert!(q.is_full());
}

#[test]
fn remaining_counts_free_cells() {
    let mut q = Queue::<5>::new();
    q.push(7);
    assert_eq!(q.remaining(), 3);
    q.push(11);
    assert_eq!(q.remaining(), 2);
}

#[test]
fn pending_cell_blocks_the_front() {
    let mut q = Queue::<8>::new();
    let a = q.push(0);
    let b = q.push(0);
    q.update(b, 5);
    assert_eq!(q.try_shift_prime(), None);
    q.update(a, 3);
    assert_eq!(q.try_shift_prime(), Some(3));
    assert_eq!(q.try_shift_prime(), Some(5));
    assert_eq!(q.try_shift_prime(), None);
    assert!(q.is_empty());
}

#[test]
fn composites_are_skipped() {
    let mut q = Queue::<8>::new();
    q.push(1);
    q.push(1);
    q.push(7);
    q.push(1);
    assert_eq!(q.try_shift_prime(), Some(7));
    assert!(!q.is_empty());
    assert_eq!(q.try_shift_prime(), None);
    assert!(q.is_empty());
}

#[test]
fn composites_before_a_pending_cell_are_consumed() {
    let mut q = Queue::<8>::new();
    q.push(1);
    let pending = q.push(0);
    assert_eq!(q.try_shift_prime(), None);
    q.update(pending, 13);
    assert_eq!(q.try_shift_prime(), Some(13));
    assert!(q.is_empty());
}

#[test]
fn cells_wrap_around() {
    let mut q = Queue::<3>::new();
    assert_eq!(q.push(2), 0);
    assert_eq!(q.push(3), 1);
    assert_eq!(q.try_shift_prime(), Some(2));
    assert_eq!(q.push(5), 2);
    assert_eq!(q.try_shift_prime(), Some(3));
    assert_eq!(q.push(7), 0);
    assert!(q.is_full());
    assert_eq!(q.try_shift_prime(), Some(5));
    assert_eq!(q.try_shift_prime(), Some(7));
    assert!(q.is_empty());
}
