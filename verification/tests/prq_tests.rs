use rust_queues::prq::Cell;
use rust_queues::prq::PRQ;

#[test]
fn basic_cell() {
    let cell: Cell<i32> = Cell::default();
    let (safe, epoch) = cell.load_safe_and_epoch();
    assert!(safe);
    assert_eq!(epoch, 0)
}

#[test]
fn crq_basic_cell() {
    let cell: Cell<i32> = Cell::default();
    let (safe, epoch) = cell.load_safe_and_epoch();
    assert!(safe);
    assert_eq!(epoch, 0)
}

#[test]
fn prq_basic_cell() {
    let cell: Cell<i32> = Cell::default();
    let (safe, epoch) = cell.load_safe_and_epoch();
    assert!(safe);
    assert_eq!(epoch, 0)
}

#[test]
fn basic_prq() {
    let mut prq: PRQ<i32, 5> = PRQ::new();
    assert!(!prq.is_closed());

    for i in 0..5 {
        assert_eq!(prq.enqueue(i), Ok(()));
    }
    // PRQ is now full, should fail and hand the value back
    assert_eq!(prq.enqueue(5), Err(5));

    for i in 0..5 {
        assert_eq!(prq.dequeue(), Some(i));
    }
    assert_eq!(prq.dequeue(), None);
}

#[test]
fn crq_basic_prq() {
    let mut prq: PRQ<i32, 5> = PRQ::new();
    assert!(!prq.is_closed());

    for i in 0..5 {
        assert_eq!(prq.enqueue(i), Ok(()));
    }
    assert_eq!(prq.enqueue(5), Err(5));

    for i in 0..5 {
        assert_eq!(prq.dequeue(), Some(i));
    }
    assert_eq!(prq.dequeue(), None);
}

#[test]
fn prq_basic_prq() {
    let mut prq: PRQ<i32, 5> = PRQ::new();
    assert!(!prq.is_closed());

    for i in 0..5 {
        assert_eq!(prq.enqueue(i), Ok(()));
    }
    assert_eq!(prq.enqueue(5), Err(5));

    for i in 0..5 {
        assert_eq!(prq.dequeue(), Some(i));
    }
    assert_eq!(prq.dequeue(), None);
}

#[test]
fn prq_closed_stays_closed() {
    let mut prq: PRQ<u64, 2> = PRQ::new();
    assert_eq!(prq.enqueue(7), Ok(()));
    assert_eq!(prq.enqueue(8), Ok(()));
    // full: this ticket closes the segment
    assert_eq!(prq.enqueue(9), Err(9));
    assert!(prq.is_closed());
    // once closed, every enqueue fails, even after a dequeue made room
    assert_eq!(prq.dequeue(), Some(7));
    assert_eq!(prq.enqueue(10), Err(10));
    assert_eq!(prq.dequeue(), Some(8));
    assert_eq!(prq.dequeue(), None);
}

#[test]
fn prq_reuses_slots_across_cycles() {
    // with capacity 3, eleven alternating rounds walk every slot through
    // several epochs
    let mut prq: PRQ<u64, 3> = PRQ::new();
    for round in 0..11u64 {
        assert_eq!(prq.enqueue(round * 2), Ok(()));
        assert_eq!(prq.enqueue(round * 2 + 1), Ok(()));
        assert_eq!(prq.dequeue(), Some(round * 2));
        assert_eq!(prq.dequeue(), Some(round * 2 + 1));
    }
    assert_eq!(prq.dequeue(), None);
    assert!(!prq.is_closed());
}

#[test]
fn stamp_codec_round_trip() {
    // the packed stamp word splits exactly into the safe bit and the epoch
    for &epoch in &[0u64, 1, 5, 0x7FFF_FFFF_FFFF_FFFF] {
        for &safe in &[true, false] {
            let word = Cell::<i32>::usize_from_sae((safe, epoch));
            assert_eq!(Cell::<i32>::sae_from_usize(word), (safe, epoch));
        }
    }
}

#[test]
fn token_mark() {
    let token = Cell::<i32>::make_token(0x8000_0000_0000_0001);
    assert!(Cell::<i32>::is_token(token));
    assert!(!Cell::<i32>::is_token(0));
    assert!(!Cell::<i32>::is_token(Cell::<i32>::make_token(1)));
}
