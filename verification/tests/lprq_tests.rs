use rust_queues::lprq::LPRQ;

#[test]
fn lprq_basic() {
    let mut queue: LPRQ<i32, 10> = LPRQ::new();
    for i in 0..123 {
        queue.enqueue(i);
    }
    for i in 0..123 {
        assert_eq!(queue.dequeue(), Some(i));
    }
    assert_eq!(queue.dequeue(), None);
}

#[test]
fn segment_rollover() {
    // six sequential enqueues over capacity 5: the sixth opens a second
    // segment, invisibly to the FIFO order
    let mut queue: LPRQ<i32, 5> = LPRQ::new();
    for i in 0..6 {
        queue.enqueue(i * 10);
    }
    for i in 0..6 {
        assert_eq!(queue.dequeue(), Some(i * 10));
    }
    assert_eq!(queue.dequeue(), None);
}

#[test]
fn lprq_conservation_sum() {
    let mut queue: LPRQ<usize, 3> = LPRQ::new();
    let n: usize = 10;
    for i in 0..n {
        queue.enqueue(i);
    }
    let drained = queue.drain();
    assert_eq!(drained.len(), n);
    let sum: usize = drained.iter().sum();
    assert_eq!(sum, 45);
    assert_eq!(queue.dequeue(), None);
}

#[test]
fn lprq_empty_refill() {
    let mut queue: LPRQ<i32, 2> = LPRQ::new();
    queue.enqueue(1);
    queue.enqueue(2);
    queue.enqueue(3);
    assert_eq!(queue.dequeue(), Some(1));
    assert_eq!(queue.dequeue(), Some(2));
    queue.enqueue(4);
    queue.enqueue(5);
    assert_eq!(queue.dequeue(), Some(3));
    assert_eq!(queue.dequeue(), Some(4));
    assert_eq!(queue.dequeue(), Some(5));
    assert_eq!(queue.dequeue(), None);
    queue.enqueue(6);
    queue.enqueue(7);
    assert_eq!(queue.dequeue(), Some(6));
    assert_eq!(queue.dequeue(), Some(7));
    assert_eq!(queue.dequeue(), None);
}

#[test]
fn lprq_soak_interleaved() {
    // segments open and retire many times under an irregular interleaving;
    // nothing is duplicated, nothing is lost
    let mut queue: LPRQ<u64, 4> = LPRQ::new();
    let mut next_in: u64 = 0;
    let mut next_out: u64 = 0;
    for step in 0..5_000u64 {
        let burst = (step % 6) + 1;
        for _ in 0..burst {
            queue.enqueue(next_in);
            next_in += 1;
        }
        let drains = step % 7;
        for _ in 0..drains {
            match queue.dequeue() {
                Some(v) => {
                    assert_eq!(v, next_out);
                    next_out += 1;
                },
                None => {
                    assert_eq!(next_out, next_in);
                },
            }
        }
    }
    let rest = queue.drain();
    assert_eq!(next_out + rest.len() as u64, next_in);
    for (k, v) in rest.iter().enumerate() {
        assert_eq!(*v, next_out + k as u64);
    }
}
