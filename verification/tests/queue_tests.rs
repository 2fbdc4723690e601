use rust_queues::ms_queue::MSQueue;
use rust_queues::ms_queue::Queue;
use rust_queues::shared_queue::SharedQueue;

#[test]
fn basics() {
    let mut queue: Queue<i32> = Queue::new();

    // Populate list
    queue.enqueue(1);
    queue.enqueue(2);
    queue.enqueue(3);
}

#[test]
fn main_basics() {
    let mut queue: Queue<i32> = Queue::new();
    // Populate list
    queue.enqueue(1);
    queue.enqueue(2);
    queue.enqueue(3);

    // Normal removal
    assert_eq!(queue.dequeue(), Some(1));
    assert_eq!(queue.dequeue(), Some(2));

    // Dequeue after dequeues
    queue.enqueue(4);
    queue.enqueue(5);

    // Normal removal to exhaustion
    assert_eq!(queue.dequeue(), Some(3));
    assert_eq!(queue.dequeue(), Some(4));
    assert_eq!(queue.dequeue(), Some(5));
    assert_eq!(queue.dequeue(), None);

    // Check the exhaustion case fixed the pointer right
    queue.enqueue(6);
    queue.enqueue(7);

    // Normal removal again
    assert_eq!(queue.dequeue(), Some(6));
    assert_eq!(queue.dequeue(), Some(7));
    assert_eq!(queue.dequeue(), None);
}

#[test]
fn msq_hazp_basics() {
    let mut queue: Queue<i32> = Queue::new();

    // Populate queue
    queue.enqueue(0);
    queue.enqueue(1);
    queue.enqueue(2);

    // Normal removal
    assert_eq!(queue.dequeue(), Some(0));
    assert_eq!(queue.dequeue(), Some(1));

    // Dequeue after dequeues
    queue.enqueue(3);
    queue.enqueue(4);

    // Normal removal to exhaustion
    assert_eq!(queue.dequeue(), Some(2));
    assert_eq!(queue.dequeue(), Some(3));
    assert_eq!(queue.dequeue(), Some(4));
    assert_eq!(queue.dequeue(), None);

    // Check the exhaustion case fixed the pointer right
    queue.enqueue(5);
    queue.enqueue(6);

    // Normal removal again
    assert_eq!(queue.dequeue(), Some(5));
    assert_eq!(queue.dequeue(), Some(6));
    assert_eq!(queue.dequeue(), None);
}

#[test]
fn conservation_sum() {
    // enqueue 0..9; the multiset out equals the multiset in, so the sum of
    // everything drained is 45
    let mut queue: Queue<usize> = Queue::new();
    let n: usize = 10;
    for i in 0..n {
        queue.enqueue(i);
    }
    let drained = queue.drain();
    assert_eq!(drained.len(), n);
    let sum: usize = drained.iter().sum();
    assert_eq!(sum, 45);
    assert_eq!(queue.dequeue(), None);
}

#[test]
fn drain_preserves_order() {
    let mut queue: Queue<u64> = Queue::new();
    for i in 0..100u64 {
        queue.enqueue(i * i);
    }
    let drained = queue.drain();
    for i in 0..100u64 {
        assert_eq!(drained[i as usize], i * i);
    }
}

#[test]
fn soak_interleaved() {
    // a long, deterministic interleaving of enqueues and dequeues: no value
    // is duplicated, none is lost, and the final drain accounts for all
    let mut queue: Queue<u64> = Queue::new();
    let mut next_in: u64 = 0;
    let mut next_out: u64 = 0;
    for step in 0..10_000u64 {
        // a fixed but irregular pattern of bursts
        let burst = (step % 7) + 1;
        for _ in 0..burst {
            queue.enqueue(next_in);
            next_in += 1;
        }
        let drains = step % 5;
        for _ in 0..drains {
            match queue.dequeue() {
                Some(v) => {
                    assert_eq!(v, next_out);
                    next_out += 1;
                },
                None => {
                    assert_eq!(next_out, next_in);
                },
            }
        }
    }
    let rest = queue.drain();
    assert_eq!(next_out + rest.len() as u64, next_in);
    for (k, v) in rest.iter().enumerate() {
        assert_eq!(*v, next_out + k as u64);
    }
}

#[test]
fn snapshot_reads_without_consuming() {
    let mut queue: Queue<i32> = Queue::new();
    assert_eq!(queue.snapshot(), Vec::<i32>::new());
    queue.enqueue(5);
    queue.enqueue(6);
    queue.enqueue(7);
    assert_eq!(queue.snapshot(), vec![5, 6, 7]);
    assert_eq!(queue.dequeue(), Some(5));
    assert_eq!(queue.snapshot(), vec![6, 7]);
    // the snapshot changed nothing: the queue still drains in order
    assert_eq!(queue.drain(), vec![6, 7]);
}

#[test]
fn trait_handle_matches_queue() {
    let mut handle: MSQueue<i32> = MSQueue::new();
    handle.enqueue(11);
    handle.enqueue(22);
    assert_eq!(handle.dequeue(), Some(11));
    assert_eq!(handle.dequeue(), Some(22));
    assert_eq!(handle.dequeue(), None);
}

fn run_fifo<Q: SharedQueue<i32>>(queue: &mut Q, values: &[i32]) {
    for &v in values {
        queue.enqueue(v);
    }
    for &v in values {
        assert_eq!(queue.dequeue(), Some(v));
    }
    assert_eq!(queue.dequeue(), None);
}

#[test]
fn generic_fifo_over_trait() {
    let mut ms: MSQueue<i32> = MSQueue::new();
    run_fifo(&mut ms, &[3, 1, 4, 1, 5, 9, 2, 6]);
    let mut seg: rust_queues::lprq::SharedLPRQ<i32, 4> = SharedQueue::new();
    run_fifo(&mut seg, &[3, 1, 4, 1, 5, 9, 2, 6]);
}
