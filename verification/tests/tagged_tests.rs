use rust_queues::atomic_tagged::AtomicTagged;
use rust_queues::atomic_tagged::TaggedPointer;
use rust_queues::tagged_ptr::TaggedPointer as WordPointer;

#[test]
fn basic() {
    let p: u64 = 42;

    let tagged = AtomicTagged::new(p, 311);

    let p2 = tagged.load();

    assert_eq!(p, p2.ptr());
    assert_eq!(p2.ptr(), 42);

    let rewritten = TaggedPointer::new(10, p2.tag());
    assert_eq!(rewritten.ptr(), 10);

    assert_eq!(p2.tag(), 311);
}

#[test]
fn manual_alloc() {
    let ptr: u64 = 123;

    assert!(ptr != 0);

    let tagged = AtomicTagged::new(ptr, 42);

    let p2 = tagged.load();
    assert_eq!(p2.ptr(), 123);
    assert_eq!(p2.tag(), 42);
}

#[test]
fn atomic_tagged_basic() {
    let p: u64 = 42;

    let mut tagged = AtomicTagged::new(p, 311);

    let p2 = tagged.load();

    assert_eq!(p, p2.ptr());
    assert_eq!(p2.tag(), 311);

    // swing the location to a new address under a bumped tag; the exchange
    // compares the full word
    let replacement = TaggedPointer::new(10, p2.tag().wrapping_add(1));
    let swapped = tagged.compare_exchange(&p2, &replacement);
    assert!(swapped.is_ok());
    assert_eq!(tagged.load().ptr(), 10);

    // a stale snapshot no longer matches: the exchange must fail
    let stale = tagged.compare_exchange(&p2, &replacement);
    assert!(stale.is_err());
}

#[test]
fn atomic_tagged_manual_alloc() {
    let ptr: u64 = 123;

    assert!(ptr != 0);

    let tagged = AtomicTagged::new(ptr, 42);

    let p2 = tagged.load();
    assert_eq!(p2.ptr(), 123);
    assert_eq!(p2.with_tag(7).ptr(), 123);
    assert_eq!(p2.with_tag(7).tag(), 7);
}

#[test]
fn tagged_round_trip_edges() {
    // the whole tag range round-trips, including both ends
    for tag in [0u16, 1, 0x7FFF, 0xFFFE, 0xFFFF] {
        let t = TaggedPointer::new(0x0000_FFFF_FFFF_FFFF, tag);
        assert_eq!(t.ptr(), 0x0000_FFFF_FFFF_FFFF);
        assert_eq!(t.tag(), tag);
    }
    let zero = TaggedPointer::new(0, 0xFFFF);
    assert_eq!(zero.ptr(), 0);
    assert_eq!(zero.tag(), 0xFFFF);
}

#[test]
fn word_level_helpers() {
    let mut loc = WordPointer::default();
    assert!(loc.is_null());

    let word = {
        let fresh = WordPointer::new(0x1000, 5);
        fresh.load()
    };
    assert_eq!(WordPointer::remove_tag(word), 0x1000);
    assert_eq!(WordPointer::tag(word), 5);

    assert_eq!(loc.compare_exchange(0, word), Ok(0));
    assert!(!loc.is_null());
    assert_eq!(loc.load(), word);

    // a failed exchange reports the word it found
    assert_eq!(loc.compare_exchange(0, 7), Err(word));
}

#[test]
fn set_tag_bumps_and_wraps() {
    let start = {
        let fresh = WordPointer::new(0xABC0, 0);
        fresh.load()
    };
    let bumped = WordPointer::set_tag(start, 1);
    assert_eq!(WordPointer::remove_tag(bumped), 0xABC0);
    assert_eq!(WordPointer::tag(bumped), 1);

    // the tag wraps from 0xFFFF to 0 while the address is kept
    let high = {
        let fresh = WordPointer::new(0xABC0, 0xFFFF);
        fresh.load()
    };
    let wrapped = WordPointer::set_tag(high, 0);
    assert_eq!(WordPointer::remove_tag(wrapped), 0xABC0);
    assert_eq!(WordPointer::tag(wrapped), 0);
}
