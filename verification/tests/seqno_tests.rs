use shunyadb::engine::seqno::{advance_to, allocate, current, SeqNo};

#[test]
fn allocate_increments() {
    let mut seq = SeqNo::new();
    let a = allocate(&mut seq);
    let b = allocate(&mut seq);
    let c = allocate(&mut seq);
    assert_eq!(a + 1, b);
    assert_eq!(b + 1, c);
    assert_eq!(current(&seq), c);
    assert!(a >= 1);
}

#[test]
fn advance_to_sets_value_when_lower() {
    let mut seq = SeqNo::new();
    assert_eq!(current(&seq), 0);
    let after = advance_to(&mut seq, 100);
    assert_eq!(after, 100);
    assert_eq!(current(&seq), 100);
    // Allocate should return 101 next
    let next = allocate(&mut seq);
    assert_eq!(next, 101);
}

#[test]
fn advance_to_noop_when_higher() {
    let mut seq = SeqNo::new();
    // allocate a few
    let _ = allocate(&mut seq); // 1
    let _ = allocate(&mut seq); // 2
    let cur = current(&seq);
    let after = advance_to(&mut seq, cur - 1); // smaller than current
    assert_eq!(after, cur);
}

#[test]
fn allocations_are_unique_and_without_gaps() {
    let mut seq = SeqNo::new();
    let allocators = 16;
    let per_allocator = 5_000;
    let mut all: Vec<u64> = Vec::with_capacity(allocators * per_allocator);
    // the allocators take turns
    for _ in 0..per_allocator {
        for _ in 0..allocators {
            all.push(allocate(&mut seq));
        }
    }
    assert_eq!(all.len(), allocators * per_allocator);
    let set: std::collections::HashSet<u64> = all.iter().copied().collect();
    assert_eq!(set.len(), all.len(), "seqnos must be unique");
    for (i, val) in all.iter().enumerate() {
        assert_eq!(*val, (i as u64) + 1);
    }
    assert_eq!(current(&seq), (allocators * per_allocator) as u64);
}

#[test]
fn first_seqno_is_one() {
    let mut seq = SeqNo::new();
    assert_eq!(allocate(&mut seq), 1);
}

#[test]
fn advance_to_the_current_value_changes_nothing() {
    let mut seq = SeqNo::new();
    advance_to(&mut seq, 7);
    assert_eq!(advance_to(&mut seq, 7), 7);
    assert_eq!(allocate(&mut seq), 8);
}
