use seg_queue::Queue;

#[test]
fn push_pop_check() {
    let mut queue = Queue::new();
    queue.push(5);
    queue.push(10);
    assert!(matches!(queue.pop_if(|x| *x == 10), None));
    assert!(matches!(queue.pop_if(|x| *x == 5), Some(_)));
    assert!(matches!(queue.pop_if(|x| *x == 5), None));
    assert!(matches!(queue.pop_if(|x| *x == 10), Some(_)));
}

#[test]
fn pop_on_fresh_queue_is_no_match() {
    let mut queue: Queue<u32> = Queue::new();
    assert!(matches!(queue.pop_if(|_| true), None));
    assert!(matches!(queue.pop_if(|_| true), None));
}

#[test]
fn head_gates_even_when_later_element_matches() {
    let mut queue = Queue::new();
    queue.push(1);
    queue.push(2);
    queue.push(3);
    // Only the head is inspected: a match further back is never reached.
    assert!(matches!(queue.pop_if(|x| *x == 3), None));
    assert!(matches!(queue.pop_if(|x| *x == 2), None));
    assert_eq!(queue.pop_if(|x| *x == 1), Some(1));
    assert!(matches!(queue.pop_if(|x| *x == 3), None));
    assert_eq!(queue.pop_if(|x| *x == 2), Some(2));
    assert_eq!(queue.pop_if(|x| *x == 3), Some(3));
    assert!(matches!(queue.pop_if(|_| true), None));
}

#[test]
fn cross_segment_continuity() {
    let mut queue = Queue::new();
    for i in 0..300u32 {
        queue.push(i);
    }
    // 300 elements exceed one segment's capacity of 256, so a second
    // segment has been linked.
    assert_eq!(queue.live_segments(), 2);
    for i in 0..300u32 {
        assert_eq!(queue.pop_if(|_| true), Some(i));
    }
    assert!(matches!(queue.pop_if(|_| true), None));
    // The abandoned first segment has been destroyed.
    assert_eq!(queue.live_segments(), 1);
}

#[test]
fn exact_segment_boundary() {
    let mut queue = Queue::new();
    for i in 0..256u32 {
        queue.push(i);
    }
    assert_eq!(queue.live_segments(), 1);
    queue.push(256);
    assert_eq!(queue.live_segments(), 2);
    for i in 0..257u32 {
        assert_eq!(queue.pop_if(|_| true), Some(i));
    }
    assert!(matches!(queue.pop_if(|_| true), None));
}

#[test]
fn interleaved_push_pop_keeps_order() {
    let mut queue = Queue::new();
    let mut next_in: u64 = 0;
    let mut next_out: u64 = 0;
    for _ in 0..100 {
        for _ in 0..7 {
            queue.push(next_in);
            next_in += 1;
        }
        for _ in 0..5 {
            assert_eq!(queue.pop_if(|_| true), Some(next_out));
            next_out += 1;
        }
    }
    while let Some(v) = queue.pop_if(|_| true) {
        assert_eq!(v, next_out);
        next_out += 1;
    }
    assert_eq!(next_out, next_in);
}

#[test]
fn drain_sees_every_tagged_element_exactly_once() {
    // 8 producers, each contributing 10_000 uniquely tagged elements,
    // interleaved round-robin; a drain with an always-true predicate must
    // observe each tag exactly once.
    let producers: usize = 8;
    let per_producer: usize = 10_000;
    let mut queue = Queue::new();
    for i in 0..per_producer {
        for p in 0..producers {
            queue.push((p * per_producer + i) as u64);
        }
    }
    let mut seen = vec![false; producers * per_producer];
    let mut count: usize = 0;
    while let Some(tag) = queue.pop_if(|_| true) {
        let tag = tag as usize;
        assert!(!seen[tag]);
        seen[tag] = true;
        count += 1;
    }
    assert_eq!(count, producers * per_producer);
    assert!(seen.iter().all(|s| *s));
}

#[test]
fn owned_elements_move_out() {
    let mut queue = Queue::new();
    queue.push(String::from("first"));
    queue.push(String::from("second"));
    assert!(matches!(queue.pop_if(|s: &String| s == "second"), None));
    assert_eq!(queue.pop_if(|s: &String| s == "first"), Some(String::from("first")));
    assert_eq!(queue.pop_if(|s: &String| s.len() == 6), Some(String::from("second")));
    assert!(matches!(queue.pop_if(|_| true), None));
}
