use sysmon::ring_buffer::RingBuffer;

#[test]
fn new_buffer_is_empty() {
    let rb: RingBuffer<f32> = RingBuffer::new(4);

    assert!(rb.is_empty());
    assert_eq!(rb.len(), 0);
}

#[test]
fn push_single_value() {
    let mut rb: RingBuffer<f32> = RingBuffer::new(4);

    rb.push(10.0);

    assert!(!rb.is_empty());
    assert_eq!(rb.len(), 1);
}

#[test]
fn fill_to_capacity() {
    let mut rb: RingBuffer<f32> = RingBuffer::new(4);

    rb.push(1.0);
    rb.push(2.0);
    rb.push(3.0);
    rb.push(4.0);

    assert_eq!(rb.len(), 4);
    assert!(!rb.is_empty());

    let vals = rb.latest(4);
    assert_eq!(vals.len(), 4);
    assert_eq!(*vals[0], 1.0);
    assert_eq!(*vals[3], 4.0);
}

#[test]
fn overwrite_oldest_when_full() {
    let mut rb: RingBuffer<f32> = RingBuffer::new(4);
    rb.push(1.0);
    rb.push(2.0);
    rb.push(3.0);
    rb.push(4.0);

    rb.push(5.0);

    assert_eq!(rb.len(), 4);

    let vals = rb.latest(4);
    assert_eq!(*vals[0], 2.0);
    assert_eq!(*vals[3], 5.0);
}

#[test]
fn latest_zero_returns_empty() {
    let mut rb: RingBuffer<f32> = RingBuffer::new(4);
    rb.push(1.0);
    rb.push(2.0);

    let vals = rb.latest(0);

    assert!(vals.is_empty());
}

#[test]
fn latest_larger_than_len_clamps() {
    let mut rb: RingBuffer<f32> = RingBuffer::new(4);
    rb.push(1.0);
    rb.push(2.0);

    let vals = rb.latest(10);

    assert_eq!(vals.len(), 2);
    assert_eq!(*vals[0], 1.0);
    assert_eq!(*vals[1], 2.0);
}

#[test]
fn capacity_one_always_holds_latest() {
    let mut rb: RingBuffer<f32> = RingBuffer::new(1);
    rb.push(1.0);
    rb.push(2.0);
    rb.push(3.0);

    assert_eq!(rb.len(), 1);
    let vals = rb.latest(1);
    assert_eq!(*vals[0], 3.0);
}

#[test]
fn len_never_exceeds_capacity() {
    let mut rb: RingBuffer<f32> = RingBuffer::new(4);
    for i in 0..100 {
        rb.push(i as f32)
    }

    assert_eq!(rb.len(), 4);
}

#[test]
fn latest_returns_chronological_order() {
    let mut rb: RingBuffer<f32> = RingBuffer::new(4);
    rb.push(1.0);
    rb.push(2.0);
    rb.push(3.0);
    rb.push(4.0);
    rb.push(5.0);

    let vals = rb.latest(3);

    assert_eq!(vals.len(), 3);
    assert_eq!(*vals[0], 3.0);
    assert_eq!(*vals[1], 4.0);
    assert_eq!(*vals[2], 5.0);
}

#[test]
fn pushes_keep_the_newest_window_in_order() {
    let mut rb: RingBuffer<u32> = RingBuffer::new(3);
    for i in 1..=7u32 {
        rb.push(i);
        let all = rb.latest(10);
        let expected: Vec<u32> = ((i.saturating_sub(2)).max(1)..=i).collect();
        let got: Vec<u32> = all.iter().map(|v| **v).collect();
        assert_eq!(got, expected);
        assert_eq!(*rb.latest(1)[0], i);
    }
}

#[test]
fn zero_capacity_buffer_stays_empty_when_read() {
    let rb: RingBuffer<u8> = RingBuffer::new(0);
    assert!(rb.is_empty());
    assert!(rb.latest(5).is_empty());
}

#[test]
fn latest_after_wrap_around_crosses_the_end_of_storage() {
    let mut rb: RingBuffer<u8> = RingBuffer::new(4);
    for v in [10u8, 20, 30, 40, 50, 60] {
        rb.push(v);
    }
    let got: Vec<u8> = rb.latest(4).into_iter().copied().collect();
    assert_eq!(got, vec![30, 40, 50, 60]);
    let got: Vec<u8> = rb.latest(2).into_iter().copied().collect();
    assert_eq!(got, vec![50, 60]);
}
