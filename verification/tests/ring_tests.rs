use audimon::ring::RingBuffer;
use audimon::bridge::OverflowPolicy;
use audimon::bridge::RingBridge;
use audimon::fixed::UNIT;

#[test]
fn ring_round_trip_in_order() {
    let mut rb = RingBuffer::new(8);
    for v in [10i64, 20, 30, 40, 50] {
        rb.push(v);
    }
    assert_eq!(rb.len(), 5);
    assert_eq!(rb.pop(), Some(10));
    assert_eq!(rb.pop(), Some(20));
    assert_eq!(rb.pop(), Some(30));
    assert_eq!(rb.pop(), Some(40));
    assert_eq!(rb.pop(), Some(50));
    assert_eq!(rb.pop(), None);
}

#[test]
fn ring_pop_empty_is_none() {
    let mut rb = RingBuffer::new(4);
    assert_eq!(rb.len(), 0);
    assert_eq!(rb.pop(), None);
    assert_eq!(rb.len(), 0);
}

#[test]
fn ring_overwrite_keeps_most_recent() {
    let mut rb = RingBuffer::new(4);
    for v in [1i64, 2, 3, 4, 5, 6] {
        rb.push(v);
    }
    assert_eq!(rb.len(), 4);
    assert_eq!(rb.pop(), Some(3));
    assert_eq!(rb.pop(), Some(4));
    assert_eq!(rb.pop(), Some(5));
    assert_eq!(rb.pop(), Some(6));
    assert_eq!(rb.pop(), None);
}

#[test]
fn ring_wraparound_stays_consistent() {
    let mut rb = RingBuffer::new(3);
    rb.push(1);
    rb.push(2);
    assert_eq!(rb.pop(), Some(1));
    rb.push(3);
    rb.push(4);
    assert_eq!(rb.len(), 3);
    rb.push(5);
    assert_eq!(rb.pop(), Some(3));
    assert_eq!(rb.pop(), Some(4));
    assert_eq!(rb.pop(), Some(5));
    assert_eq!(rb.pop(), None);
    assert_eq!(rb.capacity(), 3);
}

#[test]
fn bridge_first_read_is_silence() {
    let mut b = RingBridge::new(16);
    assert_eq!(b.read_one(), (0, 0));
    assert_eq!(b.read_one(), (0, 0));
}

#[test]
fn bridge_round_trip_exact_samples() {
    let mut b = RingBridge::new(16);
    let frame = vec![(16384i16, -16384i16), (32767, 0), (-32768, 8192)];
    b.write_frame(&frame);
    assert_eq!(b.buffered(), 3);
    let half = 16384i64 * UNIT / 32768;
    assert_eq!(b.read_one(), (half, -half));
    assert_eq!(b.read_one(), (32767i64 * UNIT / 32768, 0));
    assert_eq!(b.read_one(), (-UNIT, 8192i64 * UNIT / 32768));
    assert_eq!(b.buffered(), 0);
}

#[test]
fn bridge_underrun_repeats_last_pair() {
    let mut b = RingBridge::new(8);
    b.write_frame(&vec![(100i16, 200i16)]);
    let first = b.read_one();
    let again = b.read_one();
    assert_eq!(first, again);
    assert_eq!(b.read_one(), again);
}

#[test]
fn bridge_overrun_discards_oldest() {
    let mut b = RingBridge::new(4);
    let frame = vec![
        (1000i16, -1000i16),
        (2000, -2000),
        (3000, -3000),
        (4000, -4000),
        (5000, -5000),
        (6000, -6000),
    ];
    b.write_frame(&frame);
    assert_eq!(b.buffered(), 4);
    assert_eq!(b.written_count(), 6);
    let expect3 = 3000i64 * UNIT / 32768;
    assert_eq!(b.read_one(), (expect3, -expect3));
    let expect4 = 4000i64 * UNIT / 32768;
    assert_eq!(b.read_one(), (expect4, -expect4));
}

#[test]
fn ring_try_push_rejects_when_full() {
    let mut rb = RingBuffer::new(2);
    assert!(rb.try_push(1));
    assert!(rb.try_push(2));
    assert!(!rb.try_push(3));
    assert_eq!(rb.pop(), Some(1));
    assert_eq!(rb.pop(), Some(2));
    assert_eq!(rb.pop(), None);
}

#[test]
fn bridge_reject_policy_keeps_earliest() {
    let mut b = RingBridge::with_policy(4, OverflowPolicy::RejectNewest);
    let frame = vec![
        (1000i16, -1000i16),
        (2000, -2000),
        (3000, -3000),
        (4000, -4000),
        (5000, -5000),
        (6000, -6000),
    ];
    b.write_frame(&frame);
    assert_eq!(b.buffered(), 4);
    assert_eq!(b.written_count(), 6);
    let expect1 = 1000i64 * UNIT / 32768;
    assert_eq!(b.read_one(), (expect1, -expect1));
    let expect2 = 2000i64 * UNIT / 32768;
    assert_eq!(b.read_one(), (expect2, -expect2));
}

#[test]
fn bridge_render_block_pads_with_last() {
    let mut b = RingBridge::new(8);
    b.write_frame(&vec![(1000i16, 1000i16), (2000, 2000)]);
    let out = b.render_block(4);
    assert_eq!(out.len(), 4);
    let v1 = 1000i64 * UNIT / 32768;
    let v2 = 2000i64 * UNIT / 32768;
    assert_eq!(out[0], (v1, v1));
    assert_eq!(out[1], (v2, v2));
    assert_eq!(out[2], (v2, v2));
    assert_eq!(out[3], (v2, v2));
    assert_eq!(b.buffered(), 0);
}

#[test]
fn bridge_render_block_empty_is_silence() {
    let mut b = RingBridge::new(8);
    let out = b.render_block(3);
    assert_eq!(out, vec![(0, 0), (0, 0), (0, 0)]);
}
