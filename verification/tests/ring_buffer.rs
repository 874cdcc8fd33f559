use tileshare::ring::FrameRingBuffer;
use tileshare::screenshare::init_frame_buffer;

#[test]
fn starts_empty_with_default_capacity() {
    let buffer = init_frame_buffer();
    assert_eq!(buffer.len(), 0);
    assert_eq!(buffer.capacity(), 24);
}

#[test]
fn push_beyond_capacity_evicts_oldest() {
    let mut buffer = FrameRingBuffer::new(2);
    buffer.push(vec![1]);
    buffer.push(vec![2]);
    buffer.push(vec![3]);
    assert_eq!(buffer.len(), 2);
    let out = buffer.drain(2);
    assert_eq!(out, vec![vec![2], vec![3]]);
}

#[test]
fn twenty_five_pushes_into_capacity_24_keep_the_last_24() {
    let mut buffer = init_frame_buffer();
    for i in 0..25u8 {
        buffer.push(vec![i, i, i]);
    }
    assert_eq!(buffer.len(), 24);
    let out = buffer.drain(usize::MAX);
    assert_eq!(out.len(), 24);
    for (k, frame) in out.iter().enumerate() {
        // the oldest frame (0) was evicted; capture order is kept
        let expected = (k + 1) as u8;
        assert_eq!(frame, &vec![expected, expected, expected]);
    }
    assert_eq!(buffer.len(), 0);
}

#[test]
fn drain_returns_frames_in_capture_order() {
    let mut buffer = FrameRingBuffer::new(8);
    buffer.push(vec![10]);
    buffer.push(vec![20]);
    buffer.push(vec![30]);
    let out = buffer.drain(2);
    assert_eq!(out, vec![vec![10], vec![20]]);
    assert_eq!(buffer.len(), 1);
    let rest = buffer.drain(5);
    assert_eq!(rest, vec![vec![30]]);
}

#[test]
fn drain_of_empty_buffer_is_empty() {
    let mut buffer = FrameRingBuffer::new(4);
    let out = buffer.drain(4);
    assert!(out.is_empty());
    assert_eq!(buffer.len(), 0);
}
