use tileshare::screenshare::{get_frames, init_frame_buffer, CAPTURE_FRAME_BYTES};

fn read_u32(b: &[u8], off: usize) -> u32 {
    u32::from_be_bytes([b[off], b[off + 1], b[off + 2], b[off + 3]])
}

#[test]
fn empty_drain_serializes_to_four_zero_bytes() {
    let mut buffer = init_frame_buffer();
    let payload = get_frames(&mut buffer);
    assert_eq!(payload.len(), 4);
    assert_eq!(read_u32(&payload, 0), 0);
}

#[test]
fn one_captured_frame_becomes_a_3x2_grid_of_640x360() {
    let mut buffer = init_frame_buffer();
    buffer.push(vec![77u8; CAPTURE_FRAME_BYTES]);
    let payload = get_frames(&mut buffer);
    assert_eq!(buffer.len(), 0);

    let frame_count = read_u32(&payload, 0);
    assert_eq!(frame_count, 1);
    let tile_count = read_u32(&payload, 4);
    assert_eq!(tile_count, 6);
    let mut off = 8usize;
    let mut geo = Vec::new();
    for _ in 0..tile_count {
        let x = read_u32(&payload, off);
        let y = read_u32(&payload, off + 4);
        let w = read_u32(&payload, off + 8);
        let h = read_u32(&payload, off + 12);
        let len = read_u32(&payload, off + 16) as usize;
        off += 20 + len;
        geo.push((x, y, w, h));
    }
    assert_eq!(off, payload.len());
    assert_eq!(
        geo,
        vec![
            (0, 0, 256, 256),
            (256, 0, 256, 256),
            (512, 0, 128, 256),
            (0, 256, 256, 104),
            (256, 256, 256, 104),
            (512, 256, 128, 104),
        ]
    );
}

#[test]
fn mismatched_frame_is_dropped_from_the_batch() {
    let mut buffer = init_frame_buffer();
    buffer.push(vec![1u8; 16]);
    buffer.push(vec![50u8; CAPTURE_FRAME_BYTES]);
    buffer.push(vec![2u8; CAPTURE_FRAME_BYTES - 1]);
    let payload = get_frames(&mut buffer);
    assert_eq!(buffer.len(), 0);
    assert_eq!(read_u32(&payload, 0), 1);
}
