use pipebuffer::RingBuffer;

#[test]
fn test_basic_read_write() {
    let mut buffer: RingBuffer<u8> = RingBuffer::new(100);
    let xs: [u8; 10] = [0, 1, 2, 3, 4, 5, 6, 7, 8, 9];
    let mut ys: [u8; 10] = [0; 10];
    for _ in 0..100 {
        buffer.put(&xs);
        buffer.get(&mut ys);
        for i in 0..10 {
            assert!(xs[i] == ys[i]);
        }
    }
}

#[test]
fn test_write_on_full_buffer() {
    let mut buffer: RingBuffer<u8> = RingBuffer::new(10);
    let xs: [u8; 10] = [0, 1, 2, 3, 4, 5, 6, 7, 8, 9];
    buffer.put(&xs);
    let n = buffer.put(&xs);
    assert!(n == 0);
}

#[test]
fn test_read_on_empty_buffer() {
    let mut buffer: RingBuffer<u8> = RingBuffer::new(10);
    let mut xs: [u8; 10] = [7; 10];
    let n = buffer.get(&mut xs);
    assert!(n == 0);
    for i in 0..10 {
        assert!(xs[i] == 7);
    }
}

#[test]
fn new_buffer_is_empty_open_and_not_full() {
    let buffer: RingBuffer<u8> = RingBuffer::new(3);
    assert!(buffer.is_empty());
    assert!(!buffer.is_full());
    assert!(!buffer.is_closed());
}

#[test]
fn put_stops_at_wrap_boundary() {
    let mut buffer: RingBuffer<u8> = RingBuffer::new(10);
    let eight = [1u8; 8];
    let mut out = [0u8; 8];
    assert_eq!(buffer.put(&eight), 8);
    assert_eq!(buffer.get(&mut out), 8);
    // write cursor at 8, ten free slots
    assert_eq!(buffer.put(&[10, 11, 12, 13, 14]), 2);
    assert_eq!(buffer.put(&[12, 13, 14]), 3);
    let mut all = [0u8; 5];
    assert_eq!(buffer.get(&mut all), 2);
    assert_eq!(&all[..2], &[10, 11]);
    assert_eq!(buffer.get(&mut all), 3);
    assert_eq!(&all[..3], &[12, 13, 14]);
    assert!(buffer.is_empty());
}

#[test]
fn get_stops_at_wrap_boundary_and_keeps_rest_of_output() {
    let mut buffer: RingBuffer<u8> = RingBuffer::new(4);
    let mut out = [9u8; 4];
    assert_eq!(buffer.put(&[1, 2, 3]), 3);
    assert_eq!(buffer.get(&mut out[..2]), 2);
    assert_eq!(buffer.put(&[4, 5, 6]), 1);
    assert_eq!(buffer.put(&[5, 6]), 2);
    let mut out = [9u8; 4];
    assert_eq!(buffer.get(&mut out), 2);
    assert_eq!(out, [3, 4, 9, 9]);
    assert_eq!(buffer.get(&mut out), 2);
    assert_eq!(out, [5, 6, 9, 9]);
}

#[test]
fn put_limited_by_free_slots() {
    let mut buffer: RingBuffer<u8> = RingBuffer::new(5);
    assert_eq!(buffer.put(&[1, 2, 3]), 3);
    assert_eq!(buffer.put(&[4, 5, 6, 7]), 2);
    assert!(buffer.is_full());
    assert!(!buffer.is_empty());
}

#[test]
fn full_buffer_put_changes_nothing() {
    let mut buffer: RingBuffer<u8> = RingBuffer::new(2);
    assert_eq!(buffer.put(&[1, 2]), 2);
    assert_eq!(buffer.put(&[3]), 0);
    let mut out = [0u8; 4];
    assert_eq!(buffer.get(&mut out), 2);
    assert_eq!(&out[..2], &[1, 2]);
    assert!(buffer.is_empty());
}

#[test]
fn empty_put_and_empty_get_move_nothing() {
    let mut buffer: RingBuffer<u8> = RingBuffer::new(4);
    assert_eq!(buffer.put(&[]), 0);
    assert!(buffer.is_empty());
    assert_eq!(buffer.put(&[1]), 1);
    let mut none: [u8; 0] = [];
    assert_eq!(buffer.get(&mut none), 0);
    assert!(!buffer.is_empty());
}

#[test]
fn close_keeps_draining_and_is_idempotent() {
    let mut buffer: RingBuffer<u8> = RingBuffer::new(4);
    assert_eq!(buffer.put(&[1, 2, 3]), 3);
    buffer.close();
    assert!(buffer.is_closed());
    buffer.close();
    assert!(buffer.is_closed());
    let mut out = [0u8; 2];
    assert_eq!(buffer.get(&mut out), 2);
    assert_eq!(out, [1, 2]);
    assert_eq!(buffer.get(&mut out), 1);
    assert_eq!(out[0], 3);
    assert_eq!(buffer.get(&mut out), 0);
    assert!(buffer.is_empty());
    assert!(buffer.is_closed());
}

#[test]
fn zero_capacity_is_full_and_empty() {
    let mut buffer: RingBuffer<u8> = RingBuffer::new(0);
    assert!(buffer.is_full());
    assert!(buffer.is_empty());
    assert_eq!(buffer.put(&[1, 2]), 0);
    let mut out = [0u8; 2];
    assert_eq!(buffer.get(&mut out), 0);
}

#[test]
fn repeated_puts_and_gets_keep_order() {
    let mut buffer: RingBuffer<u32> = RingBuffer::new(7);
    let input: Vec<u32> = (0..1000).collect();
    let mut output: Vec<u32> = Vec::new();
    let mut start = 0;
    let mut chunk = [0u32; 3];
    while output.len() < input.len() {
        if start < input.len() {
            let end = if start + 5 < input.len() { start + 5 } else { input.len() };
            start += buffer.put(&input[start..end]);
        }
        let n = buffer.get(&mut chunk);
        output.extend_from_slice(&chunk[..n]);
    }
    assert_eq!(output, input);
    assert!(buffer.is_empty());
}
