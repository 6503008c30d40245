use one_brc::scanner::{find_line_breaks, lane_mask};

fn naive(chunk: &[u8]) -> Vec<usize> {
    let mut found = Vec::new();
    for (at, byte) in chunk.iter().enumerate() {
        if *byte == b'\n' {
            found.push(at);
        }
    }
    found
}

fn check(chunk: &[u8], capacity: usize) {
    let mut buffer: Vec<Option<usize>> = vec![Some(777); capacity];
    let found = find_line_breaks(chunk, &mut buffer);
    let expected = naive(chunk);
    assert_eq!(capacity, buffer.len());
    assert_eq!(expected.len().min(capacity), found);
    for k in 0..capacity {
        if k < found {
            assert_eq!(Some(expected[k]), buffer[k]);
        } else {
            assert_eq!(None, buffer[k]);
        }
    }
}

#[test]
fn finds_every_delimiter_in_order() {
    let text = b"Tokyo;23.4\nTokyo;18.1\nPorto;9.0\nTokyo;30.0\n";
    let mut buffer: Vec<Option<usize>> = vec![None; 8];
    let found = find_line_breaks(text, &mut buffer);
    assert_eq!(4, found);
    assert_eq!(
        vec![Some(10), Some(21), Some(31), Some(42), None, None, None, None],
        buffer
    );
}

#[test]
fn lanes_and_tail_agree_with_a_plain_scan() {
    let mut chunk: Vec<u8> = Vec::new();
    for i in 0..200usize {
        chunk.push(if i % 7 == 0 || i % 16 == 15 || i % 16 == 0 { b'\n' } else { b'a' });
    }
    for len in 0..chunk.len() {
        check(&chunk[..len], 256);
    }
}

#[test]
fn offsets_beyond_the_buffer_are_left_out() {
    let chunk = b"\n\n\nabc\n\n\n\n\n\n\n\n\n\n\n\n\n\n\n\n\n\n\nxyz\n";
    for capacity in 0..30 {
        check(chunk, capacity);
    }
}

#[test]
fn no_delimiter_gives_an_empty_list() {
    check(b"", 4);
    check(b"no newline here at all, in more than one lane", 4);
    let mut buffer: Vec<Option<usize>> = vec![Some(1), Some(2)];
    assert_eq!(0, find_line_breaks(b"abc", &mut buffer));
    assert_eq!(vec![None, None], buffer);
}

#[test]
fn only_delimiters() {
    let chunk = vec![b'\n'; 50];
    check(&chunk, 64);
    check(&chunk, 50);
    check(&chunk, 49);
}

#[test]
fn lane_mask_has_a_bit_for_each_delimiter() {
    let lane = b"a\nbc\n\ndefghijk\nl\nEXTRA\n";
    let mask = lane_mask(lane, 0);
    assert_eq!((1 << 1) | (1 << 4) | (1 << 5) | (1 << 14), mask);
    let shifted = lane_mask(lane, 2);
    assert_eq!((1 << 2) | (1 << 3) | (1 << 12) | (1 << 14), shifted);
    assert_eq!(0, lane_mask(b"0123456789abcdef", 0));
    assert_eq!(0xffff, lane_mask(&[b'\n'; 16], 0));
}
