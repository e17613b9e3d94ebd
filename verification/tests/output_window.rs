use deflate64::{BitsBuffer, InputBuffer, InternalErr, OutputWindow};

const WINDOW_SIZE: usize = 131072;

fn drain(window: &mut OutputWindow, n: usize) -> Vec<u8> {
    let mut out = vec![0u8; n];
    let copied = window.copy_to(&mut out);
    out.truncate(copied);
    out
}

#[test]
fn bytes_come_out_in_the_order_they_went_in() {
    let mut window = Box::new(OutputWindow::new());
    assert_eq!(window.available_bytes(), 0);
    assert_eq!(window.free_bytes(), WINDOW_SIZE);
    for b in b"hello" {
        window.write(*b);
    }
    assert_eq!(window.available_bytes(), 5);
    assert_eq!(window.free_bytes(), WINDOW_SIZE - 5);
    assert_eq!(drain(&mut window, 2), b"he");
    assert_eq!(window.available_bytes(), 3);
    window.write(b'!');
    assert_eq!(drain(&mut window, 10), b"llo!");
    assert_eq!(drain(&mut window, 10), b"");
}

#[test]
fn copy_to_leaves_the_rest_of_the_buffer_alone() {
    let mut window = Box::new(OutputWindow::new());
    window.write(1);
    window.write(2);
    let mut out = [9u8; 5];
    assert_eq!(window.copy_to(&mut out), 2);
    assert_eq!(out, [1, 2, 9, 9, 9]);
    window.write(3);
    assert_eq!(window.copy_to_at(&mut out, 4), 1);
    assert_eq!(out, [1, 2, 9, 9, 3]);
    window.write(4);
    assert_eq!(window.copy_to_at(&mut out, 5), 0);
    assert_eq!(window.available_bytes(), 1);
}

#[test]
fn distance_one_repeats_a_byte() {
    let mut window = Box::new(OutputWindow::new());
    window.write(7);
    window.write_length_distance(10, 1);
    assert_eq!(drain(&mut window, 100), vec![7; 11]);
}

#[test]
fn short_distance_repeats_a_pattern() {
    let mut window = Box::new(OutputWindow::new());
    for b in b"abc" {
        window.write(*b);
    }
    window.write_length_distance(7, 3);
    window.write_length_distance(2, 10);
    assert_eq!(drain(&mut window, 100), b"abcabcabcaab");
}

#[test]
fn window_wraps_round() {
    let mut window = Box::new(OutputWindow::new());
    let mut expected = Vec::new();
    let mut next = 0u32;
    // Three times round the window, taken out in pieces of odd size.
    while expected.len() < 3 * WINDOW_SIZE {
        for _ in 0..50_000 {
            let b = (next * 13 % 251) as u8;
            next += 1;
            window.write(b);
            expected.push(b);
        }
        window.write_length_distance(777, 40_000);
        for _ in 0..777 {
            let b = expected[expected.len() - 40_000];
            expected.push(b);
        }
        let taken = drain(&mut window, 100_000);
        assert_eq!(taken.len(), 50_777);
        assert!(taken[..] == expected[expected.len() - 50_777..]);
    }
}

#[test]
fn longest_match_at_longest_distance() {
    let mut window = Box::new(OutputWindow::new());
    let mut expected = Vec::new();
    for i in 0..65_536u32 {
        window.write((i % 255) as u8);
        expected.push((i % 255) as u8);
    }
    assert_eq!(drain(&mut window, 70_000).len(), 65_536);
    window.write_length_distance(65_538, 65_536);
    let out = drain(&mut window, 70_000);
    assert_eq!(out.len(), 65_538);
    assert!(out[..65_536] == expected[..]);
    assert_eq!(&out[65_536..], &expected[..2]);
    // The window can be filled to the last byte.
    window.write_length_distance(65_536, 1);
    window.write_length_distance(65_536, 1);
    assert_eq!(window.free_bytes(), 0);
    assert_eq!(window.available_bytes(), WINDOW_SIZE);
    let out = drain(&mut window, WINDOW_SIZE);
    assert!(out.iter().all(|&b| b == expected[1]));
}

#[test]
fn copy_from_takes_what_fits() {
    let data: Vec<u8> = (0..100u8).collect();
    let mut input = InputBuffer::new(BitsBuffer::new(), &data);
    let mut window = Box::new(OutputWindow::new());
    // as much as was asked for
    assert_eq!(window.copy_from(&mut input, 30), 30);
    assert_eq!(input.available_bytes(), 70);
    // as much as the input holds
    assert_eq!(window.copy_from(&mut input, 1000), 70);
    assert_eq!(input.available_bytes(), 0);
    assert_eq!(window.copy_from(&mut input, 1000), 0);
    assert_eq!(drain(&mut window, 1000), data);
    // as much as the window has room for
    let big = vec![5u8; WINDOW_SIZE + 10];
    let mut input = InputBuffer::new(BitsBuffer::new(), &big);
    window.write(1);
    assert_eq!(window.copy_from(&mut input, usize::MAX), WINDOW_SIZE - 1);
    assert_eq!(window.free_bytes(), 0);
    assert_eq!(input.available_bytes(), 11);
    assert_eq!(window.copy_from(&mut input, 5), 0);
    let out = drain(&mut window, WINDOW_SIZE);
    assert_eq!(out[0], 1);
    assert!(out[1..].iter().all(|&b| b == 5));
}

#[test]
fn clear_bytes_used_forgets_what_waits() {
    let mut window = Box::new(OutputWindow::new());
    window.write(1);
    window.write(2);
    window.clear_bytes_used();
    assert_eq!(window.available_bytes(), 0);
    window.write(3);
    // The history is still there.
    window.write_length_distance(2, 3);
    assert_eq!(drain(&mut window, 10), vec![3, 1, 2]);
}

#[test]
fn checkpoint_data_is_the_newest_history() {
    let mut window = Box::new(OutputWindow::new());
    for i in 0..10u8 {
        window.write(i);
    }
    drain(&mut window, 4);
    // All ten bytes: fewer than the longest distance were written.
    let (a, b) = window.get_checkpoint_data(10);
    assert_eq!([a, b].concat(), (0..10u8).collect::<Vec<u8>>());
    // A total that says less than what waits: all that waits is kept.
    let (a, b) = window.get_checkpoint_data(3);
    assert_eq!([a, b].concat(), (4..10u8).collect::<Vec<u8>>());
    let (a, b) = window.get_checkpoint_data(0);
    assert_eq!([a, b].concat().len(), 6);

    // After more than a window of output the history is cut at 65 538.
    let mut window = Box::new(OutputWindow::new());
    let mut all = Vec::new();
    for round in 0..7u32 {
        for i in 0..20_000u32 {
            let b = ((i + round) * 7 % 253) as u8;
            window.write(b);
            all.push(b);
        }
        drain(&mut window, 19_000);
    }
    assert_eq!(window.available_bytes(), 7_000);
    let (a, b) = window.get_checkpoint_data(all.len() as u64);
    let data = [a, b].concat();
    assert_eq!(data.len(), 65_538);
    assert!(data[..] == all[all.len() - 65_538..]);
    assert!(!b.is_empty());
}

#[test]
fn restore_puts_history_and_waiting_bytes_back() {
    let mut window = Box::new(OutputWindow::new());
    window.write(99);
    window.restore_from_checkpoint(b"history!", 3);
    assert_eq!(window.available_bytes(), 3);
    window.write_length_distance(4, 8);
    assert_eq!(drain(&mut window, 10), b"ry!hist");
    // A whole window of data.
    let full: Vec<u8> = (0..WINDOW_SIZE).map(|i| (i % 241) as u8).collect();
    window.restore_from_checkpoint(&full, WINDOW_SIZE);
    assert_eq!(window.free_bytes(), 0);
    assert!(drain(&mut window, WINDOW_SIZE) == full);
    window.write(1);
    window.write_length_distance(2, 65_536);
    let out = drain(&mut window, 10);
    assert_eq!(out[0], 1);
    assert_eq!(out[1], full[WINDOW_SIZE - 65_535]);
}

#[test]
fn input_buffer_reads_bits_lowest_first() {
    let mut input = InputBuffer::new(BitsBuffer::new(), &[0b1010_0110, 0xff, 0x01]);
    assert_eq!(input.available_bits(), 0);
    assert_eq!(input.available_bytes(), 3);
    assert_eq!(input.get_bits(1), Ok(0));
    assert_eq!(input.get_bits(2), Ok(0b11));
    assert_eq!(input.get_bits(5), Ok(0b10100));
    assert_eq!(input.available_bits(), 0);
    // Fields go across bytes.
    assert_eq!(input.get_bits(12), Ok(0x1ff));
    assert_eq!(input.available_bits(), 4);
    assert_eq!(input.get_bits(5), Err(InternalErr::DataNeeded));
    assert_eq!(input.available_bits(), 4);
    assert_eq!(input.get_bits(4), Ok(0));
    assert!(input.needs_input());
    assert_eq!(input.read_bytes, 3);
}

#[test]
fn input_buffer_loads_sixteen_bits() {
    let data = [0x34, 0x12, 0x78, 0x56, 0x9a];
    let mut input = InputBuffer::new(BitsBuffer::new(), &data);
    assert_eq!(input.try_load_16bits(), 0x1234);
    assert_eq!(input.available_bits(), 16);
    assert_eq!(input.try_load_16bits(), 0x1234);
    input.skip_bits(4);
    assert_eq!(input.peek_available_bits(), 0x123);
    assert_eq!(input.try_load_16bits(), 0x78123);
    assert_eq!(input.available_bits(), 20);
    input.skip_bits(16);
    assert_eq!(input.load_16bits_assume_input(), 0x9a567);
    assert_eq!(input.available_bits(), 20);
    assert_eq!(input.available_bytes(), 0);
    input.skip_bits(16);
    // Nothing left to load.
    assert_eq!(input.try_load_16bits(), 0x9);
    assert_eq!(input.available_bits(), 4);
    assert_eq!(input.try_load_32bits(), 0x9);
}

#[test]
fn input_buffer_goes_on_from_buffered_bits() {
    let mut input = InputBuffer::new(BitsBuffer::from_bits(0xff5, 4), &[0xab]);
    assert_eq!(input.available_bits(), 4);
    assert_eq!(input.peek_available_bits(), 5);
    assert_eq!(input.get_bits(8), Ok(0xb5));
    assert_eq!(input.get_bits(4), Ok(0xa));
    let bits = input.bits;
    assert_eq!(bits.bits_in_buffer, 0);
    assert_eq!(bits.bit_buffer, 0);
}

#[test]
fn input_buffer_skips_to_the_byte_boundary() {
    let mut input = InputBuffer::new(BitsBuffer::new(), &[0xff, 0x21, 0x43, 0x65, 0x87, 0xa9]);
    assert_eq!(input.get_bits(3), Ok(7));
    input.skip_to_byte_boundary();
    assert_eq!(input.available_bits(), 0);
    input.skip_to_byte_boundary();
    assert_eq!(input.try_load_32bits(), 0x87654321);
    assert_eq!(input.available_bits(), 32);
    input.skip_bits(16);
    input.skip_bits(16);
    let mut out = [0u8; 4];
    assert_eq!(input.copy_to(&mut out), 1);
    assert_eq!(out, [0xa9, 0, 0, 0]);
    assert_eq!(input.copy_to(&mut out), 0);
    assert!(input.needs_input());
}

#[test]
fn input_buffer_copies_whole_bytes() {
    let data: Vec<u8> = (10..20u8).collect();
    let mut input = InputBuffer::new(BitsBuffer::new(), &data);
    let mut out = [0u8; 4];
    assert_eq!(input.copy_to(&mut out), 4);
    assert_eq!(out, [10, 11, 12, 13]);
    assert_eq!(input.peek_byte(1), 15);
    input.advance(2);
    assert_eq!(input.get_bits(8), Ok(16));
    assert_eq!(input.available_bytes(), 3);
}

#[test]
fn the_write_position_moves_with_what_is_written() {
    let mut window = Box::new(OutputWindow::new());
    window.write(7);
    assert_eq!(window.end, 1);
    assert_eq!(window.window[0], 7);
    window.write_length_distance(10, 1);
    assert_eq!(window.end, 11);
    assert!(window.window[..11].iter().all(|&b| b == 7));
    assert!(window.window[11..].iter().all(|&b| b == 0));
    let bytes = [1u8, 2, 3];
    let mut input = InputBuffer::new(BitsBuffer::new(), &bytes);
    assert_eq!(window.copy_from(&mut input, 3), 3);
    assert_eq!(window.end, 14);
    assert_eq!(&window.window[11..14], &bytes);
}

#[test]
fn the_write_position_wraps() {
    let mut window = Box::new(OutputWindow::new());
    let data = vec![9u8; 131_072];
    window.restore_from_checkpoint(&data, 0);
    assert_eq!(window.end, 0);
    window.restore_from_checkpoint(&data[..131_071], 0);
    assert_eq!(window.end, 131_071);
    window.write_length_distance(3, 1);
    assert_eq!(window.end, 2);
    assert_eq!(window.available_bytes(), 3);
}
