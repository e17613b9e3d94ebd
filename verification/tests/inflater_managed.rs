use deflate64::InflaterManaged;
use std::cmp::min;

const DYNAMIC_UNCOMPRESSED_SIZE: usize = 892;

// One dynamic block, made by a Deflate encoder from text without long runs.
const DYNAMIC_COMPRESSED: [u8; 329] = [
    0x3d, 0x52, 0x41, 0x8e, 0x03, 0x21, 0x0c, 0xfb, 0x0a, 0x4f, 0x18, 0x08, 0x21, 0xf0, 0x1c, 0xaa,
    0xad, 0xb6, 0xd5, 0x4e, 0xb7, 0x23, 0xed, 0x9c, 0xfa, 0xfa, 0x85, 0xd8, 0xcc, 0x85, 0x88, 0xc4,
    0x31, 0x8e, 0xc3, 0xe7, 0x7e, 0xf6, 0xd8, 0xc2, 0x38, 0xab, 0x84, 0xbe, 0x1f, 0x8f, 0xde, 0xc2,
    0xf3, 0x3d, 0x72, 0x29, 0x7c, 0x46, 0xd2, 0x32, 0x92, 0x25, 0x87, 0xaf, 0xfb, 0x7e, 0xf6, 0x1c,
    0x6e, 0x23, 0xab, 0xea, 0x0d, 0x48, 0xc5, 0xe8, 0x0d, 0x4a, 0xa4, 0x25, 0x87, 0xa4, 0x1a, 0x7e,
    0xfa, 0x71, 0x74, 0x63, 0xc8, 0xb3, 0xa3, 0xa0, 0x43, 0xf1, 0x82, 0x85, 0xfb, 0xf1, 0xf7, 0xdc,
    0xdf, 0xbf, 0x2a, 0xe1, 0xbb, 0xbf, 0x5e, 0xbd, 0x34, 0x6f, 0x35, 0x59, 0x05, 0x8b, 0x28, 0x44,
    0x21, 0x8b, 0x50, 0x85, 0x01, 0xb8, 0x21, 0x24, 0xbe, 0xdc, 0x50, 0x2d, 0xb2, 0x04, 0xcd, 0x09,
    0xb4, 0xa1, 0x57, 0xab, 0x5f, 0x85, 0xaa, 0x13, 0xa9, 0xe2, 0x86, 0xf2, 0xc8, 0xcf, 0xa6, 0xd1,
    0x3b, 0x51, 0x4d, 0xc2, 0xf9, 0x98, 0xe8, 0x82, 0x2a, 0x84, 0x15, 0x1f, 0x3b, 0x45, 0x87, 0x0c,
    0xd3, 0x1c, 0xa2, 0xb4, 0xad, 0xaa, 0x63, 0x9a, 0x39, 0x8f, 0x81, 0x27, 0x23, 0x58, 0x01, 0x76,
    0xb8, 0xe0, 0xb1, 0x3a, 0x54, 0xd6, 0x8d, 0x63, 0xaf, 0xa9, 0x6b, 0xc2, 0xa3, 0xd5, 0x2e, 0x11,
    0x13, 0xa5, 0x4e, 0x95, 0x90, 0xcb, 0x0a, 0x67, 0x0c, 0x54, 0x85, 0x22, 0xd2, 0x45, 0x12, 0x97,
    0xd7, 0x5b, 0x40, 0xfd, 0x06, 0xe9, 0xd0, 0x8c, 0x95, 0x09, 0x49, 0x54, 0xd7, 0x15, 0xcc, 0x13,
    0xd9, 0xe8, 0xfc, 0xc6, 0x48, 0x6f, 0x2b, 0xff, 0x01, 0x89, 0x8c, 0x0c, 0x72, 0xad, 0x8c, 0x78,
    0xc5, 0x0e, 0xf2, 0x5a, 0x3f, 0x7e, 0xd3, 0x10, 0xe5, 0xe6, 0x34, 0xa8, 0x55, 0x78, 0x0e, 0x89,
    0x43, 0xd3, 0x44, 0xd0, 0xf8, 0xea, 0x37, 0xe3, 0xa3, 0x1c, 0xa5, 0x50, 0x4b, 0x5e, 0xa6, 0x3a,
    0x4b, 0x94, 0xeb, 0xe3, 0xe1, 0x17, 0xc1, 0x92, 0xcc, 0xd5, 0x71, 0x72, 0xde, 0x72, 0x05, 0x68,
    0xf2, 0x43, 0x70, 0xce, 0xac, 0x70, 0x47, 0x11, 0x7b, 0x2c, 0x34, 0xba, 0x70, 0x52, 0xc1, 0x92,
    0x22, 0xc8, 0x1b, 0x96, 0xd1, 0xf2, 0x62, 0x29, 0xfc, 0xa9, 0x85, 0xa2, 0x12, 0x26, 0xcd, 0x94,
    0x5c, 0x31, 0x29, 0x4c, 0x11, 0x70, 0xd4, 0xf6, 0x0f,
];

const DYNAMIC_TEXT: &[u8] = b"zeta19 eta83 alpha9 iota12 zeta74 alpha64 delta4 beta55 eta8 delta11 iota54 alpha72 beta28 kappa7 kappa74 eta6 delta5 iota17 epsilon53 gamma69 beta73 epsilon71 gamma13 kappa73 delta47 beta70 beta72 alpha79 delta63 iota54 zeta59 kappa58 zeta38 delta23 delta10 kappa38 iota63 zeta93 theta36 kappa9 beta65 eta21 zeta19 theta53 alpha85 beta97 iota73 zeta43 zeta76 theta74 theta8 beta34 theta89 beta7 epsilon82 kappa87 theta36 eta85 zeta2 theta45 gamma78 beta63 alpha27 epsilon16 delta50 eta63 beta21 theta51 iota35 gamma55 iota35 eta45 eta29 gamma10 gamma19 delta84 delta1 theta75 gamma33 epsilon0 gamma53 iota47 kappa72 zeta16 iota79 alpha58 iota50 eta51 eta13 theta81 eta7 delta8 delta56 gamma14 zeta76 alpha13 alpha72 gamma68 beta46 kappa3 beta26 kappa48 gamma81 epsilon44 kappa46 theta15 beta62 theta61 theta39 beta18 beta95 zeta94 epsilon61 gamma66 alpha26 iota46 gamma88 iota3 iota38 beta89";

// literal 0, match 65535 distance 1, match 65536 distance 1, end of block
const LONG_RUN: [u8; 10] = [0x63, 0x18, 0xe5, 0xff, 0x07, 0xa3, 0xfd, 0xff, 0x00, 0x00];

/// Writes a bit stream: fields lowest bit first, Huffman codes highest bit
/// first.
struct BitWriter {
    bytes: Vec<u8>,
    used: usize,
}

impl BitWriter {
    fn new() -> Self {
        BitWriter { bytes: Vec::new(), used: 0 }
    }

    fn bit(&mut self, b: u32) {
        if self.used % 8 == 0 {
            self.bytes.push(0);
        }
        let last = self.bytes.len() - 1;
        self.bytes[last] |= ((b & 1) as u8) << (self.used % 8);
        self.used += 1;
    }

    fn field(&mut self, value: u32, count: u32) {
        for i in 0..count {
            self.bit(value >> i);
        }
    }

    fn code(&mut self, code: u32, count: u32) {
        for i in (0..count).rev() {
            self.bit(code >> i);
        }
    }

    fn align(&mut self) {
        while self.used % 8 != 0 {
            self.bit(0);
        }
    }

    fn stored(&mut self, last: bool, data: &[u8]) {
        self.field(last as u32, 1);
        self.field(0, 2);
        self.align();
        self.field(data.len() as u32, 16);
        self.field(!(data.len() as u32) & 0xffff, 16);
        for &b in data {
            self.field(b as u32, 8);
        }
    }

    fn static_header(&mut self, last: bool) {
        self.field(last as u32, 1);
        self.field(1, 2);
    }

    /// A symbol of the fixed literal/length code.
    fn static_symbol(&mut self, symbol: u32) {
        if symbol < 144 {
            self.code(0x30 + symbol, 8);
        } else if symbol < 256 {
            self.code(0x190 + (symbol - 144), 9);
        } else if symbol < 280 {
            self.code(symbol - 256, 7);
        } else {
            self.code(0xc0 + (symbol - 280), 8);
        }
    }

    fn static_distance(&mut self, symbol: u32) {
        self.code(symbol, 5);
    }
}

fn inflate_all(input: &[u8], room: usize) -> (Vec<u8>, usize, bool, bool) {
    let mut inflater = Box::new(InflaterManaged::new());
    let mut output = vec![0u8; room];
    let result = inflater.inflate(input, &mut output);
    output.truncate(result.bytes_written);
    (output, result.bytes_consumed, result.data_error, inflater.finished())
}

fn pattern(n: usize) -> Vec<u8> {
    (0..n).map(|i| ((i * 7 + i / 256) % 251) as u8).collect()
}

#[test]
fn check_test_data() {
    assert_eq!(DYNAMIC_TEXT.len(), DYNAMIC_UNCOMPRESSED_SIZE);
}

#[test]
fn not_finished_until_drained() {
    // Hand-built: literal 0, static block [ match 65535 dist 1, match 65536 dist 1, end ]
    let input = &[0x63, 0x18, 0xe5, 0xff, 0x07, 0xa3, 0xfd, 0xff, 0x00, 0x00];
    let expected_len = 1 + 65535 + 65536;

    let mut output = vec![0xFFu8; expected_len + 100];

    let mut inflater = InflaterManaged::new();
    let result = inflater.inflate(input, &mut output[..expected_len - 1]);
    assert_eq!(result.bytes_consumed, input.len());
    assert_eq!(result.bytes_written, expected_len - 1);
    assert!(inflater.input_finished());
    assert!(!inflater.finished());

    let result2 = inflater.inflate(&[], &mut output[expected_len - 1..]);
    assert_eq!(result2.bytes_written, 1);
    assert!(inflater.finished());
    assert!(!inflater.errored());
    assert!(output[..expected_len].iter().all(|&b| b == 0));
}

#[test]
fn empty_stream() {
    let mut inflater = InflaterManaged::new();
    let mut output = [0xAAu8; 16];
    let result = inflater.inflate(&[0x03, 0x00], &mut output);
    assert_eq!(result.bytes_consumed, 2);
    assert_eq!(result.bytes_written, 0);
    assert!(!result.data_error);
    assert!(inflater.finished());
    assert!(inflater.input_finished());
    assert_eq!(output, [0xAAu8; 16]);
}

#[test]
fn single_literal_zero() {
    let (output, consumed, error, finished) = inflate_all(&[0x63, 0x00, 0x00], 16);
    assert_eq!(output, vec![0x00]);
    assert_eq!(consumed, 3);
    assert!(!error);
    assert!(finished);
}

#[test]
fn long_run_by_distance_one() {
    let (output, consumed, error, finished) = inflate_all(&LONG_RUN, 131072 + 10);
    assert_eq!(consumed, 10);
    assert_eq!(output.len(), 131072);
    assert!(output.iter().all(|&b| b == 0));
    assert!(!error);
    assert!(finished);
}

#[test]
fn stored_block() {
    let input = [0x01, 0x03, 0x00, 0xfc, 0xff, b'a', b'b', b'c'];
    let (output, consumed, error, finished) = inflate_all(&input, 16);
    assert_eq!(output, b"abc".to_vec());
    assert_eq!(consumed, 8);
    assert!(!error);
    assert!(finished);
}

#[test]
fn empty_stored_block_then_static_block() {
    let mut w = BitWriter::new();
    w.stored(false, &[]);
    w.static_header(true);
    w.static_symbol(b'x' as u32);
    w.static_symbol(200);
    w.static_symbol(256);
    let (output, consumed, error, finished) = inflate_all(&w.bytes, 16);
    assert_eq!(output, vec![b'x', 200]);
    assert_eq!(consumed, w.bytes.len());
    assert!(!error);
    assert!(finished);
}

#[test]
fn dynamic_block() {
    let (output, consumed, error, finished) = inflate_all(&DYNAMIC_COMPRESSED, 1000);
    assert_eq!(consumed, DYNAMIC_COMPRESSED.len());
    assert_eq!(&output[..], DYNAMIC_TEXT);
    assert!(!error);
    assert!(finished);
}

fn shredded(chunk: usize) {
    let mut inflater = Box::new(InflaterManaged::new());
    let mut uncompressed = vec![0u8; DYNAMIC_UNCOMPRESSED_SIZE + 10];
    let mut compressed = &DYNAMIC_COMPRESSED[..];
    let mut written = 0;
    let mut consumed = 0;
    while !compressed.is_empty() {
        let output = inflater.inflate(
            &compressed[..min(chunk, compressed.len())],
            &mut uncompressed[written..],
        );
        compressed = &compressed[output.bytes_consumed..];
        consumed += output.bytes_consumed;
        written += output.bytes_written;
        assert!(!output.data_error, "unexpected error");
    }
    assert_eq!(consumed, DYNAMIC_COMPRESSED.len());
    assert_eq!(written, DYNAMIC_UNCOMPRESSED_SIZE);
    assert_eq!(&uncompressed[..written], DYNAMIC_TEXT);
    assert!(inflater.finished());
}

#[test]
fn dynamic_block_shredded_1() {
    shredded(1)
}

#[test]
fn dynamic_block_shredded_10() {
    shredded(10)
}

#[test]
fn dynamic_block_shredded_100() {
    shredded(100)
}

#[test]
fn output_in_small_windows() {
    for room in [1usize, 3, 64, 891, 892] {
        let mut inflater = Box::new(InflaterManaged::new());
        let mut collected = Vec::new();
        let mut input = &DYNAMIC_COMPRESSED[..];
        let mut rounds = 0;
        while !inflater.finished() {
            let mut buffer = vec![0u8; room];
            let result = inflater.inflate(input, &mut buffer);
            assert!(!result.data_error);
            input = &input[result.bytes_consumed..];
            collected.extend_from_slice(&buffer[..result.bytes_written]);
            rounds += 1;
            assert!(rounds < 2000);
        }
        assert_eq!(&collected[..], DYNAMIC_TEXT);
    }
}

#[test]
fn output_larger_than_window() {
    // Four stored blocks of 60 000 bytes: more than the window holds.
    let data = pattern(240_000);
    let mut w = BitWriter::new();
    for (i, part) in data.chunks(60_000).enumerate() {
        w.stored(i == 3, part);
    }
    for room in [1000usize, 70_000, 300_000] {
        let mut inflater = Box::new(InflaterManaged::new());
        let mut collected = Vec::new();
        let mut input = &w.bytes[..];
        let mut rounds = 0;
        while !inflater.finished() {
            let mut buffer = vec![0u8; room];
            let result = inflater.inflate(input, &mut buffer);
            assert!(!result.data_error);
            input = &input[result.bytes_consumed..];
            collected.extend_from_slice(&buffer[..result.bytes_written]);
            rounds += 1;
            assert!(rounds < 1000);
        }
        assert!(input.is_empty());
        assert_eq!(collected, data);
    }
}

#[test]
fn window_full_of_matches() {
    // 100 000 bytes of pattern, then matches that reach far back, handed
    // out through a small buffer.
    let data = pattern(60_000);
    let mut w = BitWriter::new();
    w.stored(false, &data);
    w.stored(false, &data[..40_000]);
    w.static_header(true);
    let mut expected = data.clone();
    expected.extend_from_slice(&data[..40_000]);
    for _ in 0..5 {
        // length 65 538 at distance 65 536
        w.static_symbol(285);
        w.field(65535, 16);
        w.static_distance(31);
        w.field(65536 - 49153, 14);
        for _ in 0..65538 {
            let b = expected[expected.len() - 65536];
            expected.push(b);
        }
    }
    w.static_symbol(256);
    let mut inflater = Box::new(InflaterManaged::new());
    let mut collected = Vec::new();
    let mut input = &w.bytes[..];
    let mut rounds = 0;
    while !inflater.finished() {
        let mut buffer = vec![0u8; 5000];
        let result = inflater.inflate(input, &mut buffer);
        assert!(!result.data_error);
        input = &input[result.bytes_consumed..];
        collected.extend_from_slice(&buffer[..result.bytes_written]);
        rounds += 1;
        assert!(rounds < 1000);
    }
    assert_eq!(collected.len(), expected.len());
    assert!(collected == expected);
}

#[test]
fn length_symbol_285_has_16_extra_bits() {
    for extra in [0u32, 1, 255, 65535] {
        let mut w = BitWriter::new();
        w.static_header(true);
        w.static_symbol(b'q' as u32);
        w.static_symbol(285);
        w.field(extra, 16);
        w.static_distance(0);
        w.static_symbol(256);
        let (output, _, error, finished) = inflate_all(&w.bytes, 70_000);
        assert!(!error);
        assert!(finished);
        assert_eq!(output.len(), 1 + 3 + extra as usize);
        assert!(output.iter().all(|&b| b == b'q'));
    }
}

#[test]
fn distance_symbols_30_and_31() {
    let data = pattern(65_535);
    // (symbol, extra bits, distance)
    for (symbol, extra, distance) in
        [(30u32, 0u32, 32_769usize), (30, 16_383, 49_152), (31, 0, 49_153), (31, 16_382, 65_535)]
    {
        let mut w = BitWriter::new();
        w.stored(false, &data);
        w.static_header(true);
        // length 10
        w.static_symbol(264);
        w.static_distance(symbol);
        w.field(extra, 14);
        w.static_symbol(256);
        let (output, consumed, error, finished) = inflate_all(&w.bytes, 70_000);
        assert!(!error);
        assert!(finished);
        assert_eq!(consumed, w.bytes.len());
        assert_eq!(output.len(), data.len() + 10);
        assert_eq!(&output[..data.len()], &data[..]);
        let from = data.len() - distance;
        assert_eq!(&output[data.len()..], &data[from..from + 10]);
    }
}

#[test]
fn largest_distance() {
    let data = pattern(65_535);
    let mut w = BitWriter::new();
    w.stored(false, &data);
    w.stored(false, &[0xEE]);
    w.static_header(true);
    w.static_symbol(257);
    w.static_distance(31);
    w.field(16_383, 14);
    w.static_symbol(256);
    let (output, _, error, finished) = inflate_all(&w.bytes, 70_000);
    assert!(!error);
    assert!(finished);
    assert_eq!(output.len(), 65_536 + 3);
    assert_eq!(&output[65_536..], &data[..3]);
}

#[test]
fn truncated_stream() {
    let half = &DYNAMIC_COMPRESSED[..DYNAMIC_COMPRESSED.len() / 2];
    let mut inflater = Box::new(InflaterManaged::new());
    let mut output = vec![0u8; 1000];
    let result = inflater.inflate(half, &mut output);
    assert!(!result.data_error);
    assert_eq!(result.bytes_consumed, half.len());
    assert!(result.bytes_written < DYNAMIC_UNCOMPRESSED_SIZE);
    assert_eq!(&output[..result.bytes_written], &DYNAMIC_TEXT[..result.bytes_written]);
    assert!(!inflater.finished());
    assert!(inflater.input_finished());
    assert!(!inflater.errored());
}

#[test]
fn input_not_finished_while_input_is_held_back() {
    let mut inflater = Box::new(InflaterManaged::new());
    let data = pattern(200_000);
    let mut w = BitWriter::new();
    for (i, part) in data.chunks(50_000).enumerate() {
        w.stored(i == 3, part);
    }
    let mut output = vec![0u8; 10];
    let result = inflater.inflate(&w.bytes, &mut output);
    assert_eq!(result.bytes_written, 10);
    assert!(result.bytes_consumed < w.bytes.len());
    assert!(!inflater.input_finished());
    assert!(!inflater.finished());
}

#[test]
fn oversubscribed_code_length_code() {
    // Four code length codes of one bit each.
    let input = [0x05, 0x00, 0x92, 0x04, 0x00, 0x00];
    let (output, _, error, finished) = inflate_all(&input, 16);
    assert!(error);
    assert!(output.is_empty());
    assert!(!finished);
}

#[test]
fn incomplete_code_length_code() {
    // One code length code of two bits; the input goes on with bits that
    // are no code.
    let input = [0x05, 0x00, 0x00, 0x68, 0x00, 0x00, 0x00, 0x00];
    let (output, _, error, finished) = inflate_all(&input, 16);
    assert!(error);
    assert!(output.is_empty());
    assert!(!finished);
}

#[test]
fn reserved_block_type() {
    let (_, _, error, _) = inflate_all(&[0x07, 0x00], 16);
    assert!(error);
}

#[test]
fn stored_length_mismatch() {
    let (_, _, error, _) = inflate_all(&[0x01, 0x05, 0x00, 0x00, 0x00, 1, 2, 3, 4, 5], 16);
    assert!(error);
}

#[test]
fn back_reference_before_first_byte() {
    let mut w = BitWriter::new();
    w.static_header(true);
    w.static_symbol(257);
    w.static_distance(0);
    w.static_symbol(256);
    let (output, _, error, _) = inflate_all(&w.bytes, 16);
    assert!(error);
    assert!(output.is_empty());

    let mut w = BitWriter::new();
    w.static_header(true);
    w.static_symbol(b'a' as u32);
    w.static_symbol(b'b' as u32);
    w.static_symbol(257);
    w.static_distance(2);
    w.static_symbol(256);
    let (_, _, error, _) = inflate_all(&w.bytes, 16);
    assert!(error);
}

#[test]
fn length_symbols_286_and_287_are_invalid() {
    for symbol in [286u32, 287] {
        let mut w = BitWriter::new();
        w.static_header(true);
        w.static_symbol(b'a' as u32);
        w.static_symbol(symbol);
        w.field(0, 16);
        let (_, _, error, _) = inflate_all(&w.bytes, 16);
        assert!(error);
    }
}

#[test]
fn error_is_sticky() {
    let mut inflater = Box::new(InflaterManaged::new());
    let mut output = vec![0x55u8; 32];
    let result = inflater.inflate(&[0x07, 0x00], &mut output);
    assert!(result.data_error);
    assert!(inflater.errored());
    for _ in 0..3 {
        let result = inflater.inflate(&DYNAMIC_COMPRESSED, &mut output);
        assert!(result.data_error);
        assert_eq!(result.bytes_consumed, 0);
        assert_eq!(result.bytes_written, 0);
        assert!(inflater.errored());
        assert!(!inflater.finished());
    }
    assert!(output.iter().all(|&b| b == 0x55));
}

#[test]
fn nothing_happens_after_the_end() {
    let mut inflater = Box::new(InflaterManaged::new());
    let mut output = vec![0u8; 1000];
    let result = inflater.inflate(&DYNAMIC_COMPRESSED, &mut output);
    assert_eq!(result.bytes_written, DYNAMIC_UNCOMPRESSED_SIZE);
    assert!(inflater.finished());
    let mut more = vec![0x55u8; 32];
    for _ in 0..3 {
        let result = inflater.inflate(&DYNAMIC_COMPRESSED, &mut more);
        assert_eq!(result.bytes_consumed, 0);
        assert_eq!(result.bytes_written, 0);
        assert!(!result.data_error);
        assert!(inflater.finished());
        assert!(inflater.input_finished());
    }
    assert!(more.iter().all(|&b| b == 0x55));
}

#[test]
fn size_limit_met_exactly() {
    let mut inflater = Box::new(InflaterManaged::with_uncompressed_size(DYNAMIC_UNCOMPRESSED_SIZE));
    let mut output = vec![0u8; 1000];
    let result = inflater.inflate(&DYNAMIC_COMPRESSED, &mut output);
    assert!(!result.data_error);
    assert_eq!(result.bytes_consumed, DYNAMIC_COMPRESSED.len());
    assert_eq!(result.bytes_written, DYNAMIC_UNCOMPRESSED_SIZE);
    assert_eq!(&output[..result.bytes_written], DYNAMIC_TEXT);
    assert!(inflater.finished());
}

#[test]
fn size_limit_exceeded() {
    for limit in [0usize, 1, 500, DYNAMIC_UNCOMPRESSED_SIZE - 1] {
        let mut inflater = Box::new(InflaterManaged::with_uncompressed_size(limit));
        let mut output = vec![0u8; 1000];
        let mut written = 0;
        let result = inflater.inflate(&DYNAMIC_COMPRESSED, &mut output);
        written += result.bytes_written;
        assert!(result.data_error);
        assert!(inflater.errored());
        assert!(!inflater.finished());
        let result = inflater.inflate(&[], &mut output[written..]);
        written += result.bytes_written;
        assert!(written <= limit);
    }
    // Stored blocks and matches keep to the limit too.
    let mut w = BitWriter::new();
    w.stored(true, b"0123456789");
    let mut inflater = Box::new(InflaterManaged::with_uncompressed_size(9));
    let mut output = vec![0u8; 100];
    let result = inflater.inflate(&w.bytes, &mut output);
    assert!(result.data_error);
    assert!(result.bytes_written <= 9);

    let mut inflater = Box::new(InflaterManaged::with_uncompressed_size(131071));
    let mut output = vec![0u8; 140_000];
    let result = inflater.inflate(&LONG_RUN, &mut output);
    assert!(result.data_error);
    assert!(result.bytes_written <= 131071);
}

#[test]
fn size_limit_not_reached() {
    let mut inflater =
        Box::new(InflaterManaged::with_uncompressed_size(DYNAMIC_UNCOMPRESSED_SIZE + 5));
    let mut output = vec![0u8; 1000];
    let result = inflater.inflate(&DYNAMIC_COMPRESSED, &mut output);
    assert!(!result.data_error);
    assert_eq!(result.bytes_written, DYNAMIC_UNCOMPRESSED_SIZE);
    assert!(inflater.finished());
}

#[test]
fn empty_output_buffer_still_takes_input() {
    let mut inflater = Box::new(InflaterManaged::new());
    let result = inflater.inflate(&DYNAMIC_COMPRESSED, &mut []);
    assert_eq!(result.bytes_written, 0);
    assert_eq!(result.bytes_consumed, DYNAMIC_COMPRESSED.len());
    assert!(!inflater.finished());
    assert!(inflater.input_finished());
    let mut output = vec![0u8; 1000];
    let result = inflater.inflate(&[], &mut output);
    assert_eq!(&output[..result.bytes_written], DYNAMIC_TEXT);
    assert!(inflater.finished());
}

#[test]
fn static_literals_are_read_back() {
    // Every byte value once as a literal of the fixed code, twice over.
    let data: Vec<u8> = (0..512u32).map(|i| (i % 256) as u8).collect();
    let mut w = BitWriter::new();
    w.static_header(true);
    for &b in &data {
        w.static_symbol(b as u32);
    }
    w.static_symbol(256);
    let (output, consumed, error, finished) = inflate_all(&w.bytes, data.len() + 10);
    assert!(!error);
    assert!(finished);
    assert_eq!(consumed, w.bytes.len());
    assert_eq!(output, data);
}

#[test]
fn a_call_stops_where_the_window_is_full() {
    // Three stored blocks of 60 000 bytes.  With room for one byte the
    // call decodes until the window is full, part of the way into the
    // third block, and hands out one byte.
    let data = pattern(180_000);
    let mut w = BitWriter::new();
    for (i, part) in data.chunks(60_000).enumerate() {
        w.stored(i == 2, part);
    }
    let mut inflater = Box::new(InflaterManaged::new());
    let mut one = [0u8; 1];
    let result = inflater.inflate(&w.bytes, &mut one);
    assert!(!result.data_error);
    assert_eq!(result.bytes_written, 1);
    assert_eq!(one[0], data[0]);
    // Three headers of five bytes and a window full of data were taken.
    assert_eq!(result.bytes_consumed, 15 + 131_072);
    assert!(!inflater.input_finished());
    // The next call has room in the window for one byte more.
    let result = inflater.inflate(&w.bytes[15 + 131_072..], &mut one);
    assert_eq!(result.bytes_written, 1);
    assert_eq!(one[0], data[1]);
    assert_eq!(result.bytes_consumed, 1);
}

#[test]
fn bytes_behind_the_end_are_not_all_taken() {
    // An empty block with the fixed codes, and three bytes behind it.  The
    // header takes the first byte into the bit buffer; the symbol that
    // ends the block has the buffer filled to 16 bits, with two more.
    let input = [0x03u8, 0x00, 0xaa, 0xbb, 0xcc];
    let (output, consumed, error, finished) = inflate_all(&input, 10);
    assert!(!error);
    assert!(finished);
    assert!(output.is_empty());
    assert_eq!(consumed, 3);
}
