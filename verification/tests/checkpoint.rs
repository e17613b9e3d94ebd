use deflate64::checkpoint::fletcher32_checksum;
use deflate64::InflaterManaged;

// One dynamic block, made by a Deflate encoder from text without long runs.
const COMPRESSED: [u8; 329] = [
    0x3d, 0x52, 0x41, 0x8e, 0x03, 0x21, 0x0c, 0xfb, 0x0a, 0x4f, 0x18, 0x08, 0x21, 0xf0, 0x1c, 0xaa,
    0xad, 0xb6, 0xd5, 0x4e, 0xb7, 0x23, 0xed, 0x9c, 0xfa, 0xfa, 0x85, 0xd8, 0xcc, 0x85, 0x88, 0xc4,
    0x31, 0x8e, 0xc3, 0xe7, 0x7e, 0xf6, 0xd8, 0xc2, 0x38, 0xab, 0x84, 0xbe, 0x1f, 0x8f, 0xde, 0xc2,
    0xf3, 0x3d, 0x72, 0x29, 0x7c, 0x46, 0xd2, 0x32, 0x92, 0x25, 0x87, 0xaf, 0xfb, 0x7e, 0xf6, 0x1c,
    0x6e, 0x23, 0xab, 0xea, 0x0d, 0x48, 0xc5, 0xe8, 0x0d, 0x4a, 0xa4, 0x25, 0x87, 0xa4, 0x1a, 0x7e,
    0xfa, 0x71, 0x74, 0x63, 0xc8, 0xb3, 0xa3, 0xa0, 0x43, 0xf1, 0x82, 0x85, 0xfb, 0xf1, 0xf7, 0xdc,
    0xdf, 0xbf, 0x2a, 0xe1, 0xbb, 0xbf, 0x5e, 0xbd, 0x34, 0x6f, 0x35, 0x59, 0x05, 0x8b, 0x28, 0x44,
    0x21, 0x8b, 0x50, 0x85, 0x01, 0xb8, 0x21, 0x24, 0xbe, 0xdc, 0x50, 0x2d, 0xb2, 0x04, 0xcd, 0x09,
    0xb4, 0xa1, 0x57, 0xab, 0x5f, 0x85, 0xaa, 0x13, 0xa9, 0xe2, 0x86, 0xf2, 0xc8, 0xcf, 0xa6, 0xd1,
    0x3b, 0x51, 0x4d, 0xc2, 0xf9, 0x98, 0xe8, 0x82, 0x2a, 0x84, 0x15, 0x1f, 0x3b, 0x45, 0x87, 0x0c,
    0xd3, 0x1c, 0xa2, 0xb4, 0xad, 0xaa, 0x63, 0x9a, 0x39, 0x8f, 0x81, 0x27, 0x23, 0x58, 0x01, 0x76,
    0xb8, 0xe0, 0xb1, 0x3a, 0x54, 0xd6, 0x8d, 0x63, 0xaf, 0xa9, 0x6b, 0xc2, 0xa3, 0xd5, 0x2e, 0x11,
    0x13, 0xa5, 0x4e, 0x95, 0x90, 0xcb, 0x0a, 0x67, 0x0c, 0x54, 0x85, 0x22, 0xd2, 0x45, 0x12, 0x97,
    0xd7, 0x5b, 0x40, 0xfd, 0x06, 0xe9, 0xd0, 0x8c, 0x95, 0x09, 0x49, 0x54, 0xd7, 0x15, 0xcc, 0x13,
    0xd9, 0xe8, 0xfc, 0xc6, 0x48, 0x6f, 0x2b, 0xff, 0x01, 0x89, 0x8c, 0x0c, 0x72, 0xad, 0x8c, 0x78,
    0xc5, 0x0e, 0xf2, 0x5a, 0x3f, 0x7e, 0xd3, 0x10, 0xe5, 0xe6, 0x34, 0xa8, 0x55, 0x78, 0x0e, 0x89,
    0x43, 0xd3, 0x44, 0xd0, 0xf8, 0xea, 0x37, 0xe3, 0xa3, 0x1c, 0xa5, 0x50, 0x4b, 0x5e, 0xa6, 0x3a,
    0x4b, 0x94, 0xeb, 0xe3, 0xe1, 0x17, 0xc1, 0x92, 0xcc, 0xd5, 0x71, 0x72, 0xde, 0x72, 0x05, 0x68,
    0xf2, 0x43, 0x70, 0xce, 0xac, 0x70, 0x47, 0x11, 0x7b, 0x2c, 0x34, 0xba, 0x70, 0x52, 0xc1, 0x92,
    0x22, 0xc8, 0x1b, 0x96, 0xd1, 0xf2, 0x62, 0x29, 0xfc, 0xa9, 0x85, 0xa2, 0x12, 0x26, 0xcd, 0x94,
    0x5c, 0x31, 0x29, 0x4c, 0x11, 0x70, 0xd4, 0xf6, 0x0f,
];

const TEXT: &[u8] = b"zeta19 eta83 alpha9 iota12 zeta74 alpha64 delta4 beta55 eta8 delta11 iota54 alpha72 beta28 kappa7 kappa74 eta6 delta5 iota17 epsilon53 gamma69 beta73 epsilon71 gamma13 kappa73 delta47 beta70 beta72 alpha79 delta63 iota54 zeta59 kappa58 zeta38 delta23 delta10 kappa38 iota63 zeta93 theta36 kappa9 beta65 eta21 zeta19 theta53 alpha85 beta97 iota73 zeta43 zeta76 theta74 theta8 beta34 theta89 beta7 epsilon82 kappa87 theta36 eta85 zeta2 theta45 gamma78 beta63 alpha27 epsilon16 delta50 eta63 beta21 theta51 iota35 gamma55 iota35 eta45 eta29 gamma10 gamma19 delta84 delta1 theta75 gamma33 epsilon0 gamma53 iota47 kappa72 zeta16 iota79 alpha58 iota50 eta51 eta13 theta81 eta7 delta8 delta56 gamma14 zeta76 alpha13 alpha72 gamma68 beta46 kappa3 beta26 kappa48 gamma81 epsilon44 kappa46 theta15 beta62 theta61 theta39 beta18 beta95 zeta94 epsilon61 gamma66 alpha26 iota46 gamma88 iota3 iota38 beta89";

fn stored_stream(data: &[u8], block: usize) -> Vec<u8> {
    let mut out = Vec::new();
    let count = data.chunks(block).count();
    for (i, part) in data.chunks(block).enumerate() {
        out.push((i + 1 == count) as u8);
        out.extend_from_slice(&(part.len() as u16).to_le_bytes());
        out.extend_from_slice(&(!(part.len() as u16)).to_le_bytes());
        out.extend_from_slice(part);
    }
    out
}

fn decode_rest(inflater: &mut InflaterManaged, mut input: &[u8]) -> Vec<u8> {
    let mut collected = Vec::new();
    let mut rounds = 0;
    while !inflater.finished() {
        let mut buffer = vec![0u8; 4096];
        let result = inflater.inflate(input, &mut buffer);
        assert!(!result.data_error);
        input = &input[result.bytes_consumed..];
        collected.extend_from_slice(&buffer[..result.bytes_written]);
        rounds += 1;
        assert!(rounds < 10_000);
    }
    collected
}

#[test]
fn fletcher32_of_known_bytes() {
    assert_eq!(fletcher32_checksum(b""), 0);
    assert_eq!(fletcher32_checksum(b"a"), 0x0061_0061);
    assert_eq!(fletcher32_checksum(b"abcde"), 0x05c3_01ef);
    // Both sums are kept to 16 bits in the result.
    let data = vec![0xffu8; 1000];
    let a: u32 = 255 * 1000;
    let b: u32 = 255 * (1000 * 1001 / 2);
    assert_eq!(fletcher32_checksum(&data), (b << 16) | (a & 0xffff));
}

#[test]
fn no_checkpoint_before_any_output() {
    let inflater = Box::new(InflaterManaged::new());
    assert!(inflater.checkpoint().is_none());
    let mut inflater = Box::new(InflaterManaged::new());
    let mut output = vec![0u8; 16];
    // The block header alone.
    inflater.inflate(&COMPRESSED[..1], &mut output);
    assert!(inflater.checkpoint().is_none());
}

#[test]
fn no_checkpoint_after_an_error() {
    let mut inflater = Box::new(InflaterManaged::new());
    let mut output = vec![0u8; 16];
    // A literal, then a length code that does not exist.
    let result = inflater.inflate(&[0x63, 0x18, 0xe5, 0xff, 0x07, 0xff, 0xff], &mut output);
    assert!(!result.data_error);
    assert!(inflater.checkpoint().is_some());
    let mut bad = Box::new(InflaterManaged::new());
    let result = bad.inflate(&[0x07], &mut output);
    assert!(result.data_error);
    assert!(bad.checkpoint().is_none());
}

#[test]
fn no_checkpoint_once_finished() {
    let mut inflater = Box::new(InflaterManaged::new());
    let mut output = vec![0u8; 1000];
    inflater.inflate(&COMPRESSED, &mut output[..100]);
    // The stream has ended, but bytes wait in the window.
    assert!(!inflater.finished());
    assert!(inflater.checkpoint().is_some());
    inflater.inflate(&[], &mut output[100..]);
    assert!(inflater.finished());
    assert!(inflater.checkpoint().is_none());
}

#[test]
fn checkpoint_layout() {
    let mut inflater = Box::new(InflaterManaged::new());
    let mut output = vec![0u8; 1000];
    let result = inflater.inflate(&COMPRESSED[..200], &mut output);
    let written = result.bytes_written;
    assert!(written > 0);
    let (blob, positions) = inflater.checkpoint().unwrap();
    assert_eq!(positions.output_bytes_already_returned, written as u64);
    assert!(positions.input_bytes_to_skip <= 200);
    assert_eq!(blob.len(), 346 + written + 4);
    // version
    assert_eq!(&blob[0..2], &[0x01, 0x10]);
    let input_bits = u64::from_le_bytes(blob[2..10].try_into().unwrap());
    assert_eq!(positions.input_bytes_to_skip, (input_bits + 7) / 8);
    // only the bits of the byte begun
    let kept = (8 - input_bits % 8) % 8;
    assert!((blob[10] as u64) < (1 << kept));
    // a dynamic block that is not the last one... the flag says which
    assert_eq!(blob[11] & 0x7f, 2);
    assert_eq!(blob[11] & 0x80, 0x80);
    assert_eq!(&blob[12..14], &[0, 0]);
    // the code lengths of the block
    assert!(blob[14..302].iter().all(|&l| l <= 15));
    assert!(blob[14 + 256] != 0);
    assert_eq!(u64::from_le_bytes(blob[334..342].try_into().unwrap()), written as u64);
    assert_eq!(u32::from_le_bytes(blob[342..346].try_into().unwrap()), 0);
    assert_eq!(&blob[346..346 + written], &TEXT[..written]);
    let sum = fletcher32_checksum(&blob[..blob.len() - 4]);
    assert_eq!(&blob[blob.len() - 4..], &sum.to_le_bytes());
}

#[test]
fn checkpoint_round_trip_in_dynamic_block() {
    let mut taken = 0;
    for cut in (1..COMPRESSED.len()).step_by(7) {
        let mut first = Box::new(InflaterManaged::new());
        let mut output = vec![0u8; 1000];
        let result = first.inflate(&COMPRESSED[..cut], &mut output);
        assert!(!result.data_error);
        assert_eq!(result.bytes_consumed, cut);
        let (blob, positions) = match first.checkpoint() {
            Some(c) => c,
            None => continue,
        };
        taken += 1;
        assert_eq!(positions.output_bytes_already_returned, result.bytes_written as u64);
        assert!(positions.input_bytes_to_skip <= cut as u64);

        let mut second = Box::new(InflaterManaged::new());
        let restored = second.restore_from_checkpoint(&blob).unwrap();
        assert_eq!(restored, positions);
        let rest = decode_rest(&mut second, &COMPRESSED[positions.input_bytes_to_skip as usize..]);
        assert_eq!(&rest[..], &TEXT[positions.output_bytes_already_returned as usize..]);

        // The first decoder goes on as if nothing had happened.
        let rest = decode_rest(&mut first, &COMPRESSED[cut..]);
        assert_eq!(&rest[..], &TEXT[result.bytes_written..]);
    }
    assert!(taken > 30);
}

#[test]
fn checkpoint_round_trip_with_bytes_waiting() {
    for room in [0usize, 1, 100, 600] {
        let mut first = Box::new(InflaterManaged::new());
        let mut output = vec![0u8; room];
        let result = first.inflate(&COMPRESSED[..250], &mut output);
        assert_eq!(result.bytes_written, room);
        let (blob, positions) = first.checkpoint().unwrap();
        assert_eq!(positions.output_bytes_already_returned, room as u64);
        let mut second = Box::new(InflaterManaged::with_uncompressed_size(892));
        assert_eq!(second.restore_from_checkpoint(&blob), Some(positions));
        let rest = decode_rest(&mut second, &COMPRESSED[positions.input_bytes_to_skip as usize..]);
        assert_eq!(&rest[..], &TEXT[room..]);
    }
}

#[test]
fn checkpoint_round_trip_in_stored_blocks() {
    let data: Vec<u8> = (0..150_000usize).map(|i| (i * 31 % 253) as u8).collect();
    let stream = stored_stream(&data, 40_000);
    for cut in [3usize, 5, 6, 1000, 40_004, 40_005, 40_010, 100_000, stream.len() - 1] {
        let mut first = Box::new(InflaterManaged::new());
        let mut output = vec![0u8; 200_000];
        let result = first.inflate(&stream[..cut], &mut output);
        assert!(!result.data_error);
        let (blob, positions) = match first.checkpoint() {
            Some(c) => c,
            None => {
                assert!(cut < 5);
                continue;
            }
        };
        assert_eq!(positions.output_bytes_already_returned, result.bytes_written as u64);
        // At most the longest distance and length of history are kept.
        assert_eq!(blob.len(), 346 + result.bytes_written.min(65_538) + 4);
        let mut second = Box::new(InflaterManaged::new());
        assert_eq!(second.restore_from_checkpoint(&blob), Some(positions));
        let rest = decode_rest(&mut second, &stream[positions.input_bytes_to_skip as usize..]);
        assert_eq!(&rest[..], &data[result.bytes_written..]);
    }
}

#[test]
fn checkpoint_of_a_full_window() {
    let data: Vec<u8> = (0..200_000usize).map(|i| (i * 31 % 253) as u8).collect();
    let stream = stored_stream(&data, 50_000);
    let mut first = Box::new(InflaterManaged::new());
    let result = first.inflate(&stream, &mut []);
    assert_eq!(result.bytes_written, 0);
    // The window is full; all of it waits.
    let (blob, positions) = first.checkpoint().unwrap();
    assert_eq!(positions.output_bytes_already_returned, 0);
    assert_eq!(blob.len(), 346 + 131_072 + 4);
    let mut second = Box::new(InflaterManaged::new());
    assert_eq!(second.restore_from_checkpoint(&blob), Some(positions));
    let rest = decode_rest(&mut second, &stream[positions.input_bytes_to_skip as usize..]);
    assert!(rest == data);
}

#[test]
fn every_flipped_bit_is_found() {
    let mut first = Box::new(InflaterManaged::new());
    let mut output = vec![0u8; 1000];
    first.inflate(&COMPRESSED[..120], &mut output);
    let (blob, positions) = first.checkpoint().unwrap();
    let mut second = Box::new(InflaterManaged::new());
    for byte in 0..blob.len() {
        for bit in 0..8 {
            let mut damaged = blob.clone();
            damaged[byte] ^= 1 << bit;
            assert!(second.restore_from_checkpoint(&damaged).is_none());
        }
    }
    // The decoder was left alone by all of this.
    assert!(!second.errored());
    assert!(second.checkpoint().is_none());
    assert_eq!(second.restore_from_checkpoint(&blob), Some(positions));
}

fn resealed(mut blob: Vec<u8>) -> Vec<u8> {
    let n = blob.len() - 4;
    let sum = fletcher32_checksum(&blob[..n]);
    blob[n..].copy_from_slice(&sum.to_le_bytes());
    blob
}

#[test]
fn restore_rejects_what_the_checksum_lets_through() {
    let mut first = Box::new(InflaterManaged::new());
    let mut output = vec![0u8; 1000];
    first.inflate(&COMPRESSED[..120], &mut output);
    let (blob, _) = first.checkpoint().unwrap();
    let mut second = Box::new(InflaterManaged::new());
    assert!(second.restore_from_checkpoint(&resealed(blob.clone())).is_some());

    // too short
    assert!(second.restore_from_checkpoint(&[]).is_none());
    assert!(second.restore_from_checkpoint(&blob[..349]).is_none());
    // another version
    let mut other = blob.clone();
    other[0] = 0x02;
    assert!(second.restore_from_checkpoint(&resealed(other)).is_none());
    // window data of the wrong length
    let mut other = blob.clone();
    other.insert(346, 0);
    assert!(second.restore_from_checkpoint(&resealed(other)).is_none());
    // more bytes waiting than were ever written
    let mut other = blob.clone();
    other[342] = 0xff;
    other[343] = 0xff;
    assert!(second.restore_from_checkpoint(&resealed(other)).is_none());
    // a block type that does not exist
    let mut other = blob.clone();
    other[11] = 0x83;
    assert!(second.restore_from_checkpoint(&resealed(other)).is_none());
    // a code length over 16
    let mut other = blob.clone();
    other[14] = 17;
    assert!(second.restore_from_checkpoint(&resealed(other)).is_none());
    // code lengths of no code
    let mut other = blob.clone();
    for l in other[14..302].iter_mut() {
        *l = 1;
    }
    assert!(second.restore_from_checkpoint(&resealed(other)).is_none());
    // an uncompressed block that does not begin at a byte boundary
    let mut other = blob.clone();
    other[11] = 0x00;
    other[12] = 5;
    other[2] = 0x0b;
    assert!(second.restore_from_checkpoint(&resealed(other.clone())).is_none());
    other[2] = 0x10;
    assert!(second.restore_from_checkpoint(&resealed(other)).is_some());
}

#[test]
fn restore_keeps_to_the_limit_of_the_decoder() {
    let mut first = Box::new(InflaterManaged::new());
    let mut output = vec![0u8; 1000];
    let result = first.inflate(&COMPRESSED[..250], &mut output);
    let returned = result.bytes_written;
    let (blob, positions) = first.checkpoint().unwrap();
    let mut small = Box::new(InflaterManaged::with_uncompressed_size(returned - 1));
    assert!(small.restore_from_checkpoint(&blob).is_none());
    let mut exact = Box::new(InflaterManaged::with_uncompressed_size(returned));
    assert_eq!(exact.restore_from_checkpoint(&blob), Some(positions));
    // The limit still holds after the restore.
    let mut more = vec![0u8; 1000];
    let result = exact.inflate(&COMPRESSED[positions.input_bytes_to_skip as usize..], &mut more);
    assert!(result.data_error);
}

#[test]
fn restore_clears_an_error() {
    let mut first = Box::new(InflaterManaged::new());
    let mut output = vec![0u8; 1000];
    first.inflate(&COMPRESSED[..120], &mut output);
    let (blob, positions) = first.checkpoint().unwrap();
    let mut second = Box::new(InflaterManaged::new());
    assert!(second.inflate(&[0x07], &mut output).data_error);
    assert_eq!(second.restore_from_checkpoint(&blob), Some(positions));
    assert!(!second.errored());
    let rest = decode_rest(&mut second, &COMPRESSED[positions.input_bytes_to_skip as usize..]);
    assert_eq!(&rest[..], &TEXT[positions.output_bytes_already_returned as usize..]);
}

#[test]
fn checkpoints_of_a_restored_decoder() {
    // A decoder in the middle of a stored block is put at a checkpoint in
    // a compressed block, decodes on, and gives checkpoints of its own.
    let data: Vec<u8> = (0..50_000usize).map(|i| (i * 31 % 253) as u8).collect();
    let stored = stored_stream(&data, 40_000);
    let mut first = Box::new(InflaterManaged::new());
    let mut output = vec![0u8; 1000];
    first.inflate(&COMPRESSED[..100], &mut output);
    let (blob, positions) = first.checkpoint().unwrap();

    let mut second = Box::new(InflaterManaged::new());
    let mut big = vec![0u8; 60_000];
    let result = second.inflate(&stored[..20_000], &mut big);
    assert!(result.bytes_written > 0);
    assert_eq!(second.restore_from_checkpoint(&blob), Some(positions));

    let mut at = positions.input_bytes_to_skip as usize;
    let mut written = positions.output_bytes_already_returned as usize;
    let mut rounds = 0;
    while !second.finished() {
        let end = (at + 13).min(COMPRESSED.len());
        let result = second.inflate(&COMPRESSED[at..end], &mut output);
        assert!(!result.data_error);
        assert_eq!(&output[..result.bytes_written], &TEXT[written..written + result.bytes_written]);
        at += result.bytes_consumed;
        written += result.bytes_written;
        if let Some((blob, positions)) = second.checkpoint() {
            assert_eq!(positions.output_bytes_already_returned, written as u64);
            let mut third = Box::new(InflaterManaged::new());
            assert_eq!(third.restore_from_checkpoint(&blob), Some(positions));
            let rest = decode_rest(&mut third, &COMPRESSED[positions.input_bytes_to_skip as usize..]);
            assert_eq!(&rest[..], &TEXT[written..]);
        }
        rounds += 1;
        assert!(rounds < 1000);
    }
    assert_eq!(written, TEXT.len());
}

#[test]
fn checkpoint_keeps_the_low_byte_of_the_bit_buffer() {
    // A block with the fixed codes: the literal 0x41, then the literal
    // 255, whose code is nine ones.  With a limit of one byte the second
    // literal is refused, and the checkpoint is the one that was taken
    // after the first: 13 bits were buffered then, the low 8 of them ones.
    let input = [0x73u8, 0xfc, 0x0f, 0x00];
    let mut inflater = Box::new(InflaterManaged::with_uncompressed_size(1));
    let mut output = [0u8; 4];
    let result = inflater.inflate(&input, &mut output);
    assert!(result.data_error);
    assert_eq!(inflater.checkpoint_input_bits, 11);
    assert_eq!(inflater.checkpoint_bit_buffer, 0xff);
    assert_eq!(inflater.checkpoint_bfinal_block_type, 0x81);
}
