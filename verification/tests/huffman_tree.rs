use deflate64::huffman_tree::{pack, unpack};
use deflate64::{BitsBuffer, BlockType, HuffmanTree, InputBuffer, InternalErr};

fn decode_all(tree: &HuffmanTree, bytes: &[u8]) -> (Vec<u16>, Result<u16, InternalErr>) {
    let mut input = InputBuffer::new(BitsBuffer::new(), bytes);
    let mut symbols = Vec::new();
    loop {
        match tree.get_next_symbol(&mut input) {
            Ok(s) => symbols.push(s),
            Err(e) => return (symbols, Err(e)),
        }
    }
}

fn literal_lengths() -> Vec<u8> {
    let mut l = vec![8u8; 288];
    for e in l[144..256].iter_mut() {
        *e = 9;
    }
    for e in l[256..280].iter_mut() {
        *e = 7;
    }
    l
}

#[test]
fn static_literal_tree_decodes_the_fixed_code() {
    let tree = HuffmanTree::static_literal_length_tree();
    // 0: 00110000, 143: 10111111, 144: 110010000, 255: 111111111,
    // 256: 0000000, 279: 0010111, 280: 11000000, 287: 11000111
    let codes: [(u16, u32, u32); 8] = [
        (0, 0b00110000, 8),
        (143, 0b10111111, 8),
        (144, 0b110010000, 9),
        (255, 0b111111111, 9),
        (256, 0b0000000, 7),
        (279, 0b0010111, 7),
        (280, 0b11000000, 8),
        (287, 0b11000111, 8),
    ];
    let mut bits = Vec::new();
    for &(_, code, len) in codes.iter() {
        for i in (0..len).rev() {
            bits.push((code >> i) & 1);
        }
    }
    let mut bytes = vec![0u8; (bits.len() + 7) / 8];
    for (i, b) in bits.iter().enumerate() {
        bytes[i / 8] |= (*b as u8) << (i % 8);
    }
    let mut input = InputBuffer::new(BitsBuffer::new(), &bytes);
    for &(symbol, _, _) in codes.iter() {
        assert_eq!(tree.get_next_symbol(&mut input), Ok(symbol));
    }
}

#[test]
fn built_tree_is_the_static_tree() {
    let built = HuffmanTree::new(&literal_lengths()).unwrap();
    let fixed = HuffmanTree::static_literal_length_tree();
    let bytes: Vec<u8> = (0..200u32).map(|i| (i * 37 % 256) as u8).collect();
    assert_eq!(decode_all(&built, &bytes), decode_all(&fixed, &bytes));
    assert_eq!(built.code_lengths(), &literal_lengths()[..]);
}

#[test]
fn static_distance_tree_is_five_bits_each() {
    let tree = HuffmanTree::static_distance_tree();
    // 11111 then 00001 then 10000: symbols 31, 1, 16
    let bytes = [0b0001_1111 | 0b0000_0000, 0b0000_0110, 0b0000_0000];
    let mut input = InputBuffer::new(BitsBuffer::new(), &bytes);
    assert_eq!(tree.get_next_symbol(&mut input), Ok(31));
    assert_eq!(tree.get_next_symbol(&mut input), Ok(1));
    assert_eq!(tree.get_next_symbol(&mut input), Ok(16));
    assert_eq!(tree.code_lengths(), &[5u8; 32][..]);
}

#[test]
fn codes_of_up_to_16_bits() {
    // 1, 2, ..., 15, 16, 16 bits: a full code.
    let mut lengths = [0u8; 19];
    for i in 0..16 {
        lengths[i] = i as u8 + 1;
    }
    lengths[16] = 16;
    let tree = HuffmanTree::new(&lengths).unwrap();
    // symbol 16: sixteen ones
    assert_eq!(decode_all(&tree, &[0xff, 0xff]).0, vec![16]);
    // symbol 15: fifteen ones and a zero
    assert_eq!(decode_all(&tree, &[0xff, 0x7f]).0, vec![15]);
    // symbol 9: nine ones and a zero, then symbol 0 six times
    assert_eq!(decode_all(&tree, &[0xff, 0x01]).0, vec![9, 0, 0, 0, 0, 0, 0]);
    // symbol 0 eight times
    assert_eq!(decode_all(&tree, &[0x00]).0, vec![0; 8]);
    // symbol 1 is 10, symbol 2 is 110
    assert_eq!(decode_all(&tree, &[0b0110_1101, 0b0]).0[..3], [1, 2, 2]);
}

#[test]
fn many_long_codes_fit_the_pool() {
    // Every symbol of the largest alphabet with a code of 16 bits.
    let mut lengths = vec![16u8; 288];
    let tree = HuffmanTree::new(&lengths).unwrap();
    // symbol k has the code k
    assert_eq!(decode_all(&tree, &[0x00, 0x00]).0, vec![0]);
    assert_eq!(decode_all(&tree, &[0x00, 0x80]).0, vec![1]);
    assert_eq!(decode_all(&tree, &[0x80, 0xf8]).0, vec![287]);
    assert_eq!(decode_all(&tree, &[0x80, 0x04]), (vec![], Err(InternalErr::DataError)));
    for l in lengths[..31].iter_mut() {
        *l = 5;
    }
    for l in lengths[31..287].iter_mut() {
        *l = 13;
    }
    lengths[287] = 0;
    let tree = HuffmanTree::new(&lengths).unwrap();
    // 31 codes of 5 bits, then 256 of the 13-bit codes 11111 00000000 ...
    assert_eq!(decode_all(&tree, &[0b0001_1111, 0b0000_0000]).0[0], 31);
    assert_eq!(decode_all(&tree, &[0b0001_1111, 0b0001_0000]).0[0], 32);
    assert_eq!(decode_all(&tree, &[0b1111_1111, 0b0001_1111]).0[0], 286);
    // One more would be one too many.
    lengths[287] = 13;
    assert!(HuffmanTree::new(&lengths).is_err());
}

#[test]
fn oversubscribed_lengths_are_refused() {
    let mut lengths = [0u8; 19];
    lengths[0] = 1;
    lengths[1] = 1;
    lengths[2] = 1;
    assert!(matches!(HuffmanTree::new(&lengths), Err(InternalErr::DataError)));
    let mut lengths = [0u8; 19];
    lengths[3] = 1;
    lengths[0] = 2;
    lengths[1] = 2;
    lengths[2] = 9;
    assert!(HuffmanTree::new(&lengths).is_err());
    // one code too many among the long ones
    let mut lengths = vec![0u8; 288];
    lengths[0] = 1;
    for l in lengths[1..258].iter_mut() {
        *l = 9;
    }
    assert!(HuffmanTree::new(&lengths).is_err());
    lengths[257] = 0;
    assert!(HuffmanTree::new(&lengths).is_ok());
    let mut lengths = vec![0u8; 32];
    lengths[31] = 1;
    lengths[30] = 2;
    lengths[0] = 12;
    lengths[1] = 12;
    lengths[2] = 2;
    assert!(HuffmanTree::new(&lengths).is_err());
    lengths[2] = 3;
    assert!(HuffmanTree::new(&lengths).is_ok());
}

#[test]
fn incomplete_code_is_accepted() {
    let mut lengths = [0u8; 32];
    lengths[7] = 1;
    let tree = HuffmanTree::new(&lengths).unwrap();
    assert_eq!(decode_all(&tree, &[0b0000_0000]).0, vec![7; 8]);
    assert_eq!(decode_all(&tree, &[0b0000_0100]), (vec![7, 7], Err(InternalErr::DataError)));
    let empty = HuffmanTree::new(&[0u8; 19]).unwrap();
    assert_eq!(decode_all(&empty, &[0]), (vec![], Err(InternalErr::DataError)));
}

#[test]
fn needs_more_input_in_the_middle_of_a_code() {
    let tree = HuffmanTree::static_literal_length_tree();
    assert_eq!(decode_all(&tree, &[]), (vec![], Err(InternalErr::DataNeeded)));
    // Five bits of an eight-bit code.
    let mut input = InputBuffer::new(BitsBuffer::from_bits(0b01100, 5), &[]);
    assert_eq!(tree.get_next_symbol(&mut input), Err(InternalErr::DataNeeded));
    assert_eq!(input.available_bits(), 5);
    // With the rest of the code the symbol comes out: 00110 000 is 0.
    let mut input = InputBuffer::new(BitsBuffer::from_bits(0b01100, 5), &[0x00]);
    assert_eq!(tree.get_next_symbol(&mut input), Ok(0));
    assert_eq!(input.available_bits(), 5);
}

#[test]
fn new_in_place_replaces_the_code() {
    let mut tree = HuffmanTree::invalid();
    assert!(tree.new_in_place(&literal_lengths()).is_ok());
    assert_eq!(decode_all(&tree, &[0x00]).0, vec![256]);
    assert!(tree.new_in_place(&[5u8; 32]).is_ok());
    assert_eq!(decode_all(&tree, &[0x1f]).0, vec![31]);
    assert_eq!(tree.code_lengths(), &[5u8; 32][..]);
    assert!(tree.new_in_place(&[1u8; 32]).is_err());
}

#[test]
fn assume_input_variant_decodes_alike() {
    let tree = HuffmanTree::static_literal_length_tree();
    let bytes: Vec<u8> = (0..64u32).map(|i| (i * 91 % 256) as u8).collect();
    let mut slow = InputBuffer::new(BitsBuffer::new(), &bytes);
    let mut fast = InputBuffer::new(BitsBuffer::new(), &bytes);
    while fast.available_bytes() >= 2 {
        let a = tree.get_next_symbol_assume_input(&mut fast);
        let b = tree.get_next_symbol(&mut slow);
        assert_eq!(a, b);
        assert_eq!(fast.available_bits(), slow.available_bits());
        assert_eq!(fast.available_bytes(), slow.available_bytes());
    }
}

#[test]
fn bit_reverse_turns_the_low_bits_round() {
    assert_eq!(HuffmanTree::bit_reverse(0b1, 1), 0b1);
    assert_eq!(HuffmanTree::bit_reverse(0b110, 3), 0b011);
    assert_eq!(HuffmanTree::bit_reverse(0b1000_0000_0000_0000, 16), 1);
    assert_eq!(HuffmanTree::bit_reverse(0x1234, 16), 0x2c48);
    // What does not fit in the length stays where it is.
    assert_eq!(HuffmanTree::bit_reverse(0b1_0110, 4), 0b1_0110);
    assert_eq!(HuffmanTree::bit_reverse(0b10, 1), 0b10);
}

#[test]
fn leaf_entries_pack_symbol_and_length() {
    assert_eq!(pack(0, 1), 1024);
    assert_eq!(pack(287, 16), 287 + 16 * 1024);
    assert_eq!(unpack(pack(256, 7)), (256, 7));
    assert_eq!(unpack(0), (0, 0));
    assert_eq!(unpack(1023 + 9 * 1024), (1023, 9));
}

#[test]
fn block_types_by_number() {
    assert_eq!(BlockType::from_int(0), Some(BlockType::Uncompressed));
    assert_eq!(BlockType::from_int(1), Some(BlockType::Static));
    assert_eq!(BlockType::from_int(2), Some(BlockType::Dynamic));
    assert_eq!(BlockType::from_int(3), None);
    assert_eq!(BlockType::Dynamic.as_u8(), 2);
}

#[test]
fn static_literal_tree_holds_short_codes_in_the_table() {
    let tree = HuffmanTree::static_literal_length_tree();
    // 256 has the code 0000000: every index whose low 7 bits are 0.
    for i in [0usize, 128, 256, 384] {
        assert_eq!(unpack(tree.table[i]), (256, 7));
    }
    // 0 has the code 00110000, which is 12 with its first bit lowest.
    assert_eq!(unpack(tree.table[12]), (0, 8));
    assert_eq!(unpack(tree.table[12 + 256]), (0, 8));
    // The fixed code has no code longer than 9 bits: the pool is empty.
    assert!(tree.table.iter().all(|&e| e > 0));
    assert!(tree.nodes.iter().all(|&e| e == 0));
}

#[test]
fn long_codes_are_reached_through_the_pool() {
    // Lengths 1, 2, ..., 11, 11 and zeros: two codes of 11 bits.
    let mut lengths = vec![0u8; 288];
    for (i, l) in lengths.iter_mut().enumerate().take(11) {
        *l = (i + 1) as u8;
    }
    lengths[11] = 11;
    let tree = HuffmanTree::new(&lengths).unwrap();
    // The code of the symbol 10 is ten ones and a zero, that of 11 eleven
    // ones: both go through the table at 511 and through two pairs.
    let first = tree.table[511];
    assert!(first < 0 && first % 2 == 0);
    let second = tree.nodes[(-first) as usize + 1];
    assert!(second < 0 && second % 2 == 0 && second != first);
    assert_eq!(unpack(tree.nodes[(-second) as usize]), (10, 11));
    assert_eq!(unpack(tree.nodes[(-second) as usize + 1]), (11, 11));
    // The code of 9 is nine ones and a zero: one step from the table.
    assert_eq!(unpack(tree.nodes[(-first) as usize]), (9, 10));
    // Nothing else is in the pool.
    let used = tree.nodes.iter().filter(|&&e| e != 0).count();
    assert_eq!(used, 4);
}

#[test]
fn new_in_place_leaves_nothing_of_the_tree_before() {
    let mut lengths = vec![0u8; 288];
    for (i, l) in lengths.iter_mut().enumerate().take(11) {
        *l = (i + 1) as u8;
    }
    lengths[11] = 11;
    let mut tree = HuffmanTree::new(&lengths).unwrap();
    let fixed = HuffmanTree::static_distance_tree();
    assert_eq!(tree.new_in_place(&[5u8; 32]), Ok(()));
    assert_eq!(tree.code_lengths_length, fixed.code_lengths_length);
    assert_eq!(tree.table, fixed.table);
    assert_eq!(tree.nodes, fixed.nodes);
    assert_eq!(tree.code_length_array, fixed.code_length_array);
}

#[test]
fn fast_decoding_with_one_byte_left() {
    // Eight bits in the bit buffer and one byte behind them: 16 bits.
    let tree = HuffmanTree::static_literal_length_tree();
    let bytes = [0x00u8];
    let mut input = InputBuffer::new(BitsBuffer::from_bits(12, 8), &bytes);
    assert_eq!(tree.get_next_symbol_assume_input(&mut input), Ok(0));
    assert_eq!(input.available_bits(), 8);
    assert_eq!(input.available_bytes(), 0);
}
