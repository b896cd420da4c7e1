use datasketches::bit_pack::pack_bits_block;
use datasketches::bit_pack::unpack_bits_block;
use datasketches::bit_pack::BitPacker;
use datasketches::bit_pack::BitUnpacker;
use datasketches::bit_pack::BLOCK_WIDTH;

// inverse golden ratio (0.618.. of max uint64_t)
const IGOLDEN64: u64 = 0x9e37_79b9_7f4a_7c13;

#[test]
fn pack_unpack_bits() {
    let mut value = 0xaa55_aa55_aa55_aa55u64;
    for _m in 0..10000 {
        for bits in 1u8..=63 {
            let n = 8usize;
            let mask = (1u64 << bits) - 1;
            let mut input = vec![0u64; n];
            for item in &mut input {
                *item = value & mask;
                value = value.wrapping_add(IGOLDEN64);
            }

            let mut packer = BitPacker::new(vec![0u8; n * std::mem::size_of::<u64>()]);
            for i in 0..n {
                packer.pack_value(input[i], bits);
            }
            let bytes = packer.into_bytes();

            let mut output = vec![0u64; n];
            let mut unpacker = BitUnpacker::new(&bytes);
            for item in &mut output {
                *item = unpacker.unpack_value(bits);
            }

            for i in 0..n {
                assert_eq!(input[i], output[i]);
            }
        }
    }
}

#[test]
fn pack_unpack_blocks() {
    let mut value = 0xaa55_aa55_aa55_aa55u64;
    for _n in 0..10000 {
        for bits in 1u8..=63 {
            let mask = (1u64 << bits) - 1;
            let mut input = vec![0u64; BLOCK_WIDTH];
            for item in &mut input {
                *item = value & mask;
                value = value.wrapping_add(IGOLDEN64);
            }

            let mut bytes = vec![0u8; bits as usize];
            pack_bits_block(&input, &mut bytes, bits);

            let mut output = vec![0u64; BLOCK_WIDTH];
            unpack_bits_block(&mut output, &bytes, bits);

            for i in 0..BLOCK_WIDTH {
                assert_eq!(input[i], output[i]);
            }
        }
    }
}

#[test]
fn pack_bits_unpack_blocks() {
    let mut value = 0u64;
    for _m in 0..10000 {
        for bits in 1u8..=63 {
            let mask = (1u64 << bits) - 1;
            let mut input = vec![0u64; BLOCK_WIDTH];
            for item in &mut input {
                *item = value & mask;
                value = value.wrapping_add(IGOLDEN64);
            }

            let mut packer = BitPacker::new(vec![0u8; bits as usize]);
            for i in 0..BLOCK_WIDTH {
                packer.pack_value(input[i], bits);
            }
            let bytes = packer.into_bytes();

            let mut output = vec![0u64; BLOCK_WIDTH];
            unpack_bits_block(&mut output, &bytes, bits);

            for i in 0..BLOCK_WIDTH {
                assert_eq!(input[i], output[i]);
            }
        }
    }
}

#[test]
fn pack_blocks_unpack_bits() {
    let mut value = 111u64;
    for _m in 0..10000 {
        for bits in 1u8..=63 {
            let mask = (1u64 << bits) - 1;
            let mut input = vec![0u64; BLOCK_WIDTH];
            for item in &mut input {
                *item = value & mask;
                value = value.wrapping_add(IGOLDEN64);
            }

            let mut bytes = vec![0u8; bits as usize];
            pack_bits_block(&input, &mut bytes, bits);

            let mut output = vec![0u64; BLOCK_WIDTH];
            let mut unpacker = BitUnpacker::new(&bytes);
            for item in &mut output {
                *item = unpacker.unpack_value(bits);
            }

            for i in 0..BLOCK_WIDTH {
                assert_eq!(input[i], output[i]);
            }
        }
    }
}

#[test]
fn pack_unpack_bits_64() {
    let n = 8usize;
    let mut value = 0xaa55_aa55_aa55_aa55u64;
    let mut input = vec![0u64; n];
    for item in &mut input {
        *item = value;
        value = value.wrapping_add(IGOLDEN64);
    }

    let mut packer = BitPacker::new(vec![0u8; n * std::mem::size_of::<u64>()]);
    for &v in &input {
        packer.pack_value(v, 64);
    }
    assert_eq!(packer.byte_index(), 64);
    assert_eq!(packer.byte_bit_used(), 0);
    let bytes = packer.into_bytes();

    let mut output = vec![0u64; n];
    let mut unpacker = BitUnpacker::new(&bytes);
    for item in &mut output {
        *item = unpacker.unpack_value(64);
    }
    assert_eq!(unpacker.byte_index(), 64);
    assert_eq!(unpacker.byte_bit_used(), 0);
    assert_eq!(input, output);
}

#[test]
fn pack_unpack_bits_zero_width() {
    let bytes = vec![0xabu8; 8];
    let before = bytes.clone();

    let mut packer = BitPacker::new(bytes);
    packer.pack_value(0xdead_beef, 0);
    assert_eq!(packer.byte_index(), 0);
    assert_eq!(packer.byte_bit_used(), 0);
    let bytes = packer.into_bytes();
    assert_eq!(bytes, before);

    let mut unpacker = BitUnpacker::new(&bytes);
    let decoded = unpacker.unpack_value(0);
    assert_eq!(decoded, 0);
    assert_eq!(unpacker.byte_index(), 0);
    assert_eq!(unpacker.byte_bit_used(), 0);
}

#[test]
fn pack_unpack_bits_cursor_alignment() {
    let mut value = 0x0123_4567_89ab_cdefu64;
    for bits in 1u8..=63 {
        let mask = (1u64 << bits) - 1;
        let mut input = [0u64; 8];
        for item in &mut input {
            *item = value & mask;
            value = value.wrapping_add(IGOLDEN64);
        }

        let mut packer = BitPacker::new(vec![0u8; bits as usize]);
        for &v in &input {
            packer.pack_value(v, bits);
        }
        assert_eq!(packer.byte_index(), bits as usize);
        assert_eq!(packer.byte_bit_used(), 0);
        let bytes = packer.into_bytes();

        let mut output = [0u64; 8];
        let mut unpacker = BitUnpacker::new(&bytes);
        for item in &mut output {
            *item = unpacker.unpack_value(bits);
        }
        assert_eq!(unpacker.byte_index(), bits as usize);
        assert_eq!(unpacker.byte_bit_used(), 0);
        assert_eq!(input, output);
    }
}

#[test]
fn block_and_stream_packers_write_the_same_bytes() {
    let mut value = 0x0f0f_1234_5678_9abcu64;
    for bits in 1u8..=63 {
        let mask = (1u64 << bits) - 1;
        let mut input = vec![0u64; BLOCK_WIDTH];
        for item in &mut input {
            *item = value & mask;
            value = value.wrapping_add(IGOLDEN64);
        }
        let mut block = vec![0u8; bits as usize];
        pack_bits_block(&input, &mut block, bits);
        let mut packer = BitPacker::new(vec![0u8; bits as usize]);
        for &v in &input {
            packer.pack_value(v, bits);
        }
        assert_eq!(packer.byte_used(), bits as usize);
        assert_eq!(packer.into_bytes(), block);
    }
}

#[test]
fn pack_three_bit_values_exact_bytes() {
    let mut packer = BitPacker::new(vec![0u8; 3]);
    for v in [1u64, 2, 3, 4, 5, 6, 7, 0] {
        packer.pack_value(v, 3);
    }
    // 001 010 011 100 101 110 111 000
    assert_eq!(packer.into_bytes(), vec![0b0010_1001, 0b1100_1011, 0b1011_1000]);
}
