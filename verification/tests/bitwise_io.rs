// Bit-level behaviour: the bit helpers, the writer and the reader.

use zipper::bitwise::{get_bit, set_bit};
use zipper::read::BitReader;
use zipper::structures::ArchiveError;
use zipper::write::BitWriter;

#[test]
fn bitwise_test_bitwise() {
    // little endian left to right ordering
    let mut num = 0b01011;
    let bits = [1, 1, 0, 1, 0];

    for (i, bit) in bits.iter().enumerate() {
        assert_eq!(get_bit(num, i as u32), *bit);
    }

    num = set_bit(num, 2) as u32;
    assert_eq!(num, 0b01111);
}

#[test]
fn bitwise_io_test_bitwise() {
    // little endian left to right ordering
    let mut num = 0b01011;
    let bits = [1, 1, 0, 1, 0];

    for (i, bit) in bits.iter().enumerate() {
        assert_eq!(get_bit(num, i as u32), *bit);
    }

    num = set_bit(num, 2) as u32;
    assert_eq!(num, 0b01111);
}

#[test]
fn writer_packs_bits_lsb_first() {
    let mut w = BitWriter::new();
    // 0b01011 written bit by bit, least significant first
    w.write_bit(1);
    w.write_bit(1);
    w.write_bit(0);
    w.write_bit(1);
    w.write_bit(0);
    let bytes = w.into_bytes();
    assert_eq!(bytes, vec![0b01011u8]);
}

#[test]
fn writer_reader_round_trip_u64_and_bits() {
    let mut w = BitWriter::new();
    w.write_u64(0xDEAD_BEEF_0123_4567);
    w.write_bits(0b101, 3);
    w.write_byte(0xA5);
    w.write_symbol(&zipper::structures::SymbolCode {
        plain_symbol: 0,
        encoded_symbol: 0b10,
        bit_len: 2,
    });
    let bytes = w.into_bytes();

    let mut r = BitReader::new(bytes);
    assert_eq!(r.read_u64().unwrap(), 0xDEAD_BEEF_0123_4567);
    assert_eq!(r.read_bits(3).unwrap(), 0b101);
    // the byte was written unaligned, so it comes back via unaligned bits
    assert_eq!(r.read_bits(8).unwrap(), 0xA5);
    assert_eq!(r.read_bit().unwrap(), 0);
    assert_eq!(r.read_bit().unwrap(), 1);
    assert_eq!(r.read_len(), 64 + 3 + 8 + 2);
}

#[test]
fn align_to_byte_is_idempotent() {
    let mut once = BitWriter::new();
    once.write_bit(1);
    once.align_to_byte();
    let mut twice = BitWriter::new();
    twice.write_bit(1);
    twice.align_to_byte();
    twice.align_to_byte();
    assert_eq!(once.into_bytes(), twice.into_bytes());

    // already aligned: aligning adds nothing
    let mut aligned = BitWriter::new();
    aligned.write_byte(0xFF);
    aligned.align_to_byte();
    assert_eq!(aligned.into_bytes(), vec![0xFFu8]);
}

#[test]
fn reader_seek_and_eof() {
    let mut r = BitReader::new(vec![1, 2, 3, 4]);
    assert!(!r.eof());
    r.seek(3);
    assert_eq!(r.read_len(), 0);
    assert_eq!(r.read_byte().unwrap(), 4);
    assert_eq!(r.read_len(), 8);
    assert!(r.eof());
    assert_eq!(r.read_bit(), Err(ArchiveError::UnexpectedEndOfData));
    r.seek(0);
    assert_eq!(r.peek_byte().unwrap(), 1);
    assert_eq!(r.read_byte().unwrap(), 1);
}

#[test]
fn block_header_round_trip() {
    let block = zipper::structures::FileBlock {
        filename_rel: b"dir/file.txt".to_vec(),
        file_byte_offset: 1234,
        og_byte_size: 777,
        tree_bit_size: 29,
        data_bit_size: 7,
    };
    assert_eq!(block.get_header_size(), 12 + 33);
    let mut w = BitWriter::new();
    w.write_block(&block);
    let mut r = BitReader::new(w.into_bytes());
    let back = r.read_block().unwrap();
    assert_eq!(back.filename_rel, b"dir/file.txt".to_vec());
    assert_eq!(back.file_byte_offset, 1234);
    assert_eq!(back.og_byte_size, 777);
    assert_eq!(back.tree_bit_size, 29);
    assert_eq!(back.data_bit_size, 7);
}

#[test]
fn tree_serialization_round_trip() {
    // the `a a a b c` tree: a single leaf for `a`, and a subtree for `b`, `c`
    let b = Box::new(zipper::tree::Tree::leaf(b'b', 1));
    let c = Box::new(zipper::tree::Tree::leaf(b'c', 1));
    let bc = Box::new(zipper::tree::Tree::internal(b, c, 0, 2));
    let a = Box::new(zipper::tree::Tree::leaf(b'a', 3));
    let root = zipper::tree::Tree::internal(bc, a, 0, 5);
    assert!(!root.is_leaf());
    assert_eq!(root.weight(), 5);

    let mut w = BitWriter::new();
    zipper::compress::write_tree(&mut w, &root);
    let mut r = BitReader::new(w.into_bytes());
    let back = zipper::decompress::read_tree(&mut r).unwrap();
    // 10 * 3 - 1 bits of tree image were consumed
    assert_eq!(r.read_len(), 29);
    // walking the rebuilt tree decodes one symbol per code
    let mut w2 = BitWriter::new();
    w2.write_bit(1); // right: a
    w2.write_bit(0);
    w2.write_bit(0); // left, left: b
    w2.write_bit(0);
    w2.write_bit(1); // left, right: c
    let mut r2 = BitReader::new(w2.into_bytes());
    assert_eq!(zipper::decompress::decompress_symbol(&mut r2, &back).unwrap(), b'a');
    assert_eq!(zipper::decompress::decompress_symbol(&mut r2, &back).unwrap(), b'b');
    assert_eq!(zipper::decompress::decompress_symbol(&mut r2, &back).unwrap(), b'c');
}
