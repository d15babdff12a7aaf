// Whole-archive behaviour: round trips, the concrete layout scenarios, and
// the error cases.

use zipper::codec::{GRP_SEP, SIG};
use zipper::compress::{build_archive, create_code_book, create_freq_table, str_to_u64};
use zipper::decompress::{extract_archive, get_file_blocks};
use zipper::read::BitReader;
use zipper::structures::{ArchiveError, FileData};

fn file(name: &str, contents: &[u8]) -> FileData {
    FileData { filename_rel: name.as_bytes().to_vec(), contents: contents.to_vec() }
}

fn round_trip(files: Vec<FileData>) {
    let originals: Vec<(Vec<u8>, Vec<u8>)> =
        files.iter().map(|f| (f.filename_rel.clone(), f.contents.clone())).collect();
    let bytes = build_archive(&files).unwrap();
    let restored = extract_archive(bytes).unwrap();
    assert_eq!(restored.len(), originals.len());
    for (got, (name, contents)) in restored.iter().zip(originals.iter()) {
        assert_eq!(&got.filename_rel, name);
        assert_eq!(&got.contents, contents);
    }
}

#[test]
fn round_trip_simple_files() {
    round_trip(vec![
        file("a.txt", b"aaabc"),
        file("dir/b.txt", b"hello huffman, hello tree"),
        file("z", b"zzzzzzzzzzzz"),
    ]);
}

#[test]
fn round_trip_empty_file() {
    round_trip(vec![file("empty", b""), file("after", b"not empty")]);
}

#[test]
fn round_trip_single_distinct_byte() {
    round_trip(vec![file("sevens", &[7u8; 50])]);
}

#[test]
fn round_trip_all_byte_values() {
    let mut contents = Vec::new();
    for round in 0..3u32 {
        for b in 0..=255u8 {
            contents.push(b);
            if round == 0 {
                contents.push(b);
            }
        }
    }
    round_trip(vec![file("all_bytes.bin", &contents)]);
}

#[test]
fn round_trip_no_files() {
    round_trip(vec![]);
}

#[test]
fn signature_survives_empty_archive() {
    // degenerate archive: just the signature and the group separator
    let bytes = build_archive(&vec![]).unwrap();
    assert_eq!(bytes, vec![0x7A, 0x69, 0x70, 0x70, 0x65, 0x72, 0, 0, GRP_SEP]);
    let mut reader = BitReader::new(bytes);
    assert_eq!(reader.read_u64().unwrap(), SIG);
    assert_eq!(str_to_u64("zipper"), SIG);
}

#[test]
fn code_book_matches_hand_computed_example() {
    // 5 bytes `a a a b c`: frequencies {a:3, b:1, c:1}
    let contents: Vec<u8> = b"aaabc".to_vec();
    let freq = create_freq_table(&contents);
    assert_eq!(freq[b'a' as usize], 3);
    assert_eq!(freq[b'b' as usize], 1);
    assert_eq!(freq[b'c' as usize], 1);
    assert_eq!(freq[b'd' as usize], 0);

    let book = create_code_book(b"x".to_vec(), &contents).unwrap();
    let tree = book.tree.as_ref().unwrap();
    // three leaves
    assert_eq!(tree.symbol_count, 3);
    // `a` gets the shortest code (1 bit); `b` and `c` get 2-bit codes
    assert_eq!(book.symbol_table[b'a' as usize].bit_len, 1);
    assert_eq!(book.symbol_table[b'b' as usize].bit_len, 2);
    assert_eq!(book.symbol_table[b'c' as usize].bit_len, 2);
    // absent byte values have no code at all
    assert_eq!(book.symbol_table[b'd' as usize].bit_len, 0);
    assert_eq!(book.symbol_table[0].bit_len, 0);
}

#[test]
fn header_arithmetic_two_files() {
    // file "a" holds `a a a b c`: tree 10*3-1 = 29 bits, payload 3+2+2 = 7 bits
    // file "b" holds four identical bytes: tree 9 bits, payload 4 one-bit codes
    let files = vec![file("a", b"aaabc"), file("b", &[7u8; 4])];
    let bytes = build_archive(&files).unwrap();

    // header region: 1 group separator + 2 * (record separator + name + NUL + 32)
    let header_size = 1 + (1 + 34) + (1 + 34);
    assert_eq!(header_size, 71);
    // regions: ceil(36 / 8) + 1 = 6 bytes, then ceil(13 / 8) + 1 = 3 bytes
    assert_eq!(bytes.len(), 8 + 71 + 6 + 3);

    let mut reader = BitReader::new(bytes);
    let blocks = get_file_blocks(&mut reader).unwrap();
    assert_eq!(blocks.len(), 2);
    assert_eq!(blocks[0].filename_rel, b"a".to_vec());
    assert_eq!(blocks[0].tree_bit_size, 29);
    assert_eq!(blocks[0].data_bit_size, 7);
    assert_eq!(blocks[0].og_byte_size, 5);
    assert_eq!(blocks[0].file_byte_offset, 71);
    assert_eq!(blocks[1].tree_bit_size, 9);
    assert_eq!(blocks[1].data_bit_size, 4);
    assert_eq!(blocks[1].og_byte_size, 4);
    // no gap, no overlap: the second region starts where the first ends
    assert_eq!(blocks[1].file_byte_offset, 71 + 6);
}

fn expect_error(r: Result<Vec<FileData>, ArchiveError>) -> ArchiveError {
    match r {
        Err(e) => e,
        Ok(_) => panic!("expected the extraction to fail"),
    }
}

#[test]
fn invalid_signature_is_reported() {
    let bytes = b"notazipr archive".to_vec();
    assert_eq!(expect_error(extract_archive(bytes)), ArchiveError::InvalidSignature);
}

#[test]
fn truncated_archive_is_reported() {
    assert_eq!(
        expect_error(extract_archive(vec![0x7A, 0x69])),
        ArchiveError::UnexpectedEndOfData
    );

    let files = vec![file("a", b"aaabc")];
    let mut bytes = build_archive(&files).unwrap();
    // cut the archive inside the first file's region
    bytes.truncate(bytes.len() - 2);
    assert_eq!(expect_error(extract_archive(bytes)), ArchiveError::UnexpectedEndOfData);
}

#[test]
fn over_deep_code_is_rejected() {
    // Fibonacci-like frequencies over 34 distinct byte values force an
    // optimal code deeper than the 32 bits a code word can hold.
    let mut contents = Vec::new();
    let mut a: u64 = 1;
    let mut b: u64 = 1;
    for sym in 0..34u8 {
        for _ in 0..a {
            contents.push(sym);
        }
        let next = a + b;
        a = b;
        b = next;
    }
    match create_code_book(b"deep".to_vec(), &contents) {
        Err(ArchiveError::CodeTooLong) => {},
        other => panic!("expected a code-too-long failure, got {:?}", other.map(|_| ())),
    }
    let files = vec![FileData { filename_rel: b"deep".to_vec(), contents }];
    assert_eq!(build_archive(&files), Err(ArchiveError::CodeTooLong));
}
