// Listing arithmetic: compressed sizes and the compression ratio.

use zipper::compress::build_archive;
use zipper::decompress::get_file_blocks;
use zipper::read::BitReader;
use zipper::structures::{get_size_of, ratio_percent, FileData};

#[test]
fn size_helpers_report_field_widths() {
    assert_eq!(get_size_of(0u64), 8);
    assert_eq!(zipper::compress::sizeof(0u64), 8);
    assert_eq!(get_size_of(0u8), 1);
}

#[test]
fn ratio_is_none_for_zero_byte_original() {
    assert_eq!(ratio_percent(0, 0), None);
    assert_eq!(ratio_percent(5, 0), None);
}

#[test]
fn ratio_at_most_hundred_only_when_not_grown() {
    assert_eq!(ratio_percent(5, 10), Some(50));
    assert_eq!(ratio_percent(10, 10), Some(100));
    assert_eq!(ratio_percent(11, 10), Some(110));
    assert_eq!(ratio_percent(0, 10), Some(0));
    // rounded up, so any growth shows as more than 100 percent
    assert_eq!(ratio_percent(101, 100), Some(101));
    assert!(ratio_percent(u64::MAX, 1).unwrap() > 100);
}

#[test]
fn listing_a_fresh_archive() {
    let files = vec![
        FileData { filename_rel: b"a".to_vec(), contents: vec![b'x'; 4096] },
        FileData { filename_rel: b"tiny".to_vec(), contents: b"abc".to_vec() },
        FileData { filename_rel: b"none".to_vec(), contents: Vec::new() },
    ];
    let bytes = build_archive(&files).unwrap();
    let mut reader = BitReader::new(bytes);
    let blocks = get_file_blocks(&mut reader).unwrap();
    assert_eq!(blocks.len(), 3);

    // 4096 identical bytes compress to well under their original size
    let total0 = blocks[0].total_byte_size();
    let r0 = ratio_percent(total0, blocks[0].og_byte_size).unwrap();
    assert!(r0 <= 100);
    assert!(total0 <= blocks[0].og_byte_size);

    // a three-byte file grows: tree overhead dominates
    let total1 = blocks[1].total_byte_size();
    let r1 = ratio_percent(total1, blocks[1].og_byte_size).unwrap();
    assert!(r1 > 100);
    assert!(total1 > blocks[1].og_byte_size);

    // a zero-byte original must not crash the ratio computation
    assert_eq!(ratio_percent(blocks[2].total_byte_size(), blocks[2].og_byte_size), None);
}
