//! The archive layout, as specification: byte frequencies, the Huffman
//! payload encoding, the header region, per-file regions and their offsets,
//! and what it means for a byte string to be the archive image of a set of
//! files.

use crate::bitwise::{align_bits, bits_of_bytes, byte_bits, pack_bits};
use crate::read::MAX_DATA_BYTES;
use crate::structures::{FileBlockView, FileDataView};
use crate::tree::Tree;
use vstd::bytes::{spec_u64_from_le_bytes, spec_u64_to_le_bytes};
use vstd::multiset::Multiset;
use vstd::prelude::*;

verus! {

broadcast use vstd::multiset::group_multiset_axioms;

/// Number of distinct byte values; the size of every frequency and symbol
/// table.
pub const TABLE_SIZE: usize = 256;

/// Marker byte before each file's header record.
pub const REC_SEP: u8 = 0x1E;

/// Marker byte ending the header region.
pub const GRP_SEP: u8 = 0x1D;

/// The archive format signature: the bytes of "zipper", zero-padded, as a
/// little-endian 64-bit integer.
pub const SIG: u64 = 0x7265_7070_697A;

/// How many times byte value `s` occurs in `content`.
pub open spec fn count_byte(content: Seq<u8>, s: u8) -> nat
    decreases content.len(),
{
    if content.len() == 0 {
        0
    } else {
        (if content[0] == s {
            1nat
        } else {
            0nat
        }) + count_byte(content.skip(1), s)
    }
}

/// Appending one byte raises its count by one and no other.
pub proof fn lemma_count_byte_push(content: Seq<u8>, x: u8, s: u8)
    ensures
        count_byte(content.push(x), s) == count_byte(content, s) + (if x == s {
            1nat
        } else {
            0nat
        }),
    decreases content.len(),
{
    assert(content.push(x)[0] == if content.len() == 0 {
        x
    } else {
        content[0]
    });
    if content.len() == 0 {
        assert(content.push(x).skip(1) =~= Seq::<u8>::empty());
        assert(count_byte(content.push(x).skip(1), s) == 0);
        assert(count_byte(content, s) == 0);
    } else {
        assert(content.push(x).skip(1) =~= content.skip(1).push(x));
        lemma_count_byte_push(content.skip(1), x, s);
        assert(count_byte(content.push(x), s) == (if content[0] == s {
            1nat
        } else {
            0nat
        }) + count_byte(content.skip(1).push(x), s));
    }
}

/// Every byte of the content has a positive count.
pub proof fn lemma_count_byte_pos(content: Seq<u8>, i: int)
    requires
        0 <= i < content.len(),
    ensures
        count_byte(content, content[i]) >= 1,
    decreases i,
{
    if i > 0 {
        lemma_count_byte_pos(content.skip(1), i - 1);
    }
}

/// The frequency table of a content: entry `s` counts byte value `s`.
pub open spec fn freq_of(content: Seq<u8>) -> Seq<u64> {
    Seq::new(256, |s: int| count_byte(content, s as u8) as u64)
}

/// One step of the total count: pushing a byte raises the sum of the
/// counts over any range covering its value by one.
proof fn lemma_sum_count_push(content: Seq<u8>, x: u8, n: int)
    requires
        0 <= n <= 256,
        content.len() < u64::MAX,
    ensures
        sum_freq_upto(freq_of(content.push(x)), n) == sum_freq_upto(freq_of(content), n) + if (
        x as int) < n {
            1int
        } else {
            0int
        },
    decreases n,
{
    if n > 0 {
        lemma_sum_count_push(content, x, n - 1);
        let s = (n - 1) as u8;
        lemma_count_byte_push(content, x, s);
        lemma_count_byte_le_len(content, s);
        lemma_count_byte_le_len(content.push(x), s);
    }
}

/// A byte value occurs at most as often as the content is long.
pub proof fn lemma_count_byte_le_len(content: Seq<u8>, s: u8)
    ensures
        count_byte(content, s) <= content.len(),
    decreases content.len(),
{
    if content.len() > 0 {
        lemma_count_byte_le_len(content.skip(1), s);
    }
}

/// The counts of all byte values total the content's length.
pub proof fn lemma_sum_counts(content: Seq<u8>)
    requires
        content.len() < u64::MAX,
    ensures
        sum_freq_upto(freq_of(content), 256) == content.len(),
    decreases content.len(),
{
    if content.len() == 0 {
        lemma_sum_counts_empty(content, 256);
    } else {
        let prefix = content.drop_last();
        let x = content.last();
        assert(content =~= prefix.push(x));
        lemma_sum_counts(prefix);
        lemma_sum_count_push(prefix, x, 256);
    }
}

proof fn lemma_sum_counts_empty(content: Seq<u8>, n: int)
    requires
        content.len() == 0,
        0 <= n <= 256,
    ensures
        sum_freq_upto(freq_of(content), n) == 0,
    decreases n,
{
    if n > 0 {
        lemma_sum_counts_empty(content, n - 1);
        assert(count_byte(content, (n - 1) as u8) == 0);
    }
}

/// The multiset of byte values below `n` with a nonzero entry in a
/// frequency table, each once.
pub open spec fn support_upto(freq: Seq<u64>, n: int) -> Multiset<u8>
    decreases n,
{
    if n <= 0 {
        Multiset::empty()
    } else {
        support_upto(freq, n - 1).add(
            if freq[n - 1] > 0 {
                Multiset::singleton((n - 1) as u8)
            } else {
                Multiset::empty()
            },
        )
    }
}

/// The byte values with nonzero frequency, each once.
pub open spec fn support(freq: Seq<u64>) -> Multiset<u8> {
    support_upto(freq, 256)
}

/// What the support of a frequency table contains: each byte value below
/// `n` once when its entry is nonzero, and nothing else.
pub proof fn lemma_support_upto_count(freq: Seq<u64>, n: int, s: u8)
    requires
        0 <= n <= 256,
    ensures
        support_upto(freq, n).count(s) == if s < n && freq[s as int] > 0 {
            1nat
        } else {
            0nat
        },
    decreases n,
{
    if n > 0 {
        lemma_support_upto_count(freq, n - 1, s);
    }
}

/// Total of the first `n` entries of a frequency table.
pub open spec fn sum_freq_upto(freq: Seq<u64>, n: int) -> int
    decreases n,
{
    if n <= 0 {
        0
    } else {
        sum_freq_upto(freq, n - 1) + freq[n - 1]
    }
}

/// Partial frequency totals never exceed the full total.
pub proof fn lemma_sum_freq_mono(freq: Seq<u64>, m: int, n: int)
    requires
        0 <= m <= n,
    ensures
        sum_freq_upto(freq, m) <= sum_freq_upto(freq, n),
        0 <= sum_freq_upto(freq, m),
    decreases n,
{
    if m < n {
        lemma_sum_freq_mono(freq, m, n - 1);
    } else if n > 0 {
        lemma_sum_freq_mono(freq, 0, n - 1);
    }
}

/// The Huffman payload of a content under a tree: each byte's code, in
/// content order.
pub open spec fn encode_content(content: Seq<u8>, t: Tree) -> Seq<bool>
    decreases content.len(),
{
    if content.len() == 0 {
        Seq::empty()
    } else {
        t.tcode(content[0]) + encode_content(content.skip(1), t)
    }
}

/// Appending one byte appends its code to the payload.
pub proof fn lemma_encode_content_push(content: Seq<u8>, x: u8, t: Tree)
    ensures
        encode_content(content.push(x), t) == encode_content(content, t) + t.tcode(x),
    decreases content.len(),
{
    if content.len() == 0 {
        assert(content.push(x)[0] == x);
        assert(content.push(x).skip(1) =~= Seq::<u8>::empty());
        assert(encode_content(content.push(x), t) == t.tcode(x) + encode_content(
            Seq::<u8>::empty(),
            t,
        ));
        assert(encode_content(content.push(x), t) =~= encode_content(content, t) + t.tcode(x));
    } else {
        assert(content.push(x)[0] == content[0]);
        assert(content.push(x).skip(1) =~= content.skip(1).push(x));
        lemma_encode_content_push(content.skip(1), x, t);
        assert(encode_content(content.push(x), t) == t.tcode(content[0]) + encode_content(
            content.skip(1).push(x),
            t,
        ));
        assert(encode_content(content, t) == t.tcode(content[0]) + encode_content(
            content.skip(1),
            t,
        ));
        assert(encode_content(content.push(x), t) =~= encode_content(content, t) + t.tcode(x));
    }
}

/// The payload bit length over the first `n` byte values, weighted by
/// frequency: the sum of `freq[s]` times the code length of `s`.
pub open spec fn payload_bits_upto(content: Seq<u8>, t: Tree, n: int) -> int
    decreases n,
{
    if n <= 0 {
        0
    } else {
        payload_bits_upto(content, t, n - 1) + count_byte(content, (n - 1) as u8) * t.tcode(
            (n - 1) as u8,
        ).len()
    }
}

/// One step of the payload accounting: pushing a byte adds its code length
/// to the weighted sum over any range that covers its value.
proof fn lemma_payload_bits_upto_push(content: Seq<u8>, x: u8, t: Tree, n: int)
    requires
        0 <= n <= 256,
    ensures
        payload_bits_upto(content.push(x), t, n) == payload_bits_upto(content, t, n) + if (
        x as int) < n {
            t.tcode(x).len() as int
        } else {
            0
        },
    decreases n,
{
    if n > 0 {
        lemma_payload_bits_upto_push(content, x, t, n - 1);
        let s = (n - 1) as u8;
        lemma_count_byte_push(content, x, s);
        assert(count_byte(content.push(x), s) * t.tcode(s).len() == count_byte(content, s)
            * t.tcode(s).len() + (if x == s {
            t.tcode(s).len() as int
        } else {
            0
        })) by (nonlinear_arith)
            requires
                count_byte(content.push(x), s) == count_byte(content, s) + (if x == s {
                    1nat
                } else {
                    0nat
                }),
        ;
    }
}

/// The accounting identity behind the size fields: the payload of a
/// content is exactly as long as the frequency-weighted sum of its code
/// lengths.
pub proof fn lemma_payload_bits(content: Seq<u8>, t: Tree)
    ensures
        encode_content(content, t).len() == payload_bits_upto(content, t, 256),
    decreases content.len(),
{
    if content.len() == 0 {
        lemma_payload_bits_empty(content, t, 256);
    } else {
        let prefix = content.drop_last();
        let x = content.last();
        assert(content =~= prefix.push(x));
        lemma_payload_bits(prefix, t);
        lemma_encode_content_push(prefix, x, t);
        lemma_payload_bits_upto_push(prefix, x, t, 256);
    }
}

proof fn lemma_payload_bits_empty(content: Seq<u8>, t: Tree, n: int)
    requires
        content.len() == 0,
    ensures
        payload_bits_upto(content, t, n) == 0,
    decreases n,
{
    if n > 0 {
        lemma_payload_bits_empty(content, t, n - 1);
        assert(count_byte(content, (n - 1) as u8) == 0);
    }
}

/// The signature, as the eight bytes that begin every archive.
pub open spec fn sig_bytes() -> Seq<u8> {
    spec_u64_to_le_bytes(SIG)
}

/// The header records of the first `i` blocks, each preceded by a record
/// separator.
pub open spec fn headers_prefix(blocks: Seq<FileBlockView>, i: int) -> Seq<u8>
    decreases i,
{
    if i <= 0 {
        Seq::empty()
    } else {
        headers_prefix(blocks, i - 1) + seq![REC_SEP] + blocks[i - 1].header_bytes()
    }
}

/// The whole header region: every record, then the closing group
/// separator.
pub open spec fn headers_bytes(blocks: Seq<FileBlockView>) -> Seq<u8> {
    headers_prefix(blocks, blocks.len() as int) + seq![GRP_SEP]
}

/// The header records can also be peeled off the front.
pub proof fn lemma_headers_prefix_front(blocks: Seq<FileBlockView>, i: int)
    requires
        1 <= i <= blocks.len(),
    ensures
        headers_prefix(blocks, i) == seq![REC_SEP] + blocks[0].header_bytes() + headers_prefix(
            blocks.skip(1),
            i - 1,
        ),
    decreases i,
{
    if i == 1 {
        assert(headers_prefix(blocks, 0) =~= Seq::<u8>::empty());
        assert(headers_prefix(blocks.skip(1), 0) =~= Seq::<u8>::empty());
        assert(headers_prefix(blocks, 1) =~= seq![REC_SEP] + blocks[0].header_bytes()
            + headers_prefix(blocks.skip(1), 0));
    } else {
        lemma_headers_prefix_front(blocks, i - 1);
        assert(blocks.skip(1)[i - 2] == blocks[i - 1]);
        assert(headers_prefix(blocks, i) =~= seq![REC_SEP] + blocks[0].header_bytes()
            + headers_prefix(blocks.skip(1), i - 1));
    }
}

/// Size in bytes of the header region over the first `i` blocks, the
/// closing group separator included: one separator plus one header per
/// block, plus the final group separator.
pub open spec fn header_region_size(blocks: Seq<FileBlockView>, i: int) -> int
    decreases i,
{
    if i <= 0 {
        1
    } else {
        header_region_size(blocks, i - 1) + 1 + blocks[i - 1].spec_header_size()
    }
}

/// The header region is exactly as long as its size formula says.
pub proof fn lemma_headers_bytes_len(blocks: Seq<FileBlockView>, i: int)
    requires
        0 <= i <= blocks.len(),
    ensures
        headers_prefix(blocks, i).len() + 1 == header_region_size(blocks, i),
    decreases i,
{
    if i > 0 {
        lemma_headers_bytes_len(blocks, i - 1);
        crate::structures::lemma_header_bytes_len(blocks[i - 1]);
    }
}

/// Size in bytes of one file's compressed region: its tree and payload
/// bits rounded up to whole bytes, plus one trailing padding byte.
pub open spec fn region_len(b: FileBlockView) -> int {
    1 + (b.tree_bit_size + b.data_bit_size + 7) / 8
}

/// The payload byte offset of the file at index `i`: the header region,
/// then every earlier file's region.
pub open spec fn offset_of(blocks: Seq<FileBlockView>, i: int) -> int
    decreases i,
{
    if i <= 0 {
        header_region_size(blocks, blocks.len() as int)
    } else {
        offset_of(blocks, i - 1) + region_len(blocks[i - 1])
    }
}

/// Every block's recorded offset is the one the layout formula assigns.
pub open spec fn offsets_ok(blocks: Seq<FileBlockView>) -> bool {
    forall|i: int| 0 <= i < blocks.len() ==> blocks[i].file_byte_offset == offset_of(blocks, i)
}

/// The bits of one file's compressed region, which always starts at a
/// byte boundary: the serialized tree and the payload, padded with zero
/// bits to the next byte boundary, then one zero padding byte.  A file
/// with no contents stores no tree and no payload, only the padding byte.
pub open spec fn file_region_bits(contents: Seq<u8>, t: Option<Tree>) -> Seq<bool> {
    match t {
        Option::None => byte_bits(0),
        Option::Some(t) => align_bits(t.tree_bits() + encode_content(contents, t)) + byte_bits(0),
    }
}

/// The regions of the first `i` files, in order.
pub open spec fn regions_bits(
    files: Seq<FileDataView>,
    trees: Seq<Option<Tree>>,
    i: int,
) -> Seq<bool>
    decreases i,
{
    if i <= 0 {
        Seq::empty()
    } else {
        regions_bits(files, trees, i - 1) + file_region_bits(files[i - 1].contents, trees[i - 1])
    }
}

/// The constraints tying one file, its block and its tree together: the
/// block carries the file's name and sizes, and the tree (absent exactly
/// for an empty file) has one leaf per distinct byte of the contents.
pub open spec fn file_entry_ok(f: FileDataView, b: FileBlockView, t: Option<Tree>) -> bool {
    &&& b.wf()
    &&& b.filename_rel == f.filename_rel
    &&& b.og_byte_size == f.contents.len()
    &&& match t {
        Option::None => {
            &&& f.contents.len() == 0
            &&& b.tree_bit_size == 0
            &&& b.data_bit_size == 0
        },
        Option::Some(t) => {
            &&& f.contents.len() > 0
            &&& t.distinct_leaves()
            &&& t.leaves().len() <= 256
            &&& forall|i: int|
                0 <= i < f.contents.len() ==> t.leaves().count(#[trigger] f.contents[i]) >= 1
            &&& b.tree_bit_size == t.tree_bits().len()
            &&& b.data_bit_size == encode_content(f.contents, t).len()
        },
    }
}

/// `bytes` is the archive image of `files` as witnessed by the given
/// blocks and trees: a signature, the header region with the layout's
/// offsets, and each file's region in order.
pub open spec fn archive_image(
    bytes: Seq<u8>,
    files: Seq<FileDataView>,
    blocks: Seq<FileBlockView>,
    trees: Seq<Option<Tree>>,
) -> bool {
    &&& blocks.len() == files.len()
    &&& trees.len() == files.len()
    &&& forall|i: int| 0 <= i < files.len() ==> file_entry_ok(files[i], blocks[i], trees[i])
    &&& offsets_ok(blocks)
    &&& bytes == sig_bytes() + headers_bytes(blocks) + pack_bits(
        regions_bits(files, trees, files.len() as int),
    )
    &&& bytes.len() <= MAX_DATA_BYTES
}

/// `bytes` is an archive image of `files`.
pub open spec fn represents(bytes: Seq<u8>, files: Seq<FileDataView>) -> bool {
    exists|blocks: Seq<FileBlockView>, trees: Seq<Option<Tree>>|
        archive_image(bytes, files, blocks, trees)
}

/// A support covers at most one byte value per table entry.
pub proof fn lemma_support_upto_len(freq: Seq<u64>, n: int)
    requires
        0 <= n,
    ensures
        support_upto(freq, n).len() <= n,
    decreases n,
{
    if n > 0 {
        lemma_support_upto_len(freq, n - 1);
    }
}

/// With every code at most 32 bits, a payload takes at most 32 bits per
/// content byte.
pub proof fn lemma_encode_len_bound(content: Seq<u8>, t: Tree)
    requires
        t.depth() <= 32,
        forall|i: int| 0 <= i < content.len() ==> t.leaves().count(#[trigger] content[i]) >= 1,
    ensures
        encode_content(content, t).len() <= 32 * content.len(),
    decreases content.len(),
{
    if content.len() > 0 {
        crate::tree::lemma_path_to_len(t, content[0]);
        assert(forall|i: int|
            0 <= i < content.skip(1).len() ==> t.leaves().count(
                #[trigger] content.skip(1)[i],
            ) >= 1);
        lemma_encode_len_bound(content.skip(1), t);
    }
}

/// Total length in bytes of the first `i` files' contents.
pub open spec fn total_contents(files: Seq<FileDataView>, i: int) -> int
    decreases i,
{
    if i <= 0 {
        0
    } else {
        total_contents(files, i - 1) + files[i - 1].contents.len()
    }
}

/// Partial content totals are monotone and never negative.
pub proof fn lemma_total_contents_mono(files: Seq<FileDataView>, m: int, n: int)
    requires
        0 <= m <= n,
    ensures
        total_contents(files, m) <= total_contents(files, n),
        0 <= total_contents(files, m),
    decreases n,
{
    if m < n {
        lemma_total_contents_mono(files, m, n - 1);
    } else if n > 0 {
        lemma_total_contents_mono(files, 0, n - 1);
    }
}

/// The machine limits the archive builder accepts: how many files, how
/// long a path, and how much content in total an archive may hold, chosen
/// so that every offset computation fits comfortably in a `u64`.
pub open spec fn files_fit(files: Seq<FileDataView>) -> bool {
    &&& files.len() <= 0x1_0000
    &&& forall|i: int|
        0 <= i < files.len() ==> (#[trigger] files[i]).filename_rel.len() <= 0x1_0000
    &&& forall|i: int, j: int|
        0 <= i < files.len() && 0 <= j < files[i].filename_rel.len() ==> (
        #[trigger] files[i].filename_rel[j]) != 0
    &&& total_contents(files, files.len() as int) <= 0x4_0000_0000_0000
}

/// Header-region sizes grow by at most one separator plus one header per
/// block, and are at least one byte.
pub proof fn lemma_header_region_bound(blocks: Seq<FileBlockView>, i: int)
    requires
        0 <= i <= blocks.len(),
        forall|j: int| 0 <= j < blocks.len() ==> (#[trigger] blocks[j]).filename_rel.len() <= 0x1_0000,
    ensures
        1 <= header_region_size(blocks, i) <= 1 + i * 0x1_0022,
    decreases i,
{
    if i > 0 {
        lemma_header_region_bound(blocks, i - 1);
    }
}

/// Offsets are monotone in the file index and bounded by the layout's
/// totals: the header region plus four bytes per content byte and a fixed
/// overhead per file.
pub proof fn lemma_offset_bound(
    blocks: Seq<FileBlockView>,
    files: Seq<FileDataView>,
    i: int,
)
    requires
        blocks.len() == files.len(),
        0 <= i <= blocks.len(),
        forall|j: int| 0 <= j < blocks.len() ==> (#[trigger] blocks[j]).filename_rel.len() <= 0x1_0000,
        forall|j: int|
            0 <= j < blocks.len() ==> region_len(#[trigger] blocks[j]) <= 4 * files[j].contents.len()
                + 322,
    ensures
        header_region_size(blocks, blocks.len() as int) <= offset_of(blocks, i),
        offset_of(blocks, i) <= header_region_size(blocks, blocks.len() as int) + 4
            * total_contents(files, i) + 322 * i,
    decreases i,
{
    if i > 0 {
        lemma_offset_bound(blocks, files, i - 1);
        lemma_total_contents_mono(files, i - 1, i);
        assert(region_len(blocks[i - 1]) >= 1);
    }
}

/// Header-region sizes are monotone in the number of blocks covered.
pub proof fn lemma_header_region_mono(blocks: Seq<FileBlockView>, m: int, n: int)
    requires
        0 <= m <= n <= blocks.len(),
    ensures
        header_region_size(blocks, m) <= header_region_size(blocks, n),
    decreases n,
{
    if m < n {
        lemma_header_region_mono(blocks, m, n - 1);
    }
}

/// Offsets are monotone in the file index.
pub proof fn lemma_offset_mono(blocks: Seq<FileBlockView>, m: int, n: int)
    requires
        0 <= m <= n,
    ensures
        offset_of(blocks, m) <= offset_of(blocks, n),
    decreases n,
{
    if m < n {
        lemma_offset_mono(blocks, m, n - 1);
        assert(region_len(blocks[n - 1]) >= 1);
    }
}

/// The offset formula reads only names and sizes, never the offsets
/// themselves, so blocks that differ only in their offsets lay out alike.
pub proof fn lemma_offset_congruence(a: Seq<FileBlockView>, b: Seq<FileBlockView>, i: int)
    requires
        a.len() == b.len(),
        0 <= i <= a.len(),
        forall|j: int|
            0 <= j < a.len() ==> ({
                &&& (#[trigger] a[j]).filename_rel == b[j].filename_rel
                &&& a[j].tree_bit_size == b[j].tree_bit_size
                &&& a[j].data_bit_size == b[j].data_bit_size
            }),
    ensures
        offset_of(a, i) == offset_of(b, i),
    decreases i,
{
    lemma_header_region_congruence(a, b, a.len() as int);
    if i > 0 {
        lemma_offset_congruence(a, b, i - 1);
        assert(region_len(a[i - 1]) == region_len(b[i - 1]));
    }
}

proof fn lemma_header_region_congruence(a: Seq<FileBlockView>, b: Seq<FileBlockView>, i: int)
    requires
        a.len() == b.len(),
        0 <= i <= a.len(),
        forall|j: int| 0 <= j < a.len() ==> (#[trigger] a[j]).filename_rel == b[j].filename_rel,
    ensures
        header_region_size(a, i) == header_region_size(b, i),
    decreases i,
{
    if i > 0 {
        lemma_header_region_congruence(a, b, i - 1);
    }
}

/// A content is empty exactly when no byte value has a nonzero count.
pub proof fn lemma_support_of_contents(contents: Seq<u8>)
    requires
        contents.len() < u64::MAX,
    ensures
        contents.len() == 0 ==> support(freq_of(contents)).len() == 0,
        contents.len() > 0 ==> support(freq_of(contents)).len() >= 1,
{
    if contents.len() == 0 {
        assert forall|s: u8| support(freq_of(contents)).count(s) == 0 by {
            assert(count_byte(contents, s) == 0);
            lemma_support_upto_count(freq_of(contents), 256, s);
        }
        assert(support(freq_of(contents)) =~= Multiset::<u8>::empty());
    } else {
        lemma_count_byte_pos(contents, 0);
        lemma_count_byte_le_len(contents, contents[0]);
        lemma_support_upto_count(freq_of(contents), 256, contents[0]);
        assert(freq_of(contents)[contents[0] as int] == count_byte(contents, contents[0]) as u64);
        assert(support(freq_of(contents)).count(contents[0]) == 1);
        vstd::multiset::axiom_count_le_len(support(freq_of(contents)), contents[0]);
    }
}

/// Each file's region is a whole number of bytes.
pub proof fn lemma_regions_aligned(files: Seq<FileDataView>, trees: Seq<Option<Tree>>, i: int)
    requires
        0 <= i,
    ensures
        regions_bits(files, trees, i).len() % 8 == 0,
    decreases i,
{
    if i > 0 {
        lemma_regions_aligned(files, trees, i - 1);
        let fr = file_region_bits(files[i - 1].contents, trees[i - 1]);
        assert(fr.len() % 8 == 0) by {
            match trees[i - 1] {
                Option::None => {},
                Option::Some(t) => {
                    let inner = t.tree_bits() + encode_content(files[i - 1].contents, t);
                    assert(align_bits(inner).len() % 8 == 0) by {
                        lemma_align_len(inner.len() as int);
                    }
                },
            }
        }
        assert((regions_bits(files, trees, i - 1).len() + fr.len()) % 8 == 0) by (nonlinear_arith)
            requires
                regions_bits(files, trees, i - 1).len() % 8 == 0,
                fr.len() % 8 == 0,
        ;
    }
}

/// Aligning yields a whole number of bytes: `n` plus its padding is the
/// next multiple of eight.
pub proof fn lemma_align_len(n: int)
    requires
        0 <= n,
    ensures
        (n + (8 - n % 8) % 8) % 8 == 0,
        n + (8 - n % 8) % 8 == 8 * ((n + 7) / 8),
{
    assert((n + (8 - n % 8) % 8) % 8 == 0 && n + (8 - n % 8) % 8 == 8 * ((n + 7) / 8))
        by (nonlinear_arith)
        requires
            0 <= n,
    ;
}

/// The regions of the first `i` files occupy exactly the bytes the offset
/// formula reserves for them.
pub proof fn lemma_regions_len(
    files: Seq<FileDataView>,
    blocks: Seq<FileBlockView>,
    trees: Seq<Option<Tree>>,
    i: int,
)
    requires
        blocks.len() == files.len(),
        trees.len() == files.len(),
        0 <= i <= files.len(),
        forall|j: int|
            0 <= j < files.len() ==> file_entry_ok(
                #[trigger] files[j],
                blocks[j],
                trees[j],
            ),
    ensures
        regions_bits(files, trees, i).len() == 8 * (offset_of(blocks, i) - offset_of(blocks, 0)),
    decreases i,
{
    if i > 0 {
        lemma_regions_len(files, blocks, trees, i - 1);
        let fr = file_region_bits(files[i - 1].contents, trees[i - 1]);
        let b = blocks[i - 1];
        assert(fr.len() == 8 * region_len(b)) by {
            match trees[i - 1] {
                Option::None => {},
                Option::Some(t) => {
                    let inner = t.tree_bits() + encode_content(files[i - 1].contents, t);
                    lemma_align_len(inner.len() as int);
                    assert(inner.len() == b.tree_bit_size + b.data_bit_size);
                },
            }
        }
    }
}

/// Splitting a payload at any point splits its bits.
pub proof fn lemma_encode_take_skip(content: Seq<u8>, t: Tree, k: int)
    requires
        0 <= k <= content.len(),
    ensures
        encode_content(content, t) == encode_content(content.take(k), t) + encode_content(
            content.skip(k),
            t,
        ),
    decreases k,
{
    if k == 0 {
        assert(content.take(0) =~= Seq::<u8>::empty());
        assert(content.skip(0) =~= content);
        assert(encode_content(content, t) =~= encode_content(content.take(0), t) + encode_content(
            content.skip(0),
            t,
        ));
    } else {
        lemma_encode_take_skip(content, t, k - 1);
        let prev = content.take(k - 1);
        assert(content.take(k) =~= prev.push(content[k - 1]));
        lemma_encode_content_push(prev, content[k - 1], t);
        assert(content.skip(k - 1)[0] == content[k - 1]);
        assert(content.skip(k - 1).skip(1) =~= content.skip(k));
        assert(encode_content(content.skip(k - 1), t) == t.tcode(content[k - 1]) + encode_content(
            content.skip(k),
            t,
        ));
        assert(encode_content(content, t) =~= encode_content(content.take(k), t) + encode_content(
            content.skip(k),
            t,
        ));
    }
}

/// With every content byte present among the leaves, a payload takes at
/// least one bit per byte.
pub proof fn lemma_encode_len_lower(content: Seq<u8>, t: Tree)
    requires
        forall|i: int| 0 <= i < content.len() ==> t.leaves().count(#[trigger] content[i]) >= 1,
    ensures
        encode_content(content, t).len() >= content.len(),
    decreases content.len(),
{
    if content.len() > 0 {
        crate::tree::lemma_path_to_len(t, content[0]);
        assert(forall|i: int|
            0 <= i < content.skip(1).len() ==> t.leaves().count(
                #[trigger] content.skip(1)[i],
            ) >= 1);
        lemma_encode_len_lower(content.skip(1), t);
    }
}

/// Earlier files' regions are a prefix of later concatenations.
pub proof fn lemma_regions_prefix(
    files: Seq<FileDataView>,
    trees: Seq<Option<Tree>>,
    m: int,
    n: int,
)
    requires
        0 <= m <= n,
    ensures
        regions_bits(files, trees, m).len() <= regions_bits(files, trees, n).len(),
        regions_bits(files, trees, n).subrange(0, regions_bits(files, trees, m).len() as int)
            == regions_bits(files, trees, m),
    decreases n,
{
    if m < n {
        lemma_regions_prefix(files, trees, m, n - 1);
        assert(regions_bits(files, trees, n).subrange(
            0,
            regions_bits(files, trees, m).len() as int,
        ) =~= regions_bits(files, trees, m));
    } else {
        assert(regions_bits(files, trees, n).subrange(
            0,
            regions_bits(files, trees, m).len() as int,
        ) =~= regions_bits(files, trees, m));
    }
}

/// The data holds one file's region where its block's offset points: the
/// block's sizes describe the tree and payload exactly, and the region's
/// bits stand in the data at the offset, measured from after the
/// signature.
pub open spec fn region_match(
    data: Seq<u8>,
    b: FileBlockView,
    c: Seq<u8>,
    t: Option<Tree>,
) -> bool {
    &&& match t {
        Option::None => {
            &&& c.len() == 0
            &&& b.tree_bit_size == 0
            &&& b.data_bit_size == 0
        },
        Option::Some(t) => {
            &&& c.len() > 0
            &&& t.distinct_leaves()
            &&& forall|i: int| 0 <= i < c.len() ==> t.leaves().count(#[trigger] c[i]) >= 1
            &&& b.tree_bit_size == t.tree_bits().len()
            &&& b.data_bit_size == encode_content(c, t).len()
        },
    }
    &&& b.og_byte_size == c.len()
    &&& 8 * (8 + b.file_byte_offset) + file_region_bits(c, t).len() <= 8 * data.len()
    &&& bits_of_bytes(data).subrange(
        8 * (8 + b.file_byte_offset),
        8 * (8 + b.file_byte_offset) + file_region_bits(c, t).len() as int,
    ) == file_region_bits(c, t)
}

/// In an archive image, every block's offset points at its file's region.
#[verifier::rlimit(100)]
#[verifier::spinoff_prover]
pub proof fn lemma_image_region(
    bytes: Seq<u8>,
    files: Seq<FileDataView>,
    blocks: Seq<FileBlockView>,
    trees: Seq<Option<Tree>>,
    i: int,
)
    requires
        archive_image(bytes, files, blocks, trees),
        0 <= i < files.len(),
    ensures
        region_match(bytes, blocks[i], files[i].contents, trees[i]),
{
    let n = files.len() as int;
    let regions = regions_bits(files, trees, n);
    let hdr = headers_bytes(blocks);
    lemma_headers_bytes_len(blocks, blocks.len() as int);
    lemma_regions_aligned(files, trees, n);
    crate::bitwise::lemma_bits_of_pack_bits(regions);
    crate::bitwise::lemma_bits_of_bytes_add(sig_bytes(), hdr);
    crate::bitwise::lemma_bits_of_bytes_add(sig_bytes() + hdr, pack_bits(regions));
    vstd::bytes::lemma_auto_spec_u64_to_from_le_bytes();
    let prefix_bits = bits_of_bytes(sig_bytes() + hdr);
    assert(bits_of_bytes(bytes) == prefix_bits + regions);
    assert(prefix_bits.len() == 8 * (8 + offset_of(blocks, 0))) by {
        assert(sig_bytes().len() == 8);
        assert((sig_bytes() + hdr).len() == 8 + offset_of(blocks, 0));
    }
    lemma_regions_len(files, blocks, trees, i);
    lemma_regions_len(files, blocks, trees, i + 1);
    lemma_regions_prefix(files, trees, i + 1, n);
    let li = regions_bits(files, trees, i).len() as int;
    let fr = file_region_bits(files[i].contents, trees[i]);
    assert(regions_bits(files, trees, i + 1) == regions_bits(files, trees, i) + fr);
    assert(blocks[i].file_byte_offset == offset_of(blocks, i));
    let start = 8 * (8 + offset_of(blocks, i));
    assert(start == prefix_bits.len() + li);
    assert(start + fr.len() <= bits_of_bytes(bytes).len()) by {
        assert(li + fr.len() == regions_bits(files, trees, i + 1).len());
        assert(regions_bits(files, trees, i + 1).len() <= regions.len());
    }
    assert forall|j: int| 0 <= j < fr.len() implies bits_of_bytes(bytes)[start + j] == fr[j] by {
        assert(bits_of_bytes(bytes)[start + j] == regions[li + j]);
        assert(regions.subrange(0, regions_bits(files, trees, i + 1).len() as int)
            == regions_bits(files, trees, i + 1));
        assert(regions[li + j] == regions_bits(files, trees, i + 1)[li + j]);
        assert(regions_bits(files, trees, i + 1)[li + j] == fr[j]);
    }
    assert(bits_of_bytes(bytes).subrange(start, start + fr.len() as int) =~= fr);
    assert(file_entry_ok(files[i], blocks[i], trees[i]));
}

/// Prefix codes decode uniquely: two contents of the same length whose
/// payloads under matching trees are the same bit sequence are the same
/// content.
proof fn lemma_encode_injective(c1: Seq<u8>, c2: Seq<u8>, t1: Tree, t2: Tree)
    requires
        t1.strip() == t2.strip(),
        c1.len() == c2.len(),
        encode_content(c1, t1) == encode_content(c2, t2),
        forall|i: int| 0 <= i < c1.len() ==> t1.leaves().count(#[trigger] c1[i]) >= 1,
        forall|i: int| 0 <= i < c2.len() ==> t2.leaves().count(#[trigger] c2[i]) >= 1,
    ensures
        c1 == c2,
    decreases c1.len(),
{
    crate::tree::lemma_strip_shape(t1);
    crate::tree::lemma_strip_shape(t2);
    if c1.len() == 0 {
        assert(c1 =~= c2);
    } else {
        let root = t1.strip();
        let e1 = encode_content(c1, t1);
        assert(e1 == t1.tcode(c1[0]) + encode_content(c1.skip(1), t1));
        assert(e1 == t2.tcode(c2[0]) + encode_content(c2.skip(1), t2));
        crate::tree::lemma_decode_tcode(root, c1[0], encode_content(c1.skip(1), t1));
        crate::tree::lemma_decode_tcode(root, c2[0], encode_content(c2.skip(1), t2));
        assert(root.tcode(c1[0]) == t1.tcode(c1[0]));
        assert(root.tcode(c2[0]) == t2.tcode(c2[0]));
        assert(crate::tree::decode_one(root, e1) == Some(
            (c1[0], t1.tcode(c1[0]).len() as nat),
        ));
        assert(crate::tree::decode_one(root, e1) == Some(
            (c2[0], t2.tcode(c2[0]).len() as nat),
        ));
        assert(c1[0] == c2[0]);
        let n = t1.tcode(c1[0]).len() as int;
        assert(t2.tcode(c2[0]).len() == n);
        assert(encode_content(c1.skip(1), t1) =~= encode_content(c2.skip(1), t2)) by {
            assert forall|j: int| 0 <= j < encode_content(c1.skip(1), t1).len() implies
                encode_content(c1.skip(1), t1)[j] == encode_content(c2.skip(1), t2)[j] by {
                assert(encode_content(c1.skip(1), t1)[j] == e1[n + j]);
                assert(encode_content(c2.skip(1), t2)[j] == e1[n + j]);
            }
        }
        assert(forall|i: int|
            0 <= i < c1.skip(1).len() ==> t1.leaves().count(#[trigger] c1.skip(1)[i]) >= 1);
        assert(forall|i: int|
            0 <= i < c2.skip(1).len() ==> t2.leaves().count(#[trigger] c2.skip(1)[i]) >= 1);
        lemma_encode_injective(c1.skip(1), c2.skip(1), t1, t2);
        assert(c1.skip(1) == c2.skip(1));
        assert forall|j: int| 0 <= j < c1.len() implies c1[j] == c2[j] by {
            if j > 0 {
                assert(c1[j] == c1.skip(1)[j - 1]);
                assert(c2[j] == c2.skip(1)[j - 1]);
            }
        }
        assert(c1 =~= c2);
    }
}

/// One block's region pins one content: any two files matching the same
/// block in the same data are the same file contents.
proof fn lemma_region_match_unique(
    data: Seq<u8>,
    b: FileBlockView,
    c1: Seq<u8>,
    t1: Option<Tree>,
    c2: Seq<u8>,
    t2: Option<Tree>,
)
    requires
        region_match(data, b, c1, t1),
        region_match(data, b, c2, t2),
    ensures
        c1 == c2,
{
    if b.tree_bit_size == 0 {
        match t1 {
            Option::None => {
                assert(c1.len() == 0);
            },
            Option::Some(t) => {
                crate::tree::lemma_tree_bit_size(t);
                assert(b.tree_bit_size == t.tree_bits().len());
                assert(false);
            },
        }
        match t2 {
            Option::None => {
                assert(c2.len() == 0);
            },
            Option::Some(t) => {
                crate::tree::lemma_tree_bit_size(t);
                assert(b.tree_bit_size == t.tree_bits().len());
                assert(false);
            },
        }
        assert(c1 =~= c2);
    } else {
        let u1 = t1->Some_0;
        let u2 = t2->Some_0;
        let start = 8 * (8 + b.file_byte_offset) as int;
        let rem = bits_of_bytes(data).skip(start);
        lemma_region_rem_shape(data, b, c1, u1);
        lemma_region_rem_shape(data, b, c2, u2);
        crate::tree::lemma_parse_tree_round_trip(
            u1,
            rem.skip(u1.tree_bits().len() as int),
        );
        crate::tree::lemma_parse_tree_round_trip(
            u2,
            rem.skip(u2.tree_bits().len() as int),
        );
        assert(crate::tree::parse_tree(rem) == Some(
            (u1.strip(), u1.tree_bits().len() as nat),
        ));
        assert(crate::tree::parse_tree(rem) == Some(
            (u2.strip(), u2.tree_bits().len() as nat),
        ));
        assert(u1.strip() == u2.strip());
        let tb = b.tree_bit_size as int;
        assert(encode_content(c1, u1) =~= encode_content(c2, u2)) by {
            assert forall|j: int| 0 <= j < b.data_bit_size implies encode_content(c1, u1)[j]
                == encode_content(c2, u2)[j] by {
                assert(encode_content(c1, u1)[j] == rem[tb + j]);
                assert(encode_content(c2, u2)[j] == rem[tb + j]);
            }
        }
        lemma_encode_injective(c1, c2, u1, u2);
    }
}

/// In a matching region, the data's bits from the region's start begin
/// with the tree image followed by the payload.
proof fn lemma_region_rem_shape(data: Seq<u8>, b: FileBlockView, c: Seq<u8>, t: Tree)
    requires
        region_match(data, b, c, Some(t)),
    ensures
        ({
            let start = 8 * (8 + b.file_byte_offset) as int;
            let rem = bits_of_bytes(data).skip(start);
            &&& rem.subrange(0, t.tree_bits().len() as int) == t.tree_bits()
            &&& rem =~= t.tree_bits() + rem.skip(t.tree_bits().len() as int)
            &&& forall|j: int|
                0 <= j < encode_content(c, t).len() ==> #[trigger] rem[t.tree_bits().len() + j]
                    == encode_content(c, t)[j]
        }),
{
    let start = 8 * (8 + b.file_byte_offset) as int;
    let rem = bits_of_bytes(data).skip(start);
    let fr = file_region_bits(c, Some(t));
    let inner = t.tree_bits() + encode_content(c, t);
    assert(fr == align_bits(inner) + byte_bits(0));
    assert forall|j: int| 0 <= j < inner.len() implies rem[j] == inner[j] by {
        assert(align_bits(inner)[j] == inner[j]);
        assert(fr[j] == inner[j]);
        assert(bits_of_bytes(data).subrange(start, start + fr.len() as int)[j] == fr[j]);
        assert(rem[j] == bits_of_bytes(data)[start + j]);
    }
    assert(rem.subrange(0, t.tree_bits().len() as int) =~= t.tree_bits());
    assert(rem =~= t.tree_bits() + rem.skip(t.tree_bits().len() as int)) by {
        assert forall|j: int| 0 <= j < rem.len() implies rem[j] == (t.tree_bits() + rem.skip(
            t.tree_bits().len() as int,
        ))[j] by {
            if j < t.tree_bits().len() {
                assert(inner[j] == t.tree_bits()[j]);
            }
        }
    }
}

/// Round-trip law: an archive image determines its files.  Any two sets of
/// files that the same bytes represent are the same set, name for name and
/// byte for byte; so extracting an archive built from a set of files can
/// only return that set.
pub proof fn lemma_represents_unique(bytes: Seq<u8>, fs1: Seq<FileDataView>, fs2: Seq<FileDataView>)
    requires
        represents(bytes, fs1),
        represents(bytes, fs2),
    ensures
        fs1 == fs2,
{
    let (bv1, tv1) = choose|bv: Seq<FileBlockView>, tv: Seq<Option<Tree>>|
        archive_image(bytes, fs1, bv, tv);
    let (bv2, tv2) = choose|bv: Seq<FileBlockView>, tv: Seq<Option<Tree>>|
        archive_image(bytes, fs2, bv, tv);
    lemma_image_headers(bytes, fs1, bv1, tv1);
    lemma_image_headers(bytes, fs2, bv2, tv2);
    assert(bv1 == bv2);
    assert forall|i: int| 0 <= i < fs1.len() implies fs1[i] == fs2[i] by {
        lemma_image_region(bytes, fs1, bv1, tv1, i);
        lemma_image_region(bytes, fs2, bv2, tv2, i);
        lemma_region_match_unique(
            bytes,
            bv1[i],
            fs1[i].contents,
            tv1[i],
            fs2[i].contents,
            tv2[i],
        );
        assert(file_entry_ok(fs1[i], bv1[i], tv1[i]));
        assert(file_entry_ok(fs2[i], bv2[i], tv2[i]));
        assert(fs1[i].filename_rel == bv1[i].filename_rel);
        assert(fs2[i].filename_rel == bv1[i].filename_rel);
    }
    assert(fs1 =~= fs2);
}

/// Parses the header region at byte index `start`: a group separator ends
/// it; any other byte opens one more block header.
pub open spec fn parse_blocks(data: Seq<u8>, start: int) -> Option<Seq<FileBlockView>>
    decreases data.len() - start,
{
    if start < 0 || start >= data.len() {
        None
    } else if data[start] == GRP_SEP {
        Some(Seq::empty())
    } else {
        match crate::structures::parse_header(data, start + 1) {
            Option::None => None,
            Option::Some((bv, n)) => {
                if start + 1 + n <= data.len() {
                    match parse_blocks(data, start + 1 + n as int) {
                        Option::None => None,
                        Option::Some(rest) => Some(seq![bv] + rest),
                    }
                } else {
                    None
                }
            },
        }
    }
}

/// Running total over the first `i` files of each region's whole-byte
/// size: the tree and payload bits together, rounded up to bytes.
pub open spec fn rounded_regions_total(blocks: Seq<FileBlockView>, i: int) -> int
    decreases i,
{
    if i <= 0 {
        0
    } else {
        rounded_regions_total(blocks, i - 1) + (blocks[i - 1].tree_bit_size + blocks[i
            - 1].data_bit_size + 7) / 8
    }
}

/// Header arithmetic law: with the layout's offsets, each file's region
/// begins exactly where the previous one ends, so regions never overlap
/// and never leave gaps; and any offset, minus the header-region size,
/// equals the sum of the earlier files' tree-plus-payload sizes rounded up
/// to whole bytes, plus one byte per earlier file.
pub proof fn lemma_header_arithmetic(blocks: Seq<FileBlockView>, i: int)
    requires
        0 <= i <= blocks.len(),
        offsets_ok(blocks),
    ensures
        i < blocks.len() ==> blocks[i].file_byte_offset == (if i == 0 {
            header_region_size(blocks, blocks.len() as int)
        } else {
            blocks[i - 1].file_byte_offset + region_len(blocks[i - 1])
        }),
        offset_of(blocks, i) == header_region_size(blocks, blocks.len() as int)
            + rounded_regions_total(blocks, i) + i,
    decreases i,
{
    if i > 0 {
        lemma_header_arithmetic(blocks, i - 1);
        if i < blocks.len() {
            assert(blocks[i].file_byte_offset == offset_of(blocks, i));
            assert(blocks[i - 1].file_byte_offset == offset_of(blocks, i - 1));
        }
    } else {
        if i < blocks.len() {
            assert(blocks[0].file_byte_offset == offset_of(blocks, 0));
        }
    }
}

/// In an archive image, the bytes begin with the signature and the header
/// region parses back to exactly the image's blocks.
pub proof fn lemma_image_headers(
    bytes: Seq<u8>,
    files: Seq<FileDataView>,
    blocks: Seq<FileBlockView>,
    trees: Seq<Option<Tree>>,
)
    requires
        archive_image(bytes, files, blocks, trees),
    ensures
        bytes.len() >= 8,
        bytes.subrange(0, 8) == sig_bytes(),
        spec_u64_from_le_bytes(bytes.subrange(0, 8)) == SIG,
        parse_blocks(bytes, 8) == Some(blocks),
        blocks.len() == files.len(),
{
    vstd::bytes::lemma_auto_spec_u64_to_from_le_bytes();
    let hdr = headers_bytes(blocks);
    lemma_headers_bytes_len(blocks, blocks.len() as int);
    assert(sig_bytes().len() == 8);
    assert(bytes.subrange(0, 8) =~= sig_bytes()) by {
        assert forall|j: int| 0 <= j < 8 implies bytes.subrange(0, 8)[j] == sig_bytes()[j] by {
            assert(bytes[j] == (sig_bytes() + hdr + pack_bits(
                regions_bits(files, trees, files.len() as int),
            ))[j]);
        }
    }
    assert forall|j: int| 0 <= j < hdr.len() implies bytes[8 + j] == hdr[j] by {
        assert(bytes[8 + j] == (sig_bytes() + hdr + pack_bits(
            regions_bits(files, trees, files.len() as int),
        ))[8 + j]);
    }
    assert(bytes.subrange(8, 8 + hdr.len() as int) =~= hdr);
    assert forall|i: int| 0 <= i < blocks.len() implies (#[trigger] blocks[i]).wf() by {
        assert(file_entry_ok(files[i], blocks[i], trees[i]));
    }
    lemma_parse_blocks_round_trip(bytes, 8, blocks);
}

/// Round trip of the header region: parsing bytes that hold the header
/// image of well-formed blocks yields those blocks.
pub proof fn lemma_parse_blocks_round_trip(
    data: Seq<u8>,
    start: int,
    blocks: Seq<FileBlockView>,
)
    requires
        0 <= start,
        forall|i: int| 0 <= i < blocks.len() ==> (#[trigger] blocks[i]).wf(),
        start + headers_bytes(blocks).len() <= data.len(),
        data.subrange(start, start + headers_bytes(blocks).len()) == headers_bytes(blocks),
    ensures
        parse_blocks(data, start) == Some(blocks),
    decreases blocks.len(),
{
    let img = headers_bytes(blocks);
    if blocks.len() == 0 {
        assert(img =~= seq![GRP_SEP]);
        assert(data[start] == img[0]);
        assert(blocks =~= Seq::<FileBlockView>::empty());
    } else {
        let b0 = blocks[0];
        let hb = b0.header_bytes();
        let tail = blocks.skip(1);
        lemma_headers_prefix_front(blocks, blocks.len() as int);
        assert(tail.len() == blocks.len() - 1);
        assert(img =~= seq![REC_SEP] + hb + headers_bytes(tail));
        crate::structures::lemma_header_bytes_len(b0);
        assert(data[start] == img[0]);
        assert(img[0] == REC_SEP);
        assert forall|j: int| 0 <= j < hb.len() implies data[start + 1 + j] == hb[j] by {
            assert(img[1 + j] == hb[j]);
            assert(data[start + 1 + j] == img[1 + j]);
        }
        assert(data.subrange(start + 1, start + 1 + b0.spec_header_size()) =~= hb);
        crate::structures::lemma_parse_header_round_trip(data, start + 1, b0);
        let n = b0.spec_header_size();
        let rest_start = start + 1 + n;
        assert forall|j: int| 0 <= j < headers_bytes(tail).len() implies data[rest_start + j]
            == headers_bytes(tail)[j] by {
            assert(img[1 + n + j] == headers_bytes(tail)[j]);
            assert(data[start + 1 + n + j] == img[1 + n + j]);
        }
        assert(data.subrange(rest_start, rest_start + headers_bytes(tail).len()) =~= headers_bytes(
            tail,
        ));
        lemma_parse_blocks_round_trip(data, rest_start, tail);
        assert(seq![b0] + tail =~= blocks);
    }
}

} // verus!
