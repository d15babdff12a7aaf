//! The compression pipeline: frequency scan, Huffman tree construction,
//! symbol-table derivation, bit-size accounting, offset assignment and
//! archive serialization, all over in-memory byte buffers.

use crate::bitwise::{
    align_bits, bits_of_bytes, lemma_align_concat, lemma_bits_of_bytes_add,
    lemma_bits_of_bytes_singleton, lemma_pack_bits_concat, pack_bits,
};
use crate::codec::{
    archive_image, count_byte, encode_content, file_entry_ok, file_region_bits, files_fit,
    freq_of, headers_bytes, headers_prefix, header_region_size, lemma_align_len,
    lemma_count_byte_push, lemma_count_byte_pos, lemma_encode_content_push,
    lemma_encode_len_bound, lemma_header_region_bound, lemma_header_region_mono,
    lemma_headers_bytes_len, lemma_offset_bound, lemma_offset_congruence, lemma_offset_mono,
    lemma_payload_bits, lemma_regions_aligned, lemma_regions_len, lemma_sum_counts,
    lemma_sum_freq_mono, lemma_support_upto_count, lemma_support_upto_len,
    lemma_total_contents_mono, offset_of, offsets_ok, payload_bits_upto, regions_bits,
    region_len, represents, sig_bytes, support, support_upto, sum_freq_upto, total_contents,
    GRP_SEP, REC_SEP, SIG,
};
use crate::read::MAX_DATA_BYTES;
use crate::structures::{ArchiveError, FileBlock, FileBlockView, FileData, SymbolCode};
use crate::tree::Tree;
use crate::write::BitWriter;
use vstd::bytes::{lemma_auto_spec_u64_to_from_le_bytes, spec_u64_from_le_bytes};
use vstd::multiset::Multiset;
use vstd::prelude::*;
use vstd::string::{StrSliceExecFns, StringSliceAdditionalSpecFns};

verus! {

broadcast use vstd::multiset::group_multiset_axioms;

/// Largest single file the compressor accepts, so that the payload bit
/// length always fits in a `u64`.
pub const MAX_FILE_BYTES: u64 = 0x0100_0000_0000_0000;

/// The ghost images of a vector of files.
pub open spec fn files_views(files: Seq<crate::structures::FileData>) -> Seq<
    crate::structures::FileDataView,
> {
    files.map_values(|f: crate::structures::FileData| f@)
}

/// The ghost images of a vector of blocks.
pub open spec fn blocks_view(blocks: Seq<FileBlock>) -> Seq<FileBlockView> {
    blocks.map_values(|b: FileBlock| b@)
}

/// The prefix tree of a code book, if its file was not empty.
pub open spec fn book_tree(cb: CodeBook) -> Option<Tree> {
    match cb.tree {
        Option::None => Option::None,
        Option::Some(ct) => Option::Some(*ct.root),
    }
}

/// The prefix trees of a vector of code books.
pub open spec fn books_trees(books: Seq<CodeBook>) -> Seq<Option<Tree>> {
    books.map_values(|cb: CodeBook| book_tree(cb))
}

/// The first eight bytes of a string zero-padded, as the spec of
/// [`str_to_u64`].
pub open spec fn str_sig_bytes(bytes: Seq<u8>) -> Seq<u8> {
    Seq::new(
        8,
        |i: int|
            if i < bytes.len() {
                bytes[i]
            } else {
                0u8
            },
    )
}

/// The byte size of a value's type.
pub fn sizeof<T>(_v: T) -> (r: usize)
    ensures
        r == vstd::layout::size_of::<T>(),
{
    core::mem::size_of::<T>()
}

/// Packs the first eight bytes of a string, zero-padded, into a
/// little-endian 64-bit integer; the archive signature is built this way.
pub fn str_to_u64(s: &str) -> (r: u64)
    ensures
        r == spec_u64_from_le_bytes(str_sig_bytes(s.spec_bytes())),
{
    let bytes = s.as_bytes_vec();
    let mut buffer: Vec<u8> = Vec::new();
    let mut i: usize = 0;
    while i < 8
        invariant
            i <= 8,
            bytes@ == s.spec_bytes(),
            buffer@.len() == i,
            forall|j: int| 0 <= j < i ==> buffer@[j] == str_sig_bytes(bytes@)[j],
        decreases 8 - i,
    {
        if i < bytes.len() {
            buffer.push(bytes[i]);
        } else {
            buffer.push(0);
        }
        i = i + 1;
    }
    proof {
        assert(buffer@ =~= str_sig_bytes(bytes@));
    }
    vstd::bytes::u64_from_le_bytes(buffer.as_slice())
}

/// Counts how often each byte value occurs in the contents.
pub fn create_freq_table(contents: &Vec<u8>) -> (freq_table: Vec<u64>)
    requires
        contents@.len() <= MAX_DATA_BYTES,
    ensures
        freq_table@.len() == 256,
        forall|s: int| 0 <= s < 256 ==> freq_table@[s] == count_byte(contents@, s as u8),
        forall|s: int| 0 <= s < 256 ==> freq_table@[s] <= contents@.len(),
{
    let mut freq_table: Vec<u64> = Vec::new();
    let mut i: usize = 0;
    while i < 256
        invariant
            i <= 256,
            freq_table@.len() == i,
            forall|s: int| 0 <= s < i ==> freq_table@[s] == 0,
        decreases 256 - i,
    {
        freq_table.push(0);
        i = i + 1;
    }
    let ghost all = contents@;
    let mut k: usize = 0;
    proof {
        assert(all.take(0) =~= Seq::<u8>::empty());
    }
    while k < contents.len()
        invariant
            k <= all.len(),
            contents@ == all,
            all.len() <= MAX_DATA_BYTES,
            freq_table@.len() == 256,
            forall|s: int| 0 <= s < 256 ==> freq_table@[s] == count_byte(all.take(k as int), s as u8),
            forall|s: int| 0 <= s < 256 ==> freq_table@[s] <= k,
        decreases all.len() - k,
    {
        let b = contents[k] as usize;
        let v = freq_table[b];
        freq_table[b] = v + 1;
        proof {
            assert(all.take(k + 1) =~= all.take(k as int).push(all[k as int]));
            assert forall|s: int| 0 <= s < 256 implies freq_table@[s] == count_byte(
                all.take(k + 1),
                s as u8,
            ) && freq_table@[s] <= k + 1 by {
                lemma_count_byte_push(all.take(k as int), all[k as int], s as u8);
            }
        }
        k = k + 1;
    }
    proof {
        assert(all.take(all.len() as int) =~= all);
    }
    freq_table
}


/// The build queue before any merge: one leaf per byte value with a
/// nonzero entry among the first `n`, in byte-value order.
pub open spec fn initial_nodes(freq: Seq<u64>, n: int) -> Seq<Tree>
    decreases n,
{
    if n <= 0 {
        Seq::empty()
    } else if freq[n - 1] > 0 {
        initial_nodes(freq, n - 1).push(
            Tree::Leaf { plain_symbol: (n - 1) as u8, weight: freq[n - 1] },
        )
    } else {
        initial_nodes(freq, n - 1)
    }
}

/// The index of the earliest minimum-weight tree in the build queue.
pub open spec fn spec_min_index(s: Seq<Tree>) -> int
    decreases s.len(),
{
    if s.len() <= 1 {
        0
    } else {
        let m = spec_min_index(s.drop_last());
        if s.last().spec_weight() < s[m].spec_weight() {
            s.len() - 1
        } else {
            m
        }
    }
}

/// The earliest minimum-weight index is in range and minimal.
pub proof fn lemma_spec_min_index_bounds(s: Seq<Tree>)
    requires
        s.len() >= 1,
    ensures
        0 <= spec_min_index(s) < s.len(),
        forall|j: int|
            0 <= j < s.len() ==> s[spec_min_index(s)].spec_weight() <= (
            #[trigger] s[j]).spec_weight(),
    decreases s.len(),
{
    if s.len() > 1 {
        lemma_spec_min_index_bounds(s.drop_last());
        assert forall|j: int| 0 <= j < s.len() implies s[spec_min_index(s)].spec_weight() <= (
        #[trigger] s[j]).spec_weight() by {
            if j < s.len() - 1 {
                assert(s.drop_last()[j] == s[j]);
                assert(s.drop_last()[spec_min_index(s.drop_last())] == s[spec_min_index(
                    s.drop_last(),
                )]);
            }
        }
    }
}

/// One merge round: the two lowest-weight trees leave the queue, earliest
/// first on ties, and their combination enters at the back.
pub open spec fn spec_merge(s: Seq<Tree>) -> Seq<Tree>
    recommends
        s.len() >= 2,
{
    let i1 = spec_min_index(s);
    let first = s[i1];
    let s1 = s.remove(i1);
    let i2 = spec_min_index(s1);
    let second = s1[i2];
    let s2 = s1.remove(i2);
    s2.push(
        Tree::Internal {
            left: Box::new(first),
            right: Box::new(second),
            weight: (first.spec_weight() + second.spec_weight()) as u64,
        },
    )
}

/// The tree the merge procedure leaves once the queue holds one element.
/// Ties between equal weights go to the earliest queue entry, so this pins
/// the exact tree the builder constructs.
pub open spec fn spec_build_tree(s: Seq<Tree>) -> Tree
    recommends
        s.len() >= 1,
    decreases s.len(),
    via spec_build_tree_decreases
{
    if s.len() <= 1 {
        s[0]
    } else {
        spec_build_tree(spec_merge(s))
    }
}

#[via_fn]
proof fn spec_build_tree_decreases(s: Seq<Tree>) {
    if s.len() > 1 {
        lemma_spec_min_index_bounds(s);
        lemma_spec_min_index_bounds(s.remove(spec_min_index(s)));
    }
}

/// Whether a file's contents admit a symbol table: the tree the merge
/// procedure builds for its frequencies is at most 32 levels deep, so
/// every code fits the 32-bit code word.  An empty file needs no tree at
/// all, and a file with at most 33 distinct byte values always fits.
pub open spec fn codeable(contents: Seq<u8>) -> bool {
    contents.len() == 0 || spec_build_tree(initial_nodes(freq_of(contents), 256)).depth() <= 32
}

/// The multiset of leaf symbols over all trees waiting in the build queue.
pub open spec fn heap_leaves(s: Seq<Tree>) -> Multiset<u8>
    decreases s.len(),
{
    if s.len() == 0 {
        Multiset::empty()
    } else {
        heap_leaves(s.drop_last()).add(s.last().leaves())
    }
}

/// The total construction weight over all trees in the build queue.
pub open spec fn heap_weight(s: Seq<Tree>) -> int
    decreases s.len(),
{
    if s.len() == 0 {
        0
    } else {
        heap_weight(s.drop_last()) + s.last().spec_weight()
    }
}

/// Pushing a tree adds its leaves and weight to the queue's totals.
proof fn lemma_heap_push(s: Seq<Tree>, t: Tree)
    ensures
        heap_leaves(s.push(t)) == heap_leaves(s).add(t.leaves()),
        heap_weight(s.push(t)) == heap_weight(s) + t.spec_weight(),
{
    assert(s.push(t).drop_last() =~= s);
    assert(s.push(t).last() == t);
}

/// Removing a tree takes exactly its leaves and weight out of the totals.
proof fn lemma_heap_remove(s: Seq<Tree>, i: int)
    requires
        0 <= i < s.len(),
    ensures
        heap_leaves(s) == heap_leaves(s.remove(i)).add(s[i].leaves()),
        heap_weight(s) == heap_weight(s.remove(i)) + s[i].spec_weight(),
    decreases s.len(),
{
    if i == s.len() - 1 {
        assert(s.remove(i) =~= s.drop_last());
    } else {
        lemma_heap_remove(s.drop_last(), i);
        assert(s.remove(i).drop_last() =~= s.drop_last().remove(i));
        assert(s.remove(i).last() == s.last());
        assert(heap_leaves(s.remove(i)).add(s[i].leaves()) =~= heap_leaves(s));
    }
}

/// A queue's total weight is never negative.
proof fn lemma_heap_weight_nonneg(s: Seq<Tree>)
    ensures
        heap_weight(s) >= 0,
    decreases s.len(),
{
    if s.len() > 0 {
        lemma_heap_weight_nonneg(s.drop_last());
    }
}

/// The index of a minimum-weight tree in the build queue; ties go to the
/// earliest, so the selection is an explicit min-first priority order.
fn min_weight_index(nodes: &Vec<Tree>) -> (r: usize)
    requires
        nodes@.len() >= 1,
    ensures
        r < nodes@.len(),
        r == spec_min_index(nodes@),
        forall|j: int|
            0 <= j < nodes@.len() ==> nodes@[r as int].spec_weight() <= (
            #[trigger] nodes@[j]).spec_weight(),
{
    let mut best: usize = 0;
    let mut j: usize = 1;
    proof {
        assert(nodes@.take(1) =~= seq![nodes@[0]]);
    }
    while j < nodes.len()
        invariant
            best < j,
            j <= nodes@.len(),
            best == spec_min_index(nodes@.take(j as int)),
            forall|k: int|
                0 <= k < j ==> nodes@[best as int].spec_weight() <= (
                #[trigger] nodes@[k]).spec_weight(),
        decreases nodes@.len() - j,
    {
        let ghost prefix = nodes@.take(j + 1);
        proof {
            assert(prefix.drop_last() =~= nodes@.take(j as int));
            assert(prefix.last() == nodes@[j as int]);
            assert(prefix[best as int] == nodes@[best as int]);
        }
        if nodes[j].weight() < nodes[best].weight() {
            best = j;
        }
        j = j + 1;
    }
    proof {
        assert(nodes@.take(nodes@.len() as int) =~= nodes@);
    }
    best
}

/// A built prefix tree together with the number of distinct byte values at
/// its leaves.
pub struct CodeTree {
    pub root: Box<Tree>,
    pub symbol_count: u32,
}

/// Builds the Huffman prefix tree for a frequency table by repeatedly
/// merging the two lowest-weight trees; `None` exactly when no byte value
/// has a nonzero frequency.  The resulting tree has one leaf for each byte
/// value with nonzero frequency.
pub fn create_code_tree(freq_table: &Vec<u64>) -> (r: Option<CodeTree>)
    requires
        freq_table@.len() == 256,
        sum_freq_upto(freq_table@, 256) <= u64::MAX,
    ensures
        r is Some <==> support(freq_table@).len() > 0,
        r matches Some(ct) ==> ({
            &&& ct.root.leaves() == support(freq_table@)
            &&& ct.root.distinct_leaves()
            &&& ct.symbol_count == support(freq_table@).len()
            &&& *ct.root == spec_build_tree(initial_nodes(freq_table@, 256))
        }),
{
    let ghost freq = freq_table@;
    let mut nodes: Vec<Tree> = Vec::new();
    let mut symbol_count: u32 = 0;
    let mut i: usize = 0;
    while i < 256
        invariant
            i <= 256,
            freq_table@ == freq,
            freq.len() == 256,
            sum_freq_upto(freq, 256) <= u64::MAX,
            heap_leaves(nodes@) == support_upto(freq, i as int),
            heap_weight(nodes@) == sum_freq_upto(freq, i as int),
            symbol_count == support_upto(freq, i as int).len(),
            symbol_count <= i,
            nodes@.len() == symbol_count,
            nodes@ == initial_nodes(freq, i as int),
        decreases 256 - i,
    {
        let f = freq_table[i];
        if f != 0 {
            let leaf = Tree::leaf(i as u8, f);
            proof {
                lemma_heap_push(nodes@, leaf);
            }
            nodes.push(leaf);
            symbol_count = symbol_count + 1;
        }
        i = i + 1;
    }
    let ghost initial = nodes@;
    if nodes.len() == 0 {
        return None;
    }
    while nodes.len() >= 2
        invariant
            freq.len() == 256,
            sum_freq_upto(freq, 256) <= u64::MAX,
            nodes@.len() >= 1,
            heap_leaves(nodes@) == support(freq),
            heap_weight(nodes@) == sum_freq_upto(freq, 256),
            symbol_count == support(freq).len(),
            initial == initial_nodes(freq, 256),
            spec_build_tree(nodes@) == spec_build_tree(initial),
        decreases nodes@.len(),
    {
        let ghost before = nodes@;
        let i1 = min_weight_index(&nodes);
        let first = nodes.remove(i1);
        proof {
            lemma_heap_remove(before, i1 as int);
            lemma_heap_weight_nonneg(nodes@);
        }
        let ghost mid = nodes@;
        let i2 = min_weight_index(&nodes);
        let second = nodes.remove(i2);
        proof {
            lemma_heap_remove(mid, i2 as int);
            lemma_heap_weight_nonneg(nodes@);
        }
        let w = first.weight() + second.weight();
        let node = Tree::internal(Box::new(first), Box::new(second), 0, w);
        proof {
            lemma_heap_push(nodes@, node);
        }
        nodes.push(node);
        proof {
            assert(heap_leaves(nodes@) =~= support(freq));
            assert(nodes@ =~= spec_merge(before));
            assert(spec_build_tree(before) == spec_build_tree(spec_merge(before)));
        }
    }
    let ghost last_nodes = nodes@;
    let root = match nodes.pop() {
        Some(t) => t,
        None => {
            proof {
                assert(false);
            }
            return None;
        },
    };
    proof {
        assert(last_nodes =~= seq![root]);
        assert(spec_build_tree(last_nodes) == root);
        assert(last_nodes.drop_last() =~= Seq::<Tree>::empty());
        assert(heap_leaves(Seq::<Tree>::empty()) == Multiset::<u8>::empty());
        assert(heap_leaves(last_nodes) == heap_leaves(last_nodes.drop_last()).add(
            last_nodes.last().leaves(),
        ));
        assert(heap_leaves(last_nodes) =~= root.leaves());
        assert(root.leaves() == support(freq));
        assert forall|s: u8| root.leaves().count(s) <= 1 by {
            lemma_support_upto_count(freq, 256, s);
        }
    }
    Some(CodeTree { root: Box::new(root), symbol_count })
}

/// A fresh 256-entry symbol table of empty codes.
fn default_symbol_table() -> (table: Vec<SymbolCode>)
    ensures
        table@.len() == 256,
        forall|s: int|
            0 <= s < 256 ==> (#[trigger] table@[s]).bit_len == 0 && table@[s].wf()
                && table@[s].encoded_symbol == 0,
{
    let mut table: Vec<SymbolCode> = Vec::new();
    let mut i: usize = 0;
    while i < 256
        invariant
            i <= 256,
            table@.len() == i,
            forall|s: int|
                0 <= s < i ==> (#[trigger] table@[s]).bit_len == 0 && table@[s].wf()
                    && table@[s].encoded_symbol == 0,
        decreases 256 - i,
    {
        table.push(SymbolCode::new());
        i = i + 1;
    }
    table
}

/// Derives the codes under `node` into the table: each leaf symbol's code
/// is the given prefix followed by its path below `node`.
fn walk_code_tree(node: &Tree, symbol_code: SymbolCode, symbol_table: &mut Vec<SymbolCode>)
    requires
        old(symbol_table)@.len() == 256,
        symbol_code.wf(),
        symbol_code.bit_len + node.depth() <= 32,
        node.distinct_leaves(),
    ensures
        final(symbol_table)@.len() == 256,
        forall|s: u8|
            node.leaves().count(s) >= 1 ==> ({
                let e = final(symbol_table)@[s as int];
                &&& e.wf()
                &&& e.plain_symbol == s
                &&& e.bits() == symbol_code.bits() + node.path_to(s)
            }),
        forall|s: int|
            0 <= s < 256 && node.leaves().count(s as u8) == 0 ==> final(symbol_table)@[s] == old(
                symbol_table,
            )@[s],
    decreases node,
{
    match node {
        Tree::Leaf { plain_symbol, .. } => {
            let mut code = symbol_code;
            code.plain_symbol = *plain_symbol;
            symbol_table[*plain_symbol as usize] = code;
            proof {
                assert(code.bits() =~= symbol_code.bits());
                assert forall|s: u8| node.leaves().count(s) >= 1 implies s == *plain_symbol by {}
                assert(node.path_to(*plain_symbol) =~= Seq::<bool>::empty());
                assert(symbol_code.bits() + node.path_to(*plain_symbol) =~= symbol_code.bits());
            }
        },
        Tree::Internal { left, right, .. } => {
            proof {
                assert forall|s: u8| left.leaves().count(s) <= 1 && right.leaves().count(s)
                    <= 1 by {
                    assert(node.leaves().count(s) <= 1);
                }
            }
            let left_code = symbol_code.append_bit(0);
            walk_code_tree(left, left_code, symbol_table);
            let right_code = symbol_code.append_bit(1);
            walk_code_tree(right, right_code, symbol_table);
            proof {
                assert forall|s: u8| node.leaves().count(s) >= 1 implies ({
                    let e = final(symbol_table)@[s as int];
                    &&& e.wf()
                    &&& e.plain_symbol == s
                    &&& e.bits() == symbol_code.bits() + node.path_to(s)
                }) by {
                    if left.leaves().count(s) > 0 {
                        assert(right.leaves().count(s) == 0);
                        assert(symbol_code.bits().push(false) + left.path_to(s) =~= symbol_code.bits()
                            + (seq![false] + left.path_to(s)));
                    } else {
                        assert(right.leaves().count(s) >= 1);
                        assert(symbol_code.bits().push(true) + right.path_to(s)
                            =~= symbol_code.bits() + (seq![true] + right.path_to(s)));
                    }
                }
            }
        },
    }
}

/// Derives the symbol table of a built tree: one code per leaf symbol,
/// empty codes elsewhere.  A tree that is a single leaf codes its one
/// symbol as a single zero bit.  Fails exactly when the tree is deeper
/// than the 32 bits a code word can hold.
pub fn create_code_table(tree: &CodeTree) -> (r: Result<Vec<SymbolCode>, ArchiveError>)
    requires
        tree.root.distinct_leaves(),
    ensures
        r is Ok <==> tree.root.depth() <= 32,
        r matches Err(e) ==> e == ArchiveError::CodeTooLong,
        r matches Ok(table) ==> ({
            &&& table@.len() == 256
            &&& forall|s: u8|
                tree.root.leaves().count(s) >= 1 ==> ({
                    let e = table@[s as int];
                    &&& e.wf()
                    &&& e.plain_symbol == s
                    &&& e.bits() == tree.root.tcode(s)
                    &&& e.bit_len >= 1
                })
            &&& forall|s: int|
                0 <= s < 256 && tree.root.leaves().count(s as u8) == 0 ==> (
                #[trigger] table@[s]).bit_len == 0 && table@[s].wf()
        }),
{
    if !tree.root.depth_within(32) {
        return Err(ArchiveError::CodeTooLong);
    }
    let mut table = default_symbol_table();
    match &*tree.root {
        Tree::Leaf { plain_symbol, .. } => {
            let code = SymbolCode { plain_symbol: *plain_symbol, encoded_symbol: 0, bit_len: 1 };
            table[*plain_symbol as usize] = code;
            proof {
                assert(forall|i: u32| i < 32 ==> (0u32 >> i) & 1 == 0) by (bit_vector);
                assert(code.bits() =~= seq![false]);
                assert(code.wf());
                assert forall|s: u8| tree.root.leaves().count(s) >= 1 implies s
                    == *plain_symbol by {}
            }
        },
        Tree::Internal { .. } => {
            let code = SymbolCode::new();
            walk_code_tree(&tree.root, code, &mut table);
            proof {
                assert forall|s: u8| tree.root.leaves().count(s) >= 1 implies ({
                    let e = table@[s as int];
                    e.bits() == tree.root.tcode(s) && e.bit_len >= 1
                }) by {
                    assert(code.bits() + tree.root.path_to(s) =~= tree.root.path_to(s));
                    crate::tree::lemma_path_to_len(*tree.root, s);
                    assert(table@[s as int].bits().len() == table@[s as int].bit_len);
                }
            }
        },
    }
    Ok(table)
}

/// A code book: everything needed to compress one file, derived from its
/// contents alone.
pub struct CodeBook {
    /// Name of the file relative to the base directory of the archive.
    pub filename_rel: Vec<u8>,
    /// The file's original size in bytes.
    pub og_byte_size: u64,
    /// One code per byte value; empty codes for absent values.
    pub symbol_table: Vec<SymbolCode>,
    /// The prefix tree, absent exactly for an empty file.
    pub tree: Option<CodeTree>,
    /// How often each byte value occurs in the file.
    pub freq_table: Vec<u64>,
}

impl CodeBook {
    /// The book was correctly derived from the given contents.
    pub open spec fn wf_for(&self, contents: Seq<u8>) -> bool {
        &&& self.freq_table@ == freq_of(contents)
        &&& self.og_byte_size == contents.len()
        &&& self.symbol_table@.len() == 256
        &&& match self.tree {
            Option::None => {
                &&& contents.len() == 0
                &&& forall|s: int|
                    0 <= s < 256 ==> (#[trigger] self.symbol_table@[s]).bit_len == 0
            },
            Option::Some(ct) => {
                &&& contents.len() > 0
                &&& ct.root.leaves() == support(freq_of(contents))
                &&& ct.root.distinct_leaves()
                &&& ct.root.depth() <= 32
                &&& ct.symbol_count == support(freq_of(contents)).len()
                &&& forall|s: u8|
                    ct.root.leaves().count(s) >= 1 ==> ({
                        let e = self.symbol_table@[s as int];
                        &&& e.wf()
                        &&& e.plain_symbol == s
                        &&& e.bits() == ct.root.tcode(s)
                        &&& e.bit_len >= 1
                    })
                &&& forall|s: int|
                    0 <= s < 256 && ct.root.leaves().count(s as u8) == 0 ==> (
                    #[trigger] self.symbol_table@[s]).bit_len == 0
            },
        }
    }
}

/// Builds the code book for one file: frequency scan, tree construction
/// and symbol-table derivation.  Fails only when the file needs a code
/// longer than 32 bits, which a file with at most 33 distinct byte values
/// can never do.
pub fn create_code_book(filename_rel: Vec<u8>, contents: &Vec<u8>) -> (r: Result<
    CodeBook,
    ArchiveError,
>)
    requires
        contents@.len() <= MAX_DATA_BYTES,
    ensures
        r is Ok <==> codeable(contents@),
        r matches Ok(cb) ==> cb.wf_for(contents@) && cb.filename_rel@ == filename_rel@,
        r matches Err(e) ==> e == ArchiveError::CodeTooLong && contents@.len() > 0,
        support(freq_of(contents@)).len() <= 33 ==> r is Ok,
{
    let og_byte_size = contents.len() as u64;
    let freq_table = create_freq_table(contents);
    proof {
        assert(freq_table@ =~= freq_of(contents@));
        lemma_sum_counts(contents@);
    }
    let tree_opt = create_code_tree(&freq_table);
    match tree_opt {
        None => {
            proof {
                if contents@.len() > 0 {
                    lemma_count_byte_pos(contents@, 0);
                    crate::codec::lemma_count_byte_le_len(contents@, contents@[0]);
                    lemma_support_upto_count(freq_of(contents@), 256, contents@[0]);
                    assert(support(freq_of(contents@)).count(contents@[0]) == 1);
                    vstd::multiset::axiom_count_le_len(support(freq_of(contents@)), contents@[0]);
                    assert(false);
                }
            }
            let symbol_table = default_symbol_table();
            Ok(
                CodeBook {
                    filename_rel,
                    og_byte_size,
                    symbol_table,
                    tree: None,
                    freq_table,
                },
            )
        },
        Some(ct) => {
            proof {
                crate::tree::lemma_depth_lt_leaf_count(*ct.root);
                if contents@.len() == 0 {
                    assert forall|s: u8| support(freq_of(contents@)).count(s) == 0 by {
                        assert(count_byte(contents@, s) == 0);
                        lemma_support_upto_count(freq_of(contents@), 256, s);
                    }
                    assert(support(freq_of(contents@)) =~= Multiset::<u8>::empty());
                    assert(false);
                }
            }
            match create_code_table(&ct) {
                Ok(symbol_table) => Ok(
                    CodeBook {
                        filename_rel,
                        og_byte_size,
                        symbol_table,
                        tree: Some(ct),
                        freq_table,
                    },
                ),
                Err(e) => Err(e),
            }
        },
    }
}

/// A copy of a byte vector.
fn clone_bytes(v: &Vec<u8>) -> (r: Vec<u8>)
    ensures
        r@ == v@,
{
    let mut r: Vec<u8> = Vec::new();
    let mut i: usize = 0;
    while i < v.len()
        invariant
            i <= v@.len(),
            r@ == v@.take(i as int),
        decreases v@.len() - i,
    {
        r.push(v[i]);
        proof {
            assert(r@ =~= v@.take(i + 1));
        }
        i = i + 1;
    }
    proof {
        assert(v@.take(v@.len() as int) =~= v@);
    }
    r
}

/// The payload bit length over the first `n` byte values as the table
/// records it: the sum of each frequency times its code's bit length.
pub open spec fn table_bits_upto(freq: Seq<u64>, table: Seq<SymbolCode>, n: int) -> int
    decreases n,
{
    if n <= 0 {
        0
    } else {
        table_bits_upto(freq, table, n - 1) + freq[n - 1] * table[n - 1].bit_len
    }
}

/// A table whose codes match the tree accounts for exactly the payload's
/// frequency-weighted bit total.
proof fn lemma_table_bits_payload(contents: Seq<u8>, t: Tree, table: Seq<SymbolCode>, n: int)
    requires
        0 <= n <= 256,
        table.len() == 256,
        forall|s: u8|
            t.leaves().count(s) >= 1 ==> (#[trigger] table[s as int]).bit_len == t.tcode(s).len(),
        forall|s: int|
            0 <= s < 256 && t.leaves().count(s as u8) == 0 ==> (#[trigger] table[s]).bit_len == 0,
        forall|s: u8| count_byte(contents, s) >= 1 ==> t.leaves().count(s) >= 1,
        contents.len() < u64::MAX,
    ensures
        table_bits_upto(freq_of(contents), table, n) == payload_bits_upto(contents, t, n),
    decreases n,
{
    if n > 0 {
        lemma_table_bits_payload(contents, t, table, n - 1);
        let s = (n - 1) as u8;
        crate::codec::lemma_count_byte_le_len(contents, s);
        let c = count_byte(contents, s) as int;
        assert(freq_of(contents)[n - 1] == c);
        if c >= 1 {
            assert(table[n - 1].bit_len == t.tcode(s).len());
        } else {
            assert(c * table[n - 1].bit_len == 0) by (nonlinear_arith)
                requires
                    c == 0,
            ;
            assert(c * t.tcode(s).len() == 0) by (nonlinear_arith)
                requires
                    c == 0,
            ;
        }
    }
}

/// Builds the archive metadata for each code book: the exact bit sizes of
/// its serialized tree and payload, with the offset still unassigned.
pub fn create_file_blocks(code_books: &Vec<CodeBook>, files: &Vec<FileData>) -> (blocks: Vec<
    FileBlock,
>)
    requires
        code_books@.len() == files@.len(),
        forall|i: int|
            0 <= i < files@.len() ==> (#[trigger] code_books@[i]).wf_for(files@[i]@.contents),
        forall|i: int|
            0 <= i < files@.len() ==> (#[trigger] code_books@[i]).filename_rel@
                == files@[i]@.filename_rel,
        files_fit(files_views(files@)),
    ensures
        blocks@.len() == files@.len(),
        forall|i: int|
            0 <= i < files@.len() ==> file_entry_ok(
                files_views(files@)[i],
                #[trigger] blocks_view(blocks@)[i],
                books_trees(code_books@)[i],
            ),
        forall|i: int|
            0 <= i < files@.len() ==> (#[trigger] blocks_view(blocks@)[i]).file_byte_offset == 0,
        forall|i: int|
            0 <= i < files@.len() ==> region_len(#[trigger] blocks_view(blocks@)[i]) <= 322 + 4
                * files@[i]@.contents.len(),
{
    let ghost fviews = files_views(files@);
    let mut blocks: Vec<FileBlock> = Vec::new();
    let mut i: usize = 0;
    while i < code_books.len()
        invariant
            code_books@.len() == files@.len(),
            forall|k: int|
                0 <= k < files@.len() ==> (#[trigger] code_books@[k]).wf_for(files@[k]@.contents),
            forall|k: int|
                0 <= k < files@.len() ==> (#[trigger] code_books@[k]).filename_rel@
                    == files@[k]@.filename_rel,
            files_fit(fviews),
            fviews == files_views(files@),
            i <= files@.len(),
            blocks@.len() == i,
            forall|k: int|
                0 <= k < i ==> file_entry_ok(
                    fviews[k],
                    #[trigger] blocks_view(blocks@)[k],
                    books_trees(code_books@)[k],
                ),
            forall|k: int| 0 <= k < i ==> (#[trigger] blocks_view(blocks@)[k]).file_byte_offset == 0,
            forall|k: int|
                0 <= k < i ==> region_len(#[trigger] blocks_view(blocks@)[k]) <= 322 + 4
                    * files@[k]@.contents.len(),
        decreases files@.len() - i,
    {
        let book = &code_books[i];
        let ghost contents = files@[i as int]@.contents;
        proof {
            lemma_total_contents_mono(fviews, i as int, fviews.len() as int);
            lemma_total_contents_mono(fviews, 0, i as int);
            assert(total_contents(fviews, i + 1) == total_contents(fviews, i as int)
                + contents.len());
            lemma_total_contents_mono(fviews, i + 1, fviews.len() as int);
            lemma_sum_counts(contents);
        }
        let mut data_bit_size: u64 = 0;
        let mut char_count: u64 = 0;
        let mut s: usize = 0;
        while s < 256
            invariant
                s <= 256,
                book == &code_books@[i as int],
                book.wf_for(contents),
                contents.len() <= 0x4_0000_0000_0000,
                sum_freq_upto(book.freq_table@, 256) == contents.len(),
                data_bit_size == table_bits_upto(book.freq_table@, book.symbol_table@, s as int),
                data_bit_size <= 32 * sum_freq_upto(book.freq_table@, s as int),
                char_count == support_upto(book.freq_table@, s as int).len(),
                char_count <= s,
            decreases 256 - s,
        {
            let f = book.freq_table[s];
            let bl = book.symbol_table[s].bit_len as u64;
            proof {
                assert(bl <= 32) by {
                    match &book.tree {
                        Option::None => {},
                        Option::Some(ct) => {
                            if ct.root.leaves().count(s as u8) >= 1 {
                                assert(book.symbol_table@[s as int].wf());
                            }
                        },
                    }
                }
                assert(f * bl <= f * 32) by (nonlinear_arith)
                    requires
                        bl <= 32,
                        f >= 0,
                ;
                lemma_sum_freq_mono(book.freq_table@, s + 1, 256);
                lemma_sum_freq_mono(book.freq_table@, 0, s as int);
                assert(32 * sum_freq_upto(book.freq_table@, s + 1) == 32 * sum_freq_upto(
                    book.freq_table@,
                    s as int,
                ) + 32 * f) by (nonlinear_arith)
                    requires
                        sum_freq_upto(book.freq_table@, s + 1) == sum_freq_upto(
                            book.freq_table@,
                            s as int,
                        ) + f,
                ;
                assert(32 * sum_freq_upto(book.freq_table@, s + 1) <= 32 * contents.len())
                    by (nonlinear_arith)
                    requires
                        sum_freq_upto(book.freq_table@, s + 1) <= contents.len(),
                ;
            }
            data_bit_size = data_bit_size + f * bl;
            if f > 0 {
                char_count = char_count + 1;
            }
            s = s + 1;
        }
        let tree_bit_size: u64 = if char_count > 0 {
            10 * char_count - 1
        } else {
            0
        };
        proof {
            crate::codec::lemma_support_of_contents(contents);
            match &book.tree {
                Option::None => {
                    assert(char_count == 0);
                },
                Option::Some(ct) => {
                    assert(char_count == support(freq_of(contents)).len());
                    assert(char_count >= 1);
                    crate::tree::lemma_tree_bit_size(*ct.root);
                    lemma_support_upto_len(freq_of(contents), 256);
                    assert forall|s2: u8| count_byte(contents, s2) >= 1 implies ct.root.leaves().count(
                        s2,
                    ) >= 1 by {
                        crate::codec::lemma_count_byte_le_len(contents, s2);
                        assert(freq_of(contents)[s2 as int] == count_byte(contents, s2) as u64);
                        lemma_support_upto_count(freq_of(contents), 256, s2);
                    }
                    assert forall|s2: u8| ct.root.leaves().count(s2) >= 1 implies (
                    book.symbol_table@[s2 as int]).bit_len == ct.root.tcode(s2).len() by {
                        let e = book.symbol_table@[s2 as int];
                        assert(e.bits() == ct.root.tcode(s2));
                        assert(e.bits().len() == e.bit_len);
                    }
                    assert forall|ii: int| 0 <= ii < contents.len() implies ct.root.leaves().count(
                        #[trigger] contents[ii],
                    ) >= 1 by {
                        lemma_count_byte_pos(contents, ii);
                    }
                    lemma_table_bits_payload(contents, *ct.root, book.symbol_table@, 256);
                    lemma_payload_bits(contents, *ct.root);
                    lemma_encode_len_bound(contents, *ct.root);
                },
            }
        }
        let block = FileBlock {
            filename_rel: clone_bytes(&book.filename_rel),
            file_byte_offset: 0,
            og_byte_size: book.og_byte_size,
            tree_bit_size,
            data_bit_size,
        };
        proof {
            let bv = block@;
            let c = contents.len() as int;
            assert(bv.tree_bit_size + bv.data_bit_size <= 2559 + 32 * c);
            assert(1 + (bv.tree_bit_size + bv.data_bit_size + 7) / 8 <= 4 * c + 322)
                by (nonlinear_arith)
                requires
                    bv.tree_bit_size + bv.data_bit_size <= 2559 + 32 * c,
                    bv.tree_bit_size >= 0,
                    bv.data_bit_size >= 0,
                    c >= 0,
            ;
        }
        let ghost prev_blocks = blocks@;
        blocks.push(block);
        proof {
            assert(blocks@ == prev_blocks.push(block));
            assert forall|k: int| 0 <= k < i + 1 implies ({
                &&& #[trigger] blocks_view(blocks@)[k] == (if k < i {
                    blocks_view(prev_blocks)[k]
                } else {
                    block@
                })
            }) by {
                if k < i {
                    assert(blocks@[k] == prev_blocks[k]);
                } else {
                    assert(blocks@[k] == block);
                }
            }
            assert(fviews[i as int] == files@[i as int]@);
            assert(books_trees(code_books@)[i as int] == book_tree(code_books@[i as int]));
            match &book.tree {
                Option::None => {
                    lemma_sum_freq_mono(book.freq_table@, 0, 256);
                    assert(block@.data_bit_size == 0);
                },
                Option::Some(ct) => {
                    lemma_support_upto_len(freq_of(contents), 256);
                },
            }
            assert(file_entry_ok(fviews[i as int], block@, books_trees(code_books@)[i as int]));
        }
        i = i + 1;
    }
    blocks
}

/// Copies the blocks with each payload offset set to the place the layout
/// formula assigns it: the header region, then every earlier file's region.
pub fn assign_offsets(blocks: &Vec<FileBlock>) -> (r: Vec<FileBlock>)
    requires
        forall|i: int| 0 <= i < blocks@.len() ==> (#[trigger] blocks_view(blocks@)[i]).wf(),
        forall|i: int|
            0 <= i < blocks@.len() ==> (#[trigger] blocks_view(blocks@)[i]).filename_rel.len()
                <= 0x1_0000,
        forall|i: int|
            0 <= i < blocks@.len() ==> (#[trigger] blocks_view(blocks@)[i]).tree_bit_size
                + blocks_view(blocks@)[i].data_bit_size <= 0x2000_0000_0000_0000,
        offset_of(blocks_view(blocks@), blocks@.len() as int) + 8 <= MAX_DATA_BYTES,
    ensures
        r@.len() == blocks@.len(),
        forall|i: int|
            0 <= i < blocks@.len() ==> ({
                let old_b = blocks_view(blocks@)[i];
                let new_b = #[trigger] blocks_view(r@)[i];
                &&& new_b.filename_rel == old_b.filename_rel
                &&& new_b.og_byte_size == old_b.og_byte_size
                &&& new_b.tree_bit_size == old_b.tree_bit_size
                &&& new_b.data_bit_size == old_b.data_bit_size
                &&& new_b.file_byte_offset == offset_of(blocks_view(blocks@), i)
            }),
        offsets_ok(blocks_view(r@)),
{
    let ghost views = blocks_view(blocks@);
    let n = blocks.len();
    proof {
        lemma_header_region_bound(views, n as int);
        lemma_offset_mono(views, 0, n as int);
    }
    let mut header_size: u64 = 1;
    let mut i: usize = 0;
    while i < n
        invariant
            i <= n,
            n == blocks@.len(),
            views == blocks_view(blocks@),
            forall|k: int| 0 <= k < n ==> (#[trigger] views[k]).wf(),
            forall|k: int| 0 <= k < n ==> (#[trigger] views[k]).filename_rel.len() <= 0x1_0000,
            offset_of(views, n as int) + 8 <= MAX_DATA_BYTES,
            header_size == header_region_size(views, i as int),
        decreases n - i,
    {
        proof {
            lemma_header_region_mono(views, i + 1, n as int);
            lemma_offset_mono(views, 0, n as int);
            assert(header_region_size(views, n as int) == offset_of(views, 0));
            assert(blocks@[i as int]@ == views[i as int]);
        }
        let hs = blocks[i].get_header_size();
        header_size = header_size + hs + 1;
        i = i + 1;
    }
    let mut total_offset: u64 = 0;
    let mut r: Vec<FileBlock> = Vec::new();
    let mut j: usize = 0;
    proof {
        assert(header_region_size(views, n as int) == offset_of(views, 0));
    }
    while j < n
        invariant
            j <= n,
            n == blocks@.len(),
            views == blocks_view(blocks@),
            forall|k: int| 0 <= k < n ==> (#[trigger] views[k]).wf(),
            forall|k: int|
                0 <= k < n ==> (#[trigger] views[k]).tree_bit_size + views[k].data_bit_size
                    <= 0x2000_0000_0000_0000,
            offset_of(views, n as int) + 8 <= MAX_DATA_BYTES,
            header_size == header_region_size(views, n as int),
            header_size + total_offset == offset_of(views, j as int),
            r@.len() == j,
            forall|k: int|
                0 <= k < j ==> ({
                    let old_b = views[k];
                    let new_b = #[trigger] blocks_view(r@)[k];
                    &&& new_b.filename_rel == old_b.filename_rel
                    &&& new_b.og_byte_size == old_b.og_byte_size
                    &&& new_b.tree_bit_size == old_b.tree_bit_size
                    &&& new_b.data_bit_size == old_b.data_bit_size
                    &&& new_b.file_byte_offset == offset_of(views, k)
                }),
        decreases n - j,
    {
        proof {
            lemma_offset_mono(views, j + 1, n as int);
            assert(offset_of(views, j + 1) == offset_of(views, j as int) + region_len(
                views[j as int],
            ));
            assert(blocks@[j as int]@ == views[j as int]);
        }
        let b = &blocks[j];
        let off = header_size + total_offset;
        let nb = FileBlock {
            filename_rel: clone_bytes(&b.filename_rel),
            file_byte_offset: off,
            og_byte_size: b.og_byte_size,
            tree_bit_size: b.tree_bit_size,
            data_bit_size: b.data_bit_size,
        };
        let ghost prev_r = r@;
        r.push(nb);
        total_offset = total_offset + 1 + (b.tree_bit_size + b.data_bit_size + 7) / 8;
        proof {
            assert(r@ == prev_r.push(nb));
            assert forall|k: int| 0 <= k < j + 1 implies #[trigger] blocks_view(r@)[k] == (if k
                < j {
                blocks_view(prev_r)[k]
            } else {
                nb@
            }) by {
                if k < j {
                    assert(r@[k] == prev_r[k]);
                } else {
                    assert(r@[k] == nb);
                }
            }
        }
        j = j + 1;
    }
    proof {
        let rv = blocks_view(r@);
        assert forall|i2: int| 0 <= i2 < rv.len() implies (#[trigger] rv[i2]).file_byte_offset
            == offset_of(rv, i2) by {
            lemma_offset_congruence(views, rv, i2);
        }
    }
    r
}

/// Writes the header region: each block's header preceded by a record
/// separator, then the closing group separator.
pub fn write_block_headers(writer: &mut BitWriter, blocks: &Vec<FileBlock>)
    requires
        old(writer).wf(),
        forall|i: int| 0 <= i < blocks@.len() ==> (#[trigger] blocks_view(blocks@)[i]).wf(),
    ensures
        final(writer).wf(),
        final(writer)@ == old(writer)@ + bits_of_bytes(headers_bytes(blocks_view(blocks@))),
{
    let ghost views = blocks_view(blocks@);
    let ghost base = old(writer)@;
    let mut i: usize = 0;
    proof {
        assert(base =~= base + bits_of_bytes(headers_prefix(views, 0)));
    }
    while i < blocks.len()
        invariant
            writer.wf(),
            i <= blocks@.len(),
            views == blocks_view(blocks@),
            forall|k: int| 0 <= k < blocks@.len() ==> (#[trigger] views[k]).wf(),
            writer@ == base + bits_of_bytes(headers_prefix(views, i as int)),
        decreases blocks@.len() - i,
    {
        proof {
            assert(blocks@[i as int]@ == views[i as int]);
        }
        writer.write_byte(REC_SEP);
        writer.write_block(&blocks[i]);
        proof {
            lemma_bits_of_bytes_singleton(REC_SEP);
            lemma_bits_of_bytes_add(headers_prefix(views, i as int), seq![REC_SEP]);
            lemma_bits_of_bytes_add(
                headers_prefix(views, i as int) + seq![REC_SEP],
                views[i as int].header_bytes(),
            );
            assert(writer@ =~= base + bits_of_bytes(headers_prefix(views, i + 1)));
        }
        i = i + 1;
    }
    writer.write_byte(GRP_SEP);
    proof {
        lemma_bits_of_bytes_singleton(GRP_SEP);
        lemma_bits_of_bytes_add(headers_prefix(views, views.len() as int), seq![GRP_SEP]);
        assert(writer@ =~= base + bits_of_bytes(headers_bytes(views)));
    }
}

/// Serializes a prefix tree: a one bit and eight symbol bits per leaf, a
/// zero bit and both children per internal node.
pub fn write_tree(writer: &mut BitWriter, tree: &Tree)
    requires
        old(writer).wf(),
    ensures
        final(writer).wf(),
        final(writer)@ == old(writer)@ + tree.tree_bits(),
    decreases *tree,
{
    let ghost base = old(writer)@;
    match tree {
        Tree::Leaf { plain_symbol, .. } => {
            writer.write_bit(1);
            writer.write_bits(*plain_symbol, 8);
            proof {
                assert(crate::bitwise::byte_bits(*plain_symbol).take(8) =~= crate::bitwise::byte_bits(
                    *plain_symbol,
                ));
                assert(writer@ =~= base + tree.tree_bits());
            }
        },
        Tree::Internal { left, right, .. } => {
            writer.write_bit(0);
            write_tree(writer, left);
            write_tree(writer, right);
            proof {
                assert(writer@ =~= base + tree.tree_bits());
            }
        },
    }
}

/// Writes every file's region in order: its serialized tree, its payload,
/// zero bits to the next byte boundary, and one padding byte.
pub fn compress_files(writer: &mut BitWriter, code_books: &Vec<CodeBook>, files: &Vec<FileData>)
    requires
        old(writer).wf(),
        old(writer)@.len() % 8 == 0,
        code_books@.len() == files@.len(),
        forall|i: int|
            0 <= i < files@.len() ==> (#[trigger] code_books@[i]).wf_for(files@[i]@.contents),
    ensures
        final(writer).wf(),
        final(writer)@ == old(writer)@ + regions_bits(
            files_views(files@),
            books_trees(code_books@),
            files@.len() as int,
        ),
        final(writer)@.len() % 8 == 0,
{
    let ghost fviews = files_views(files@);
    let ghost trees = books_trees(code_books@);
    let ghost base = old(writer)@;
    let mut i: usize = 0;
    proof {
        assert(base =~= base + regions_bits(fviews, trees, 0));
    }
    while i < files.len()
        invariant
            writer.wf(),
            i <= files@.len(),
            code_books@.len() == files@.len(),
            fviews == files_views(files@),
            trees == books_trees(code_books@),
            forall|k: int|
                0 <= k < files@.len() ==> (#[trigger] code_books@[k]).wf_for(files@[k]@.contents),
            writer@ == base + regions_bits(fviews, trees, i as int),
            writer@.len() % 8 == 0,
        decreases files@.len() - i,
    {
        let ghost region_start = writer@;
        let ghost contents = files@[i as int]@.contents;
        let book = &code_books[i];
        proof {
            assert(trees[i as int] == book_tree(code_books@[i as int]));
            assert(fviews[i as int] == files@[i as int]@);
        }
        match &book.tree {
            None => {
                writer.write_byte(0);
                proof {
                    assert(file_region_bits(contents, trees[i as int])
                        =~= crate::bitwise::byte_bits(0));
                }
            },
            Some(ct) => {
                write_tree(writer, &ct.root);
                let file = &files[i];
                let mut k: usize = 0;
                proof {
                    assert(encode_content(contents.take(0), *ct.root) =~= Seq::<bool>::empty());
                    assert(writer@ =~= region_start + (ct.root.tree_bits() + encode_content(
                        contents.take(0),
                        *ct.root,
                    )));
                }
                while k < file.contents.len()
                    invariant
                        writer.wf(),
                        k <= contents.len(),
                        file == &files@[i as int],
                        0 <= i < files@.len(),
                        code_books@.len() == files@.len(),
                        book == &code_books@[i as int],
                        contents == files@[i as int]@.contents,
                        book.wf_for(contents),
                        book.tree matches Some(c) && c.root == ct.root,
                        writer@ == region_start + (ct.root.tree_bits() + encode_content(
                            contents.take(k as int),
                            *ct.root,
                        )),
                    decreases contents.len() - k,
                {
                    let b = file.contents[k];
                    proof {
                        lemma_count_byte_pos(contents, k as int);
                        crate::codec::lemma_count_byte_le_len(contents, b);
                        assert(freq_of(contents)[b as int] == count_byte(contents, b) as u64);
                        lemma_support_upto_count(freq_of(contents), 256, b);
                        assert(ct.root.leaves().count(b) >= 1);
                    }
                    let code = &book.symbol_table[b as usize];
                    writer.write_symbol(code);
                    proof {
                        assert(code.bits() == ct.root.tcode(b));
                        assert(contents.take(k + 1) =~= contents.take(k as int).push(b));
                        lemma_encode_content_push(contents.take(k as int), b, *ct.root);
                        assert(writer@ =~= region_start + (ct.root.tree_bits() + encode_content(
                            contents.take(k + 1),
                            *ct.root,
                        )));
                    }
                    k = k + 1;
                }
                proof {
                    assert(contents.take(contents.len() as int) =~= contents);
                }
                writer.align_to_byte();
                proof {
                    lemma_align_concat(
                        region_start,
                        ct.root.tree_bits() + encode_content(contents, *ct.root),
                    );
                }
                writer.write_byte(0);
                proof {
                    assert(writer@ =~= region_start + file_region_bits(
                        contents,
                        trees[i as int],
                    ));
                }
            },
        }
        proof {
            assert(writer@ =~= base + regions_bits(fviews, trees, i + 1));
            let fr = file_region_bits(contents, trees[i as int]);
            assert(fr.len() % 8 == 0) by {
                match trees[i as int] {
                    Option::None => {},
                    Option::Some(t) => {
                        let inner = t.tree_bits() + encode_content(contents, t);
                        lemma_align_len(inner.len() as int);
                    },
                }
            }
            assert(writer@.len() % 8 == 0) by (nonlinear_arith)
                requires
                    writer@.len() == region_start.len() + fr.len(),
                    region_start.len() % 8 == 0,
                    fr.len() % 8 == 0,
            ;
        }
        i = i + 1;
    }
}

/// Builds the whole archive image for a set of files: the signature, the
/// header region carrying each file's sizes and payload offset, and each
/// file's compressed region in order.  Fails only when some file needs a
/// Huffman code longer than 32 bits, which a file with at most 33 distinct
/// byte values can never do.
pub fn build_archive(files: &Vec<FileData>) -> (r: Result<Vec<u8>, ArchiveError>)
    requires
        files_fit(files_views(files@)),
    ensures
        r matches Ok(bytes) ==> represents(bytes@, files_views(files@)),
        r matches Ok(bytes) ==> bytes@.len() <= MAX_DATA_BYTES,
        r matches Err(e) ==> e == ArchiveError::CodeTooLong,
        r is Ok <==> (forall|i: int|
            0 <= i < files@.len() ==> codeable(#[trigger] files@[i]@.contents)),
        (forall|i: int|
            0 <= i < files@.len() ==> support(freq_of(#[trigger] files@[i]@.contents)).len()
                <= 33) ==> r is Ok,
{
    let ghost fviews = files_views(files@);
    let mut code_books: Vec<CodeBook> = Vec::new();
    let mut i: usize = 0;
    while i < files.len()
        invariant
            i <= files@.len(),
            fviews == files_views(files@),
            files_fit(fviews),
            code_books@.len() == i,
            forall|k: int| 0 <= k < i ==> (#[trigger] code_books@[k]).wf_for(files@[k]@.contents),
            forall|k: int|
                0 <= k < i ==> (#[trigger] code_books@[k]).filename_rel@
                    == files@[k]@.filename_rel,
            forall|k: int| 0 <= k < i ==> codeable(#[trigger] files@[k]@.contents),
        decreases files@.len() - i,
    {
        proof {
            lemma_total_contents_mono(fviews, 0, i as int);
            assert(total_contents(fviews, i + 1) == total_contents(fviews, i as int)
                + fviews[i as int].contents.len());
            lemma_total_contents_mono(fviews, i + 1, fviews.len() as int);
            assert(fviews[i as int] == files@[i as int]@);
        }
        let name = clone_bytes(&files[i].filename_rel);
        let book = match create_code_book(name, &files[i].contents) {
            Ok(b) => b,
            Err(e) => {
                return Err(e);
            },
        };
        let ghost prev = code_books@;
        code_books.push(book);
        proof {
            assert(code_books@ == prev.push(book));
            assert forall|k: int| 0 <= k < i + 1 implies #[trigger] code_books@[k] == (if k < i {
                prev[k]
            } else {
                book
            }) by {
                if k < i {
                    assert(code_books@[k] == prev[k]);
                } else {
                    assert(code_books@[k] == book);
                }
            }
        }
        i = i + 1;
    }
    let blocks0 = create_file_blocks(&code_books, files);
    let ghost views0 = blocks_view(blocks0@);
    let ghost trees = books_trees(code_books@);
    proof {
        assert forall|j: int| 0 <= j < views0.len() implies ({
            &&& (#[trigger] views0[j]).wf()
            &&& views0[j].filename_rel.len() <= 0x1_0000
            &&& views0[j].tree_bit_size + views0[j].data_bit_size <= 0x2000_0000_0000_0000
            &&& region_len(views0[j]) <= 322 + 4 * fviews[j].contents.len()
        }) by {
            assert(file_entry_ok(fviews[j], views0[j], trees[j]));
            assert(fviews[j] == files@[j]@);
            let td = views0[j].tree_bit_size + views0[j].data_bit_size;
            lemma_align_len(td as int);
            lemma_total_contents_mono(fviews, 0, j);
            assert(total_contents(fviews, j + 1) == total_contents(fviews, j)
                + fviews[j].contents.len());
            lemma_total_contents_mono(fviews, j + 1, fviews.len() as int);
            assert(td <= 8 * ((td + 7) / 8)) by (nonlinear_arith)
                requires
                    td >= 0,
            ;
        }
        lemma_header_region_bound(views0, views0.len() as int);
        lemma_offset_bound(views0, fviews, views0.len() as int);
        lemma_total_contents_mono(fviews, 0, fviews.len() as int);
        assert(offset_of(views0, views0.len() as int) + 8 <= MAX_DATA_BYTES);
    }
    let blocks = assign_offsets(&blocks0);
    let ghost views = blocks_view(blocks@);
    proof {
        lemma_offset_congruence(views0, views, views.len() as int);
        assert forall|j: int| 0 <= j < views.len() implies offset_of(views0, j) == offset_of(
            views,
            j,
        ) by {
            lemma_offset_congruence(views0, views, j);
        }
        assert forall|j: int| 0 <= j < fviews.len() implies file_entry_ok(
            fviews[j],
            #[trigger] views[j],
            trees[j],
        ) by {
            assert(file_entry_ok(fviews[j], views0[j], trees[j]));
        }
    }
    let mut writer = BitWriter::new();
    writer.write_u64(SIG);
    write_block_headers(&mut writer, &blocks);
    proof {
        lemma_auto_spec_u64_to_from_le_bytes();
        lemma_bits_of_bytes_add(sig_bytes(), headers_bytes(views));
        assert(Seq::<bool>::empty() + bits_of_bytes(sig_bytes()) + bits_of_bytes(
            headers_bytes(views),
        ) =~= bits_of_bytes(sig_bytes() + headers_bytes(views)));
        let hb = (sig_bytes() + headers_bytes(views)).len() as int;
        assert(writer@.len() == 8 * hb) by {
            assert(bits_of_bytes(sig_bytes() + headers_bytes(views)).len() == hb * 8);
        }
        assert((8 * hb) % 8 == 0) by (nonlinear_arith);
    }
    compress_files(&mut writer, &code_books, files);
    let ghost final_bits = writer@;
    let bytes = writer.into_bytes();
    proof {
        let n = fviews.len() as int;
        let regions = regions_bits(fviews, trees, n);
        assert(final_bits == bits_of_bytes(sig_bytes() + headers_bytes(views)) + regions);
        lemma_regions_aligned(fviews, trees, n);
        assert(align_bits(final_bits) =~= final_bits);
        lemma_pack_bits_concat(sig_bytes() + headers_bytes(views), regions);
        assert(bytes@ == (sig_bytes() + headers_bytes(views)) + pack_bits(regions));
        lemma_headers_bytes_len(views, views.len() as int);
        lemma_regions_len(fviews, views, trees, n);
        assert(pack_bits(regions).len() == regions.len() / 8);
        assert(regions.len() / 8 == offset_of(views, n) - offset_of(views, 0))
            by (nonlinear_arith)
            requires
                regions.len() == 8 * (offset_of(views, n) - offset_of(views, 0)),
        ;
        assert(bytes@.len() == 8 + offset_of(views, n));
        assert(bytes@ == sig_bytes() + headers_bytes(views) + pack_bits(regions));
        assert(archive_image(bytes@, fviews, views, trees));
        assert(represents(bytes@, fviews));
    }
    Ok(bytes)
}

} // verus!
