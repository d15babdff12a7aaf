//! Archive metadata and symbol types: the per-file header block and the
//! per-byte Huffman code.

use crate::bitwise::u32_bit;
use vstd::bytes::{
    lemma_auto_spec_u64_to_from_le_bytes, spec_u64_from_le_bytes, spec_u64_to_le_bytes,
};
use vstd::prelude::*;

verus! {

/// The failures the library reports.
#[derive(Clone, Copy, Debug, PartialEq, Eq, Structural)]
pub enum ArchiveError {
    /// A read needed more data than the archive holds: the archive is
    /// truncated or its recorded sizes are wrong.
    UnexpectedEndOfData,
    /// The data does not begin with the archive format signature.
    InvalidSignature,
    /// A file's Huffman tree is deeper than the fixed-width code word can
    /// record, so no symbol table can be built for it.
    CodeTooLong,
}

/// Ghost image of a [`FileBlock`]: the same fields with the path as a byte
/// sequence.
pub struct FileBlockView {
    pub filename_rel: Seq<u8>,
    pub file_byte_offset: u64,
    pub og_byte_size: u64,
    pub tree_bit_size: u64,
    pub data_bit_size: u64,
}

/// The metadata of one file within a compressed archive.
#[derive(Clone)]
pub struct FileBlock {
    /// Name of the file relative to the base directory of the archive,
    /// as raw path bytes.
    pub filename_rel: Vec<u8>,
    /// Byte offset of the file's compressed region in the archive,
    /// counted from the end of the signature.
    pub file_byte_offset: u64,
    /// Original (uncompressed) file size in bytes.
    pub og_byte_size: u64,
    /// Length of the serialized tree structure in bits.
    pub tree_bit_size: u64,
    /// Length of the compressed data in bits.
    pub data_bit_size: u64,
}

impl View for FileBlock {
    type V = FileBlockView;

    open spec fn view(&self) -> FileBlockView {
        FileBlockView {
            filename_rel: self.filename_rel@,
            file_byte_offset: self.file_byte_offset,
            og_byte_size: self.og_byte_size,
            tree_bit_size: self.tree_bit_size,
            data_bit_size: self.data_bit_size,
        }
    }
}

impl FileBlockView {
    /// A block whose header can be written and read back: the path holds no
    /// NUL byte (a NUL terminates it on disk) and is short enough for the
    /// header size to fit in a `u64`.
    pub open spec fn wf(self) -> bool {
        &&& forall|i: int| 0 <= i < self.filename_rel.len() ==> self.filename_rel[i] != 0
        &&& self.filename_rel.len() + 33 <= u64::MAX
    }

    /// The header image of this block: the NUL-terminated path followed by
    /// the four size fields as little-endian 64-bit integers.
    pub open spec fn header_bytes(self) -> Seq<u8> {
        self.filename_rel + seq![0u8] + spec_u64_to_le_bytes(self.tree_bit_size)
            + spec_u64_to_le_bytes(self.data_bit_size) + spec_u64_to_le_bytes(self.file_byte_offset)
            + spec_u64_to_le_bytes(self.og_byte_size)
    }

    /// Header size in bytes: the path, its NUL terminator, and four 8-byte
    /// integers.
    pub open spec fn spec_header_size(self) -> int {
        self.filename_rel.len() as int + 33
    }
}

/// The header image is exactly as long as the header size says.
pub proof fn lemma_header_bytes_len(b: FileBlockView)
    ensures
        b.header_bytes().len() == b.spec_header_size(),
{
    lemma_auto_spec_u64_to_from_le_bytes();
}

impl FileBlock {
    /// Size in bytes of this block's header record, terminator included.
    pub fn get_header_size(&self) -> (r: u64)
        requires
            self@.filename_rel.len() + 33 <= u64::MAX,
        ensures
            r == self@.spec_header_size(),
            r == self@.header_bytes().len(),
    {
        proof {
            lemma_header_bytes_len(self@);
        }
        self.filename_rel.len() as u64 + 33
    }

    /// Byte size of the compressed region as reported by a listing: the
    /// tree and payload bit lengths together, in whole bytes rounded down.
    pub fn total_byte_size(&self) -> (r: u64)
        requires
            self@.data_bit_size + self@.tree_bit_size <= u64::MAX,
        ensures
            r == (self@.data_bit_size + self@.tree_bit_size) as int / 8,
    {
        (self.data_bit_size + self.tree_bit_size) / 8
    }
}

/// The byte size of a value's type; each of a header's four integer
/// fields occupies one such `u64`.
pub fn get_size_of<T>(_v: T) -> (r: usize)
    ensures
        r == vstd::layout::size_of::<T>(),
{
    core::mem::size_of::<T>()
}

/// Compressed-to-original size ratio in whole percent, rounded up, or
/// `None` for a zero-byte original, for which no ratio is defined.  The
/// ratio is at most 100 exactly when compression did not grow the file.
pub fn ratio_percent(total_byte_size: u64, og_byte_size: u64) -> (r: Option<u128>)
    ensures
        r is Some <==> og_byte_size > 0,
        r matches Some(p) ==> p == (100 * (total_byte_size as int) + og_byte_size - 1) / (
        og_byte_size as int),
        r matches Some(p) ==> (p <= 100 <==> total_byte_size <= og_byte_size),
{
    if og_byte_size == 0 {
        None
    } else {
        let p = (100u128 * (total_byte_size as u128) + (og_byte_size as u128) - 1) / (
        og_byte_size as u128);
        proof {
            let t = total_byte_size as int;
            let o = og_byte_size as int;
            assert(t <= o ==> (100 * t + o - 1) / o <= 100) by (nonlinear_arith)
                requires
                    o > 0,
            ;
            assert(t > o ==> (100 * t + o - 1) / o > 100) by (nonlinear_arith)
                requires
                    o > 0,
            ;
        }
        Some(p)
    }
}

/// Ghost image of a [`FileData`].
pub struct FileDataView {
    pub filename_rel: Seq<u8>,
    pub contents: Seq<u8>,
}

/// One file handed to or recovered from the archiver: its relative path as
/// raw bytes and its contents.
#[derive(Clone)]
pub struct FileData {
    pub filename_rel: Vec<u8>,
    pub contents: Vec<u8>,
}

impl View for FileData {
    type V = FileDataView;

    open spec fn view(&self) -> FileDataView {
        FileDataView { filename_rel: self.filename_rel@, contents: self.contents@ }
    }
}

/// Index of the first NUL byte at or after `i`, if any.
pub open spec fn find_nul(s: Seq<u8>, i: int) -> Option<int>
    recommends
        0 <= i,
    decreases s.len() - i,
{
    if i >= s.len() {
        None
    } else if s[i] == 0 {
        Some(i)
    } else {
        find_nul(s, i + 1)
    }
}

/// What `find_nul` finding a NUL at `p` means for the bytes in between.
pub proof fn lemma_find_nul_props(s: Seq<u8>, i: int)
    requires
        0 <= i,
    ensures
        match find_nul(s, i) {
            Some(p) => i <= p < s.len() && s[p] == 0 && forall|j: int| i <= j < p ==> s[j] != 0,
            None => forall|j: int| i <= j < s.len() ==> s[j] != 0,
        },
    decreases s.len() - i,
{
    if i < s.len() && s[i] != 0 {
        lemma_find_nul_props(s, i + 1);
    }
}

/// `find_nul` finds a known NUL preceded by non-NUL bytes.
pub proof fn lemma_find_nul_at(s: Seq<u8>, i: int, p: int)
    requires
        0 <= i <= p < s.len(),
        s[p] == 0,
        forall|j: int| i <= j < p ==> s[j] != 0,
    ensures
        find_nul(s, i) == Some(p),
    decreases p - i,
{
    if i < p {
        lemma_find_nul_at(s, i + 1, p);
    }
}

/// Parses one block header at byte index `start`: the NUL-terminated path
/// and four little-endian 64-bit size fields.  Returns the block and the
/// number of bytes the header occupies.
pub open spec fn parse_header(data: Seq<u8>, start: int) -> Option<(FileBlockView, nat)>
    recommends
        0 <= start,
{
    match find_nul(data, start) {
        None => None,
        Some(p) => if p + 33 <= data.len() {
            Some(
                (
                    FileBlockView {
                        filename_rel: data.subrange(start, p),
                        tree_bit_size: spec_u64_from_le_bytes(data.subrange(p + 1, p + 9)),
                        data_bit_size: spec_u64_from_le_bytes(data.subrange(p + 9, p + 17)),
                        file_byte_offset: spec_u64_from_le_bytes(data.subrange(p + 17, p + 25)),
                        og_byte_size: spec_u64_from_le_bytes(data.subrange(p + 25, p + 33)),
                    },
                    (p + 33 - start) as nat,
                ),
            )
        } else {
            None
        },
    }
}

/// Round trip of header serialization: parsing bytes that hold a block's
/// header image yields that block and consumes exactly its header.
pub proof fn lemma_parse_header_round_trip(data: Seq<u8>, start: int, bv: FileBlockView)
    requires
        bv.wf(),
        0 <= start,
        start + bv.spec_header_size() <= data.len(),
        data.subrange(start, start + bv.spec_header_size()) == bv.header_bytes(),
    ensures
        parse_header(data, start) == Some((bv, bv.spec_header_size() as nat)),
{
    lemma_auto_spec_u64_to_from_le_bytes();
    let n = bv.filename_rel.len() as int;
    let img = bv.header_bytes();
    let p = start + n;
    assert forall|j: int| start <= j < p implies data[j] != 0 by {
        assert(img[j - start] == bv.filename_rel[j - start]);
        assert(data[j] == img[j - start]);
    }
    assert(data[p] == img[n]);
    assert(img[n] == 0);
    lemma_find_nul_at(data, start, p);
    let parsed = FileBlockView {
        filename_rel: data.subrange(start, p),
        tree_bit_size: spec_u64_from_le_bytes(data.subrange(p + 1, p + 9)),
        data_bit_size: spec_u64_from_le_bytes(data.subrange(p + 9, p + 17)),
        file_byte_offset: spec_u64_from_le_bytes(data.subrange(p + 17, p + 25)),
        og_byte_size: spec_u64_from_le_bytes(data.subrange(p + 25, p + 33)),
    };
    assert(parse_header(data, start) == Some((parsed, (p + 33 - start) as nat)));
    assert(data.subrange(start, p) =~= bv.filename_rel);
    let t1 = spec_u64_to_le_bytes(bv.tree_bit_size);
    let t2 = spec_u64_to_le_bytes(bv.data_bit_size);
    let t3 = spec_u64_to_le_bytes(bv.file_byte_offset);
    let t4 = spec_u64_to_le_bytes(bv.og_byte_size);
    assert(data.subrange(p + 1, p + 9) =~= t1) by {
        assert forall|j: int| 0 <= j < 8 implies data.subrange(p + 1, p + 9)[j] == t1[j] by {
            assert(data[p + 1 + j] == img[n + 1 + j]);
        }
    }
    assert(data.subrange(p + 9, p + 17) =~= t2) by {
        assert forall|j: int| 0 <= j < 8 implies data.subrange(p + 9, p + 17)[j] == t2[j] by {
            assert(data[p + 9 + j] == img[n + 9 + j]);
        }
    }
    assert(data.subrange(p + 17, p + 25) =~= t3) by {
        assert forall|j: int| 0 <= j < 8 implies data.subrange(p + 17, p + 25)[j] == t3[j] by {
            assert(data[p + 17 + j] == img[n + 17 + j]);
        }
    }
    assert(data.subrange(p + 25, p + 33) =~= t4) by {
        assert forall|j: int| 0 <= j < 8 implies data.subrange(p + 25, p + 33)[j] == t4[j] by {
            assert(data[p + 25 + j] == img[n + 25 + j]);
        }
    }
    assert(parsed == bv);
}

/// One byte value's Huffman code: the original byte, the bit pattern
/// (least-significant bit is the first bit emitted), and its bit length.
#[derive(Clone, Copy)]
pub struct SymbolCode {
    pub plain_symbol: u8,
    pub encoded_symbol: u32,
    pub bit_len: u8,
}

impl SymbolCode {
    /// The code's bit pattern as a sequence, first emitted bit first.
    pub open spec fn bits(self) -> Seq<bool>
        recommends
            self.bit_len <= 32,
    {
        Seq::new(self.bit_len as nat, |i: int| u32_bit(self.encoded_symbol, i as u32))
    }

    /// A code built by appending bits: the length fits the pattern word and
    /// the bits above the length are clear.
    pub open spec fn wf(self) -> bool {
        &&& self.bit_len <= 32
        &&& forall|i: u32| self.bit_len <= i < 32 ==> !u32_bit(self.encoded_symbol, i)
    }

    /// The empty code for symbol zero.
    pub fn new() -> (r: SymbolCode)
        ensures
            r.plain_symbol == 0,
            r.encoded_symbol == 0,
            r.bit_len == 0,
            r.bits() == Seq::<bool>::empty(),
            r.wf(),
    {
        let r = SymbolCode { plain_symbol: 0, encoded_symbol: 0, bit_len: 0 };
        proof {
            assert(r.bits() =~= Seq::<bool>::empty());
            assert(forall|i: u32| i < 32 ==> (0u32 >> i) & 1 == 0) by (bit_vector);
        }
        r
    }

    /// The code extended by one more bit at its end.
    pub fn append_bit(&self, bit: u32) -> (r: SymbolCode)
        requires
            bit <= 1,
            self.bit_len < 32,
            self.wf(),
        ensures
            r.plain_symbol == self.plain_symbol,
            r.bit_len == self.bit_len + 1,
            r.bits() == self.bits().push(bit == 1),
            r.wf(),
    {
        let r = SymbolCode {
            plain_symbol: self.plain_symbol,
            encoded_symbol: self.encoded_symbol ^ (bit << (self.bit_len as u32)),
            bit_len: self.bit_len + 1,
        };
        proof {
            let e = self.encoded_symbol;
            let l = self.bit_len as u32;
            assert(forall|i: u32|
                i < l && l < 32 && bit <= 1 ==> ((#[trigger] ((e ^ (bit << l)) >> i)) & 1) == (e
                    >> i) & 1) by (bit_vector);
            assert(l < 32 && bit <= 1 && (e >> l) & 1 != 1 ==> ((((e ^ (bit << l)) >> l) & 1 == 1)
                == (bit == 1))) by (bit_vector);
            assert(forall|i: u32|
                l < i < 32 && bit <= 1 && (e >> i) & 1 != 1 ==> ((#[trigger] ((e ^ (bit << l))
                    >> i)) & 1 != 1)) by (bit_vector);
            assert(!u32_bit(e, l));
            assert forall|i: int| 0 <= i < r.bit_len implies r.bits()[i] == self.bits().push(
                bit == 1,
            )[i] by {
                if i < self.bit_len {
                    assert(((e ^ (bit << l)) >> (i as u32)) & 1 == (e >> (i as u32)) & 1);
                } else {
                    assert(i as u32 == l);
                    assert((((e ^ (bit << l)) >> l) & 1 == 1) == (bit == 1));
                }
            }
            assert(r.bits() =~= self.bits().push(bit == 1));
            assert forall|i: u32| r.bit_len <= i < 32 implies !u32_bit(r.encoded_symbol, i) by {
                assert(!u32_bit(e, i));
                assert(((e ^ (bit << l)) >> i) & 1 != 1);
            }
        }
        r
    }
}

} // verus!
