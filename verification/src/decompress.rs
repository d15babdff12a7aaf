//! The decompression pipeline: header parsing, tree reconstruction, and
//! bit-by-bit payload decoding, all over in-memory byte buffers.

use crate::bitwise::{byte_bits, lemma_byte_of_byte_bits};
use crate::codec::{
    archive_image, encode_content, file_entry_ok, file_region_bits, lemma_encode_content_push,
    lemma_encode_len_lower, lemma_encode_take_skip, lemma_image_headers, lemma_image_region,
    parse_blocks, region_match, represents, sig_bytes, GRP_SEP, SIG,
};
use crate::compress::files_views;
use crate::structures::FileDataView;
use crate::read::BitReader;
use crate::structures::{ArchiveError, FileBlock, FileBlockView, FileData, parse_header};
use crate::read::MAX_DATA_BYTES;
use crate::tree::{decode_one, decode_sym, lemma_decode_tcode, lemma_strip_shape, parse_tree, Tree};
use vstd::bytes::spec_u64_from_le_bytes;
use vstd::prelude::*;

verus! {

/// The parse of a header region continued after blocks already read.
pub open spec fn prepend_blocks(
    pre: Seq<FileBlockView>,
    rest: Option<Seq<FileBlockView>>,
) -> Option<Seq<FileBlockView>> {
    match rest {
        Option::None => Option::None,
        Option::Some(r) => Option::Some(pre + r),
    }
}

/// The ghost images of a vector of blocks.
pub open spec fn blocks_views(blocks: Seq<FileBlock>) -> Seq<FileBlockView> {
    blocks.map_values(|b: FileBlock| b@)
}

/// Reads the archive's header region from the start of the data: checks
/// the signature, then reads one block per record until the group
/// separator.  Succeeds exactly when the signature matches and the header
/// region parses.
pub fn get_file_blocks(reader: &mut BitReader) -> (r: Result<Vec<FileBlock>, ArchiveError>)
    requires
        old(reader).wf(),
        old(reader).pos() == 0,
    ensures
        final(reader).wf(),
        final(reader).data() == old(reader).data(),
        r is Ok <==> ({
            &&& old(reader).data().len() >= 8
            &&& spec_u64_from_le_bytes(old(reader).data().subrange(0, 8)) == SIG
            &&& parse_blocks(old(reader).data(), 8) is Some
        }),
        r matches Ok(blocks) ==> parse_blocks(old(reader).data(), 8) == Some(
            blocks_views(blocks@),
        ),
        r matches Err(e) ==> (e == ArchiveError::InvalidSignature <==> (old(reader).data().len()
            >= 8 && spec_u64_from_le_bytes(old(reader).data().subrange(0, 8)) != SIG)),
{
    let ghost data = old(reader).data();
    proof {
        old(reader).lemma_wf_bounds();
    }
    let sig = match reader.read_u64() {
        Ok(x) => x,
        Err(e) => {
            return Err(e);
        },
    };
    if sig != SIG {
        return Err(ArchiveError::InvalidSignature);
    }
    let mut blocks: Vec<FileBlock> = Vec::new();
    let ghost mut cur: int = 8;
    loop
        invariant_except_break
            reader.pos() == 8 * cur,
        invariant
            reader.wf(),
            reader.data() == data,
            data == old(reader).data(),
            data.len() >= 8,
            spec_u64_from_le_bytes(data.subrange(0, 8)) == SIG,
            8 <= cur <= data.len(),
            prepend_blocks(blocks_views(blocks@), parse_blocks(data, cur)) == parse_blocks(
                data,
                8,
            ),
        ensures
            reader.wf(),
            reader.data() == data,
            parse_blocks(data, 8) == Some(blocks_views(blocks@)),
        decreases 8 * data.len() - reader.pos(),
    {
        proof {
            crate::bitwise::lemma_div_mod_8_exact(cur, 0);
            reader.lemma_wf_bounds();
        }
        let sep = match reader.read_byte() {
            Ok(b) => b,
            Err(e) => {
                proof {
                    assert(cur >= data.len());
                    assert(parse_blocks(data, cur) is None);
                }
                return Err(ArchiveError::UnexpectedEndOfData);
            },
        };
        if sep == GRP_SEP {
            proof {
                assert(cur < data.len());
                assert(data[cur] == GRP_SEP);
                assert(parse_blocks(data, cur) == Some(Seq::<FileBlockView>::empty()));
                assert(blocks_views(blocks@) + Seq::<FileBlockView>::empty() =~= blocks_views(
                    blocks@,
                ));
            }
            break ;
        }
        proof {
            assert(cur < data.len());
            assert(data[cur] == sep);
            assert(data[cur] != GRP_SEP);
            crate::bitwise::lemma_div_mod_8_exact(cur + 1, 0);
        }
        let block = match reader.read_block() {
            Ok(b) => b,
            Err(e) => {
                proof {
                    assert(parse_header(data, cur + 1) is None);
                    assert(parse_blocks(data, cur) is None);
                }
                return Err(e);
            },
        };
        let ghost hs = block@.spec_header_size();
        let ghost prev_blocks = blocks@;
        blocks.push(block);
        proof {
            assert(parse_header(data, cur + 1) == Some((block@, hs as nat)));
            reader.lemma_wf_bounds();
            assert(cur + 1 + hs <= data.len());
            assert(blocks@ == prev_blocks.push(block));
            assert(blocks_views(blocks@) =~= blocks_views(prev_blocks).push(block@));
            match parse_blocks(data, cur + 1 + hs) {
                Option::None => {
                    assert(parse_blocks(data, cur) is None);
                },
                Option::Some(rest) => {
                    assert(parse_blocks(data, cur) == Some(seq![block@] + rest));
                    assert(blocks_views(prev_blocks) + (seq![block@] + rest) =~= blocks_views(
                        blocks@,
                    ) + rest);
                },
            }
            cur = cur + 1 + hs;
        }
    }
    Ok(blocks)
}

/// Reconstructs a serialized prefix tree from the bit stream: a one bit
/// opens a leaf with its eight symbol bits; a zero bit opens an internal
/// node followed by its two children.
pub fn read_tree(reader: &mut BitReader) -> (r: Result<Tree, ArchiveError>)
    requires
        old(reader).wf(),
    ensures
        final(reader).wf(),
        final(reader).data() == old(reader).data(),
        final(reader).pos() >= old(reader).pos(),
        r is Ok <==> parse_tree(old(reader).bits().skip(old(reader).pos() as int)) is Some,
        r matches Ok(t) ==> ({
            &&& parse_tree(old(reader).bits().skip(old(reader).pos() as int)) == Some(
                (t, (final(reader).pos() - old(reader).pos()) as nat),
            )
            &&& final(reader).consumed() == old(reader).consumed() + (final(reader).pos() - old(
                reader,
            ).pos())
        }),
        r matches Err(e) ==> e == ArchiveError::UnexpectedEndOfData,
    decreases old(reader).bits().len() - old(reader).pos(),
{
    let ghost rem = old(reader).bits().skip(old(reader).pos() as int);
    proof {
        old(reader).lemma_wf_bounds();
    }
    let bit = match reader.read_bit() {
        Ok(b) => b,
        Err(e) => {
            proof {
                assert(rem.len() == 0);
            }
            return Err(e);
        },
    };
    proof {
        assert(rem[0] == old(reader).bits()[old(reader).pos() as int]);
        assert((bit == 1) == rem[0]);
    }
    if bit == 1 {
        let symbol = match reader.read_bits(8) {
            Ok(b) => b,
            Err(e) => {
                proof {
                    assert(rem.len() < 9);
                }
                return Err(e);
            },
        };
        proof {
            assert forall|j: int| 0 <= j < 8 implies byte_bits(symbol)[j] == rem.subrange(
                1,
                9,
            )[j] by {
                assert(crate::bitwise::byte_bit(symbol, j as u8) == old(reader).bits()[old(
                    reader,
                ).pos() + 1 + j]);
            }
            assert(byte_bits(symbol) =~= rem.subrange(1, 9));
            lemma_byte_of_byte_bits(symbol);
        }
        Ok(Tree::leaf(symbol, 0))
    } else {
        let ghost mid = *reader;
        let left = match read_tree(reader) {
            Ok(t) => t,
            Err(e) => {
                proof {
                    assert(mid.bits().skip(mid.pos() as int) =~= rem.skip(1));
                }
                return Err(e);
            },
        };
        proof {
            assert(mid.bits().skip(mid.pos() as int) =~= rem.skip(1));
        }
        let ghost nl = (reader.pos() - mid.pos()) as nat;
        let ghost mid2 = *reader;
        proof {
            reader.lemma_wf_bounds();
        }
        let right = match read_tree(reader) {
            Ok(t) => t,
            Err(e) => {
                proof {
                    reader.lemma_wf_bounds();
                    assert(nl + 1 <= rem.len());
                    assert(mid2.bits().skip(mid2.pos() as int) =~= rem.skip(1 + nl as int));
                }
                return Err(e);
            },
        };
        proof {
            reader.lemma_wf_bounds();
            assert(nl + 1 <= rem.len());
            assert(mid2.bits().skip(mid2.pos() as int) =~= rem.skip(1 + nl as int));
        }
        Ok(Tree::internal(Box::new(left), Box::new(right), 0, 0))
    }
}

/// Walks the tree with the next bits, descending left on a zero bit and
/// right on a one bit, until a leaf yields the decoded byte.
pub fn decompress_symbol(reader: &mut BitReader, node: &Tree) -> (r: Result<u8, ArchiveError>)
    requires
        old(reader).wf(),
    ensures
        final(reader).wf(),
        final(reader).data() == old(reader).data(),
        final(reader).pos() >= old(reader).pos(),
        r is Ok <==> decode_sym(*node, old(reader).bits().skip(old(reader).pos() as int)) is Some,
        r matches Ok(s) ==> ({
            &&& decode_sym(*node, old(reader).bits().skip(old(reader).pos() as int)) == Some(
                (s, (final(reader).pos() - old(reader).pos()) as nat),
            )
            &&& final(reader).consumed() == old(reader).consumed() + (final(reader).pos() - old(
                reader,
            ).pos())
        }),
        node is Internal && r is Ok ==> final(reader).pos() > old(reader).pos(),
        r matches Err(e) ==> e == ArchiveError::UnexpectedEndOfData,
    decreases *node,
{
    let ghost rem = old(reader).bits().skip(old(reader).pos() as int);
    proof {
        old(reader).lemma_wf_bounds();
    }
    match node {
        Tree::Leaf { plain_symbol, .. } => Ok(*plain_symbol),
        Tree::Internal { left, right, .. } => {
            let bit = match reader.read_bit() {
                Ok(b) => b,
                Err(e) => {
                    proof {
                        assert(rem.len() == 0);
                    }
                    return Err(e);
                },
            };
            proof {
                assert(rem[0] == old(reader).bits()[old(reader).pos() as int]);
                assert((bit == 1) == rem[0]);
                assert(reader.bits().skip(reader.pos() as int) =~= rem.skip(1));
            }
            if bit == 0 {
                decompress_symbol(reader, left)
            } else {
                decompress_symbol(reader, right)
            }
        },
    }
}

/// Everything the decode loop knows of an as-yet-unknown matching file
/// after `k` of its bytes are decoded: the reconstructed tree is the
/// file's tree up to weights, and the cursor sits after the codes of the
/// first `k` bytes.
pub open spec fn loop_state(
    reader: BitReader,
    b: FileBlockView,
    root: Tree,
    start_read_len: u64,
    k: int,
    c: Seq<u8>,
    t: Option<Tree>,
) -> bool {
    let region_start = 8 * (8 + b.file_byte_offset) as int;
    &&& t matches Some(t0) && root == t0.strip()
    &&& start_read_len == (t->Some_0).tree_bits().len()
    &&& 0 <= k <= c.len()
    &&& reader.pos() == region_start + (t->Some_0).tree_bits().len() + encode_content(
        c.take(k),
        t->Some_0,
    ).len()
}

/// Under a region hypothesis with `out` already decoded and payload bits
/// still unread, the next bits are exactly the next byte's code: one more
/// decode step succeeds and yields that byte.
proof fn lemma_loop_step(
    data: Seq<u8>,
    b: FileBlockView,
    c: Seq<u8>,
    t: Option<Tree>,
    reader: BitReader,
    root: Tree,
    start_read_len: u64,
    k: int,
)
    requires
        reader.wf(),
        reader.data() == data,
        b.tree_bit_size != 0,
        region_match(data, b, c, t),
        loop_state(reader, b, root, start_read_len, k, c, t),
        reader.pos() - (8 * (8 + b.file_byte_offset) as int) - start_read_len < b.data_bit_size,
    ensures
        k < c.len(),
        decode_one(root, reader.bits().skip(reader.pos() as int)) == Some(
            (c[k], (t->Some_0).tcode(c[k]).len() as nat),
        ),
        encode_content(c.take(k + 1), t->Some_0).len() == encode_content(c.take(k), t->Some_0).len()
            + (t->Some_0).tcode(c[k]).len(),
{
    reader.lemma_wf_bounds();
    let t0 = t->Some_0;
    let region_start = 8 * (8 + b.file_byte_offset) as int;
    if k >= c.len() {
        assert(c.take(k) =~= c);
        assert(false);
    }
    lemma_encode_take_skip(c, t0, k);
    assert(c.skip(k)[0] == c[k]);
    assert(c.skip(k).skip(1) =~= c.skip(k + 1));
    assert(encode_content(c.skip(k), t0) == t0.tcode(c[k]) + encode_content(c.skip(k + 1), t0));
    let fr = file_region_bits(c, t);
    let inner = t0.tree_bits() + encode_content(c, t0);
    let local = (reader.pos() - region_start) as int;
    let code = t0.tcode(c[k]);
    assert(local + code.len() <= inner.len()) by {
        assert(encode_content(c, t0) == encode_content(c.take(k), t0) + (t0.tcode(c[k])
            + encode_content(c.skip(k + 1), t0)));
    }
    assert(inner.len() <= fr.len()) by {
        assert(fr == crate::bitwise::align_bits(inner) + byte_bits(0));
    }
    assert forall|j: int| 0 <= j < code.len() implies reader.bits().skip(reader.pos() as int)[j]
        == code[j] by {
        assert(inner[local + j] == code[j]);
        assert(crate::bitwise::align_bits(inner)[local + j] == inner[local + j]);
        assert(fr[local + j] == inner[local + j]);
        assert(crate::bitwise::bits_of_bytes(data).subrange(
            region_start,
            region_start + fr.len() as int,
        )[local + j] == fr[local + j]);
        assert(reader.bits()[region_start + local + j] == fr[local + j]);
    }
    let rem = reader.bits().skip(reader.pos() as int);
    assert(reader.pos() + code.len() <= reader.bits().len()) by {
        assert(region_start + fr.len() <= reader.bits().len());
    }
    assert(rem =~= code + rem.skip(code.len() as int));
    lemma_strip_shape(t0);
    assert(t0.leaves().count(c[k]) >= 1);
    lemma_decode_tcode(root, c[k], rem.skip(code.len() as int));
    assert(root.tcode(c[k]) == code);
    assert(c.take(k + 1) =~= c.take(k).push(c[k]));
    lemma_encode_content_push(c.take(k), c[k], t0);
}

/// Under a region hypothesis the serialized tree parses to the file's
/// tree, up to weights, and occupies exactly the recorded tree bits.
proof fn lemma_region_tree_parse(
    data: Seq<u8>,
    b: FileBlockView,
    c: Seq<u8>,
    t: Option<Tree>,
    before: BitReader,
)
    requires
        before.wf(),
        before.data() == data,
        b.tree_bit_size != 0,
        region_match(data, b, c, t),
        8 * (8 + b.file_byte_offset) <= before.bits().len() ==> before.pos() == 8 * (8
            + b.file_byte_offset),
    ensures
        t is Some,
        before.pos() == 8 * (8 + b.file_byte_offset),
        parse_tree(before.bits().skip(before.pos() as int)) == Some(
            ((t->Some_0).strip(), (t->Some_0).tree_bits().len() as nat),
        ),
{
    before.lemma_wf_bounds();
    let start = 8 * (8 + b.file_byte_offset) as int;
    match t {
        Option::None => {},
        Option::Some(t0) => {
            let fr = file_region_bits(c, t);
            assert(start + fr.len() <= before.bits().len());
            let rem = before.bits().skip(start);
            let inner = t0.tree_bits() + encode_content(c, t0);
            let rest = rem.skip(t0.tree_bits().len() as int);
            assert forall|j: int| 0 <= j < t0.tree_bits().len() implies rem[j]
                == t0.tree_bits()[j] by {
                assert(inner[j] == t0.tree_bits()[j]);
                assert(crate::bitwise::align_bits(inner)[j] == inner[j]);
                assert(fr[j] == inner[j]);
                assert(crate::bitwise::bits_of_bytes(data).subrange(
                    start,
                    start + fr.len() as int,
                )[j] == fr[j]);
                assert(before.bits()[start + j] == fr[j]);
            }
            assert(rem =~= t0.tree_bits() + rest);
            crate::tree::lemma_parse_tree_round_trip(t0, rest);
        },
    }
}

/// Decodes one file's region: seeks to its payload offset, reconstructs
/// the serialized tree, and walks it bit by bit until the recorded payload
/// bit length is consumed.  On the region the archive writer lays out for
/// a file, this recovers the file's contents exactly.
pub fn decompress_block(reader: &mut BitReader, block: &FileBlock) -> (r: Result<
    Vec<u8>,
    ArchiveError,
>)
    requires
        old(reader).wf(),
    ensures
        final(reader).wf(),
        final(reader).data() == old(reader).data(),
        forall|c: Seq<u8>, t: Option<Tree>|
            region_match(old(reader).data(), block@, c, t) ==> (r matches Ok(v) && v@ == c),
        r matches Err(e) ==> e == ArchiveError::UnexpectedEndOfData,
{
    let ghost data = old(reader).data();
    proof {
        old(reader).lemma_wf_bounds();
    }
    if block.file_byte_offset > u64::MAX - 8 {
        proof {
            assert forall|c: Seq<u8>, t: Option<Tree>|
                !region_match(data, block@, c, t) by {
                if region_match(data, block@, c, t) {
                    assert(8 * (8 + block@.file_byte_offset) <= 8 * data.len());
                }
            }
        }
        return Err(ArchiveError::UnexpectedEndOfData);
    }
    reader.seek(8 + block.file_byte_offset);
    let ghost region_start = 8 * (8 + block@.file_byte_offset) as int;
    if block.tree_bit_size == 0 {
        proof {
            assert forall|c: Seq<u8>, t: Option<Tree>|
                region_match(data, block@, c, t) implies c =~= Seq::<u8>::empty() by {
                match t {
                    Option::None => {},
                    Option::Some(t0) => {
                        crate::tree::lemma_tree_bit_size(t0);
                    },
                }
            }
        }
        return Ok(Vec::new());
    }
    let ghost after_seek = *reader;
    let root = match read_tree(reader) {
        Ok(t) => t,
        Err(e) => {
            proof {
                assert forall|c: Seq<u8>, t: Option<Tree>|
                    !region_match(data, block@, c, t) by {
                    if region_match(data, block@, c, t) {
                        lemma_region_tree_parse(data, block@, c, t, after_seek);
                    }
                }
            }
            return Err(e);
        },
    };
    let start_read_len = reader.read_len();
    let ghost seek_base = after_seek.pos();
    let mut out: Vec<u8> = Vec::new();
    proof {
        assert forall|c: Seq<u8>, t: Option<Tree>|
            region_match(data, block@, c, t) implies ({
            &&& seek_base == region_start
            &&& loop_state(*reader, block@, root, start_read_len, 0, c, t)
        }) by {
            lemma_region_tree_parse(data, block@, c, t, after_seek);
            let t0 = t->Some_0;
            assert(encode_content(c.take(0), t0) =~= Seq::<bool>::empty());
            assert(encode_content(c.take(0), t0).len() == 0);
        }
    }
    loop
        invariant
            reader.wf(),
            reader.data() == data,
            data == old(reader).data(),
            reader.pos() >= seek_base,
            reader.consumed() == reader.pos() - seek_base,
            start_read_len <= reader.consumed(),
            region_start == 8 * (8 + block@.file_byte_offset) as int,
            block@.tree_bit_size != 0,
            forall|c: Seq<u8>, t: Option<Tree>|
                region_match(data, block@, c, t) ==> seek_base == region_start && loop_state(
                    *reader,
                    block@,
                    root,
                    start_read_len,
                    out@.len() as int,
                    c,
                    t,
                ) && out@ == c.take(out@.len() as int),
        ensures
            reader.wf(),
            reader.data() == data,
            forall|c: Seq<u8>, t: Option<Tree>| region_match(data, block@, c, t) ==> out@ == c,
        decreases 8 * data.len() + 1 - reader.pos(),
    {
        proof {
            reader.lemma_wf_bounds();
        }
        let consumed = reader.read_len();
        if consumed - start_read_len >= block.data_bit_size {
            proof {
                assert forall|c: Seq<u8>, t: Option<Tree>|
                    region_match(data, block@, c, t) implies out@ == c by {
                    let t0 = t->Some_0;
                    if out@.len() < c.len() {
                        lemma_encode_take_skip(c, t0, out@.len() as int);
                        assert(forall|i: int|
                            0 <= i < c.skip(out@.len() as int).len() ==> t0.leaves().count(
                                #[trigger] c.skip(out@.len() as int)[i],
                            ) >= 1);
                        lemma_encode_len_lower(c.skip(out@.len() as int), t0);
                        assert(false);
                    }
                    assert(c.take(c.len() as int) =~= c);
                }
            }
            break ;
        }
        let ghost pre = *reader;
        let symbol = if root.is_leaf() {
            let step = reader.read_bit();
            match step {
                Ok(_) => {
                    match &root {
                        Tree::Leaf { plain_symbol, .. } => *plain_symbol,
                        Tree::Internal { .. } => 0,
                    }
                },
                Err(e) => {
                    proof {
                        assert forall|c: Seq<u8>, t: Option<Tree>|
                            !region_match(data, block@, c, t) by {
                            if region_match(data, block@, c, t) {
                                lemma_loop_step(
                                    data,
                                    block@,
                                    c,
                                    t,
                                    pre,
                                    root,
                                    start_read_len,
                                    out@.len() as int,
                                );
                            }
                        }
                    }
                    return Err(e);
                },
            }
        } else {
            match decompress_symbol(reader, &root) {
                Ok(s) => s,
                Err(e) => {
                    proof {
                        assert forall|c: Seq<u8>, t: Option<Tree>|
                            !region_match(data, block@, c, t) by {
                            if region_match(data, block@, c, t) {
                                lemma_loop_step(
                                    data,
                                    block@,
                                    c,
                                    t,
                                    pre,
                                    root,
                                    start_read_len,
                                    out@.len() as int,
                                );
                            }
                        }
                    }
                    return Err(e);
                },
            }
        };
        let ghost prev_out = out@;
        out.push(symbol);
        proof {
            assert(out@ == prev_out.push(symbol));
            assert forall|c: Seq<u8>, t: Option<Tree>|
                region_match(data, block@, c, t) implies seek_base == region_start && loop_state(
                *reader,
                block@,
                root,
                start_read_len,
                out@.len() as int,
                c,
                t,
            ) && out@ == c.take(out@.len() as int) by {
                lemma_loop_step(
                    data,
                    block@,
                    c,
                    t,
                    pre,
                    root,
                    start_read_len,
                    prev_out.len() as int,
                );
                let t0 = t->Some_0;
                let k = prev_out.len() as int;
                assert(symbol == c[k]);
                assert(reader.pos() == pre.pos() + t0.tcode(c[k]).len());
                assert(out@ =~= c.take(k + 1));
            }
            reader.lemma_wf_bounds();
            assert(reader.pos() > pre.pos());
        }
    }
    Ok(out)
}

/// A copy of a byte vector.
fn clone_bytes(v: &Vec<u8>) -> (r: Vec<u8>)
    ensures
        r@ == v@,
{
    let mut r: Vec<u8> = Vec::new();
    let mut i: usize = 0;
    while i < v.len()
        invariant
            i <= v@.len(),
            r@ == v@.take(i as int),
        decreases v@.len() - i,
    {
        r.push(v[i]);
        proof {
            assert(r@ =~= v@.take(i + 1));
        }
        i = i + 1;
    }
    proof {
        assert(v@.take(v@.len() as int) =~= v@);
    }
    r
}

/// Restores every file of an archive image: validates the signature, reads
/// the header region, then decodes each file's region at its recorded
/// offset.  On any image the archive builder produces, this returns
/// exactly the files that went in, names and contents alike.
pub fn extract_archive(archive: Vec<u8>) -> (r: Result<Vec<FileData>, ArchiveError>)
    requires
        archive@.len() <= MAX_DATA_BYTES,
    ensures
        forall|fs: Seq<FileDataView>|
            represents(archive@, fs) ==> (r matches Ok(v) && files_views(v@) == fs),
        r matches Err(e) ==> (e == ArchiveError::InvalidSignature <==> (archive@.len() >= 8
            && archive@.subrange(0, 8) != sig_bytes())),
{
    let ghost data = archive@;
    proof {
        vstd::bytes::lemma_auto_spec_u64_to_from_le_bytes();
        assert(data.len() >= 8 ==> ((spec_u64_from_le_bytes(data.subrange(0, 8)) == SIG) <==> (
        data.subrange(0, 8) == sig_bytes()))) by {
            if data.len() >= 8 && spec_u64_from_le_bytes(data.subrange(0, 8)) == SIG {
                assert(data.subrange(0, 8).len() == 8);
            }
        }
    }
    let mut reader = BitReader::new(archive);
    let blocks = match get_file_blocks(&mut reader) {
        Ok(b) => b,
        Err(e) => {
            proof {
                assert forall|fs: Seq<FileDataView>| !represents(data, fs) by {
                    if represents(data, fs) {
                        let (bv, tv) = choose|bv: Seq<FileBlockView>, tv: Seq<Option<Tree>>|
                            archive_image(data, fs, bv, tv);
                        lemma_image_headers(data, fs, bv, tv);
                    }
                }
            }
            return Err(e);
        },
    };
    let n = blocks.len();
    let mut out: Vec<FileData> = Vec::new();
    let mut i: usize = 0;
    proof {
        assert forall|fs: Seq<FileDataView>| represents(data, fs) implies fs.len() == n
            && files_views(out@) == fs.take(0) by {
            let (bv, tv) = choose|bv: Seq<FileBlockView>, tv: Seq<Option<Tree>>|
                archive_image(data, fs, bv, tv);
            lemma_image_headers(data, fs, bv, tv);
            assert(bv == blocks_views(blocks@));
            assert(files_views(out@) =~= fs.take(0));
        }
    }
    while i < n
        invariant
            reader.wf(),
            reader.data() == data,
            data == archive@,
            data.len() >= 8,
            spec_u64_from_le_bytes(data.subrange(0, 8)) == SIG,
            data.subrange(0, 8) == sig_bytes(),
            n == blocks@.len(),
            i <= n,
            out@.len() == i,
            parse_blocks(data, 8) == Some(blocks_views(blocks@)),
            forall|fs: Seq<FileDataView>|
                represents(data, fs) ==> fs.len() == n && files_views(out@) == fs.take(i as int),
        decreases n - i,
    {
        proof {
            assert forall|fs: Seq<FileDataView>| represents(data, fs) implies ({
                &&& region_match(data, blocks@[i as int]@, fs[i as int].contents, image_tree(data, fs, i as int))
                &&& blocks@[i as int]@.filename_rel == fs[i as int].filename_rel
            }) by {
                let (bv, tv) = choose|bv: Seq<FileBlockView>, tv: Seq<Option<Tree>>|
                    archive_image(data, fs, bv, tv);
                lemma_image_headers(data, fs, bv, tv);
                assert(bv == blocks_views(blocks@));
                assert(blocks_views(blocks@)[i as int] == blocks@[i as int]@);
                lemma_image_region(data, fs, bv, tv, i as int);
                assert(file_entry_ok(fs[i as int], bv[i as int], tv[i as int]));
                assert(image_tree(data, fs, i as int) == tv[i as int]) by {
                    lemma_image_region(data, fs, bv, tv, i as int);
                }
            }
        }
        let contents = match decompress_block(&mut reader, &blocks[i]) {
            Ok(c) => c,
            Err(e) => {
                proof {
                    assert forall|fs: Seq<FileDataView>| !represents(data, fs) by {}
                }
                return Err(e);
            },
        };
        let name = clone_bytes(&blocks[i].filename_rel);
        let fd = FileData { filename_rel: name, contents };
        let ghost prev_out = out@;
        out.push(fd);
        proof {
            assert(out@ == prev_out.push(fd));
            assert forall|fs: Seq<FileDataView>| represents(data, fs) implies files_views(out@)
                =~= fs.take(i + 1) by {
                assert(files_views(prev_out) == fs.take(i as int));
                assert(fd@.contents == fs[i as int].contents);
                assert(fd@.filename_rel == fs[i as int].filename_rel);
                assert forall|j: int| 0 <= j < i + 1 implies files_views(out@)[j] == fs.take(
                    i + 1,
                )[j] by {
                    if j < i {
                        assert(out@[j] == prev_out[j]);
                        assert(files_views(prev_out)[j] == fs.take(i as int)[j]);
                    } else {
                        assert(out@[j] == fd);
                        assert(fd@ =~= fs[i as int]) by {
                            assert(fd@.contents =~= fs[i as int].contents);
                        }
                    }
                }
            }
        }
        i = i + 1;
    }
    proof {
        assert forall|fs: Seq<FileDataView>| represents(data, fs) implies files_views(out@)
            == fs by {
            assert(fs.take(n as int) =~= fs);
        }
    }
    Ok(out)
}

/// The tree witnessing file `i` in some image of `data` over `fs`.
pub open spec fn image_tree(data: Seq<u8>, fs: Seq<FileDataView>, i: int) -> Option<Tree> {
    (choose|bv: Seq<FileBlockView>, tv: Seq<Option<Tree>>| archive_image(data, fs, bv, tv)).1[i]
}

} // verus!
