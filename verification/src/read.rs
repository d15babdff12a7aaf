//! A bit-granular reader over a byte buffer.
//!
//! The reader walks the buffer's bit view (least-significant bit of each
//! byte first) with a monotone cursor; `seek` repositions the cursor to a
//! byte offset and restarts the consumed-bit counter.

use crate::bitwise::{byte_bit, bits_of_bytes, get_bit, lemma_byte_bits_inj, lemma_div_mod_8_exact, set_bit};
use crate::structures::{
    ArchiveError, FileBlock, FileBlockView, find_nul, lemma_find_nul_at, lemma_find_nul_props,
    parse_header,
};
use vstd::bytes::{lemma_auto_spec_u64_to_from_le_bytes, spec_u64_from_le_bytes, u64_from_le_bytes};
use vstd::prelude::*;

verus! {

/// Largest byte buffer a reader accepts, so that bit positions fit in a
/// `u64` with room to spare.
pub const MAX_DATA_BYTES: u64 = 0x0800_0000_0000_0000;

/// Buffered bit-level reader over a byte buffer.
pub struct BitReader {
    // the bytes being read
    data: Vec<u8>,
    // the absolute bit position of the next read
    bit_position: u64,
    // bits consumed since construction or the last seek
    read_len: u64,
}

impl BitReader {
    /// The bytes being read.
    pub closed spec fn data(&self) -> Seq<u8> {
        self.data@
    }

    /// The bit view of the data.
    pub open spec fn bits(&self) -> Seq<bool> {
        bits_of_bytes(self.data())
    }

    /// The absolute bit position of the next read.
    pub closed spec fn pos(&self) -> u64 {
        self.bit_position
    }

    /// Bits consumed since construction or the last seek.
    pub closed spec fn consumed(&self) -> u64 {
        self.read_len
    }

    /// The cursor never runs past the data and the buffer is small enough
    /// for every bit position to fit in a `u64`.
    pub closed spec fn wf(&self) -> bool {
        &&& self.data@.len() <= MAX_DATA_BYTES
        &&& self.bit_position <= 8 * self.data@.len()
        &&& self.read_len <= self.bit_position
    }

    /// The cursor of a well-formed reader is within its bit view.
    pub proof fn lemma_wf_bounds(&self)
        requires
            self.wf(),
        ensures
            self.pos() <= self.bits().len(),
            self.bits().len() == 8 * self.data().len(),
            self.data().len() <= MAX_DATA_BYTES,
    {
    }

    /// A fresh reader positioned at the first bit.
    pub fn new(data: Vec<u8>) -> (r: BitReader)
        requires
            data@.len() <= MAX_DATA_BYTES,
        ensures
            r.wf(),
            r.data() == data@,
            r.pos() == 0,
            r.consumed() == 0,
    {
        BitReader { data, bit_position: 0, read_len: 0 }
    }

    /// Repositions the cursor to an absolute byte offset (clamped to the
    /// end of the data) and restarts the consumed-bit counter.
    pub fn seek(&mut self, seek_pos: u64)
        requires
            old(self).wf(),
        ensures
            final(self).wf(),
            final(self).data() == old(self).data(),
            final(self).consumed() == 0,
            final(self).pos() == if 8 * seek_pos <= old(self).bits().len() {
                8 * seek_pos as int
            } else {
                old(self).bits().len() as int
            },
    {
        if seek_pos >= self.data.len() as u64 {
            self.bit_position = 8 * (self.data.len() as u64);
        } else {
            self.bit_position = 8 * seek_pos;
        }
        self.read_len = 0;
    }

    /// Bits consumed since construction or the last seek.
    pub fn read_len(&self) -> (r: u64)
        ensures
            r == self.consumed(),
    {
        self.read_len
    }

    /// True once every bit of the data has been consumed.
    pub fn eof(&self) -> (b: bool)
        requires
            self.wf(),
        ensures
            b == (self.pos() >= self.bits().len()),
    {
        self.bit_position >= 8 * (self.data.len() as u64)
    }

    /// The byte under the cursor, without advancing.
    pub fn peek_byte(&self) -> (r: Result<u8, ArchiveError>)
        requires
            self.wf(),
        ensures
            r is Ok <==> self.pos() < self.bits().len(),
            r matches Ok(b) ==> b == self.data()[self.pos() as int / 8],
            r is Err ==> r == Result::<u8, ArchiveError>::Err(ArchiveError::UnexpectedEndOfData),
    {
        if self.bit_position >= 8 * (self.data.len() as u64) {
            return Err(ArchiveError::UnexpectedEndOfData);
        }
        let idx = (self.bit_position / 8) as usize;
        Ok(self.data[idx])
    }

    /// Reads the next bit, returning 0 or 1.
    pub fn read_bit(&mut self) -> (r: Result<u8, ArchiveError>)
        requires
            old(self).wf(),
        ensures
            final(self).wf(),
            final(self).data() == old(self).data(),
            r is Ok <==> old(self).pos() < old(self).bits().len(),
            r matches Ok(b) ==> ({
                &&& b <= 1
                &&& (b == 1 <==> old(self).bits()[old(self).pos() as int])
                &&& final(self).pos() == old(self).pos() + 1
                &&& final(self).consumed() == old(self).consumed() + 1
            }),
            r is Err ==> *final(self) == *old(self) && r == Result::<u8, ArchiveError>::Err(
                ArchiveError::UnexpectedEndOfData,
            ),
    {
        if self.bit_position >= 8 * (self.data.len() as u64) {
            return Err(ArchiveError::UnexpectedEndOfData);
        }
        let idx = (self.bit_position / 8) as usize;
        let byte = self.data[idx];
        let bit = get_bit(byte as u32, (self.bit_position % 8) as u32);
        proof {
            assert(old(self).bits()[self.bit_position as int] == byte_bit(
                self.data@[self.bit_position as int / 8],
                (self.bit_position as int % 8) as u8,
            ));
        }
        self.bit_position = self.bit_position + 1;
        self.read_len = self.read_len + 1;
        Ok(bit)
    }

    /// Reads `count` bits (at most eight) into the low bits of a byte,
    /// least-significant first; the remaining high bits are zero.
    pub fn read_bits(&mut self, count: u8) -> (r: Result<u8, ArchiveError>)
        requires
            old(self).wf(),
            count <= 8,
        ensures
            final(self).wf(),
            final(self).data() == old(self).data(),
            r is Ok <==> old(self).pos() + count <= old(self).bits().len(),
            r matches Ok(b) ==> ({
                &&& forall|i: int|
                    0 <= i < count ==> byte_bit(b, i as u8) == #[trigger] old(self).bits()[old(
                        self,
                    ).pos() + i]
                &&& forall|i: u8| count <= i < 8 ==> !byte_bit(b, i)
                &&& final(self).pos() == old(self).pos() + count
                &&& final(self).consumed() == old(self).consumed() + count
            }),
            r is Err ==> *final(self) == *old(self) && r == Result::<u8, ArchiveError>::Err(
                ArchiveError::UnexpectedEndOfData,
            ),
    {
        if 8 * (self.data.len() as u64) < (count as u64) || self.bit_position > 8 * (self.data.len()
            as u64) - (count as u64) {
            return Err(ArchiveError::UnexpectedEndOfData);
        }
        let ghost prev = *old(self);
        let mut byte: u8 = 0;
        let mut i: u8 = 0;
        proof {
            assert(forall|j: u8| j < 8 ==> ((0u8 >> j) & 1) != 1) by (bit_vector);
        }
        while i < count
            invariant
                i <= count,
                count <= 8,
                self.wf(),
                self.data@ == prev.data@,
                prev.wf(),
                prev.pos() + count <= prev.bits().len(),
                self.pos() == prev.pos() + i,
                self.consumed() == prev.consumed() + i,
                forall|j: int|
                    0 <= j < i ==> byte_bit(byte, j as u8) == #[trigger] prev.bits()[prev.pos()
                        + j],
                forall|j: u8| i <= j < 8 ==> !byte_bit(byte, j),
            decreases count - i,
        {
            let bit = match self.read_bit() {
                Ok(b) => b,
                Err(_) => {
                    proof {
                        assert(false);
                    }
                    0
                },
            };
            if bit > 0 {
                byte = set_bit(byte as u32, i as u32);
            }
            i = i + 1;
        }
        Ok(byte)
    }

    /// Reads the next eight bits as a byte.  At a byte boundary this is
    /// exactly the byte under the cursor.
    pub fn read_byte(&mut self) -> (r: Result<u8, ArchiveError>)
        requires
            old(self).wf(),
        ensures
            final(self).wf(),
            final(self).data() == old(self).data(),
            r is Ok <==> old(self).pos() + 8 <= old(self).bits().len(),
            r matches Ok(b) ==> ({
                &&& forall|i: int|
                    0 <= i < 8 ==> byte_bit(b, i as u8) == #[trigger] old(self).bits()[old(
                        self,
                    ).pos() + i]
                &&& final(self).pos() == old(self).pos() + 8
                &&& final(self).consumed() == old(self).consumed() + 8
                &&& old(self).pos() % 8 == 0 ==> b == old(self).data()[old(self).pos() as int / 8]
            }),
            r is Err ==> *final(self) == *old(self) && r == Result::<u8, ArchiveError>::Err(
                ArchiveError::UnexpectedEndOfData,
            ),
    {
        let r = self.read_bits(8);
        proof {
            if r is Ok && old(self).pos() % 8 == 0 {
                let b = r->Ok_0;
                let p = old(self).pos() as int;
                let k = p / 8;
                let target = old(self).data()[k];
                assert forall|i: u8| i < 8 implies byte_bit(b, i) == byte_bit(target, i) by {
                    lemma_div_mod_8_exact(k, i as int);
                    assert(old(self).bits()[p + i] == byte_bit(
                        old(self).data()[(p + i) / 8],
                        ((p + i) % 8) as u8,
                    ));
                    assert(byte_bit(b, i) == old(self).bits()[p + i]);
                }
                lemma_byte_bits_inj(b, target);
            }
        }
        r
    }

    /// Reads a 64-bit little-endian integer from a byte boundary.
    pub fn read_u64(&mut self) -> (r: Result<u64, ArchiveError>)
        requires
            old(self).wf(),
            old(self).pos() % 8 == 0,
        ensures
            final(self).wf(),
            final(self).data() == old(self).data(),
            r is Ok <==> old(self).pos() + 64 <= old(self).bits().len(),
            r matches Ok(x) ==> ({
                &&& x == spec_u64_from_le_bytes(
                    old(self).data().subrange(
                        old(self).pos() as int / 8,
                        old(self).pos() as int / 8 + 8,
                    ),
                )
                &&& final(self).pos() == old(self).pos() + 64
                &&& final(self).pos() % 8 == 0
                &&& final(self).consumed() == old(self).consumed() + 64
            }),
            r is Err ==> *final(self) == *old(self) && r == Result::<u64, ArchiveError>::Err(
                ArchiveError::UnexpectedEndOfData,
            ),
    {
        if 8 * (self.data.len() as u64) < 64 || self.bit_position > 8 * (self.data.len() as u64)
            - 64 {
            return Err(ArchiveError::UnexpectedEndOfData);
        }
        let ghost prev = *old(self);
        let ghost k = prev.pos() as int / 8;
        let mut buffer: Vec<u8> = Vec::new();
        let mut i: u8 = 0;
        while i < 8
            invariant
                i <= 8,
                self.wf(),
                self.data@ == prev.data@,
                prev.wf(),
                prev.pos() % 8 == 0,
                prev.pos() + 64 <= prev.bits().len(),
                k == prev.pos() as int / 8,
                self.pos() == prev.pos() + 8 * (i as int),
                self.pos() % 8 == 0,
                self.consumed() == prev.consumed() + 8 * (i as int),
                buffer@.len() == i as int,
                forall|j: int| 0 <= j < i ==> buffer@[j] == prev.data()[k + j],
            decreases 8 - i,
        {
            proof {
                lemma_div_mod_8_exact(k + i as int, 0);
            }
            let b = match self.read_byte() {
                Ok(b) => b,
                Err(_) => {
                    proof {
                        assert(false);
                    }
                    0
                },
            };
            buffer.push(b);
            i = i + 1;
        }
        proof {
            assert(buffer@ =~= prev.data().subrange(k, k + 8));
        }
        let x = u64_from_le_bytes(buffer.as_slice());
        Ok(x)
    }

    /// Reads one block header: the NUL-terminated path, then the tree bit
    /// length, payload bit length, payload byte offset, and original byte
    /// size, each a little-endian 64-bit integer.
    pub fn read_block(&mut self) -> (r: Result<FileBlock, ArchiveError>)
        requires
            old(self).wf(),
            old(self).pos() % 8 == 0,
        ensures
            final(self).wf(),
            final(self).data() == old(self).data(),
            r is Ok <==> parse_header(old(self).data(), old(self).pos() as int / 8) is Some,
            r matches Ok(b) ==> ({
                &&& parse_header(old(self).data(), old(self).pos() as int / 8) == Some(
                    (b@, b@.spec_header_size() as nat),
                )
                &&& b@.wf()
                &&& final(self).pos() == old(self).pos() + 8 * b@.spec_header_size()
                &&& final(self).pos() % 8 == 0
                &&& final(self).consumed() == old(self).consumed() + 8 * b@.spec_header_size()
            }),
            r is Err ==> r == Result::<FileBlock, ArchiveError>::Err(
                ArchiveError::UnexpectedEndOfData,
            ),
    {
        let ghost prev = *old(self);
        let ghost start = prev.pos() as int / 8;
        proof {
            vstd::arithmetic::div_mod::lemma_fundamental_div_mod(prev.pos() as int, 8);
            assert(prev.pos() == 8 * start);
        }
        let mut filename_rel: Vec<u8> = Vec::new();
        let mut terminated = false;
        loop
            invariant_except_break
                terminated == false,
                self.pos() == prev.pos() + 8 * filename_rel@.len(),
                self.consumed() == prev.consumed() + 8 * filename_rel@.len(),
            invariant
                prev == *old(self),
                self.wf(),
                self.data@ == prev.data@,
                prev.wf(),
                prev.pos() % 8 == 0,
                prev.pos() == 8 * start,
                start == prev.pos() as int / 8,
                self.pos() % 8 == 0,
                filename_rel@ == prev.data().subrange(start, start + filename_rel@.len()),
                forall|j: int| start <= j < start + filename_rel@.len() ==> prev.data()[j] != 0,
            ensures
                terminated,
                start + filename_rel@.len() < prev.data().len(),
                prev.data()[start + filename_rel@.len()] == 0,
                self.pos() == prev.pos() + 8 * (filename_rel@.len() + 1),
                self.consumed() == prev.consumed() + 8 * (filename_rel@.len() + 1),
            decreases prev.bits().len() - self.pos(),
        {
            proof {
                lemma_div_mod_8_exact(start + filename_rel@.len() as int, 0);
            }
            let byte = match self.read_byte() {
                Ok(b) => b,
                Err(_) => {
                    proof {
                        lemma_find_nul_props(prev.data(), start);
                    }
                    return Err(ArchiveError::UnexpectedEndOfData);
                },
            };
            if byte == 0 {
                terminated = true;
                proof {
                    lemma_div_mod_8_exact(start + filename_rel@.len() as int, 0);
                }
                break;
            }
            filename_rel.push(byte);
            proof {
                assert(filename_rel@ =~= prev.data().subrange(
                    start,
                    start + filename_rel@.len(),
                ));
            }
        }
        let ghost p = start + filename_rel@.len() as int;
        proof {
            lemma_find_nul_at(prev.data(), start, p);
            lemma_div_mod_8_exact(p + 1, 0);
        }
        let tree_bit_size = match self.read_u64() {
            Ok(x) => x,
            Err(e) => {
                return Err(e);
            },
        };
        proof {
            lemma_div_mod_8_exact(p + 9, 0);
        }
        let data_bit_size = match self.read_u64() {
            Ok(x) => x,
            Err(e) => {
                return Err(e);
            },
        };
        proof {
            lemma_div_mod_8_exact(p + 17, 0);
        }
        let file_byte_offset = match self.read_u64() {
            Ok(x) => x,
            Err(e) => {
                return Err(e);
            },
        };
        proof {
            lemma_div_mod_8_exact(p + 25, 0);
        }
        let og_byte_size = match self.read_u64() {
            Ok(x) => x,
            Err(e) => {
                return Err(e);
            },
        };
        let block = FileBlock {
            filename_rel,
            file_byte_offset,
            og_byte_size,
            tree_bit_size,
            data_bit_size,
        };
        proof {
            let parsed = FileBlockView {
                filename_rel: prev.data().subrange(start, p),
                tree_bit_size: spec_u64_from_le_bytes(prev.data().subrange(p + 1, p + 9)),
                data_bit_size: spec_u64_from_le_bytes(prev.data().subrange(p + 9, p + 17)),
                file_byte_offset: spec_u64_from_le_bytes(prev.data().subrange(p + 17, p + 25)),
                og_byte_size: spec_u64_from_le_bytes(prev.data().subrange(p + 25, p + 33)),
            };
            assert(parse_header(prev.data(), start) == Some((parsed, (p + 33 - start) as nat)));
            assert(block@ == parsed);
        }
        Ok(block)
    }
}

} // verus!
