//! A bit-granular writer over a growable byte buffer.
//!
//! Bits are appended least-significant-first into each byte; the view of a
//! writer is the exact sequence of bits written so far.  Padding added by
//! `align_to_byte` is always zero bits.

use crate::bitwise::{
    align_bits, bits_of_bytes, byte_bit, byte_bits, get_bit, lemma_bits_of_bytes_add,
    lemma_bits_of_bytes_push, lemma_bits_of_bytes_singleton, lemma_div_mod_8_exact,
    lemma_pack_bits_of_bytes, pack_bits, pad_len, set_bit,
};
use crate::structures::{FileBlock, SymbolCode};
use vstd::bytes::{lemma_auto_spec_u64_to_from_le_bytes, spec_u64_to_le_bytes, u64_to_le_bytes};
use vstd::prelude::*;

verus! {

/// Buffered bit-level writer; the view is the sequence of bits written.
pub struct BitWriter {
    // the whole bytes written so far
    bytes: Vec<u8>,
    // the partial byte still being filled
    cur: u8,
    // how many bits of `cur` are filled
    cur_len: u8,
}

impl View for BitWriter {
    type V = Seq<bool>;

    closed spec fn view(&self) -> Seq<bool> {
        bits_of_bytes(self.bytes@) + byte_bits(self.cur).take(self.cur_len as int)
    }
}

impl BitWriter {
    /// The partial byte holds fewer than eight bits and its unfilled high
    /// bits are zero, so that alignment pads with zero bits.
    pub closed spec fn wf(&self) -> bool {
        &&& self.cur_len < 8
        &&& forall|i: u8| self.cur_len <= i && i < 8 ==> !byte_bit(self.cur, i)
    }

    /// A fresh writer with nothing written.
    pub fn new() -> (w: BitWriter)
        ensures
            w.wf(),
            w@ == Seq::<bool>::empty(),
    {
        let w = BitWriter { bytes: Vec::new(), cur: 0, cur_len: 0 };
        proof {
            assert(forall|i: u8| i < 8 ==> ((0u8 >> i) & 1) != 1) by (bit_vector);
            assert(w@ =~= Seq::<bool>::empty());
        }
        w
    }

    /// Appends one bit; any nonzero `bit` writes a one bit.
    pub fn write_bit(&mut self, bit: u8)
        requires
            old(self).wf(),
        ensures
            final(self).wf(),
            final(self)@ == old(self)@.push(bit > 0),
    {
        let ghost prev = *old(self);
        if bit > 0 {
            self.cur = set_bit(self.cur as u32, self.cur_len as u32);
        }
        proof {
            assert forall|i: u8| i < 8 implies byte_bit(self.cur, i) == (if i < prev.cur_len {
                byte_bit(prev.cur, i)
            } else if i == prev.cur_len {
                bit > 0
            } else {
                false
            }) by {
                if bit > 0 {
                    assert(byte_bit(self.cur, i) == (i == prev.cur_len as u8 || byte_bit(
                        prev.cur,
                        i,
                    )));
                }
            }
        }
        self.cur_len = self.cur_len + 1;
        if self.cur_len == 8 {
            let ghost full = self.cur;
            self.bytes.push(self.cur);
            self.cur = 0;
            self.cur_len = 0;
            proof {
                lemma_bits_of_bytes_push(prev.bytes@, full);
                assert(forall|i: u8| i < 8 ==> ((0u8 >> i) & 1) != 1) by (bit_vector);
                assert(self@ =~= prev@.push(bit > 0));
            }
        } else {
            proof {
                assert(self@ =~= prev@.push(bit > 0));
            }
        }
    }

    /// Appends the low `count` bits of `byte`, least-significant first.
    pub fn write_bits(&mut self, byte: u8, count: u8)
        requires
            old(self).wf(),
            count <= 8,
        ensures
            final(self).wf(),
            final(self)@ == old(self)@ + byte_bits(byte).take(count as int),
    {
        let ghost prev = *old(self);
        let mut i: u8 = 0;
        proof {
            assert(prev@ =~= prev@ + byte_bits(byte).take(0));
        }
        while i < count
            invariant
                i <= count,
                count <= 8,
                self.wf(),
                self@ == prev@ + byte_bits(byte).take(i as int),
            decreases count - i,
        {
            let bit = get_bit(byte as u32, i as u32);
            self.write_bit(bit);
            i = i + 1;
            proof {
                assert(self@ =~= prev@ + byte_bits(byte).take(i as int));
            }
        }
    }

    /// Appends all eight bits of a byte.
    pub fn write_byte(&mut self, byte: u8)
        requires
            old(self).wf(),
        ensures
            final(self).wf(),
            final(self)@ == old(self)@ + byte_bits(byte),
    {
        self.write_bits(byte, 8);
        proof {
            assert(byte_bits(byte).take(8) =~= byte_bits(byte));
        }
    }

    /// Appends a 64-bit integer as eight bytes, little-endian.
    pub fn write_u64(&mut self, num: u64)
        requires
            old(self).wf(),
        ensures
            final(self).wf(),
            final(self)@ == old(self)@ + bits_of_bytes(spec_u64_to_le_bytes(num)),
    {
        let ghost prev = *old(self);
        let buffer = u64_to_le_bytes(num);
        proof {
            assert(prev@ =~= prev@ + bits_of_bytes(buffer@.take(0)));
        }
        let mut i: usize = 0;
        while i < 8
            invariant
                i <= 8,
                buffer@ == spec_u64_to_le_bytes(num),
                buffer@.len() == 8,
                self.wf(),
                self@ == prev@ + bits_of_bytes(buffer@.take(i as int)),
            decreases 8 - i,
        {
            self.write_byte(buffer[i]);
            proof {
                lemma_bits_of_bytes_push(buffer@.take(i as int), buffer@[i as int]);
                assert(buffer@.take(i + 1) =~= buffer@.take(i as int).push(buffer@[i as int]));
            }
            i = i + 1;
        }
        proof {
            assert(buffer@.take(8) =~= buffer@);
        }
    }

    /// Emits a symbol's code, first bit first, for its recorded bit length.
    pub fn write_symbol(&mut self, symbol: &SymbolCode)
        requires
            old(self).wf(),
            symbol.bit_len <= 32,
        ensures
            final(self).wf(),
            final(self)@ == old(self)@ + symbol.bits(),
    {
        let ghost prev = *old(self);
        proof {
            assert(prev@ =~= prev@ + symbol.bits().take(0));
        }
        let mut i: u8 = 0;
        while i < symbol.bit_len
            invariant
                i <= symbol.bit_len,
                symbol.bit_len <= 32,
                self.wf(),
                self@ == prev@ + symbol.bits().take(i as int),
            decreases symbol.bit_len - i,
        {
            let bit = get_bit(symbol.encoded_symbol, i as u32);
            self.write_bit(bit);
            i = i + 1;
            proof {
                assert(self@ =~= prev@ + symbol.bits().take(i as int));
            }
        }
        proof {
            assert(symbol.bits().take(symbol.bit_len as int) =~= symbol.bits());
        }
    }

    /// Writes a block's header: the NUL-terminated path and the four size
    /// fields as little-endian 64-bit integers.
    pub fn write_block(&mut self, block: &FileBlock)
        requires
            old(self).wf(),
            block@.wf(),
        ensures
            final(self).wf(),
            final(self)@ == old(self)@ + bits_of_bytes(block@.header_bytes()),
    {
        let ghost prev = *old(self);
        let ghost name = block.filename_rel@;
        proof {
            assert(prev@ =~= prev@ + bits_of_bytes(name.take(0)));
        }
        let mut i: usize = 0;
        while i < block.filename_rel.len()
            invariant
                i <= block.filename_rel.len(),
                block.filename_rel@ == name,
                self.wf(),
                self@ == prev@ + bits_of_bytes(name.take(i as int)),
            decreases block.filename_rel.len() - i,
        {
            self.write_byte(block.filename_rel[i]);
            proof {
                lemma_bits_of_bytes_push(name.take(i as int), name[i as int]);
                assert(name.take(i + 1) =~= name.take(i as int).push(name[i as int]));
            }
            i = i + 1;
        }
        proof {
            assert(name.take(name.len() as int) =~= name);
        }
        self.write_byte(0);
        self.write_u64(block.tree_bit_size);
        self.write_u64(block.data_bit_size);
        self.write_u64(block.file_byte_offset);
        self.write_u64(block.og_byte_size);
        proof {
            let b = block@;
            lemma_bits_of_bytes_singleton(0u8);
            lemma_bits_of_bytes_add(name, seq![0u8]);
            lemma_bits_of_bytes_add(name + seq![0u8], spec_u64_to_le_bytes(b.tree_bit_size));
            lemma_bits_of_bytes_add(
                name + seq![0u8] + spec_u64_to_le_bytes(b.tree_bit_size),
                spec_u64_to_le_bytes(b.data_bit_size),
            );
            lemma_bits_of_bytes_add(
                name + seq![0u8] + spec_u64_to_le_bytes(b.tree_bit_size) + spec_u64_to_le_bytes(
                    b.data_bit_size,
                ),
                spec_u64_to_le_bytes(b.file_byte_offset),
            );
            lemma_bits_of_bytes_add(
                name + seq![0u8] + spec_u64_to_le_bytes(b.tree_bit_size) + spec_u64_to_le_bytes(
                    b.data_bit_size,
                ) + spec_u64_to_le_bytes(b.file_byte_offset),
                spec_u64_to_le_bytes(b.og_byte_size),
            );
            assert(self@ =~= prev@ + bits_of_bytes(b.header_bytes()));
        }
    }

    /// Advances to the next byte boundary by appending zero bits; writing
    /// nothing when already aligned.
    pub fn align_to_byte(&mut self)
        requires
            old(self).wf(),
        ensures
            final(self).wf(),
            final(self)@ == align_bits(old(self)@),
            final(self)@.len() % 8 == 0,
    {
        let ghost prev = *old(self);
        proof {
            lemma_div_mod_8_exact(prev.bytes@.len() as int, prev.cur_len as int);
            assert(prev@.len() % 8 == prev.cur_len as int);
        }
        if self.cur_len > 0 {
            self.bytes.push(self.cur);
            self.cur = 0;
            self.cur_len = 0;
            proof {
                lemma_bits_of_bytes_push(prev.bytes@, prev.cur);
                assert(forall|i: u8| i < 8 ==> ((0u8 >> i) & 1) != 1) by (bit_vector);
                assert(self@ =~= align_bits(prev@));
                lemma_div_mod_8_exact(self.bytes@.len() as int, 0);
            }
        } else {
            proof {
                assert(self@ =~= align_bits(prev@));
            }
        }
    }

    /// Finishes the stream: aligns to a byte boundary and hands back the
    /// packed bytes.
    pub fn into_bytes(self) -> (r: Vec<u8>)
        requires
            self.wf(),
        ensures
            r@ == pack_bits(align_bits(self@)),
            bits_of_bytes(r@) == align_bits(self@),
            r@.len() == (self@.len() + 7) / 8,
    {
        let mut w = self;
        let ghost v0 = w@;
        w.align_to_byte();
        proof {
            assert(byte_bits(w.cur).take(w.cur_len as int) =~= Seq::<bool>::empty());
            assert(w@ =~= bits_of_bytes(w.bytes@));
            lemma_pack_bits_of_bytes(w.bytes@);
            assert(align_bits(v0).len() == v0.len() + pad_len(v0.len() as int));
            lemma_div_mod_8_exact(w.bytes@.len() as int, 0);
            assert(w.bytes@.len() == (v0.len() + 7) / 8) by {
                let n = v0.len() as int;
                let m = w.bytes@.len() as int;
                assert(8 * m == n + (8 - n % 8) % 8);
                assert(n >= 0);
                assert(m == (n + 7) / 8) by (nonlinear_arith)
                    requires
                        8 * m == n + (8 - n % 8) % 8,
                        n >= 0,
                ;
            }
        }
        w.bytes
    }
}

} // verus!
