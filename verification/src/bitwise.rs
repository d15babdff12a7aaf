//! Bit-level helpers shared by the bit-stream reader and writer.
//!
//! A byte buffer is viewed as a sequence of bits, least-significant bit of
//! each byte first; these spec functions and lemmas relate byte values to
//! that bit view and back.

use vstd::prelude::*;

verus! {

/// True iff bit `i` (least-significant first) of byte `b` is set.
pub open spec fn byte_bit(b: u8, i: u8) -> bool {
    (b >> i) & 1 == 1
}

/// True iff bit `i` (least-significant first) of `x` is set.
pub open spec fn u32_bit(x: u32, i: u32) -> bool {
    (x >> i) & 1 == 1
}

/// The eight bits of a byte, least-significant first.
pub open spec fn byte_bits(b: u8) -> Seq<bool> {
    Seq::new(8, |i: int| byte_bit(b, i as u8))
}

/// The bits of a byte sequence: all bits of `s[0]` first, then `s[1]`, and
/// so on, each byte least-significant bit first.
pub open spec fn bits_of_bytes(s: Seq<u8>) -> Seq<bool> {
    Seq::new(s.len() * 8, |i: int| byte_bit(s[i / 8], (i % 8) as u8))
}

pub open spec fn bool_bit(b: bool) -> u8 {
    if b {
        1
    } else {
        0
    }
}

/// The byte whose bit view (least-significant first) is the eight given bits.
pub open spec fn byte_of_bits(bits: Seq<bool>) -> u8
    recommends
        bits.len() == 8,
{
    (bool_bit(bits[0]) + 2 * bool_bit(bits[1]) + 4 * bool_bit(bits[2]) + 8 * bool_bit(bits[3]) + 16
        * bool_bit(bits[4]) + 32 * bool_bit(bits[5]) + 64 * bool_bit(bits[6]) + 128 * bool_bit(
        bits[7],
    )) as u8
}

/// Packs a byte-aligned bit sequence into bytes.
pub open spec fn pack_bits(bits: Seq<bool>) -> Seq<u8>
    recommends
        bits.len() % 8 == 0,
{
    Seq::new(bits.len() / 8, |k: int| byte_of_bits(bits.subrange(8 * k, 8 * k + 8)))
}

/// How many zero padding bits a sequence of `n` bits needs to reach the
/// next byte boundary.
pub open spec fn pad_len(n: int) -> int {
    (8 - n % 8) % 8
}

/// A bit sequence extended with zero bits up to the next byte boundary.
pub open spec fn align_bits(bits: Seq<bool>) -> Seq<bool> {
    bits + Seq::new(pad_len(bits.len() as int) as nat, |i: int| false)
}

/// Returns 1 when bit `n` of `num` is set and 0 otherwise.
pub fn get_bit(num: u32, n: u32) -> (r: u8)
    requires
        n < 32,
    ensures
        r == (if u32_bit(num, n) {
            1u8
        } else {
            0u8
        }),
        num < 256 && n < 8 ==> r == (if byte_bit(num as u8, n as u8) {
            1u8
        } else {
            0u8
        }),
{
    let v = (num >> n) & 1;
    proof {
        assert((num >> n) & 1 <= 1) by (bit_vector);
        assert(num < 256 && n < 8 ==> (((num >> n) & 1 == 1) <==> (((num as u8) >> (n as u8)) & 1
            == 1))) by (bit_vector);
    }
    v as u8
}

/// Sets bit `n` in the low byte of `num`, leaving the other bits unchanged.
pub fn set_bit(num: u32, n: u32) -> (r: u8)
    requires
        n < 8,
        num < 256,
    ensures
        forall|i: u8| i < 8 ==> byte_bit(r, i) == (i == n as u8 || byte_bit(num as u8, i)),
{
    let r = ((1u32 << n) | num) as u8;
    proof {
        assert(forall|i: u8|
            n < 8 && num < 256 && i < 8 ==> (((#[trigger] ((((1u32 << n) | num) as u8) >> i)) & 1
                == 1) == (i == n as u8 || ((num as u8) >> i) & 1 == 1))) by (bit_vector);
        assert forall|i: u8| i < 8 implies byte_bit(r, i) == (i == n as u8 || byte_bit(
            num as u8,
            i,
        )) by {
            assert((((((1u32 << n) | num) as u8) >> i) & 1 == 1) == (i == n as u8 || ((num as u8)
                >> i) & 1 == 1));
        }
    }
    r
}

/// Bits of a byte sequence extended by one byte: the old bits, then the
/// new byte's bits.
pub proof fn lemma_bits_of_bytes_push(s: Seq<u8>, b: u8)
    ensures
        bits_of_bytes(s.push(b)) == bits_of_bytes(s) + byte_bits(b),
{
    let lhs = bits_of_bytes(s.push(b));
    let rhs = bits_of_bytes(s) + byte_bits(b);
    assert(lhs.len() == rhs.len());
    assert forall|i: int| 0 <= i < lhs.len() implies lhs[i] == rhs[i] by {
        lemma_div_mod_8(i, s.len() as int + 1);
        if i < s.len() * 8 {
            assert(s.push(b)[i / 8] == s[i / 8]);
        } else {
            assert(i / 8 == s.len() && i % 8 == i - 8 * s.len());
        }
    }
    assert(lhs =~= rhs);
}

/// The bits of a one-byte sequence are the byte's bits.
pub proof fn lemma_bits_of_bytes_singleton(b: u8)
    ensures
        bits_of_bytes(seq![b]) == byte_bits(b),
{
    assert forall|i: int| 0 <= i < 8 implies bits_of_bytes(seq![b])[i] == byte_bits(b)[i] by {
        lemma_div_mod_8(i, 1);
    }
    assert(bits_of_bytes(seq![b]) =~= byte_bits(b));
}

/// Bits of a concatenation are the concatenation of the bits.
pub proof fn lemma_bits_of_bytes_add(s: Seq<u8>, t: Seq<u8>)
    ensures
        bits_of_bytes(s + t) == bits_of_bytes(s) + bits_of_bytes(t),
{
    let lhs = bits_of_bytes(s + t);
    let rhs = bits_of_bytes(s) + bits_of_bytes(t);
    assert(lhs.len() == rhs.len()) by {
        assert((s.len() + t.len()) * 8 == s.len() * 8 + t.len() * 8) by (nonlinear_arith);
    }
    assert forall|i: int| 0 <= i < lhs.len() implies lhs[i] == rhs[i] by {
        lemma_div_mod_8(i, (s + t).len() as int);
        if i < s.len() * 8 {
            assert((s + t)[i / 8] == s[i / 8]);
        } else {
            let j = i - s.len() * 8;
            lemma_div_mod_8(j, t.len() as int);
            assert(i == 8 * (s.len() + j / 8) + j % 8);
            lemma_div_mod_8_exact(s.len() as int + j / 8, j % 8);
            assert((s + t)[i / 8] == t[j / 8]);
        }
    }
    assert(lhs =~= rhs);
}

/// Bounds on `i / 8` and `i % 8` for an index into `n` bytes' worth of bits.
pub proof fn lemma_div_mod_8(i: int, n: int)
    requires
        0 <= i < n * 8,
    ensures
        0 <= i / 8 < n,
        0 <= i % 8 < 8,
        i == 8 * (i / 8) + i % 8,
{
    assert(0 <= i / 8 && 0 <= i % 8 < 8 && i == 8 * (i / 8) + i % 8) by (nonlinear_arith)
        requires
            0 <= i,
    ;
    assert(i / 8 < n) by (nonlinear_arith)
        requires
            i < n * 8,
            0 <= i % 8 < 8,
            i == 8 * (i / 8) + i % 8,
    ;
}

/// Quotient and remainder of `8 * k + i` by eight, for `i` below eight.
pub proof fn lemma_div_mod_8_exact(k: int, i: int)
    requires
        0 <= i < 8,
        0 <= k,
    ensures
        (8 * k + i) / 8 == k,
        (8 * k + i) % 8 == i,
{
    vstd::arithmetic::div_mod::lemma_fundamental_div_mod_converse(8 * k + i, 8, k, i);
}

/// Two bytes that agree on all eight bits are equal.
pub proof fn lemma_byte_bits_inj(a: u8, b: u8)
    requires
        forall|i: u8| i < 8 ==> byte_bit(a, i) == byte_bit(b, i),
    ensures
        a == b,
{
    assert(byte_bit(a, 0) == byte_bit(b, 0));
    assert(byte_bit(a, 1) == byte_bit(b, 1));
    assert(byte_bit(a, 2) == byte_bit(b, 2));
    assert(byte_bit(a, 3) == byte_bit(b, 3));
    assert(byte_bit(a, 4) == byte_bit(b, 4));
    assert(byte_bit(a, 5) == byte_bit(b, 5));
    assert(byte_bit(a, 6) == byte_bit(b, 6));
    assert(byte_bit(a, 7) == byte_bit(b, 7));
    assert(((a >> 0) & 1 == 1) == ((b >> 0) & 1 == 1) && ((a >> 1) & 1 == 1) == ((b >> 1) & 1 == 1)
        && ((a >> 2) & 1 == 1) == ((b >> 2) & 1 == 1) && ((a >> 3) & 1 == 1) == ((b >> 3) & 1 == 1)
        && ((a >> 4) & 1 == 1) == ((b >> 4) & 1 == 1) && ((a >> 5) & 1 == 1) == ((b >> 5) & 1 == 1)
        && ((a >> 6) & 1 == 1) == ((b >> 6) & 1 == 1) && ((a >> 7) & 1 == 1) == ((b >> 7) & 1 == 1)
        ==> a == b) by (bit_vector);
}

/// Packing the eight bits of a byte yields the byte back.
pub proof fn lemma_byte_of_byte_bits(b: u8)
    ensures
        byte_of_bits(byte_bits(b)) == b,
{
    let x0 = bool_bit(byte_bit(b, 0));
    let x1 = bool_bit(byte_bit(b, 1));
    let x2 = bool_bit(byte_bit(b, 2));
    let x3 = bool_bit(byte_bit(b, 3));
    let x4 = bool_bit(byte_bit(b, 4));
    let x5 = bool_bit(byte_bit(b, 5));
    let x6 = bool_bit(byte_bit(b, 6));
    let x7 = bool_bit(byte_bit(b, 7));
    assert(b == (if (b >> 0) & 1 == 1 {
        1u8
    } else {
        0u8
    }) + 2 * (if (b >> 1) & 1 == 1 {
        1u8
    } else {
        0u8
    }) + 4 * (if (b >> 2) & 1 == 1 {
        1u8
    } else {
        0u8
    }) + 8 * (if (b >> 3) & 1 == 1 {
        1u8
    } else {
        0u8
    }) + 16 * (if (b >> 4) & 1 == 1 {
        1u8
    } else {
        0u8
    }) + 32 * (if (b >> 5) & 1 == 1 {
        1u8
    } else {
        0u8
    }) + 64 * (if (b >> 6) & 1 == 1 {
        1u8
    } else {
        0u8
    }) + 128 * (if (b >> 7) & 1 == 1 {
        1u8
    } else {
        0u8
    })) by (bit_vector);
    assert(byte_bits(b)[0] == byte_bit(b, 0));
    assert(byte_bits(b)[1] == byte_bit(b, 1));
    assert(byte_bits(b)[2] == byte_bit(b, 2));
    assert(byte_bits(b)[3] == byte_bit(b, 3));
    assert(byte_bits(b)[4] == byte_bit(b, 4));
    assert(byte_bits(b)[5] == byte_bit(b, 5));
    assert(byte_bits(b)[6] == byte_bit(b, 6));
    assert(byte_bits(b)[7] == byte_bit(b, 7));
}

/// The bits of the byte that packs eight given bits are those bits.
pub proof fn lemma_byte_bits_of_byte(bits: Seq<bool>)
    requires
        bits.len() == 8,
    ensures
        byte_bits(byte_of_bits(bits)) == bits,
{
    let x0 = bool_bit(bits[0]);
    let x1 = bool_bit(bits[1]);
    let x2 = bool_bit(bits[2]);
    let x3 = bool_bit(bits[3]);
    let x4 = bool_bit(bits[4]);
    let x5 = bool_bit(bits[5]);
    let x6 = bool_bit(bits[6]);
    let x7 = bool_bit(bits[7]);
    let v = byte_of_bits(bits);
    assert(v == (x0 + 2 * x1 + 4 * x2 + 8 * x3 + 16 * x4 + 32 * x5 + 64 * x6 + 128 * x7) as u8);
    assert(x0 <= 1 && x1 <= 1 && x2 <= 1 && x3 <= 1 && x4 <= 1 && x5 <= 1 && x6 <= 1 && x7 <= 1);
    assert(v == (x0 + 2 * x1 + 4 * x2 + 8 * x3 + 16 * x4 + 32 * x5 + 64 * x6 + 128 * x7) as u8 && x0
        <= 1 && x1 <= 1 && x2 <= 1 && x3 <= 1 && x4 <= 1 && x5 <= 1 && x6 <= 1 && x7 <= 1 ==> ((v
        >> 0) & 1) == x0 && ((v >> 1) & 1) == x1 && ((v >> 2) & 1) == x2 && ((v >> 3) & 1) == x3 && (
    (v >> 4) & 1) == x4 && ((v >> 5) & 1) == x5 && ((v >> 6) & 1) == x6 && ((v >> 7) & 1) == x7)
        by (bit_vector);
    assert forall|i: int| 0 <= i < 8 implies byte_bits(v)[i] == bits[i] by {
        if i == 0 {
            assert(byte_bit(v, 0) == ((v >> 0) & 1 == 1));
        }
    }
    assert(byte_bits(v) =~= bits);
}

/// Alignment law: advancing to the next byte boundary twice is the same
/// as advancing once, because an aligned stream needs no further padding.
pub proof fn lemma_align_bits_idempotent(bits: Seq<bool>)
    ensures
        align_bits(align_bits(bits)) == align_bits(bits),
{
    let n = bits.len() as int;
    assert((n + (8 - n % 8) % 8) % 8 == 0) by (nonlinear_arith)
        requires
            0 <= n,
    ;
    assert(align_bits(align_bits(bits)) =~= align_bits(bits));
}

/// Aligning after a byte-aligned prefix pads only the suffix.
pub proof fn lemma_align_concat(p: Seq<bool>, x: Seq<bool>)
    requires
        p.len() % 8 == 0,
    ensures
        align_bits(p + x) == p + align_bits(x),
{
    assert((p.len() + x.len()) % 8 == x.len() % 8) by (nonlinear_arith)
        requires
            p.len() % 8 == 0,
    ;
    assert(align_bits(p + x) =~= p + align_bits(x));
}

/// Packing splits over a byte-aligned boundary: bytes first, packed bits
/// after.
pub proof fn lemma_pack_bits_concat(s: Seq<u8>, r: Seq<bool>)
    requires
        r.len() % 8 == 0,
    ensures
        pack_bits(bits_of_bytes(s) + r) == s + pack_bits(r),
{
    lemma_bits_of_pack_bits(r);
    lemma_bits_of_bytes_add(s, pack_bits(r));
    assert(bits_of_bytes(s) + r == bits_of_bytes(s + pack_bits(r)));
    lemma_pack_bits_of_bytes(s + pack_bits(r));
}

/// Unpacking packed bytes yields the original byte-aligned bit sequence.
pub proof fn lemma_bits_of_pack_bits(bits: Seq<bool>)
    requires
        bits.len() % 8 == 0,
    ensures
        bits_of_bytes(pack_bits(bits)) == bits,
{
    let s = pack_bits(bits);
    assert(s.len() * 8 == bits.len()) by {
        assert(bits.len() / 8 * 8 == bits.len()) by (nonlinear_arith)
            requires
                bits.len() % 8 == 0,
        ;
    }
    assert forall|i: int| 0 <= i < bits.len() implies bits_of_bytes(s)[i] == bits[i] by {
        lemma_div_mod_8(i, s.len() as int);
        let k = i / 8;
        let chunk = bits.subrange(8 * k, 8 * k + 8);
        lemma_byte_bits_of_byte(chunk);
        assert(byte_bits(s[k])[i % 8] == chunk[i % 8]);
        assert(chunk[i % 8] == bits[i]);
    }
    assert(bits_of_bytes(s) =~= bits);
}

/// Packing the bit view of a byte sequence yields the bytes back.
pub proof fn lemma_pack_bits_of_bytes(s: Seq<u8>)
    ensures
        pack_bits(bits_of_bytes(s)) == s,
{
    let bits = bits_of_bytes(s);
    assert(bits.len() == s.len() * 8);
    assert(bits.len() % 8 == 0) by (nonlinear_arith)
        requires
            bits.len() == s.len() * 8,
    ;
    assert(pack_bits(bits).len() == s.len()) by {
        assert(s.len() * 8 / 8 == s.len()) by (nonlinear_arith);
    }
    assert forall|k: int| 0 <= k < s.len() implies pack_bits(bits)[k] == s[k] by {
        let chunk = bits.subrange(8 * k, 8 * k + 8);
        assert forall|i: int| 0 <= i < 8 implies chunk[i] == byte_bits(s[k])[i] by {
            lemma_div_mod_8_exact(k, i);
            assert(chunk[i] == byte_bit(s[(8 * k + i) / 8], ((8 * k + i) % 8) as u8));
        }
        assert(chunk =~= byte_bits(s[k]));
        lemma_byte_of_byte_bits(s[k]);
    }
    assert(pack_bits(bits) =~= s);
}

} // verus!
