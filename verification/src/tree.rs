//! The Huffman prefix tree: a full binary tree over byte values.
//!
//! A leaf holds one byte value; an internal node always has exactly two
//! children, which the shape of the type guarantees.  Weights order the
//! construction and carry no meaning afterwards: the serialized image and
//! all code derivations depend on the shape and the leaf symbols alone.

use crate::bitwise::{byte_bits, byte_of_bits, lemma_byte_of_byte_bits};
use vstd::multiset::Multiset;
use vstd::prelude::*;

verus! {

broadcast use vstd::multiset::group_multiset_axioms;

pub enum Tree {
    Leaf { plain_symbol: u8, weight: u64 },
    Internal { left: Box<Tree>, right: Box<Tree>, weight: u64 },
}

impl Tree {
    /// A leaf holding one byte value.
    pub fn leaf(symbol: u8, weight: u64) -> (t: Tree)
        ensures
            t == (Tree::Leaf { plain_symbol: symbol, weight }),
    {
        Tree::Leaf { plain_symbol: symbol, weight }
    }

    /// An internal node over two subtrees.  The symbol of an internal node
    /// carries no meaning and is not stored.
    pub fn internal(left: Box<Tree>, right: Box<Tree>, _symbol: u8, weight: u64) -> (t: Tree)
        ensures
            t == (Tree::Internal { left, right, weight }),
    {
        Tree::Internal { left, right, weight }
    }

    pub fn is_leaf(&self) -> (b: bool)
        ensures
            b == (self is Leaf),
    {
        match self {
            Tree::Leaf { .. } => true,
            Tree::Internal { .. } => false,
        }
    }

    pub open spec fn spec_weight(self) -> u64 {
        match self {
            Tree::Leaf { weight, .. } => weight,
            Tree::Internal { weight, .. } => weight,
        }
    }

    /// The construction weight of the root node.
    pub fn weight(&self) -> (w: u64)
        ensures
            w == self.spec_weight(),
    {
        match self {
            Tree::Leaf { weight, .. } => *weight,
            Tree::Internal { weight, .. } => *weight,
        }
    }

    /// The multiset of byte values at the leaves.
    pub open spec fn leaves(self) -> Multiset<u8>
        decreases self,
    {
        match self {
            Tree::Leaf { plain_symbol, .. } => Multiset::singleton(plain_symbol),
            Tree::Internal { left, right, .. } => left.leaves().add(right.leaves()),
        }
    }

    /// No byte value appears at more than one leaf.
    pub open spec fn distinct_leaves(self) -> bool {
        forall|s: u8| self.leaves().count(s) <= 1
    }

    /// Length of the longest root-to-leaf path.
    pub open spec fn depth(self) -> nat
        decreases self,
    {
        match self {
            Tree::Leaf { .. } => 0,
            Tree::Internal { left, right, .. } => 1 + if left.depth() >= right.depth() {
                left.depth()
            } else {
                right.depth()
            },
        }
    }

    /// Decides whether the tree is at most `limit` levels deep.
    pub fn depth_within(&self, limit: u8) -> (b: bool)
        ensures
            b == (self.depth() <= limit),
        decreases self,
    {
        match self {
            Tree::Leaf { .. } => true,
            Tree::Internal { left, right, .. } => limit > 0 && left.depth_within(limit - 1)
                && right.depth_within(limit - 1),
        }
    }

    /// The serialized image of the tree: a leaf is a one bit followed by
    /// the eight bits of its symbol; an internal node is a zero bit
    /// followed by the images of its two children.
    pub open spec fn tree_bits(self) -> Seq<bool>
        decreases self,
    {
        match self {
            Tree::Leaf { plain_symbol, .. } => seq![true] + byte_bits(plain_symbol),
            Tree::Internal { left, right, .. } => seq![false] + left.tree_bits()
                + right.tree_bits(),
        }
    }

    /// The root-to-leaf path of symbol `s` (false descends left), taking
    /// the leftmost occurrence.
    pub open spec fn path_to(self, s: u8) -> Seq<bool>
        decreases self,
    {
        match self {
            Tree::Leaf { .. } => Seq::empty(),
            Tree::Internal { left, right, .. } => if left.leaves().count(s) > 0 {
                seq![false] + left.path_to(s)
            } else {
                seq![true] + right.path_to(s)
            },
        }
    }

    /// The code emitted for symbol `s`: its path, except that a tree that
    /// is a single leaf codes its one symbol as a single zero bit.
    pub open spec fn tcode(self, s: u8) -> Seq<bool> {
        if self is Leaf {
            seq![false]
        } else {
            self.path_to(s)
        }
    }

    /// The tree with all construction weights cleared, as deserialization
    /// rebuilds it.
    pub open spec fn strip(self) -> Tree
        decreases self,
    {
        match self {
            Tree::Leaf { plain_symbol, .. } => Tree::Leaf { plain_symbol, weight: 0 },
            Tree::Internal { left, right, .. } => Tree::Internal {
                left: Box::new(left.strip()),
                right: Box::new(right.strip()),
                weight: 0,
            },
        }
    }
}

/// Clearing the weights changes nothing that codes or serialization depend
/// on: the shape, leaves, depth, image and paths all stay the same.
pub proof fn lemma_strip_shape(t: Tree)
    ensures
        t.strip() is Leaf <==> t is Leaf,
        t.strip().leaves() == t.leaves(),
        t.strip().depth() == t.depth(),
        t.strip().tree_bits() == t.tree_bits(),
        forall|s: u8| #[trigger] t.strip().path_to(s) == t.path_to(s),
        forall|s: u8| #[trigger] t.strip().tcode(s) == t.tcode(s),
    decreases t,
{
    match t {
        Tree::Leaf { .. } => {
            assert forall|s: u8| #[trigger] t.strip().path_to(s) == t.path_to(s) by {
                assert(t.strip().path_to(s) =~= t.path_to(s));
            }
        },
        Tree::Internal { left, right, .. } => {
            lemma_strip_shape(*left);
            lemma_strip_shape(*right);
            assert forall|s: u8| #[trigger] t.strip().path_to(s) == t.path_to(s) by {
                assert(left.strip().path_to(s) == left.path_to(s));
                assert(right.strip().path_to(s) == right.path_to(s));
            }
        },
    }
}

/// The serialized image of a tree with `L` leaves is exactly `10 L - 1`
/// bits long: nine bits for each leaf and one for each of the `L - 1`
/// internal nodes of a full binary tree.
pub proof fn lemma_tree_bit_size(t: Tree)
    ensures
        t.leaves().len() >= 1,
        t.tree_bits().len() == 10 * t.leaves().len() - 1,
    decreases t,
{
    match t {
        Tree::Leaf { .. } => {},
        Tree::Internal { left, right, .. } => {
            lemma_tree_bit_size(*left);
            lemma_tree_bit_size(*right);
        },
    }
}

/// A tree is strictly shallower than it has leaves: a full binary tree
/// with `L` leaves is at most `L - 1` levels deep.
pub proof fn lemma_depth_lt_leaf_count(t: Tree)
    ensures
        t.depth() < t.leaves().len(),
    decreases t,
{
    match t {
        Tree::Leaf { .. } => {},
        Tree::Internal { left, right, .. } => {
            lemma_depth_lt_leaf_count(*left);
            lemma_depth_lt_leaf_count(*right);
        },
    }
}

/// The path to a symbol present among the leaves is at most as long as the
/// tree is deep, and leads through at least one internal node.
pub proof fn lemma_path_to_len(t: Tree, s: u8)
    requires
        t.leaves().count(s) >= 1,
    ensures
        t.path_to(s).len() <= t.depth(),
        t is Internal ==> t.path_to(s).len() >= 1,
        t.tcode(s).len() >= 1,
        t.tcode(s).len() <= if t.depth() == 0 {
            1nat
        } else {
            t.depth()
        },
    decreases t,
{
    match t {
        Tree::Leaf { .. } => {},
        Tree::Internal { left, right, .. } => {
            if left.leaves().count(s) > 0 {
                lemma_path_to_len(*left, s);
            } else {
                lemma_path_to_len(*right, s);
            }
        },
    }
}

/// Parses the leading serialized tree from a bit sequence, returning the
/// tree and the number of bits it occupies.
pub open spec fn parse_tree(bits: Seq<bool>) -> Option<(Tree, nat)>
    decreases bits.len(),
{
    if bits.len() == 0 {
        None
    } else if bits[0] {
        if bits.len() >= 9 {
            Some(
                (
                    Tree::Leaf { plain_symbol: byte_of_bits(bits.subrange(1, 9)), weight: 0 },
                    9nat,
                ),
            )
        } else {
            None
        }
    } else {
        match parse_tree(bits.skip(1)) {
            None => None,
            Some((left, nl)) => {
                if nl + 1 <= bits.len() {
                    match parse_tree(bits.skip(1 + nl as int)) {
                        None => None,
                        Some((right, nr)) => Some(
                            (
                                Tree::Internal {
                                    left: Box::new(left),
                                    right: Box::new(right),
                                    weight: 0,
                                },
                                1 + nl + nr,
                            ),
                        ),
                    }
                } else {
                    None
                }
            },
        }
    }
}

/// Round trip of tree serialization: parsing a serialized tree, whatever
/// follows it, yields the same tree up to weights and consumes exactly its
/// image.
pub proof fn lemma_parse_tree_round_trip(t: Tree, rest: Seq<bool>)
    ensures
        parse_tree(t.tree_bits() + rest) == Some((t.strip(), t.tree_bits().len() as nat)),
    decreases t,
{
    let bits = t.tree_bits() + rest;
    match t {
        Tree::Leaf { plain_symbol, .. } => {
            assert(bits[0]);
            assert(bits.len() >= 9);
            assert(bits.subrange(1, 9) =~= byte_bits(plain_symbol));
            lemma_byte_of_byte_bits(plain_symbol);
        },
        Tree::Internal { left, right, .. } => {
            let lb = left.tree_bits();
            let rb = right.tree_bits();
            assert(!bits[0]);
            assert(bits.skip(1) =~= lb + (rb + rest));
            lemma_parse_tree_round_trip(*left, rb + rest);
            let nl = lb.len();
            assert(parse_tree(bits.skip(1)) == Some((left.strip(), nl as nat)));
            assert(nl + 1 <= bits.len());
            assert(bits.skip(1 + nl as int) =~= rb + rest);
            lemma_parse_tree_round_trip(*right, rest);
            assert(parse_tree(bits.skip(1 + nl as int)) == Some((right.strip(), rb.len() as nat)));
        },
    }
}

/// Walks the tree with the leading bits: descends left on a zero bit and
/// right on a one bit until a leaf is reached, returning its symbol and
/// the number of bits consumed.
pub open spec fn decode_sym(t: Tree, bits: Seq<bool>) -> Option<(u8, nat)>
    decreases t,
{
    match t {
        Tree::Leaf { plain_symbol, .. } => Some((plain_symbol, 0nat)),
        Tree::Internal { left, right, .. } => {
            if bits.len() == 0 {
                None
            } else {
                let sub = if !bits[0] {
                    decode_sym(*left, bits.skip(1))
                } else {
                    decode_sym(*right, bits.skip(1))
                };
                match sub {
                    None => None,
                    Some((s, n)) => Some((s, n + 1)),
                }
            }
        },
    }
}

/// Decodes one symbol from the leading bits.  A tree that is a single
/// leaf consumes one (padding) bit per symbol, mirroring the single-bit
/// code the encoder emits for it.
pub open spec fn decode_one(t: Tree, bits: Seq<bool>) -> Option<(u8, nat)> {
    match t {
        Tree::Leaf { plain_symbol, .. } => {
            if bits.len() >= 1 {
                Some((plain_symbol, 1nat))
            } else {
                None
            }
        },
        Tree::Internal { .. } => decode_sym(t, bits),
    }
}

/// Decoding bits that start with a present symbol's code yields that
/// symbol and consumes exactly the code.
pub proof fn lemma_decode_tcode(t: Tree, s: u8, rest: Seq<bool>)
    requires
        t.leaves().count(s) >= 1,
    ensures
        decode_one(t, t.tcode(s) + rest) == Some((s, t.tcode(s).len() as nat)),
    decreases t,
{
    match t {
        Tree::Leaf { plain_symbol, .. } => {
            assert(s == plain_symbol);
        },
        Tree::Internal { left, right, .. } => {
            lemma_decode_path(t, s, rest);
        },
    }
}

/// Walking a present symbol's root-to-leaf path reaches its leaf.
pub proof fn lemma_decode_path(t: Tree, s: u8, rest: Seq<bool>)
    requires
        t.leaves().count(s) >= 1,
    ensures
        decode_sym(t, t.path_to(s) + rest) == Some((s, t.path_to(s).len() as nat)),
    decreases t,
{
    match t {
        Tree::Leaf { plain_symbol, .. } => {
            assert(s == plain_symbol);
        },
        Tree::Internal { left, right, .. } => {
            let bits = t.path_to(s) + rest;
            if left.leaves().count(s) > 0 {
                assert(!bits[0]);
                assert(bits.skip(1) =~= left.path_to(s) + rest);
                lemma_decode_path(*left, s, rest);
            } else {
                assert(right.leaves().count(s) >= 1);
                assert(bits[0]);
                assert(bits.skip(1) =~= right.path_to(s) + rest);
                lemma_decode_path(*right, s, rest);
            }
        },
    }
}

} // verus!
