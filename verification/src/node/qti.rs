//! The binary encoding of quadtrees, and the QTI container around it.

use vstd::arithmetic::div_mod::{
    lemma_div_denominator, lemma_fundamental_div_mod, lemma_fundamental_div_mod_converse,
};
use vstd::arithmetic::power2::{lemma2_to64, lemma_pow2_pos, lemma_pow2_unfold, pow2};
use vstd::prelude::*;

use vstd::slice::slice_subrange;

use super::bits::{bit_of, bits_of_bytes, max_bits, max_bytes, QuadtreeEncodeBitVec};
use super::error::{DecodeError, EncodeError};
use super::quantize::palette::{
    capacity, entries, filler, index_count, lemma_width_for_full, spec_filler,
    Color, DynamicPalette, Palette,
};
use super::QuadtreeNode;

verus! {

/// The `width` lowest bits of `color`, most significant first.
pub open spec fn color_bits(color: nat, width: nat) -> Seq<bool> {
    Seq::new(width, |i: int| bit_of(color, (width - 1 - i) as nat))
}

/// The number that a sequence of bits spells, most significant bit first.
pub open spec fn bits_value(bits: Seq<bool>) -> nat
    decreases bits.len(),
{
    if bits.len() == 0 {
        0
    } else {
        2 * bits_value(bits.drop_last()) + if bits.last() {
            1nat
        } else {
            0nat
        }
    }
}

/// A sequence of bits spells a number below two to the power of its length.
pub proof fn lemma_bits_value_bound(bits: Seq<bool>)
    ensures
        bits_value(bits) < pow2(bits.len()),
    decreases bits.len(),
{
    if bits.len() == 0 {
        lemma2_to64();
    } else {
        lemma_bits_value_bound(bits.drop_last());
        lemma_pow2_unfold(bits.len());
    }
}

/// The bits of a color spell the color back, as far as it fits in them.
pub proof fn lemma_color_bits_value(color: nat, width: nat)
    ensures
        bits_value(color_bits(color, width)) == color % pow2(width),
    decreases width,
{
    let bits = color_bits(color, width);
    if width == 0 {
        lemma2_to64();
    } else {
        let m = pow2((width - 1) as nat);
        lemma_pow2_pos((width - 1) as nat);
        lemma_pow2_unfold(width);
        lemma2_to64();
        assert(bits.drop_last() =~= color_bits(color / 2, (width - 1) as nat)) by {
            assert forall|i: int| 0 <= i < width - 1 implies bits[i] == color_bits(
                color / 2,
                (width - 1) as nat,
            )[i] by {
                let k = (width - 2 - i) as nat;
                lemma_pow2_unfold(k + 1);
                lemma_pow2_pos(k);
                lemma_div_denominator(color as int, 2, pow2(k) as int);
            }
        }
        lemma_color_bits_value(color / 2, (width - 1) as nat);
        assert(bits.last() == bit_of(color, 0));
        assert(pow2(0) == 1);
        assert(bits.last() == (color % 2 == 1));
        let q = color / 2;
        let r = color % 2;
        let b = q % m;
        let a = q / m;
        lemma_fundamental_div_mod(q as int, m as int);
        assert(color == (2 * m) * a + (2 * b + r)) by (nonlinear_arith)
            requires
                color == 2 * q + r,
                q == m * a + b,
        ;
        lemma_fundamental_div_mod_converse(
            color as int,
            (2 * m) as int,
            a as int,
            (2 * b + r) as int,
        );
    }
}

impl<P: Palette + Default> QuadtreeNode<P> {
    /// The encoding of the tree with `width` bits to a color: for each node,
    /// in pre-order, one bit that tells whether it has subnodes and then its
    /// color, most significant bit first.
    pub open spec fn encoding(&self, width: nat) -> Seq<bool>
        decreases self,
    {
        seq![self.sections is Some] + color_bits(self.color as nat, width) + match self.sections {
            None => Seq::empty(),
            Some(s) => s.top_left.encoding(width) + s.top_right.encoding(width)
                + s.bottom_left.encoding(width) + s.bottom_right.encoding(width),
        }
    }

    /// The tree that `bits` encode from index `at` on with `width` bits to a
    /// color, and the index behind it; nothing where the bits end before
    /// the tree does.
    ///
    /// The bounds asked of the index behind each subtree always hold; they
    /// are there to show that the definition is well founded.
    #[verifier::opaque]
    pub open spec fn decoding(bits: Seq<bool>, width: nat, at: nat) -> Option<(Self, nat)>
        decreases bits.len() - at,
    {
        let next = at + 1 + width;
        if next > bits.len() {
            None
        } else {
            let color = bits_value(bits.subrange(at as int + 1, next as int)) as u32;
            if !bits[at as int] {
                Some((Self::spec_leaf(color), next))
            } else {
                match Self::decoding(bits, width, next) {
                    Some((a, end_a)) if at < end_a <= bits.len() => match Self::decoding(
                        bits,
                        width,
                        end_a,
                    ) {
                        Some((b, end_b)) if at < end_b <= bits.len() => match Self::decoding(
                            bits,
                            width,
                            end_b,
                        ) {
                            Some((c, end_c)) if at < end_c <= bits.len() => match Self::decoding(
                                bits,
                                width,
                                end_c,
                            ) {
                                Some((d, end_d)) if at < end_d <= bits.len() => Some(
                                    (Self::spec_branch(color, a, b, c, d), end_d),
                                ),
                                _ => None,
                            },
                            _ => None,
                        },
                        _ => None,
                    },
                    _ => None,
                }
            }
        }
    }

    /// An encoding holds one flag bit and `width` color bits for each node.
    pub proof fn lemma_encoding_len(&self, width: nat)
        ensures
            self.encoding(width).len() == self.nodes() * (width + 1),
        decreases self,
    {
        match self.sections {
            None => {
                assert(self.nodes() * (width + 1) == width + 1) by (nonlinear_arith)
                    requires
                        self.nodes() == 1,
                ;
            },
            Some(s) => {
                s.top_left.lemma_encoding_len(width);
                s.top_right.lemma_encoding_len(width);
                s.bottom_left.lemma_encoding_len(width);
                s.bottom_right.lemma_encoding_len(width);
                let a = s.top_left.nodes();
                let b = s.top_right.nodes();
                let c = s.bottom_left.nodes();
                let d = s.bottom_right.nodes();
                assert((1 + a + b + c + d) * (width + 1) == (width + 1) + a * (width + 1) + b * (
                width + 1) + c * (width + 1) + d * (width + 1)) by (nonlinear_arith);
            },
        }
    }

    /// Decoding a node whose flag bit is clear gives a leaf.
    proof fn lemma_decoding_leaf(bits: Seq<bool>, width: nat, at: nat)
        requires
            at + 1 + width <= bits.len(),
            !bits[at as int],
        ensures
            Self::decoding(bits, width, at) == Some(
                (
                    Self::spec_leaf(
                        bits_value(bits.subrange(at as int + 1, (at + 1 + width) as int)) as u32,
                    ),
                    at + 1 + width,
                ),
            ),
    {
        reveal(QuadtreeNode::decoding);
    }

    /// Decoding a node whose flag bit is set gives a branch over the four
    /// trees that follow its color.
    proof fn lemma_decoding_branch(
        bits: Seq<bool>,
        width: nat,
        at: nat,
        a: (Self, nat),
        b: (Self, nat),
        c: (Self, nat),
        d: (Self, nat),
    )
        requires
            at + 1 + width <= bits.len(),
            bits[at as int],
            Self::decoding(bits, width, at + 1 + width) == Some(a),
            Self::decoding(bits, width, a.1) == Some(b),
            Self::decoding(bits, width, b.1) == Some(c),
            Self::decoding(bits, width, c.1) == Some(d),
            at < a.1 <= bits.len(),
            at < b.1 <= bits.len(),
            at < c.1 <= bits.len(),
            at < d.1 <= bits.len(),
        ensures
            Self::decoding(bits, width, at) == Some(
                (
                    Self::spec_branch(
                        bits_value(bits.subrange(at as int + 1, (at + 1 + width) as int)) as u32,
                        a.0,
                        b.0,
                        c.0,
                        d.0,
                    ),
                    d.1,
                ),
            ),
    {
        reveal(QuadtreeNode::decoding);
    }

    /// What stands where the encoding of a node begins in a sequence of
    /// bits: its flag, and then its color.
    proof fn lemma_node_bits(&self, width: nat, before: Seq<bool>, behind: Seq<bool>)
        requires
            self.colors_fit(width),
            width <= 32,
        ensures
            ({
                let bits = before + self.encoding(width) + behind;
                let at = before.len() as int;
                &&& at + 1 + width <= bits.len()
                &&& bits[at] == (self.sections is Some)
                &&& bits_value(bits.subrange(at + 1, at + 1 + width)) as u32 == self.color
            }),
    {
        let code = self.encoding(width);
        let bits = before + code + behind;
        let at = before.len() as int;
        let field = color_bits(self.color as nat, width);
        assert(code.len() >= 1 + width);
        assert(code[0] == (self.sections is Some));
        assert(bits[at] == code[0]);
        assert(bits.subrange(at + 1, at + 1 + width) =~= field) by {
            assert forall|i: int| 0 <= i < width implies bits[at + 1 + i] == field[i] by {
                assert(bits[at + 1 + i] == code[1 + i]);
            }
        }
        lemma2_to64();
        lemma_color_bits_value(self.color as nat, width);
        vstd::arithmetic::div_mod::lemma_small_mod(self.color as nat, pow2(width));
    }

    /// How the encoding of a branch lies in a sequence of bits: its flag and
    /// color, then the encodings of its four sections.
    proof fn lemma_branch_bits(&self, width: nat, before: Seq<bool>, behind: Seq<bool>)
        requires
            self.sections is Some,
        ensures
            ({
                let s = self.sections->0;
                let inner = s.top_left.encoding(width) + s.top_right.encoding(width)
                    + s.bottom_left.encoding(width) + s.bottom_right.encoding(width);
                let start = before + seq![true] + color_bits(self.color as nat, width);
                &&& start.len() == before.len() + 1 + width
                &&& self.encoding(width).len() == 1 + width + inner.len()
                &&& inner.len() == s.top_left.encoding(width).len() + s.top_right.encoding(
                    width,
                ).len() + s.bottom_left.encoding(width).len() + s.bottom_right.encoding(
                    width,
                ).len()
                &&& before + self.encoding(width) + behind == start + inner + behind
            }),
    {
        let s = self.sections->0;
        let inner = s.top_left.encoding(width) + s.top_right.encoding(width)
            + s.bottom_left.encoding(width) + s.bottom_right.encoding(width);
        let head = seq![true] + color_bits(self.color as nat, width);
        assert(self.encoding(width) == head + inner);
        assert(before + (head + inner) + behind =~= before + seq![true] + color_bits(
            self.color as nat,
            width,
        ) + inner + behind);
    }

    /// Decoding gives back what was encoded: where the encoding of a tree
    /// whose colors fit in `width` bits stands in a sequence of bits,
    /// whatever stands before and behind it, decoding from its start yields
    /// the same tree, color for color and branch for branch, and ends
    /// right behind it.
    pub proof fn lemma_decode_encode(&self, width: nat, before: Seq<bool>, behind: Seq<bool>)
        requires
            self.colors_fit(width),
            width <= 32,
        ensures
            Self::decoding(before + self.encoding(width) + behind, width, before.len()) == Some(
                (*self, before.len() + self.encoding(width).len()),
            ),
        decreases self,
    {
        let code = self.encoding(width);
        let bits = before + code + behind;
        let at = before.len();
        let next = at + 1 + width;
        self.lemma_node_bits(width, before, behind);
        match self.sections {
            None => {
                Self::lemma_decoding_leaf(bits, width, at);
                assert(code.len() == 1 + width);
                assert(*self == Self::spec_leaf(self.color));
            },
            Some(s) => {
                let e1 = s.top_left.encoding(width);
                let e2 = s.top_right.encoding(width);
                let e3 = s.bottom_left.encoding(width);
                let e4 = s.bottom_right.encoding(width);
                let start = before + seq![true] + color_bits(self.color as nat, width);
                let end_a = next + e1.len();
                let end_b = end_a + e2.len();
                let end_c = end_b + e3.len();
                let end_d = end_c + e4.len();
                self.lemma_branch_bits(width, before, behind);
                lemma_regroup(start, e1, e2, e3, e4, behind);
                s.top_left.lemma_decode_encode(width, start, e2 + e3 + e4 + behind);
                s.top_right.lemma_decode_encode(width, start + e1, e3 + e4 + behind);
                s.bottom_left.lemma_decode_encode(width, start + e1 + e2, e4 + behind);
                s.bottom_right.lemma_decode_encode(width, start + e1 + e2 + e3, behind);
                Self::lemma_decoding_branch(
                    bits,
                    width,
                    at,
                    (s.top_left, end_a),
                    (s.top_right, end_b),
                    (s.bottom_left, end_c),
                    (s.bottom_right, end_d),
                );
                assert(*self == Self::spec_branch(
                    self.color,
                    s.top_left,
                    s.top_right,
                    s.bottom_left,
                    s.bottom_right,
                ));
            },
        }
    }

    /// Decoding the encoding of a tree whose colors fit in `width` bits
    /// gives the tree back, color for color and branch for branch, and
    /// ends behind the last of its bits: one flag bit and `width` color bits
    /// for each node.
    pub proof fn lemma_codec_round_trip(&self, width: nat)
        requires
            self.colors_fit(width),
            width <= 32,
        ensures
            self.encoding(width).len() == self.nodes() * (width + 1),
            Self::decoding(self.encoding(width), width, 0) == Some(
                (*self, self.nodes() * (width + 1)),
            ),
    {
        let none = Seq::<bool>::empty();
        self.lemma_encoding_len(width);
        self.lemma_decode_encode(width, none, none);
        assert(none + self.encoding(width) + none =~= self.encoding(width));
    }

    /// The number of nodes of the tree, counted no further than `cap`.
    fn capped_nodes(&self, cap: u128) -> (n: u128)
        requires
            cap <= 0x1_0000_0000_0000_0000,
        ensures
            n == if self.nodes() <= cap {
                self.nodes()
            } else {
                cap as nat
            },
        decreases self,
    {
        match &self.sections {
            None => if cap >= 1 {
                1
            } else {
                cap
            },
            Some(s) => {
                let sum = 1 + s.top_left.capped_nodes(cap) + s.top_right.capped_nodes(cap)
                    + s.bottom_left.capped_nodes(cap) + s.bottom_right.capped_nodes(cap);
                if sum <= cap {
                    sum
                } else {
                    cap
                }
            },
        }
    }

    /// Whether a bit vector that holds `taken` bits has room for the
    /// encoding of the tree with `width` bits to a color, and for the bits
    /// that fill its last byte.
    pub fn encoding_fits(&self, width: u8, taken: usize) -> (r: bool)
        ensures
            r == (taken + self.encoding(width as nat).len() + 8 < max_bits()),
    {
        let most: u128 = (usize::MAX / 8) as u128;
        let nodes = self.capped_nodes(most);
        proof {
            self.lemma_encoding_len(width as nat);
            assert(nodes * (width + 1) <= most * 256) by (nonlinear_arith)
                requires
                    nodes <= most,
                    0 <= width <= 255,
            ;
            let all = self.nodes();
            let each = width as nat + 1;
            assert(self.encoding(width as nat).len() == all * each);
            if all >= most {
                assert(all * each >= most) by (nonlinear_arith)
                    requires
                        all >= most,
                        each >= 1,
                ;
            } else {
                assert(nodes == all);
                assert(nodes * (width as u128 + 1) == all * each);
            }
        }
        nodes < most && taken as u128 + nodes * (width as u128 + 1) + 8 < most
    }

    /// Whether every color in the tree is below `limit`.
    pub fn colors_within(&self, limit: u64) -> (r: bool)
        ensures
            r == self.colors_below(limit as nat),
        decreases self,
    {
        if self.color as u64 >= limit {
            return false;
        }
        match &self.sections {
            None => true,
            Some(s) => s.top_left.colors_within(limit) && s.top_right.colors_within(limit)
                && s.bottom_left.colors_within(limit) && s.bottom_right.colors_within(limit),
        }
    }

    /// Appends the encoding of the tree to the buffer.
    fn write_node(&self, buffer: &mut QuadtreeEncodeBitVec, width: u8)
        requires
            1 <= width <= 32,
            old(buffer)@.len() + self.encoding(width as nat).len() < max_bits(),
        ensures
            final(buffer)@ == old(buffer)@ + self.encoding(width as nat),
            final(buffer).aligned() == old(buffer).aligned(),
        decreases self,
    {
        let ghost start = buffer@;
        // Bit to indicate subsections
        buffer.push(self.sections.is_some());
        // Color number
        write_color(buffer, self.color, width);
        // Recursion
        match &self.sections {
            None => {
                proof {
                    assert(buffer@ =~= start + self.encoding(width as nat));
                }
            },
            Some(s) => {
                s.top_left.write_node(buffer, width);
                s.top_right.write_node(buffer, width);
                s.bottom_left.write_node(buffer, width);
                s.bottom_right.write_node(buffer, width);
                proof {
                    assert(buffer@ =~= start + self.encoding(width as nat));
                }
            },
        }
    }

    /// Converts the `QuadtreeNode` into a binary data format, appended to
    /// the buffer.
    ///
    /// Takes the bit width of the palette and converts each node into a
    /// palette color, plus an extra bit at the start to indicate containing
    /// subsections; each node's number is immediately followed by the
    /// numbers for its subsections. Palette color numbers are bitwise
    /// big-endian.
    ///
    /// Fails with `ColorOutOfRange`, and leaves the buffer as it was, if a
    /// color of the tree is not an index of the palette. The buffer must
    /// have room for the encoding.
    pub fn encode_v1(&self, buffer: &mut QuadtreeEncodeBitVec, palette: &P) -> (r: Result<
        (),
        EncodeError,
    >)
        requires
            old(buffer)@.len() + self.encoding(palette.spec_width()).len() < max_bits(),
        ensures
            final(buffer).aligned() == old(buffer).aligned(),
            self.colors_fit(palette.spec_width()) ==> r == Ok::<(), EncodeError>(())
                && final(buffer)@ == old(buffer)@ + self.encoding(palette.spec_width()),
            !self.colors_fit(palette.spec_width()) ==> r == Err::<(), EncodeError>(
                EncodeError::ColorOutOfRange,
            ) && final(buffer)@ == old(buffer)@,
    {
        proof {
            palette.lemma_width();
        }
        let width = palette.width();
        // Validate color values
        if !self.colors_within(index_count(width)) {
            return Err(EncodeError::ColorOutOfRange);
        }
        self.write_node(buffer, width);
        Ok(())
    }

    /// As `encode_v1`, for a buffer of any length: `None`, and the buffer as
    /// it was, where the buffer has no room for the encoding and for the
    /// bits that fill a last byte.
    pub fn encode_v1_checked(&self, buffer: &mut QuadtreeEncodeBitVec, palette: &P) -> (r: Option<
        Result<(), EncodeError>,
    >)
        ensures
            final(buffer).aligned() == old(buffer).aligned(),
            r is None <==> !(old(buffer)@.len() + self.encoding(palette.spec_width()).len() + 8
                < max_bits()),
            r is None ==> final(buffer)@ == old(buffer)@,
            r is Some && self.colors_fit(palette.spec_width()) ==> r == Some(
                Ok::<(), EncodeError>(()),
            ) && final(buffer)@ == old(buffer)@ + self.encoding(palette.spec_width()),
            r is Some && !self.colors_fit(palette.spec_width()) ==> r == Some(
                Err::<(), EncodeError>(EncodeError::ColorOutOfRange),
            ) && final(buffer)@ == old(buffer)@,
    {
        if self.encoding_fits(palette.width(), buffer.len()) {
            Some(self.encode_v1(buffer, palette))
        } else {
            None
        }
    }

    /// Reads the tree that stands in the buffer at index `at`.
    fn read_node(buffer: &QuadtreeEncodeBitVec, width: u8, at: usize) -> (r: Option<(Self, usize)>)
        requires
            width <= 32,
        ensures
            match r {
                Some((tree, next)) => Self::decoding(buffer@, width as nat, at as nat) == Some(
                    (tree, next as nat),
                ) && at < next <= buffer@.len(),
                None => Self::decoding(buffer@, width as nat, at as nat) is None,
            },
        decreases buffer@.len() - at,
    {
        proof {
            reveal(QuadtreeNode::decoding);
        }
        let len = buffer.len();
        // Validate data quantity
        if at >= len || len - at - 1 < width as usize {
            return None;
        }
        let should_recurse = match buffer.get(at) {
            Some(bit) => bit,
            None => false,
        };
        // Extract current node
        let color = read_color(buffer, at + 1, width);
        let next = at + 1 + width as usize;
        if !should_recurse {
            return Some((Self::leaf(color), next));
        }
        // Recursion
        let (a, end_a) = match Self::read_node(buffer, width, next) {
            Some(found) => found,
            None => {
                return None;
            },
        };
        let (b, end_b) = match Self::read_node(buffer, width, end_a) {
            Some(found) => found,
            None => {
                return None;
            },
        };
        let (c, end_c) = match Self::read_node(buffer, width, end_b) {
            Some(found) => found,
            None => {
                return None;
            },
        };
        let (d, end_d) = match Self::read_node(buffer, width, end_c) {
            Some(found) => found,
            None => {
                return None;
            },
        };
        Some((Self::branch(color, a, b, c, d), end_d))
    }

    /// Reads a buffer of the sort that `encode_v1` fills and parses a
    /// quadtree from it, which replaces this node.
    ///
    /// The successful return value is the index to which the parser has
    /// progressed. 0 should be passed for `curr_ind` by outside callers,
    /// unless the encoding starts elsewhere.
    ///
    /// Fails with `InsufficientData`, and leaves the node as it was, if the
    /// buffer ends before the tree does.
    pub fn decode_v1(&mut self, buffer: &QuadtreeEncodeBitVec, palette: &P, curr_ind: usize) -> (r:
        Result<usize, DecodeError>)
        ensures
            match Self::decoding(buffer@, palette.spec_width(), curr_ind as nat) {
                Some((tree, next)) => r == Ok::<usize, DecodeError>(next as usize) && next
                    <= buffer@.len() && *final(self) == tree,
                None => r == Err::<usize, DecodeError>(DecodeError::InsufficientData)
                    && *final(self) == *old(self),
            },
    {
        proof {
            palette.lemma_width();
        }
        match Self::read_node(buffer, palette.width(), curr_ind) {
            Some((tree, next)) => {
                *self = tree;
                Ok(next)
            },
            None => Err(DecodeError::InsufficientData),
        }
    }
}

/// Four pieces between a start and an end, grouped around each piece.
proof fn lemma_regroup(
    start: Seq<bool>,
    e1: Seq<bool>,
    e2: Seq<bool>,
    e3: Seq<bool>,
    e4: Seq<bool>,
    behind: Seq<bool>,
)
    ensures
        start + (e1 + e2 + e3 + e4) + behind == start + e1 + (e2 + e3 + e4 + behind),
        start + (e1 + e2 + e3 + e4) + behind == (start + e1) + e2 + (e3 + e4 + behind),
        start + (e1 + e2 + e3 + e4) + behind == (start + e1 + e2) + e3 + (e4 + behind),
        start + (e1 + e2 + e3 + e4) + behind == (start + e1 + e2 + e3) + e4 + behind,
{
    let all = start + (e1 + e2 + e3 + e4) + behind;
    assert(all =~= start + e1 + (e2 + e3 + e4 + behind));
    assert(all =~= (start + e1) + e2 + (e3 + e4 + behind));
    assert(all =~= (start + e1 + e2) + e3 + (e4 + behind));
    assert(all =~= (start + e1 + e2 + e3) + e4 + behind);
}

/// Appends the `width` lowest bits of `color`, most significant first.
fn write_color(buffer: &mut QuadtreeEncodeBitVec, color: u32, width: u8)
    requires
        1 <= width <= 32,
        old(buffer)@.len() + width < max_bits(),
    ensures
        final(buffer)@ == old(buffer)@ + color_bits(color as nat, width as nat),
        final(buffer).aligned() == old(buffer).aligned(),
{
    let ghost start = buffer@;
    let ghost field = color_bits(color as nat, width as nat);
    let mut mask: u64 = index_count(width) / 2;
    let mut i: u8 = 0;
    proof {
        lemma_pow2_unfold(width as nat);
    }
    while i < width
        invariant
            i <= width <= 32,
            start.len() + width < max_bits(),
            field == color_bits(color as nat, width as nat),
            buffer@ == start + field.subrange(0, i as int),
            buffer.aligned() == old(buffer).aligned(),
            i < width ==> mask == pow2((width - 1 - i) as nat),
        decreases width - i,
    {
        proof {
            lemma_pow2_pos((width - 1 - i) as nat);
            if i + 1 < width {
                lemma_pow2_unfold((width - 1 - i) as nat);
            }
        }
        let bit = (color as u64 / mask) % 2 == 1;
        buffer.push(bit);
        proof {
            assert(field.subrange(0, i + 1) =~= field.subrange(0, i as int).push(field[i as int]));
        }
        mask = mask / 2;
        i = i + 1;
    }
    proof {
        assert(field.subrange(0, width as int) =~= field);
    }
}

/// Reads the number that the `width` bits from index `at` spell, most
/// significant bit first.
fn read_color(buffer: &QuadtreeEncodeBitVec, at: usize, width: u8) -> (c: u32)
    requires
        width <= 32,
        at + width <= buffer@.len(),
    ensures
        c == bits_value(buffer@.subrange(at as int, at + width)) as u32,
        bits_value(buffer@.subrange(at as int, at + width)) <= u32::MAX,
{
    let len = buffer.len();
    let mut n: u64 = 0;
    let mut i: u8 = 0;
    proof {
        lemma2_to64();
    }
    while i < width
        invariant
            i <= width <= 32,
            at + width <= buffer@.len(),
            len == buffer@.len(),
            n == bits_value(buffer@.subrange(at as int, at + i)),
            n < pow2(i as nat),
            pow2(32) == 0x1_0000_0000,
        decreases width - i,
    {
        let bit = match buffer.get(at + i as usize) {
            Some(bit) => bit,
            None => false,
        };
        proof {
            let grown = buffer@.subrange(at as int, at + i + 1);
            assert(grown.drop_last() =~= buffer@.subrange(at as int, at + i));
            lemma_bits_value_bound(grown);
            if i + 1 < 32 {
                vstd::arithmetic::power2::lemma_pow2_strictly_increases((i + 1) as nat, 32);
            }
        }
        n = n * 2 + if bit {
            1
        } else {
            0
        };
        i = i + 1;
    }
    n as u32
}

/// What decoding the second encoding would keep between its steps.
pub type DecodeQueue = Vec<(Vec<(bool, u32)>, usize)>;

/// The six bytes that every QTI file begins with: `QuTrIm`.
pub open spec fn magic() -> Seq<u8> {
    seq![0x51u8, 0x75u8, 0x54u8, 0x72u8, 0x49u8, 0x6du8]
}

/// The length of a table of colors without the transparent black entries
/// at its end.
pub open spec fn meaningful(table: Seq<Color>) -> nat
    decreases table.len(),
{
    if table.len() == 0 || table.last() != spec_filler() {
        table.len()
    } else {
        meaningful(table.drop_last())
    }
}

/// The fewest entries that a file stores of a palette of the given width:
/// nine sixteenths of its capacity, rounded up.
pub open spec fn least_stored(width: nat) -> nat {
    (9 * capacity(width) + 15) / 16
}

/// The number of sixteenths of the capacity that a file stores of a palette
/// of which the first `count` entries are meaningful: enough to hold them,
/// and at least nine.
pub open spec fn chunks(width: nat, count: nat) -> nat {
    let kept = if count >= least_stored(width) {
        count
    } else {
        least_stored(width)
    };
    ((kept * 16 + capacity(width) - 1) / (capacity(width) as int)) as nat
}

/// The number of entries that a file stores of a palette of which the first
/// `count` entries are meaningful.
pub open spec fn stored_entries(width: nat, count: nat) -> nat {
    chunks(width, count) * capacity(width) / 16
}

/// The palette byte of the header: the width less one in the five low bits,
/// the chunks less nine in the three high bits.
pub open spec fn header_byte(width: nat, count: nat) -> u8 {
    ((chunks(width, count) - 9) * 32 + (width - 1)) as u8
}

/// The palette width that a header byte announces.
pub open spec fn header_width(b: u8) -> nat {
    (b % 32 + 1) as nat
}

/// The number of sixteenths of the capacity that a header byte announces.
pub open spec fn header_chunks(b: u8) -> nat {
    (b / 32 + 9) as nat
}

/// The number of stored entries that a header byte announces, rounded down
/// where the sixteenths do not make a whole number.
pub open spec fn header_stored(b: u8) -> nat {
    header_chunks(b) * capacity(header_width(b)) / 16
}

/// Channel `k` of a color, in the order red, green, blue, alpha.
pub open spec fn channel(c: Color, k: int) -> u8 {
    if k == 0 {
        c.r
    } else if k == 1 {
        c.g
    } else if k == 2 {
        c.b
    } else {
        c.a
    }
}

/// The bytes of a list of colors, four to a color.
pub open spec fn color_bytes(colors: Seq<Color>) -> Seq<u8> {
    Seq::new(4 * colors.len(), |i: int| channel(colors[i / 4], i % 4))
}

/// The color that a file stores as entry `i` of its palette.
pub open spec fn stored_color(source: Seq<u8>, i: int) -> Color {
    Color {
        r: source[8 + 4 * i],
        g: source[8 + 4 * i + 1],
        b: source[8 + 4 * i + 2],
        a: source[8 + 4 * i + 3],
    }
}

/// The palette of a file with `count` stored entries: those entries, and
/// transparent black up to the capacity of the width.
pub open spec fn restored_colors(source: Seq<u8>, width: nat, count: nat) -> Seq<Color> {
    Seq::new(
        capacity(width),
        |i: int|
            if i < count {
                stored_color(source, i)
            } else {
                spec_filler()
            },
    )
}

/// Bits filled up with clear bits to a whole number of bytes.
pub open spec fn padded(bits: Seq<bool>) -> Seq<bool> {
    bits + Seq::new(((8 - bits.len() % 8) % 8) as nat, |i: int| false)
}

/// The part of a file that is read: all of it, unless more bytes follow its
/// palette than a bit vector can be made of; then no more than that many
/// of them are read.
pub open spec fn readable(source: Seq<u8>) -> Seq<u8> {
    if source.len() >= 8 && source.len() > 8 + 4 * header_stored(source[7]) + max_bytes() {
        source.take((8 + 4 * header_stored(source[7]) + max_bytes()) as int)
    } else {
        source
    }
}

/// A file of no more bytes than a bit vector can be made of is read whole.
pub proof fn lemma_readable_whole(source: Seq<u8>)
    requires
        source.len() <= max_bytes(),
    ensures
        readable(source) == source,
{
}

/// What a QTI file holds before the tree: the magic bytes, the version 1,
/// the palette byte and the stored entries of the palette.
pub open spec fn qti_prefix<P: Palette>(palette: &P) -> Seq<u8> {
    let width = palette.spec_width();
    let count = meaningful(entries(palette));
    magic() + seq![1u8, header_byte(width, count)] + color_bytes(
        entries(palette).take(stored_entries(width, count) as int),
    )
}

/// The number of stored entries is between the number of meaningful entries
/// and the capacity of the palette, and is a whole number of sixteenths of
/// the capacity wherever the capacity has sixteenths.
pub proof fn lemma_stored_entries(width: nat, count: nat)
    requires
        1 <= width <= 32,
        count <= capacity(width),
    ensures
        9 <= chunks(width, count) <= 16,
        count <= stored_entries(width, count) <= capacity(width),
        width >= 4 ==> capacity(width) % 16 == 0 && stored_entries(width, count) == chunks(
            width,
            count,
        ) * (capacity(width) / 16),
        width >= 4 ==> stored_entries(width, count) % (capacity(width) / 16) == 0,
        width < 4 ==> stored_entries(width, count) == if count >= least_stored(width) {
            count
        } else {
            least_stored(width)
        },
{
    lemma2_to64();
    let cap = capacity(width);
    let least = least_stored(width);
    let kept = if count >= least {
        count
    } else {
        least
    };
    let share = chunks(width, count);
    assert(share == (kept * 16 + cap - 1) / (cap as int));
    let x = (kept * 16 + cap - 1) as int;
    if width == 1 {
        assert(cap == 2);
        assert(least == 2);
        assert(kept == 2);
        assert(x / (cap as int) == x / 2);
        assert(share == 16);
    } else if width == 2 {
        assert(cap == 4);
        assert(least == 3);
        assert(kept == 3 || kept == 4);
        assert(x / (cap as int) == x / 4);
        assert(kept == 3 ==> share == 12);
        assert(kept == 4 ==> share == 16);
    } else if width == 3 {
        assert(cap == 8);
        assert(least == 5);
        assert(5 <= kept <= 8);
        assert(x / (cap as int) == x / 8);
        assert(share == 2 * kept);
    } else {
        let u = pow2((width - 4) as nat);
        lemma_pow2_pos((width - 4) as nat);
        vstd::arithmetic::power2::lemma_pow2_adds(4, (width - 4) as nat);
        assert(pow2(4) == 16);
        assert(cap == 16 * u);
        assert(least == (9 * (16 * u) + 15) / 16);
        assert(least == 9 * u);
        assert(9 * u <= kept <= 16 * u);
        lemma_ceil_sixteenths(u as int, kept as int);
        assert(cap / 16 == u);
        assert(share * cap == 16 * (share * u)) by (nonlinear_arith)
            requires
                cap == 16 * u,
        ;
        assert((share * u) as int % (u as int) == 0) by {
            vstd::arithmetic::div_mod::lemma_mod_multiples_basic(share as int, u as int);
        }
    }
}

/// Rounding a number between nine and sixteen times `u` up to a whole
/// number of `u` gives between nine and sixteen of them, and at least the
/// number.
proof fn lemma_ceil_sixteenths(u: int, kept: int)
    requires
        u >= 1,
        9 * u <= kept <= 16 * u,
    ensures
        9 <= (kept * 16 + 16 * u - 1) / (16 * u) <= 16,
        kept <= ((kept * 16 + 16 * u - 1) / (16 * u)) * u <= 16 * u,
{
    let x = kept * 16 + 16 * u - 1;
    let d = 16 * u;
    let c = x / d;
    let r = x % d;
    lemma_fundamental_div_mod(x, d);
    vstd::arithmetic::div_mod::lemma_mod_pos_bound(x, d);
    assert(x == d * c + r && 0 <= r < d);
    assert(d * c == 16 * (u * c)) by (nonlinear_arith)
        requires
            d == 16 * u,
    ;
    assert(16 * (u * c) <= 272 * u - 1);
    assert(16 * kept <= 16 * (u * c));
    assert(c <= 16) by (nonlinear_arith)
        requires
            16 * (u * c) <= 272 * u - 1,
            u >= 1,
    ;
    assert(c >= 9) by (nonlinear_arith)
        requires
            u * c >= 9 * u,
            u >= 1,
    ;
    assert(c * u <= 16 * u) by (nonlinear_arith)
        requires
            c <= 16,
            u >= 1,
    ;
    assert(c * u == u * c) by (nonlinear_arith);
}

/// A header byte tells the width and the chunks that it was made of.
pub proof fn lemma_header_byte(width: nat, count: nat)
    requires
        1 <= width <= 32,
        count <= capacity(width),
    ensures
        header_width(header_byte(width, count)) == width,
        header_chunks(header_byte(width, count)) == chunks(width, count),
        header_stored(header_byte(width, count)) == stored_entries(width, count),
{
    lemma_stored_entries(width, count);
}

/// Behind its meaningful entries a table holds transparent black only.
pub proof fn lemma_meaningful(table: Seq<Color>, i: int)
    requires
        meaningful(table) <= i < table.len(),
    ensures
        meaningful(table) <= table.len(),
        table[i] == spec_filler(),
    decreases table.len(),
{
    if table.len() == 0 || table.last() != spec_filler() {
    } else {
        lemma_meaningful_bound(table.drop_last());
        if i < table.len() - 1 {
            lemma_meaningful(table.drop_last(), i);
        }
    }
}

/// A table has no more meaningful entries than entries.
pub proof fn lemma_meaningful_bound(table: Seq<Color>)
    ensures
        meaningful(table) <= table.len(),
    decreases table.len(),
{
    if table.len() == 0 || table.last() != spec_filler() {
    } else {
        lemma_meaningful_bound(table.drop_last());
    }
}

/// Computes the palette byte of the header and the number of entries to
/// store, for a palette of the given width of which the first `count`
/// entries are meaningful.
pub fn palette_header(width: u8, count: u64) -> (r: (u8, u64))
    requires
        1 <= width <= 32,
        count <= capacity(width as nat),
    ensures
        r.0 == header_byte(width as nat, count as nat),
        r.1 == stored_entries(width as nat, count as nat),
        count <= r.1 <= capacity(width as nat),
{
    proof {
        lemma_stored_entries(width as nat, count as nat);
    }
    let cap = index_count(width);
    let least = (9 * cap + 15) / 16;
    let kept = if count >= least {
        count
    } else {
        least
    };
    let share = (kept * 16 + cap - 1) / cap;
    let stored = share * cap / 16;
    let byte = ((share - 9) * 32 + (width as u64 - 1)) as u8;
    (byte, stored)
}

/// Counts the entries of the palette up to the last that is not
/// transparent black.
fn meaningful_count<P: Palette>(palette: &P, cap: u64) -> (n: u64)
    requires
        cap == capacity(palette.spec_width()),
        cap <= 0x1_0000_0000,
    ensures
        n == meaningful(entries(palette)),
        n <= cap,
{
    let ghost table = entries(palette);
    let mut n = cap;
    proof {
        assert(table.take(cap as int) =~= table);
    }
    while n > 0
        invariant
            n <= cap,
            cap == capacity(palette.spec_width()),
            cap <= 0x1_0000_0000,
            table == entries(palette),
            meaningful(table) == meaningful(table.take(n as int)),
        decreases n,
    {
        let last = match palette.to_rgba((n - 1) as u32) {
            Ok(c) => c,
            Err(_) => vstd::pervasive::unreached(),
        };
        proof {
            assert(table.take(n as int).last() == last);
            assert(table.take(n as int).drop_last() =~= table.take(n - 1));
        }
        if last.r != 0 || last.g != 0 || last.b != 0 || last.a != 0 {
            return n;
        }
        n = n - 1;
    }
    proof {
        assert(table.take(cap as int) =~= table);
    }
    n
}

impl<P: Palette + Default> QuadtreeNode<P> {
    /// `bytes` are the QTI file of the tree and the palette: the magic
    /// bytes, the version 1, the palette byte, the stored entries of the
    /// palette and then, from a fresh byte on, the encoding of the tree,
    /// filled up with clear bits to a whole byte.
    pub open spec fn is_qti(&self, palette: &P, bytes: Seq<u8>) -> bool {
        let prefix = qti_prefix(palette);
        &&& bytes.len() >= prefix.len()
        &&& bytes.subrange(0, prefix.len() as int) == prefix
        &&& bits_of_bytes(bytes.subrange(prefix.len() as int, bytes.len() as int)) == padded(
            self.encoding(palette.spec_width()),
        )
    }

    /// Encodes the quadtree and a palette into QTI data.
    ///
    /// Fails with `ColorOutOfRange` if a color of the tree is not an index
    /// of the palette. The encoding of the tree must fit a bit vector.
    pub fn to_qti(&self, palette: &P) -> (r: Result<Vec<u8>, EncodeError>)
        requires
            self.encoding(palette.spec_width()).len() + 8 < max_bits(),
        ensures
            match r {
                Ok(bytes) => self.colors_fit(palette.spec_width()) && self.is_qti(palette, bytes@),
                Err(e) => e == EncodeError::ColorOutOfRange && !self.colors_fit(
                    palette.spec_width(),
                ),
            },
    {
        proof {
            palette.lemma_width();
        }
        let width = palette.width();
        let cap = index_count(width);
        if !self.colors_within(cap) {
            return Err(EncodeError::ColorOutOfRange);
        }
        let ghost table = entries(palette);
        let count = meaningful_count(palette, cap);
        // Length indicator
        let (header, stored) = palette_header(width, count);
        let mut ret: Vec<u8> = Vec::new();
        // Header (version 1)
        ret.push(0x51);
        ret.push(0x75);
        ret.push(0x54);
        ret.push(0x72);
        ret.push(0x49);
        ret.push(0x6d);
        ret.push(1);
        ret.push(header);
        let ghost head = magic() + seq![1u8, header];
        assert(ret@ =~= head);
        // Palette
        let mut c: u64 = 0;
        while c < stored
            invariant
                c <= stored <= cap,
                cap == capacity(palette.spec_width()),
                cap <= 0x1_0000_0000,
                table == entries(palette),
                head.len() == 8,
                ret@ == head + color_bytes(table.take(c as int)),
            decreases stored - c,
        {
            let color = match palette.to_rgba(c as u32) {
                Ok(color) => color,
                Err(_) => vstd::pervasive::unreached(),
            };
            ret.push(color.r);
            ret.push(color.g);
            ret.push(color.b);
            ret.push(color.a);
            proof {
                let before = table.take(c as int);
                let after = table.take(c + 1);
                assert(after[c as int] == color);
                assert(ret@ =~= head + color_bytes(after)) by {
                    assert forall|i: int| 0 <= i < 4 * after.len() implies #[trigger] color_bytes(
                        after,
                    )[i] == if i < 4 * c {
                        color_bytes(before)[i]
                    } else {
                        channel(color, i - 4 * c)
                    } by {
                        if i < 4 * c {
                            assert(after[i / 4] == before[i / 4]);
                        }
                    }
                }
            }
            c = c + 1;
        }
        let ghost prefix = ret@;
        // Quadtree
        let mut bit_buf = QuadtreeEncodeBitVec::new();
        self.write_node(&mut bit_buf, width);
        let ghost code = bit_buf@;
        assert(code =~= self.encoding(width as nat));
        // Fill the last byte with clear bits.
        let used = bit_buf.len() % 8;
        let fill: usize = if used == 0 {
            0
        } else {
            8 - used
        };
        let mut extra: usize = 0;
        while extra < fill
            invariant
                extra <= fill < 8,
                code.len() + 8 < max_bits(),
                bit_buf.aligned(),
                bit_buf@ == code + Seq::new(extra as nat, |i: int| false),
            decreases fill - extra,
        {
            bit_buf.push(false);
            extra = extra + 1;
            assert(bit_buf@ =~= code + Seq::new(extra as nat, |i: int| false));
        }
        proof {
            assert(fill == (8 - code.len() % 8) % 8);
            assert(bit_buf@ == padded(code));
            assert(bit_buf@.len() % 8 == 0);
        }
        let mut tail = bit_buf.to_bytes();
        let ghost tail_bytes = tail@;
        proof {
            assert(bits_of_bytes(tail_bytes).take(bit_buf@.len() as int) =~= bits_of_bytes(
                tail_bytes,
            ));
        }
        ret.append(&mut tail);
        proof {
            assert(ret@.subrange(0, prefix.len() as int) =~= prefix);
            assert(ret@.subrange(prefix.len() as int, ret@.len() as int) =~= tail_bytes);
            assert(prefix == qti_prefix(palette));
        }
        Ok(ret)
    }

    /// As `to_qti`, for a tree of any size: `None` where a bit vector has
    /// no room for the encoding of the tree and for the bits that fill its
    /// last byte.
    pub fn to_qti_checked(&self, palette: &P) -> (r: Option<Result<Vec<u8>, EncodeError>>)
        ensures
            r is None <==> !(self.encoding(palette.spec_width()).len() + 8 < max_bits()),
            r matches Some(written) ==> match written {
                Ok(bytes) => self.colors_fit(palette.spec_width()) && self.is_qti(palette, bytes@),
                Err(e) => e == EncodeError::ColorOutOfRange && !self.colors_fit(
                    palette.spec_width(),
                ),
            },
    {
        if self.encoding_fits(palette.width(), 0) {
            Some(self.to_qti(palette))
        } else {
            None
        }
    }

    /// Reads a buffer holding the second, unfinished encoding of quadtrees.
    ///
    /// That encoding is not implemented: this always fails, as for a file
    /// without a valid header, and leaves the node as it was.
    pub fn decode_v2(
        &mut self,
        buffer: &QuadtreeEncodeBitVec,
        palette: &P,
        queue: Option<&mut DecodeQueue>,
    ) -> (r: Result<DecodeQueue, DecodeError>)
        ensures
            r matches Err(e) && e == DecodeError::MissingHeader,
            *final(self) == *old(self),
    {
        Err(DecodeError::MissingHeader)
    }
}

impl<P: Palette + Default> QuadtreeNode<P> {
    /// What reading a QTI file comes to: the tree and the colors of the
    /// palette, or the reason why there is none.
    ///
    /// A file that does not begin with the magic bytes, or ends before its
    /// palette byte, has no header. Any version but 1 is not supported,
    /// which counts as a missing header, whatever follows. A palette byte
    /// that announces more entries than 32 bits can count is refused. A
    /// file that ends before its palette does, or before its tree does,
    /// lacks data.
    pub open spec fn qti_outcome(source: Seq<u8>) -> Result<(Self, Seq<Color>), DecodeError> {
        if source.len() < 6 || source.subrange(0, 6) != magic() {
            Err(DecodeError::MissingHeader)
        } else if source.len() < 8 {
            Err(DecodeError::MissingHeader)
        } else if source[6] != 1 {
            Err(DecodeError::MissingHeader)
        } else {
            let width = header_width(source[7]);
            let stored = header_stored(source[7]);
            if stored > u32::MAX {
                Err(DecodeError::PaletteTooLarge)
            } else if source.len() < 8 + 4 * stored {
                Err(DecodeError::InsufficientData)
            } else {
                match Self::decoding(
                    bits_of_bytes(source.subrange((8 + 4 * stored) as int, source.len() as int)),
                    width,
                    0,
                ) {
                    Some((tree, _)) => Ok((tree, restored_colors(source, width, stored))),
                    None => Err(DecodeError::InsufficientData),
                }
            }
        }
    }

    /// What the QTI file of a tree and a palette holds of the palette. Its
    /// palette byte tells the width of the palette and between nine and
    /// sixteen sixteenths of its capacity. So many entries are stored: no
    /// fewer than the palette has meaningful entries, no more than its
    /// capacity, and from width 4 on a whole multiple of a sixteenth of the
    /// capacity. They stand right behind the palette byte, four bytes each
    /// with the color of their index, and right behind them stand the bits
    /// of the tree.
    pub proof fn lemma_qti_palette(&self, palette: &P, bytes: Seq<u8>)
        requires
            self.is_qti(palette, bytes),
        ensures
            ({
                let width = palette.spec_width();
                let share = header_chunks(bytes[7]);
                let stored = header_stored(bytes[7]);
                &&& bytes.len() >= 8 + 4 * stored
                &&& bytes.subrange(0, 6) == magic()
                &&& bytes[6] == 1
                &&& header_width(bytes[7]) == width
                &&& 9 <= share <= 16
                &&& stored == share * capacity(width) / 16
                &&& stored == stored_entries(width, meaningful(entries(palette)))
                &&& meaningful(entries(palette)) <= stored <= capacity(width)
                &&& width >= 4 ==> stored == share * (capacity(width) / 16) && stored % (capacity(
                    width,
                ) / 16) == 0
                &&& forall|i: int|
                    0 <= i < stored ==> #[trigger] stored_color(bytes, i) == palette.spec_rgba(
                        i as u32,
                    )
                &&& bits_of_bytes(bytes.subrange((8 + 4 * stored) as int, bytes.len() as int))
                    == padded(self.encoding(width))
            }),
    {
        let width = palette.spec_width();
        let table = entries(palette);
        let count = meaningful(table);
        let stored = stored_entries(width, count);
        let prefix = qti_prefix(palette);
        let kept = table.take(stored as int);
        palette.lemma_width();
        lemma_meaningful_bound(table);
        lemma_stored_entries(width, count);
        lemma_header_byte(width, count);
        assert(prefix.len() == 8 + 4 * stored);
        assert forall|i: int| 0 <= i < prefix.len() implies bytes[i] == prefix[i] by {
            assert(bytes.subrange(0, prefix.len() as int)[i] == prefix[i]);
        }
        assert(bytes.subrange(0, 6) =~= magic()) by {
            assert forall|i: int| 0 <= i < 6 implies bytes.subrange(0, 6)[i] == magic()[i] by {
                assert(bytes[i] == prefix[i]);
            }
        }
        assert(bytes[6] == 1) by {
            assert(bytes[6] == prefix[6]);
        }
        assert(bytes[7] == header_byte(width, count)) by {
            assert(bytes[7] == prefix[7]);
        }
        assert forall|i: int| 0 <= i < stored implies #[trigger] stored_color(bytes, i)
            == palette.spec_rgba(i as u32) by {
            assert(bytes[8 + 4 * i] == prefix[8 + 4 * i]);
            assert(bytes[8 + 4 * i + 1] == prefix[8 + 4 * i + 1]);
            assert(bytes[8 + 4 * i + 2] == prefix[8 + 4 * i + 2]);
            assert(bytes[8 + 4 * i + 3] == prefix[8 + 4 * i + 3]);
            assert(prefix[8 + 4 * i] == color_bytes(kept)[4 * i]);
            assert(prefix[8 + 4 * i + 1] == color_bytes(kept)[4 * i + 1]);
            assert(prefix[8 + 4 * i + 2] == color_bytes(kept)[4 * i + 2]);
            assert(prefix[8 + 4 * i + 3] == color_bytes(kept)[4 * i + 3]);
            assert(kept[i] == table[i]);
        }
    }

    /// Data that does not begin with the six magic bytes has no header,
    /// whatever else it holds.
    pub proof fn lemma_magic_required(source: Seq<u8>)
        requires
            source.len() < 6 || source.subrange(0, 6) != magic(),
        ensures
            Self::qti_outcome(source) == Err::<(Self, Seq<Color>), DecodeError>(
                DecodeError::MissingHeader,
            ),
    {
    }

    /// Data that begins with the six magic bytes and a version other than 1
    /// has no header that is supported, whatever follows the version.
    pub proof fn lemma_version_required(source: Seq<u8>)
        requires
            source.len() >= 8,
            source[6] != 1,
        ensures
            Self::qti_outcome(source) == Err::<(Self, Seq<Color>), DecodeError>(
                DecodeError::MissingHeader,
            ),
    {
    }

    /// Reading gives back what was written: the QTI file of a tree whose
    /// colors fit the palette yields that tree, the width of the palette and
    /// colors that restore every entry of the palette. The one palette left
    /// out is the one whose stored entries 32 bits cannot count, which has
    /// width 32 and no transparent black entry in its last sixteenth.
    pub proof fn lemma_container_round_trip(&self, palette: &P, bytes: Seq<u8>)
        requires
            self.is_qti(palette, bytes),
            self.colors_fit(palette.spec_width()),
            stored_entries(palette.spec_width(), meaningful(entries(palette))) <= u32::MAX,
        ensures
            Self::qti_outcome(bytes) matches Ok((tree, colors)) && {
                &&& tree == *self
                &&& header_width(bytes[7]) == palette.spec_width()
                &&& colors == entries(palette)
            },
    {
        let width = palette.spec_width();
        let table = entries(palette);
        let stored = header_stored(bytes[7]);
        palette.lemma_width();
        self.lemma_qti_palette(palette, bytes);
        let code = self.encoding(width);
        let fill = Seq::new(((8 - code.len() % 8) % 8) as nat, |i: int| false);
        let tail = bits_of_bytes(bytes.subrange((8 + 4 * stored) as int, bytes.len() as int));
        assert(tail =~= Seq::<bool>::empty() + code + fill);
        self.lemma_decode_encode(width, Seq::empty(), fill);
        assert(restored_colors(bytes, width, stored) =~= table) by {
            assert forall|i: int| 0 <= i < capacity(width) implies restored_colors(
                bytes,
                width,
                stored,
            )[i] == table[i] by {
                if i < stored {
                    assert(stored_color(bytes, i) == palette.spec_rgba(i as u32));
                } else {
                    lemma_meaningful(table, i);
                }
            }
        }
    }
}

impl<P: DynamicPalette + Default> QuadtreeNode<P> {
    /// Derives a palette and quadtree from the data of a QTI file.
    ///
    /// The palette is made of the stored entries, filled up with
    /// transparent black to the capacity of the width that the file
    /// announces. Of the bytes behind the palette no more are read than a
    /// bit vector can be made of.
    pub fn from_qti(source: &[u8]) -> (r: Result<(QuadtreeNode<P>, P), DecodeError>)
        ensures
            match Self::qti_outcome(readable(source@)) {
                Ok((tree, colors)) => r matches Ok((t, p)) && {
                    &&& t == tree
                    &&& p.spec_width() == header_width(source@[7])
                    &&& entries(&p) == colors
                },
                Err(e) => r matches Err(f) && f == e,
            },
            source@.len() < 6 || source@.subrange(0, 6) != magic() ==> (r matches Err(e) && e
                == DecodeError::MissingHeader),
            source@.len() >= 8 && source@[6] != 1 ==> (r matches Err(e) && e
                == DecodeError::MissingHeader),
    {
        let ghost read = readable(source@);
        proof {
            assert(read.len() <= source@.len());
            assert(source@.len() >= 8 ==> read.len() >= 8);
            assert(source@.len() < 8 ==> read == source@);
            if source@.len() >= 6 {
                assert(read.subrange(0, 6) =~= source@.subrange(0, 6));
            }
            if source@.len() >= 8 {
                assert(read[6] == source@[6] && read[7] == source@[7]);
            }
        }
        // Verify header
        let len = source.len();
        if len < 6 {
            return Err(DecodeError::MissingHeader);
        }
        if source[0] != 0x51 || source[1] != 0x75 || source[2] != 0x54 || source[3] != 0x72
            || source[4] != 0x49 || source[5] != 0x6d {
            proof {
                let found = source@.subrange(0, 6);
                assert(found[0] == source@[0] && found[1] == source@[1] && found[2] == source@[2]
                    && found[3] == source@[3] && found[4] == source@[4] && found[5]
                    == source@[5]);
            }
            return Err(DecodeError::MissingHeader);
        }
        proof {
            assert(source@.subrange(0, 6) =~= magic());
        }
        if len < 8 {
            return Err(DecodeError::MissingHeader);
        }
        let version = source[6];
        if version == 2 {
            // The second encoding is known by name only.
            let mut tree: QuadtreeNode<P> = QuadtreeNode::leaf(0);
            return match tree.decode_v2(&QuadtreeEncodeBitVec::new(), &P::default(), None) {
                Ok(_) => Err(DecodeError::MissingHeader),
                Err(e) => Err(e),
            };
        }
        if version != 1 {
            return Err(DecodeError::MissingHeader);
        }
        let byte = source[7];
        proof {
            assert(byte & 0x1f == byte % 32) by (bit_vector);
            assert(byte >> 5 == byte / 32) by (bit_vector);
        }
        let pal_size: u8 = (byte & 0x1f) + 1;
        let share: u8 = (byte >> 5) + 9;
        let cap = index_count(pal_size);
        proof {
            assert(share * cap <= 16 * cap) by (nonlinear_arith)
                requires
                    share <= 16,
                    cap >= 0,
            ;
        }
        let pal_len: u64 = share as u64 * cap / 16;
        if pal_len > u32::MAX as u64 {
            return Err(DecodeError::PaletteTooLarge);
        }
        if (len as u64) < 8 + 4 * pal_len {
            return Err(DecodeError::InsufficientData);
        }
        let ghost colors = restored_colors(source@, pal_size as nat, pal_len as nat);
        proof {
            assert(restored_colors(read, pal_size as nat, pal_len as nat) =~= colors);
        }
        // Extract palette
        let mut pal: Vec<Color> = Vec::new();
        let mut n: u64 = 0;
        while n < pal_len
            invariant
                n <= pal_len <= cap,
                len == source@.len(),
                8 + 4 * pal_len <= len,
                cap == capacity(pal_size as nat),
                colors == restored_colors(source@, pal_size as nat, pal_len as nat),
                pal@ == colors.take(n as int),
            decreases pal_len - n,
        {
            let offset: usize = n as usize * 4 + 8;
            pal.push(
                Color {
                    r: source[offset],
                    g: source[offset + 1],
                    b: source[offset + 2],
                    a: source[offset + 3],
                },
            );
            n = n + 1;
            proof {
                assert(pal@ =~= colors.take(n as int));
            }
        }
        while n < cap
            invariant
                pal_len <= n <= cap,
                cap == capacity(pal_size as nat),
                colors == restored_colors(source@, pal_size as nat, pal_len as nat),
                pal@ == colors.take(n as int),
            decreases cap - n,
        {
            pal.push(filler());
            n = n + 1;
            proof {
                assert(pal@ =~= colors.take(n as int));
            }
        }
        proof {
            assert(pal@ =~= colors);
            P::lemma_from(pal);
            lemma_width_for_full(pal_size as nat);
        }
        let palette = P::from(pal);
        proof {
            assert(entries(&palette) =~= colors);
        }
        // Decode tree
        let start: usize = (8 + 4 * pal_len) as usize;
        let most: usize = usize::MAX / 64;
        let end: usize = if len - start > most {
            start + most
        } else {
            len
        };
        let rest = slice_subrange(source, start, end);
        proof {
            assert(read.len() == end);
            assert(rest@ =~= read.subrange(start as int, read.len() as int));
        }
        let tree_bits = QuadtreeEncodeBitVec::from_bytes(rest);
        let mut tree: QuadtreeNode<P> = QuadtreeNode::leaf(0);
        match tree.decode_v1(&tree_bits, &palette, 0) {
            Ok(_) => Ok((tree, palette)),
            Err(e) => Err(e),
        }
    }
}

} // verus!
