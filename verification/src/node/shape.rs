//! The shape of quadtrees, and what holds of the shape of every tree that
//! the builder makes.

use vstd::arithmetic::power2::{lemma2_to64, lemma_pow2_pos, lemma_pow2_unfold, pow2};
use vstd::prelude::*;

use super::quantize::palette::Palette;
use super::region::{
    cell, count_of, counted, dominant, in_grid, is_next_best, lemma_count_all,
    lemma_count_positive, lemma_dominant_exists, lemma_next_best_unique, lemma_region_below,
    lemma_region_cell, lemma_region_rows_len, region, weight,
};
use super::{
    gradient_floor, takes_gradient_leaves, threshold, uniform_enough,
    QuadtreeNode,
};

verus! {

impl<P: Palette + Default> QuadtreeNode<P> {
    /// The number of leaves of the tree.
    pub open spec fn leaves(&self) -> nat
        decreases self,
    {
        match self.sections {
            None => 1,
            Some(s) => s.top_left.leaves() + s.top_right.leaves() + s.bottom_left.leaves()
                + s.bottom_right.leaves(),
        }
    }

    /// The number of nodes of the tree.
    pub open spec fn nodes(&self) -> nat
        decreases self,
    {
        match self.sections {
            None => 1,
            Some(s) => 1 + s.top_left.nodes() + s.top_right.nodes() + s.bottom_left.nodes()
                + s.bottom_right.nodes(),
        }
    }

    /// The length of the longest path from the root to a leaf.
    pub open spec fn height(&self) -> nat
        decreases self,
    {
        match self.sections {
            None => 0,
            Some(s) => {
                let a = s.top_left.height();
                let b = s.top_right.height();
                let c = s.bottom_left.height();
                let d = s.bottom_right.height();
                let ab = if a >= b {
                    a
                } else {
                    b
                };
                let cd = if c >= d {
                    c
                } else {
                    d
                };
                1 + if ab >= cd {
                    ab
                } else {
                    cd
                }
            },
        }
    }

    /// Every path from the root to a leaf has length `depth`.
    pub open spec fn all_leaves_at(&self, depth: nat) -> bool
        decreases self,
    {
        match self.sections {
            None => depth == 0,
            Some(s) => {
                &&& depth > 0
                &&& s.top_left.all_leaves_at((depth - 1) as nat)
                &&& s.top_right.all_leaves_at((depth - 1) as nat)
                &&& s.bottom_left.all_leaves_at((depth - 1) as nat)
                &&& s.bottom_right.all_leaves_at((depth - 1) as nat)
            },
        }
    }

    /// The builder splits the region, and every region below it that has
    /// more than one cell, into its quadrants.
    pub open spec fn splits_fully(
        image: Seq<u32>,
        row_len: nat,
        x: nat,
        y: nat,
        size: nat,
        sensitivity: nat,
        gradient: bool,
    ) -> bool
        decreases size,
    {
        let cells = region(image, row_len, x, y, size);
        let h = size / 2;
        size <= 1 || {
            &&& !uniform_enough(cells, sensitivity, size)
            &&& !takes_gradient_leaves(cells, sensitivity, size, gradient)
            &&& Self::splits_fully(image, row_len, x, y, h, sensitivity, gradient)
            &&& Self::splits_fully(image, row_len, x + h, y, h, sensitivity, gradient)
            &&& Self::splits_fully(image, row_len, x, y + h, h, sensitivity, gradient)
            &&& Self::splits_fully(image, row_len, x + h, y + h, h, sensitivity, gradient)
        }
    }

    /// A tree has at least one leaf.
    pub proof fn lemma_leaves_positive(&self)
        ensures
            self.leaves() >= 1,
        decreases self,
    {
        match self.sections {
            None => {},
            Some(s) => {
                s.top_left.lemma_leaves_positive();
            },
        }
    }

    /// No path in the tree built of a region of side `2^k` is longer than
    /// `k`.
    pub proof fn lemma_built_height(
        image: Seq<u32>,
        row_len: nat,
        x: nat,
        y: nat,
        k: nat,
        sensitivity: nat,
        gradient: bool,
    )
        ensures
            Self::built(image, row_len, x, y, pow2(k), sensitivity, gradient).height() <= k,
        decreases k,
    {
        let size = pow2(k);
        lemma_pow2_pos(k);
        lemma2_to64();
        let cells = region(image, row_len, x, y, size);
        if size <= 1 || uniform_enough(cells, sensitivity, size) {
        } else if takes_gradient_leaves(cells, sensitivity, size, gradient) {
            if k < 2 {
                assert(k == 0 || k == 1);
            }
            let tree = Self::built(image, row_len, x, y, size, sensitivity, gradient);
            assert(tree.sections->0.top_left.height() == 0);
            assert(tree.sections->0.top_right.height() == 0);
            assert(tree.sections->0.bottom_left.height() == 0);
            assert(tree.sections->0.bottom_right.height() == 0);
        } else {
            lemma_pow2_unfold(k);
            let h = size / 2;
            let j = (k - 1) as nat;
            Self::lemma_built_height(image, row_len, x, y, j, sensitivity, gradient);
            Self::lemma_built_height(image, row_len, x + h, y, j, sensitivity, gradient);
            Self::lemma_built_height(image, row_len, x, y + h, j, sensitivity, gradient);
            Self::lemma_built_height(image, row_len, x + h, y + h, j, sensitivity, gradient);
        }
    }

    /// Every path in the tree built of a region of side `2^k` has length
    /// exactly `k` if, and only if, the builder splits every region of more
    /// than one cell on the way down into its quadrants: none of them is
    /// uniform enough to stay whole, and none gets gradient leaves.
    pub proof fn lemma_built_depth(
        image: Seq<u32>,
        row_len: nat,
        x: nat,
        y: nat,
        k: nat,
        sensitivity: nat,
        gradient: bool,
    )
        ensures
            Self::built(image, row_len, x, y, pow2(k), sensitivity, gradient).all_leaves_at(k)
                <==> Self::splits_fully(image, row_len, x, y, pow2(k), sensitivity, gradient),
        decreases k,
    {
        let size = pow2(k);
        lemma_pow2_pos(k);
        lemma2_to64();
        let cells = region(image, row_len, x, y, size);
        let tree = Self::built(image, row_len, x, y, size, sensitivity, gradient);
        if k == 0 {
        } else {
            lemma_pow2_unfold(k);
            assert(size >= 2);
            if uniform_enough(cells, sensitivity, size) {
            } else if takes_gradient_leaves(cells, sensitivity, size, gradient) {
                assert(k >= 2) by {
                    if k == 1 {
                    }
                }
                assert(!tree.sections->0.top_left.all_leaves_at((k - 1) as nat));
            } else {
                let h = size / 2;
                let j = (k - 1) as nat;
                Self::lemma_built_depth(image, row_len, x, y, j, sensitivity, gradient);
                Self::lemma_built_depth(image, row_len, x + h, y, j, sensitivity, gradient);
                Self::lemma_built_depth(image, row_len, x, y + h, j, sensitivity, gradient);
                Self::lemma_built_depth(image, row_len, x + h, y + h, j, sensitivity, gradient);
            }
        }
    }

    /// The tree built of a region of side `2^k` in a grid whose cells are
    /// all below `limit` has no color that is not below `limit`: every color
    /// of the tree is the color of a cell.
    pub proof fn lemma_built_colors(
        image: Seq<u32>,
        row_len: nat,
        x: nat,
        y: nat,
        k: nat,
        sensitivity: nat,
        gradient: bool,
        limit: nat,
    )
        requires
            in_grid(image.len(), row_len, x, y, pow2(k)),
            forall|i: int| 0 <= i < image.len() ==> (#[trigger] image[i] as nat) < limit,
        ensures
            Self::built(image, row_len, x, y, pow2(k), sensitivity, gradient).colors_below(limit),
        decreases k,
    {
        let size = pow2(k);
        lemma_pow2_pos(k);
        lemma2_to64();
        let cells = region(image, row_len, x, y, size);
        lemma_sampled_below(image, row_len, x, y, size, limit);
        if size <= 1 || uniform_enough(cells, sensitivity, size) {
        } else if takes_gradient_leaves(cells, sensitivity, size, gradient) {
            assert(k >= 2) by {
                if k == 1 {
                }
            }
            lemma_pow2_unfold(k);
            lemma_pow2_unfold((k - 1) as nat);
            let q = size / 4;
            assert(q >= 1 && 4 * q == size);
            lemma_sampled_below(image, row_len, x, y, q, limit);
            lemma_sampled_below(image, row_len, x + 3 * q, y, q, limit);
            lemma_sampled_below(image, row_len, x, y + 3 * q, q, limit);
            lemma_sampled_below(image, row_len, x + 3 * q, y + 3 * q, q, limit);
            let tree = Self::built(image, row_len, x, y, size, sensitivity, gradient);
            assert(tree.sections->0.top_left.colors_below(limit));
            assert(tree.sections->0.top_right.colors_below(limit));
            assert(tree.sections->0.bottom_left.colors_below(limit));
            assert(tree.sections->0.bottom_right.colors_below(limit));
        } else {
            lemma_pow2_unfold(k);
            let h = size / 2;
            let j = (k - 1) as nat;
            Self::lemma_built_colors(image, row_len, x, y, j, sensitivity, gradient, limit);
            Self::lemma_built_colors(image, row_len, x + h, y, j, sensitivity, gradient, limit);
            Self::lemma_built_colors(image, row_len, x, y + h, j, sensitivity, gradient, limit);
            Self::lemma_built_colors(image, row_len, x + h, y + h, j, sensitivity, gradient, limit);
        }
    }

    /// A region of one color, whatever the sensitivity up to 16384 and with
    /// or without gradient leaves, becomes a single leaf of that color.
    pub proof fn lemma_uniform_region_is_leaf(
        image: Seq<u32>,
        row_len: nat,
        x: nat,
        y: nat,
        size: nat,
        sensitivity: nat,
        gradient: bool,
        color: u32,
    )
        requires
            in_grid(image.len(), row_len, x, y, size),
            size >= 1,
            sensitivity <= 16384,
            forall|px: nat, py: nat|
                x <= px < x + size && y <= py < y + size ==> #[trigger] cell(
                    image,
                    row_len,
                    px,
                    py,
                ) == color,
        ensures
            Self::built(image, row_len, x, y, size, sensitivity, gradient) == Self::spec_leaf(
                color,
            ),
    {
        let cells = region(image, row_len, x, y, size);
        lemma_uniform_cells(image, row_len, x, y, size, color);
        assert(threshold(sensitivity, size) <= size * size) by (nonlinear_arith)
            requires
                sensitivity <= 16384,
                threshold(sensitivity, size) == sensitivity * size * size / 16384,
        ;
    }

    /// Raising the sensitivity never takes leaves away: the tree built with
    /// the higher sensitivity has at least as many leaves.
    pub proof fn lemma_sensitivity_monotone(
        image: Seq<u32>,
        row_len: nat,
        x: nat,
        y: nat,
        size: nat,
        lower: nat,
        higher: nat,
        gradient: bool,
    )
        requires
            lower <= higher,
        ensures
            Self::built(image, row_len, x, y, size, lower, gradient).leaves() <= Self::built(
                image,
                row_len,
                x,
                y,
                size,
                higher,
                gradient,
            ).leaves(),
        decreases size,
    {
        let cells = region(image, row_len, x, y, size);
        let low = Self::built(image, row_len, x, y, size, lower, gradient);
        let high = Self::built(image, row_len, x, y, size, higher, gradient);
        lemma_share_monotone(lower, higher, size, 16384);
        lemma_share_monotone(lower, higher, size, 65536);
        lemma_weight_antitone(
            cells,
            super::region::top_colors(cells, 4),
            gradient_floor(lower, size),
            gradient_floor(higher, size),
        );
        high.lemma_leaves_positive();
        if size <= 1 || uniform_enough(cells, higher, size) {
            assert(size <= 1 || uniform_enough(cells, lower, size));
        } else if takes_gradient_leaves(cells, higher, size, gradient) {
            assert(high.leaves() == 4) by {
                assert(high.sections->0.top_left.leaves() == 1);
                assert(high.sections->0.top_right.leaves() == 1);
                assert(high.sections->0.bottom_left.leaves() == 1);
                assert(high.sections->0.bottom_right.leaves() == 1);
            }
            if uniform_enough(cells, lower, size) {
            } else {
                assert(takes_gradient_leaves(cells, lower, size, gradient));
                assert(low.leaves() == 4) by {
                    assert(low.sections->0.top_left.leaves() == 1);
                    assert(low.sections->0.top_right.leaves() == 1);
                    assert(low.sections->0.bottom_left.leaves() == 1);
                    assert(low.sections->0.bottom_right.leaves() == 1);
                }
            }
        } else {
            let h = size / 2;
            high.sections->0.top_left.lemma_leaves_positive();
            high.sections->0.top_right.lemma_leaves_positive();
            high.sections->0.bottom_left.lemma_leaves_positive();
            high.sections->0.bottom_right.lemma_leaves_positive();
            if uniform_enough(cells, lower, size) {
            } else if takes_gradient_leaves(cells, lower, size, gradient) {
                assert(low.leaves() == 4) by {
                    assert(low.sections->0.top_left.leaves() == 1);
                    assert(low.sections->0.top_right.leaves() == 1);
                    assert(low.sections->0.bottom_left.leaves() == 1);
                    assert(low.sections->0.bottom_right.leaves() == 1);
                }
            } else {
                Self::lemma_sensitivity_monotone(image, row_len, x, y, h, lower, higher, gradient);
                Self::lemma_sensitivity_monotone(
                    image,
                    row_len,
                    x + h,
                    y,
                    h,
                    lower,
                    higher,
                    gradient,
                );
                Self::lemma_sensitivity_monotone(
                    image,
                    row_len,
                    x,
                    y + h,
                    h,
                    lower,
                    higher,
                    gradient,
                );
                Self::lemma_sensitivity_monotone(
                    image,
                    row_len,
                    x + h,
                    y + h,
                    h,
                    lower,
                    higher,
                    gradient,
                );
            }
        }
    }
}

/// In a region whose cells all hold `color`, that color is the most
/// abundant, and it occurs once for each cell.
pub proof fn lemma_uniform_cells(
    image: Seq<u32>,
    row_len: nat,
    x: nat,
    y: nat,
    size: nat,
    color: u32,
)
    requires
        in_grid(image.len(), row_len, x, y, size),
        size >= 1,
        forall|px: nat, py: nat|
            x <= px < x + size && y <= py < y + size ==> #[trigger] cell(image, row_len, px, py)
                == color,
    ensures
        dominant(region(image, row_len, x, y, size)) == color,
        count_of(region(image, row_len, x, y, size), color) == size * size,
{
    let cells = region(image, row_len, x, y, size);
    lemma_region_rows_len(image, row_len, x, y, size, size);
    assert forall|i: int| 0 <= i < cells.len() implies cells[i] == color by {
        lemma_region_cell(image, row_len, x, y, size, size, i);
    }
    lemma_count_all(cells, color);
    assert(size * size >= 1) by (nonlinear_arith)
        requires
            size >= 1,
    ;
    assert forall|d: u32| !Seq::<u32>::empty().contains(d) implies super::region::outranks(
        cells,
        color,
        d,
    ) by {
        if d != color {
            lemma_count_positive(cells, d);
        }
    }
    assert(is_next_best(cells, Seq::empty(), color));
    lemma_next_best_unique(cells, Seq::empty(), color);
}

/// The most abundant color of a region of at least one cell, in a grid
/// whose cells are all below `limit`, is below `limit`.
pub proof fn lemma_sampled_below(
    image: Seq<u32>,
    row_len: nat,
    x: nat,
    y: nat,
    size: nat,
    limit: nat,
)
    requires
        in_grid(image.len(), row_len, x, y, size),
        size >= 1,
        forall|i: int| 0 <= i < image.len() ==> (#[trigger] image[i] as nat) < limit,
    ensures
        (dominant(region(image, row_len, x, y, size)) as nat) < limit,
{
    let cells = region(image, row_len, x, y, size);
    lemma_region_rows_len(image, row_len, x, y, size, size);
    assert(size * size >= 1) by (nonlinear_arith)
        requires
            size >= 1,
    ;
    lemma_dominant_exists(cells);
    lemma_region_below(image, row_len, x, y, size, limit);
}

/// A share of a square's cells grows with the sensitivity.
pub proof fn lemma_share_monotone(lower: nat, higher: nat, size: nat, divisor: nat)
    requires
        lower <= higher,
        divisor > 0,
    ensures
        lower * size * size / divisor <= higher * size * size / divisor,
{
    assert(lower * size * size <= higher * size * size) by (nonlinear_arith)
        requires
            lower <= higher,
    ;
    vstd::arithmetic::div_mod::lemma_div_is_ordered(
        (lower * size * size) as int,
        (higher * size * size) as int,
        divisor as int,
    );
}

/// Raising the floor never adds weight.
pub proof fn lemma_weight_antitone(s: Seq<u32>, colors: Seq<u32>, lower: nat, higher: nat)
    requires
        lower <= higher,
    ensures
        weight(s, colors, higher) <= weight(s, colors, lower),
    decreases colors.len(),
{
    if colors.len() > 0 {
        lemma_weight_antitone(s, colors.drop_last(), lower, higher);
        assert(counted(s, colors.last(), higher) <= counted(s, colors.last(), lower));
    }
}

} // verus!
