pub mod bits;
pub mod error;
pub mod fidelity;
pub mod image;
pub mod qti;
pub mod quantize;
pub mod raster;
pub mod region;
pub mod shape;

use vstd::arithmetic::power2::is_pow2;
use vstd::pervasive::unreached;
use vstd::prelude::*;

use error::MountError;
use quantize::palette::{capacity, index_count, Palette};
use region::{
    count_of, dominant, in_grid, is_tally, lemma_count_positive, lemma_next_best_unique,
    lemma_region_below, lemma_region_rows_len, pick_best, region, tally, top_colors, weight,
};

verus! {

/// The four quadrants below a branch node, each covering one quarter of the
/// parent's square with half its side length.
#[derive(Debug, PartialEq, Eq)]
pub struct Sections<P: Palette + Default> {
    pub top_left: QuadtreeNode<P>,
    pub top_right: QuadtreeNode<P>,
    pub bottom_left: QuadtreeNode<P>,
    pub bottom_right: QuadtreeNode<P>,
}

/// Node in a quadtree for storing an image.
///
/// May contain subnodes (branch node) or no subnodes and just a color
/// (leaf node).
///
/// It always contains a color, such that tree descent can stop at any level
/// and give a meaningful preview.
#[derive(Debug, PartialEq, Eq)]
pub struct QuadtreeNode<P: Palette + Default> {
    pub color: u32,
    pub sections: Option<Box<Sections<P>>>,
    pub _pal: core::marker::PhantomData<P>,
}

/// `side` is the side of a square grid of `len` cells: a power of two whose
/// square is `len`.
pub open spec fn is_grid_side(len: nat, side: nat) -> bool {
    is_pow2(side as int) && side * side == len
}

/// `len` cells make a square grid whose side is a power of two.
pub open spec fn has_grid_side(len: nat) -> bool {
    exists|side: nat| is_grid_side(len, side)
}

/// The side of the square grid of `len` cells.
pub open spec fn grid_side(len: nat) -> nat {
    choose|side: nat| is_grid_side(len, side)
}

/// The least count that makes a region of side `size` uniform enough to
/// stay whole: `sensitivity` 16384ths of its cells.
pub open spec fn threshold(sensitivity: nat, size: nat) -> nat {
    sensitivity * size * size / 16384
}

/// The count that a color must exceed to weigh in when a region is tried
/// for gradient leaves.
pub open spec fn gradient_floor(sensitivity: nat, size: nat) -> nat {
    sensitivity * size * size / 65536
}

/// What the four most abundant colors of `cells` weigh together, each
/// counted only where its count exceeds `floor`.
pub open spec fn gradient_weight(cells: Seq<u32>, floor: nat) -> nat {
    weight(cells, top_colors(cells, 4), floor)
}

/// The most abundant color of `cells` reaches the threshold of a region of
/// side `size`.
pub open spec fn uniform_enough(cells: Seq<u32>, sensitivity: nat, size: nat) -> bool {
    count_of(cells, dominant(cells)) >= threshold(sensitivity, size)
}

/// A region of side `size` that is not uniform enough is split into four
/// leaves that sample its corners.
pub open spec fn takes_gradient_leaves(
    cells: Seq<u32>,
    sensitivity: nat,
    size: nat,
    gradient: bool,
) -> bool {
    gradient && size > 2 && gradient_weight(cells, gradient_floor(sensitivity, size)) > threshold(
        sensitivity,
        size,
    )
}

/// The region that `mount` works on: the one given, or the whole grid.
pub open spec fn mount_region(side: nat, size: Option<usize>, start_pos: Option<(usize, usize)>) -> (
    nat,
    nat,
    nat,
) {
    let s = match size {
        Some(s) => s as nat,
        None => side,
    };
    match start_pos {
        Some(p) => (p.0 as nat, p.1 as nat, s),
        None => (0, 0, s),
    }
}

/// No power of two lies strictly between a power of two and its double.
proof fn lemma_pow2_gap(a: int, b: int)
    requires
        is_pow2(a),
        is_pow2(b),
        a < 2 * b,
    ensures
        a <= b,
    decreases a,
{
    reveal(is_pow2);
    if a != 1 && b != 1 {
        lemma_pow2_gap(a / 2, b / 2);
    }
}

/// A power of two above 2 is a multiple of 4, and halving a power of two
/// above 1 gives a power of two.
pub proof fn lemma_pow2_parts(size: int)
    requires
        is_pow2(size),
    ensures
        size >= 1,
        size > 1 ==> size % 2 == 0 && is_pow2(size / 2),
        size > 2 ==> size % 4 == 0 && size >= 4,
{
    reveal(is_pow2);
    if size > 1 {
        assert(is_pow2(size / 2));
        if size > 2 {
            assert(size / 2 != 1);
            assert((size / 2) % 2 == 0);
        }
    }
}

/// A grid has at most one side.
pub proof fn lemma_grid_side_unique(len: nat, side: nat)
    requires
        is_grid_side(len, side),
    ensures
        has_grid_side(len),
        grid_side(len) == side,
{
    let other = grid_side(len);
    assert(is_grid_side(len, other));
    assert(other == side) by (nonlinear_arith)
        requires
            other * other == side * side,
    ;
}

/// Whether `n` is a power of two.
pub fn is_power_of_two(n: u32) -> (r: bool)
    ensures
        r == is_pow2(n as int),
{
    let mut p: u64 = 1;
    proof {
        reveal(is_pow2);
    }
    while p < n as u64
        invariant
            1 <= p <= 0x2_0000_0000,
            is_pow2(p as int),
            p == 1 || p / 2 < n,
        decreases 0x4_0000_0000 - p,
    {
        proof {
            reveal(is_pow2);
        }
        p = p * 2;
    }
    proof {
        if p != n && is_pow2(n as int) {
            lemma_pow2_parts(p as int);
            lemma_pow2_gap(n as int, p as int / 2);
        }
    }
    p == n as u64
}

/// Finds the side of the square grid of `len` cells, where there is one.
pub fn square_side(len: usize) -> (r: Option<usize>)
    ensures
        match r {
            Some(side) => is_grid_side(len as nat, side as nat),
            None => !has_grid_side(len as nat),
        },
{
    let mut side: usize = 1;
    let mut square: u128 = 1;
    proof {
        reveal(is_pow2);
        assert forall|t: nat| is_pow2(t as int) && t < 1 implies t * t < len by {}
    }
    while square < len as u128
        invariant
            side >= 1,
            square == side * side,
            is_pow2(side as int),
            forall|t: nat| #[trigger] is_pow2(t as int) && t < side ==> t * t < len,
        decreases 4 * len - square,
    {
        proof {
            reveal(is_pow2);
            assert(2 * side <= side * side + 1) by (nonlinear_arith)
                requires
                    side >= 1,
            ;
            assert forall|t: nat| #[trigger] is_pow2(t as int) && t < 2 * side implies t * t
                < len by {
                lemma_pow2_gap(t as int, side as int);
                assert(t * t <= side * side) by (nonlinear_arith)
                    requires
                        t <= side,
                ;
            }
            assert((2 * side) * (2 * side) == 4 * (side * side)) by (nonlinear_arith);
        }
        side = side * 2;
        square = square * 4;
    }
    if square == len as u128 {
        Some(side)
    } else {
        proof {
            if has_grid_side(len as nat) {
                let t = grid_side(len as nat);
                assert(is_grid_side(len as nat, t));
                if t >= side {
                    assert(t * t >= side * side) by (nonlinear_arith)
                        requires
                            t >= side,
                    ;
                }
            }
        }
        None
    }
}

/// Computes `sensitivity * size * size / divisor` without overflow.
fn share(sensitivity: usize, size: usize, divisor: u128) -> (r: u128)
    requires
        size * size <= usize::MAX,
        divisor > 0,
    ensures
        r == (sensitivity as nat) * (size as nat) * (size as nat) / (divisor as nat),
{
    proof {
        assert(sensitivity * size * size <= 0xffff_ffff_ffff_ffff * 0xffff_ffff_ffff_ffff)
            by (nonlinear_arith)
            requires
                sensitivity <= 0xffff_ffff_ffff_ffff,
                size * size <= 0xffff_ffff_ffff_ffff,
        ;
        assert(sensitivity * size <= sensitivity * size * size || size == 0) by (nonlinear_arith);
        assert(sensitivity * size == 0 || size != 0) by (nonlinear_arith);
    }
    (sensitivity as u128) * (size as u128) * (size as u128) / divisor
}

/// Adds up what the four most abundant colors of a tally weigh, each
/// counted only where its count exceeds `floor`.
fn top_weight(t: &Vec<(u32, usize)>, floor: u128, Ghost(cells): Ghost<Seq<u32>>) -> (w: u128)
    requires
        is_tally(t@, cells),
    ensures
        w == gradient_weight(cells, floor as nat),
{
    let mut taken: Vec<u32> = Vec::new();
    let mut sum: u128 = 0;
    let mut k: usize = 0;
    while k < 4
        invariant
            k <= 4,
            is_tally(t@, cells),
            taken@ == top_colors(cells, k as nat),
            sum == weight(cells, taken@, floor as nat),
            sum <= k * usize::MAX,
        decreases 4 - k,
    {
        match pick_best(t, &taken, Ghost(cells)) {
            Some((c, n)) => {
                proof {
                    lemma_next_best_unique(cells, taken@, c);
                    assert(taken@.push(c).drop_last() =~= taken@);
                }
                taken.push(c);
                if n as u128 > floor {
                    sum = sum + n as u128;
                }
            },
            None => {},
        }
        k = k + 1;
    }
    sum
}

/// Finds the most abundant color of a region that holds at least one cell.
fn region_color(image: &[u32], row_len: usize, x: usize, y: usize, size: usize) -> (r: (
    u32,
    usize,
    Vec<(u32, usize)>,
))
    requires
        in_grid(image@.len(), row_len as nat, x as nat, y as nat, size as nat),
        size >= 1,
    ensures
        r.0 == dominant(region(image@, row_len as nat, x as nat, y as nat, size as nat)),
        r.1 == count_of(region(image@, row_len as nat, x as nat, y as nat, size as nat), r.0),
        is_tally(r.2@, region(image@, row_len as nat, x as nat, y as nat, size as nat)),
        region(image@, row_len as nat, x as nat, y as nat, size as nat).contains(r.0),
{
    let t = tally(image, row_len, x, y, size);
    let ghost cells = region(image@, row_len as nat, x as nat, y as nat, size as nat);
    let none: Vec<u32> = Vec::new();
    proof {
        lemma_region_rows_len(image@, row_len as nat, x as nat, y as nat, size as nat, size as nat);
        assert(size * size >= 1) by (nonlinear_arith)
            requires
                size >= 1,
        ;
        assert(cells.contains(cells[0]));
        lemma_count_positive(cells, cells[0]);
        assert(!none@.contains(cells[0]));
        assert(none@ =~= Seq::<u32>::empty());
    }
    match pick_best(&t, &none, Ghost(cells)) {
        Some((color, n)) => {
            proof {
                lemma_next_best_unique(cells, none@, color);
                lemma_count_positive(cells, color);
            }
            (color, n, t)
        },
        None => unreached(),
    }
}

impl<P: Palette + Default> Clone for QuadtreeNode<P> {
    /// A copy of the tree, node for node.
    fn clone(&self) -> (n: Self)
        ensures
            n == *self,
        decreases self,
    {
        match &self.sections {
            None => QuadtreeNode { color: self.color, sections: None, _pal: core::marker::PhantomData },
            Some(s) => QuadtreeNode {
                color: self.color,
                sections: Some(
                    Box::new(
                        Sections {
                            top_left: s.top_left.clone(),
                            top_right: s.top_right.clone(),
                            bottom_left: s.bottom_left.clone(),
                            bottom_right: s.bottom_right.clone(),
                        },
                    ),
                ),
                _pal: core::marker::PhantomData,
            },
        }
    }
}

impl<P: Palette + Default> Default for QuadtreeNode<P> {
    /// A leaf of color 0.
    fn default() -> (n: Self)
        ensures
            n == Self::spec_leaf(0),
    {
        QuadtreeNode { color: 0, sections: None, _pal: core::marker::PhantomData }
    }
}

impl<P: Palette + Default> QuadtreeNode<P> {
    /// A node without subnodes.
    pub open spec fn spec_leaf(color: u32) -> Self {
        QuadtreeNode { color, sections: None, _pal: core::marker::PhantomData }
    }

    /// A node over four subnodes.
    pub open spec fn spec_branch(
        color: u32,
        top_left: Self,
        top_right: Self,
        bottom_left: Self,
        bottom_right: Self,
    ) -> Self {
        QuadtreeNode {
            color,
            sections: Some(Box::new(Sections { top_left, top_right, bottom_left, bottom_right })),
            _pal: core::marker::PhantomData,
        }
    }

    /// Every color in the tree is below `limit`.
    pub open spec fn colors_below(&self, limit: nat) -> bool
        decreases self,
    {
        &&& (self.color as nat) < limit
        &&& match self.sections {
            None => true,
            Some(s) => {
                &&& s.top_left.colors_below(limit)
                &&& s.top_right.colors_below(limit)
                &&& s.bottom_left.colors_below(limit)
                &&& s.bottom_right.colors_below(limit)
            },
        }
    }

    /// Every color in the tree is an index that `width` bits can address.
    pub open spec fn colors_fit(&self, width: nat) -> bool {
        self.colors_below(capacity(width))
    }

    /// The quadtree of the square region of side `size` at column `x`, row
    /// `y` of a grid of palette indices.
    ///
    /// A node's color is the most abundant color of its region. The region
    /// stays whole where it is a single cell or where that color reaches the
    /// threshold. Else it splits: into four leaves that sample its corners
    /// where gradient leaves are asked for and the four most abundant colors
    /// outweigh the threshold, and into the trees of its four quadrants
    /// otherwise.
    pub open spec fn built(
        image: Seq<u32>,
        row_len: nat,
        x: nat,
        y: nat,
        size: nat,
        sensitivity: nat,
        gradient: bool,
    ) -> Self
        decreases size,
    {
        let cells = region(image, row_len, x, y, size);
        let color = dominant(cells);
        if size <= 1 || uniform_enough(cells, sensitivity, size) {
            Self::spec_leaf(color)
        } else if takes_gradient_leaves(cells, sensitivity, size, gradient) {
            let q = size / 4;
            Self::spec_branch(
                color,
                Self::spec_leaf(dominant(region(image, row_len, x, y, q))),
                Self::spec_leaf(dominant(region(image, row_len, x + 3 * q, y, q))),
                Self::spec_leaf(dominant(region(image, row_len, x, y + 3 * q, q))),
                Self::spec_leaf(dominant(region(image, row_len, x + 3 * q, y + 3 * q, q))),
            )
        } else {
            let h = size / 2;
            Self::spec_branch(
                color,
                Self::built(image, row_len, x, y, h, sensitivity, gradient),
                Self::built(image, row_len, x + h, y, h, sensitivity, gradient),
                Self::built(image, row_len, x, y + h, h, sensitivity, gradient),
                Self::built(image, row_len, x + h, y + h, h, sensitivity, gradient),
            )
        }
    }

    /// A node without subnodes.
    pub fn leaf(color: u32) -> (n: Self)
        ensures
            n == Self::spec_leaf(color),
    {
        QuadtreeNode { color, sections: None, _pal: core::marker::PhantomData }
    }

    /// A node over four subnodes.
    pub fn branch(
        color: u32,
        top_left: Self,
        top_right: Self,
        bottom_left: Self,
        bottom_right: Self,
    ) -> (n: Self)
        ensures
            n == Self::spec_branch(color, top_left, top_right, bottom_left, bottom_right),
    {
        QuadtreeNode {
            color,
            sections: Some(Box::new(Sections { top_left, top_right, bottom_left, bottom_right })),
            _pal: core::marker::PhantomData,
        }
    }

    /// Makes the branch whose four leaves sample the corners of a region:
    /// each leaf has the most abundant color of the corner window of a
    /// quarter of the region's side.
    fn corner_leaves(
        image: &[u32],
        row_len: usize,
        x: usize,
        y: usize,
        size: usize,
        color: u32,
        limit: u64,
    ) -> (r: Result<Self, MountError>)
        requires
            in_grid(image@.len(), row_len as nat, x as nat, y as nat, size as nat),
            size >= 4,
            size % 4 == 0,
            color < limit,
        ensures
            ({
                let q = (size / 4) as nat;
                let far_x = (x + 3 * q) as nat;
                let far_y = (y + 3 * q) as nat;
                let tree = Self::spec_branch(
                    color,
                    Self::spec_leaf(dominant(region(image@, row_len as nat, x as nat, y as nat, q))),
                    Self::spec_leaf(dominant(region(image@, row_len as nat, far_x, y as nat, q))),
                    Self::spec_leaf(dominant(region(image@, row_len as nat, x as nat, far_y, q))),
                    Self::spec_leaf(dominant(region(image@, row_len as nat, far_x, far_y, q))),
                );
                match r {
                    Ok(t) => t == tree && t.colors_below(limit as nat),
                    Err(e) => e == MountError::ColorOutOfRange && !tree.colors_below(limit as nat),
                }
            }),
            (forall|i: int| 0 <= i < image@.len() ==> #[trigger] image@[i] < limit) ==> r is Ok,
    {
        let q = size / 4;
        proof {
            if forall|i: int| 0 <= i < image@.len() ==> #[trigger] image@[i] < limit {
                let far_x = (x + 3 * q) as nat;
                let far_y = (y + 3 * q) as nat;
                lemma_region_below(image@, row_len as nat, x as nat, y as nat, q as nat, limit as nat);
                lemma_region_below(image@, row_len as nat, far_x, y as nat, q as nat, limit as nat);
                lemma_region_below(image@, row_len as nat, x as nat, far_y, q as nat, limit as nat);
                lemma_region_below(image@, row_len as nat, far_x, far_y, q as nat, limit as nat);
            }
        }
        let (c0, _, _) = region_color(image, row_len, x, y, q);
        let (c1, _, _) = region_color(image, row_len, x + 3 * q, y, q);
        let (c2, _, _) = region_color(image, row_len, x, y + 3 * q, q);
        let (c3, _, _) = region_color(image, row_len, x + 3 * q, y + 3 * q, q);
        proof {
            assert(Self::spec_leaf(c0).colors_below(limit as nat) <==> c0 < limit);
            assert(Self::spec_leaf(c1).colors_below(limit as nat) <==> c1 < limit);
            assert(Self::spec_leaf(c2).colors_below(limit as nat) <==> c2 < limit);
            assert(Self::spec_leaf(c3).colors_below(limit as nat) <==> c3 < limit);
        }
        if c0 as u64 >= limit || c1 as u64 >= limit || c2 as u64 >= limit || c3 as u64 >= limit {
            return Err(MountError::ColorOutOfRange);
        }
        Ok(Self::branch(color, Self::leaf(c0), Self::leaf(c1), Self::leaf(c2), Self::leaf(c3)))
    }

    /// Builds the quadtree of one region of the grid, or reports that one of
    /// its colors is not below `limit`.
    fn build(
        image: &[u32],
        row_len: usize,
        x: usize,
        y: usize,
        size: usize,
        sensitivity: usize,
        gradient: bool,
        limit: u64,
    ) -> (r: Result<Self, MountError>)
        requires
            in_grid(image@.len(), row_len as nat, x as nat, y as nat, size as nat),
            is_pow2(size as int),
        ensures
            match r {
                Ok(t) => t == Self::built(
                    image@,
                    row_len as nat,
                    x as nat,
                    y as nat,
                    size as nat,
                    sensitivity as nat,
                    gradient,
                ) && t.colors_below(limit as nat),
                Err(e) => e == MountError::ColorOutOfRange && !Self::built(
                    image@,
                    row_len as nat,
                    x as nat,
                    y as nat,
                    size as nat,
                    sensitivity as nat,
                    gradient,
                ).colors_below(limit as nat),
            },
            (forall|i: int| 0 <= i < image@.len() ==> #[trigger] image@[i] < limit) ==> r is Ok,
        decreases size,
    {
        // The length of the grid bounds the area of every region in it.
        let len = image.len();
        proof {
            if forall|i: int| 0 <= i < image@.len() ==> #[trigger] image@[i] < limit {
                lemma_region_below(
                    image@,
                    row_len as nat,
                    x as nat,
                    y as nat,
                    size as nat,
                    limit as nat,
                );
            }
            reveal(is_pow2);
            assert(size * size <= len) by (nonlinear_arith)
                requires
                    size <= row_len,
                    row_len * row_len == len,
            ;
        }
        let (color, count, t) = region_color(image, row_len, x, y, size);
        let ghost cells = region(image@, row_len as nat, x as nat, y as nat, size as nat);
        if color as u64 >= limit {
            return Err(MountError::ColorOutOfRange);
        }
        let bar = share(sensitivity, size, 16384);
        if size <= 1 || count as u128 >= bar {
            return Ok(Self::leaf(color));
        }
        if gradient && size > 2 {
            let floor = share(sensitivity, size, 65536);
            if top_weight(&t, floor, Ghost(cells)) > bar {
                proof {
                    lemma_pow2_parts(size as int);
                }
                return Self::corner_leaves(image, row_len, x, y, size, color, limit);
            }
        }
        let h = size / 2;
        let top_left = match Self::build(image, row_len, x, y, h, sensitivity, gradient, limit) {
            Ok(t) => t,
            Err(e) => {
                return Err(e);
            },
        };
        let top_right = match Self::build(image, row_len, x + h, y, h, sensitivity, gradient, limit) {
            Ok(t) => t,
            Err(e) => {
                return Err(e);
            },
        };
        let bottom_left = match Self::build(image, row_len, x, y + h, h, sensitivity, gradient, limit) {
            Ok(t) => t,
            Err(e) => {
                return Err(e);
            },
        };
        let bottom_right = match Self::build(
            image,
            row_len,
            x + h,
            y + h,
            h,
            sensitivity,
            gradient,
            limit,
        ) {
            Ok(t) => t,
            Err(e) => {
                return Err(e);
            },
        };
        Ok(Self::branch(color, top_left, top_right, bottom_left, bottom_right))
    }

    /// Takes a square grid of color numbers to match the given palette and
    /// arranges it into a quadtree, which replaces this node.
    ///
    /// The grid is given row by row; its length must be the square of a
    /// power of two, else the result is `InvalidSize`.
    ///
    /// `sensitivity` is a number from 0 to 16384 indicating how much of a
    /// square (as a fraction out of 16384) must be the same color in order
    /// to disregard subsections.
    ///
    /// With `gradient`, a region whose four main colors outweigh the
    /// threshold is split into four leaves that sample its corners.
    ///
    /// Fails with `ColorOutOfRange`, and leaves the node as it was, where a
    /// color of the tree is not an index of the palette.
    ///
    /// For outside callers: leave `size` and `start_pos` as `None`. A region
    /// given by them has a power of two as its side and lies in the grid.
    pub fn mount(
        &mut self,
        image: &[u32],
        palette: &P,
        size: Option<usize>,
        start_pos: Option<(usize, usize)>,
        sensitivity: usize,
        gradient: bool,
    ) -> (r: Result<(), MountError>)
        requires
            has_grid_side(image@.len()) ==> {
                let side = grid_side(image@.len());
                let (x, y, s) = mount_region(side, size, start_pos);
                is_pow2(s as int) && x + s <= side && y + s <= side
            },
        ensures
            !has_grid_side(image@.len()) ==> r == Err::<(), MountError>(MountError::InvalidSize)
                && *final(self) == *old(self),
            has_grid_side(image@.len()) ==> {
                let side = grid_side(image@.len());
                let (x, y, s) = mount_region(side, size, start_pos);
                let tree = Self::built(image@, side, x, y, s, sensitivity as nat, gradient);
                if tree.colors_fit(palette.spec_width()) {
                    r == Ok::<(), MountError>(()) && *final(self) == tree
                } else {
                    r == Err::<(), MountError>(MountError::ColorOutOfRange)
                        && *final(self) == *old(self)
                }
            },
            has_grid_side(image@.len()) && (forall|i: int|
                0 <= i < image@.len() ==> (#[trigger] image@[i] as nat) < capacity(
                    palette.spec_width(),
                )) ==> r is Ok,
    {
        let side = match square_side(image.len()) {
            Some(side) => side,
            None => {
                return Err(MountError::InvalidSize);
            },
        };
        proof {
            lemma_grid_side_unique(image@.len(), side as nat);
            palette.lemma_width();
        }
        let s = match size {
            Some(s) => s,
            None => side,
        };
        let (x, y) = match start_pos {
            Some(p) => p,
            None => (0, 0),
        };
        let limit = index_count(palette.width());
        match Self::build(image, side, x, y, s, sensitivity, gradient, limit) {
            Ok(tree) => {
                *self = tree;
                Ok(())
            },
            Err(e) => Err(e),
        }
    }
}

} // verus!
