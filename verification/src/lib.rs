//! Quadtree image compression: building a quadtree from a grid of palette
//! indices, rendering it back, and the QTI container format.

pub mod node;

pub use node::bits::QuadtreeEncodeBitVec;
pub use node::error;
pub use node::quantize;
pub use node::raster::RasterImage;
pub use node::QuadtreeNode;
pub use node::Sections;

use node::quantize::palette::Palette;
use vstd::prelude::*;

verus! {

/// The number of different colors among four.
pub open spec fn distinct_of_four(a: u32, b: u32, c: u32, d: u32) -> nat {
    1 + if b != a {
        1nat
    } else {
        0nat
    } + if c != a && c != b {
        1nat
    } else {
        0nat
    } + if d != a && d != b && d != c {
        1nat
    } else {
        0nat
    }
}

/// Three of four colors are the same.
pub open spec fn three_alike(a: u32, b: u32, c: u32, d: u32) -> bool {
    (a == b && b == c) || (a == b && b == d) || (a == c && c == d) || (b == c && c == d)
}

/// Four colors are nearly uniform: there are exactly three different colors
/// among them, or exactly two of which one occurs three times.
pub open spec fn nearly_uniform(a: u32, b: u32, c: u32, d: u32) -> bool {
    distinct_of_four(a, b, c, d) == 3 || (distinct_of_four(a, b, c, d) == 2 && three_alike(
        a,
        b,
        c,
        d,
    ))
}

/// Whether four colors are nearly uniform.
pub fn is_nearly_uniform(a: u32, b: u32, c: u32, d: u32) -> (r: bool)
    ensures
        r == nearly_uniform(a, b, c, d),
{
    let mut different: u8 = 1;
    if b != a {
        different = different + 1;
    }
    if c != a && c != b {
        different = different + 1;
    }
    if d != a && d != b && d != c {
        different = different + 1;
    }
    let triple = (a == b && b == c) || (a == b && b == d) || (a == c && c == d) || (b == c && c
        == d);
    different == 3 || (different == 2 && triple)
}

impl<P: Palette + Default> QuadtreeNode<P> {
    /// The tree after one trimming pass with the given depth.
    ///
    /// A branch over four leaves, met once the depth is used up, loses its
    /// leaves and keeps its own color if the colors of the leaves are
    /// nearly uniform, and stays as it is if they are not. Any other
    /// branch is trimmed below, with one less depth.
    pub open spec fn trimmed(&self, depth: int) -> Self
        decreases self,
    {
        match self.sections {
            None => *self,
            Some(s) => if depth <= 0 && s.all_leaves() {
                if nearly_uniform(
                    s.top_left.color,
                    s.top_right.color,
                    s.bottom_left.color,
                    s.bottom_right.color,
                ) {
                    Self::spec_leaf(self.color)
                } else {
                    *self
                }
            } else {
                Self::spec_branch(
                    self.color,
                    s.top_left.trimmed(depth - 1),
                    s.top_right.trimmed(depth - 1),
                    s.bottom_left.trimmed(depth - 1),
                    s.bottom_right.trimmed(depth - 1),
                )
            },
        }
    }

    /// Once the depth is used up, it does not matter by how much.
    pub proof fn lemma_trimmed_below_zero(&self, depth: int, other: int)
        requires
            depth <= 0,
            other <= 0,
        ensures
            self.trimmed(depth) == self.trimmed(other),
        decreases self,
    {
        match self.sections {
            None => {},
            Some(s) => {
                s.top_left.lemma_trimmed_below_zero(depth - 1, other - 1);
                s.top_right.lemma_trimmed_below_zero(depth - 1, other - 1);
                s.bottom_left.lemma_trimmed_below_zero(depth - 1, other - 1);
                s.bottom_right.lemma_trimmed_below_zero(depth - 1, other - 1);
            },
        }
    }

    /// Trimming never adds a leaf.
    pub proof fn lemma_trimmed_leaves(&self, depth: int)
        ensures
            self.trimmed(depth).leaves() <= self.leaves(),
        decreases self,
    {
        match self.sections {
            None => {},
            Some(s) => {
                s.top_left.lemma_leaves_positive();
                s.top_right.lemma_leaves_positive();
                s.bottom_left.lemma_leaves_positive();
                s.bottom_right.lemma_leaves_positive();
                s.top_left.lemma_trimmed_leaves(depth - 1);
                s.top_right.lemma_trimmed_leaves(depth - 1);
                s.bottom_left.lemma_trimmed_leaves(depth - 1);
                s.bottom_right.lemma_trimmed_leaves(depth - 1);
            },
        }
    }

    /// "Trims" the tree by removing leaf nodes.
    ///
    /// Only leaf nodes past a depth of `depth` and with color repetition
    /// are removed.
    pub fn trim(&mut self, depth: isize)
        ensures
            *final(self) == old(self).trimmed(depth as int),
        decreases *old(self),
    {
        let taken = self.sections.take();
        if let Some(mut sections) = taken {
            if depth <= 0 && sections.top_left.sections.is_none()
                && sections.top_right.sections.is_none()
                && sections.bottom_left.sections.is_none()
                && sections.bottom_right.sections.is_none() {
                // Count unique colors
                if !is_nearly_uniform(
                    sections.top_left.color,
                    sections.top_right.color,
                    sections.bottom_left.color,
                    sections.bottom_right.color,
                ) {
                    self.sections = Some(sections);
                }
            } else {
                let next = if depth > isize::MIN {
                    depth - 1
                } else {
                    depth
                };
                proof {
                    if depth == isize::MIN {
                        sections.top_left.lemma_trimmed_below_zero(depth - 1, depth as int);
                        sections.top_right.lemma_trimmed_below_zero(depth - 1, depth as int);
                        sections.bottom_left.lemma_trimmed_below_zero(depth - 1, depth as int);
                        sections.bottom_right.lemma_trimmed_below_zero(depth - 1, depth as int);
                    }
                }
                sections.top_left.trim(next);
                sections.top_right.trim(next);
                sections.bottom_left.trim(next);
                sections.bottom_right.trim(next);
                self.sections = Some(sections);
            }
        }
    }
}

} // verus!
