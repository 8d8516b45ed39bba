//! What drawing gives back of the grid that a tree was built from.

use vstd::arithmetic::power2::{lemma2_to64, lemma_pow2_pos, lemma_pow2_unfold, pow2};
use vstd::prelude::*;

use super::qti::{header_width, meaningful, stored_entries};
use super::quantize::palette::{capacity, entries, Color, Palette};
use super::quantize::{lemma_quantized_cell, quantized};
use super::raster::lemma_cell_index;
use super::region::{
    cell, dominant, in_grid, lemma_count_all, lemma_count_bound, lemma_region_index,
    lemma_region_rows_len, region,
};
use super::shape::lemma_uniform_cells;
use super::{threshold, uniform_enough, QuadtreeNode};

verus! {

impl<P: Palette + Default> QuadtreeNode<P> {
    /// With sensitivity 16384 and without gradient leaves, building loses
    /// nothing: drawn flat on a square of the region's side, the tree of a
    /// region of side `2^k` gives every pixel the palette color of the cell
    /// it stands for.
    pub proof fn lemma_lossless(
        image: Seq<u32>,
        row_len: nat,
        x: nat,
        y: nat,
        k: nat,
        palette: &P,
        px: nat,
        py: nat,
    )
        requires
            in_grid(image.len(), row_len, x, y, pow2(k)),
            x <= px < x + pow2(k),
            y <= py < y + pow2(k),
        ensures
            Self::built(image, row_len, x, y, pow2(k), 16384, false).rendered(
                palette,
                pow2(k),
                (px - x) as nat,
                (py - y) as nat,
                false,
            ) == palette.spec_rgba(cell(image, row_len, px, py)),
        decreases k,
    {
        let size = pow2(k);
        lemma_pow2_pos(k);
        lemma2_to64();
        let cells = region(image, row_len, x, y, size);
        let color = dominant(cells);
        let dx = (px - x) as nat;
        let dy = (py - y) as nat;
        lemma_region_rows_len(image, row_len, x, y, size, size);
        lemma_region_index(image, row_len, x, y, size, size, dx, dy);
        if size <= 1 {
            assert(size * size == 1) by (nonlinear_arith)
                requires
                    size == 1,
            ;
            assert forall|qx: nat, qy: nat|
                x <= qx < x + size && y <= qy < y + size implies #[trigger] cell(
                image,
                row_len,
                qx,
                qy,
            ) == cell(image, row_len, px, py) by {}
            lemma_uniform_cells(image, row_len, x, y, size, cell(image, row_len, px, py));
        } else if uniform_enough(cells, 16384, size) {
            assert(threshold(16384, size) == size * size) by (nonlinear_arith)
                requires
                    threshold(16384, size) == 16384 * size * size / 16384,
            ;
            lemma_count_bound(cells, color);
            lemma_count_all(cells, color);
            assert(cells[(dy * size + dx) as int] == color);
        } else {
            lemma_pow2_unfold(k);
            let h = size / 2;
            let j = (k - 1) as nat;
            assert(h == pow2(j));
            if dy < h {
                if dx < h {
                    Self::lemma_lossless(image, row_len, x, y, j, palette, px, py);
                } else {
                    Self::lemma_lossless(image, row_len, x + h, y, j, palette, px, py);
                }
            } else {
                if dx < h {
                    Self::lemma_lossless(image, row_len, x, y + h, j, palette, px, py);
                } else {
                    Self::lemma_lossless(image, row_len, x + h, y + h, j, palette, px, py);
                }
            }
        }
    }

    /// A region of one color, whatever the sensitivity up to 16384 and with
    /// or without gradient leaves, becomes a single leaf, and that leaf is
    /// drawn as a square of the one color, with or without a gradient.
    pub proof fn lemma_uniform_round_trip(
        image: Seq<u32>,
        row_len: nat,
        x: nat,
        y: nat,
        size: nat,
        sensitivity: nat,
        gradient: bool,
        color: u32,
        palette: &P,
        dx: nat,
        dy: nat,
        smooth: bool,
    )
        requires
            in_grid(image.len(), row_len, x, y, size),
            size >= 1,
            sensitivity <= 16384,
            forall|px: nat, py: nat|
                x <= px < x + size && y <= py < y + size ==> #[trigger] cell(
                    image,
                    row_len,
                    px,
                    py,
                ) == color,
        ensures
            Self::built(image, row_len, x, y, size, sensitivity, gradient) == Self::spec_leaf(
                color,
            ),
            Self::built(image, row_len, x, y, size, sensitivity, gradient).rendered(
                palette,
                size,
                dx,
                dy,
                smooth,
            ) == palette.spec_rgba(color),
    {
        Self::lemma_uniform_region_is_leaf(
            image,
            row_len,
            x,
            y,
            size,
            sensitivity,
            gradient,
            color,
        );
    }

    /// A tree whose colors all fit the palette can be drawn at any size.
    pub proof fn lemma_fit_renders(&self, width: nat, size: nat)
        requires
            self.colors_fit(width),
        ensures
            self.render_ok(width, size),
        decreases self,
    {
        match self.sections {
            None => {},
            Some(s) => {
                s.top_left.lemma_fit_renders(width, size / 2);
                s.top_right.lemma_fit_renders(width, size / 2);
                s.bottom_left.lemma_fit_renders(width, size / 2);
                s.bottom_right.lemma_fit_renders(width, size / 2);
            },
        }
    }

    /// Two palettes of the same width and the same entries draw a tree
    /// whose colors fit them alike.
    pub proof fn lemma_same_entries_render_alike(
        &self,
        one: &P,
        other: &P,
        size: nat,
        dx: nat,
        dy: nat,
        gradient: bool,
    )
        requires
            one.spec_width() == other.spec_width(),
            entries(one) == entries(other),
            self.colors_fit(one.spec_width()),
        ensures
            self.rendered(one, size, dx, dy, gradient) == self.rendered(
                other,
                size,
                dx,
                dy,
                gradient,
            ),
        decreases self,
    {
        let table = entries(one);
        assert forall|c: u32| (c as nat) < capacity(one.spec_width()) implies one.spec_rgba(c)
            == other.spec_rgba(c) by {
            assert(entries(one)[c as int] == one.spec_rgba(c));
            assert(entries(other)[c as int] == other.spec_rgba(c));
        }
        match self.sections {
            None => {},
            Some(s) => {
                let h = size / 2;
                assert(s.top_left.colors_fit(one.spec_width()));
                assert(s.top_right.colors_fit(one.spec_width()));
                assert(s.bottom_left.colors_fit(one.spec_width()));
                assert(s.bottom_right.colors_fit(one.spec_width()));
                if size > 1 && !(gradient && s.all_leaves()) {
                    if dy < h {
                        if dx < h {
                            s.top_left.lemma_same_entries_render_alike(
                                one,
                                other,
                                h,
                                dx,
                                dy,
                                gradient,
                            );
                        } else {
                            s.top_right.lemma_same_entries_render_alike(
                                one,
                                other,
                                h,
                                (dx - h) as nat,
                                dy,
                                gradient,
                            );
                        }
                    } else {
                        if dx < h {
                            s.bottom_left.lemma_same_entries_render_alike(
                                one,
                                other,
                                h,
                                dx,
                                (dy - h) as nat,
                                gradient,
                            );
                        } else {
                            s.bottom_right.lemma_same_entries_render_alike(
                                one,
                                other,
                                h,
                                (dx - h) as nat,
                                (dy - h) as nat,
                                gradient,
                            );
                        }
                    }
                }
            },
        }
    }

    /// Compressing and decompressing loses nothing but what quantization
    /// lost: take the tree built of a grid of side `2^k` of indices of a
    /// palette, with sensitivity 16384 and without gradient leaves, its QTI
    /// file, and any palette that holds what reading the file yields. Then reading the file
    /// gives a tree that can be drawn, and drawing it flat on a square of
    /// side `2^k` gives every pixel the color that the first palette has
    /// for the cell of the grid.
    pub proof fn lemma_compress_decompress(
        grid: Seq<u32>,
        k: nat,
        palette: &P,
        bytes: Seq<u8>,
        restored: &P,
        px: nat,
        py: nat,
    )
        requires
            grid.len() == pow2(k) * pow2(k),
            forall|i: int|
                0 <= i < grid.len() ==> (#[trigger] grid[i] as nat) < capacity(
                    palette.spec_width(),
                ),
            Self::built(grid, pow2(k), 0, 0, pow2(k), 16384, false).is_qti(palette, bytes),
            stored_entries(palette.spec_width(), meaningful(entries(palette))) <= u32::MAX,
            Self::qti_outcome(bytes) matches Ok((_, colors)) ==> restored.spec_width()
                == header_width(bytes[7]) && entries(restored) == colors,
            px < pow2(k),
            py < pow2(k),
        ensures
            Self::qti_outcome(bytes) matches Ok((tree, _)) && tree.render_ok(
                restored.spec_width(),
                pow2(k),
            ) && tree.rendered(restored, pow2(k), px, py, false) == palette.spec_rgba(
                cell(grid, pow2(k), px, py),
            ),
    {
        let side = pow2(k);
        let tree = Self::built(grid, side, 0, 0, side, 16384, false);
        Self::lemma_built_colors(
            grid,
            side,
            0,
            0,
            k,
            16384,
            false,
            capacity(palette.spec_width()),
        );
        tree.lemma_container_round_trip(palette, bytes);
        tree.lemma_fit_renders(palette.spec_width(), side);
        tree.lemma_same_entries_render_alike(palette, restored, side, px, py, false);
        Self::lemma_lossless(grid, side, 0, 0, k, palette, px, py);
    }

    /// From an image to its file and back, nothing is lost but what
    /// quantization lost. Take the pixels of an image of side `2^k`, the
    /// tree that analysis with sensitivity 16384 and without gradient
    /// leaves builds of them, the QTI file of that tree, and any palette
    /// that holds what reading the file yields. Then reading the file
    /// gives a tree that can be drawn, and drawing it flat on a square of
    /// side `2^k` gives every pixel the entry of the first palette that is
    /// nearest to the pixel of the image: the pixel itself wherever its
    /// color is an entry of the palette.
    pub proof fn lemma_image_round_trip(
        pixels: Seq<Color>,
        k: nat,
        palette: &P,
        bytes: Seq<u8>,
        restored: &P,
        px: nat,
        py: nat,
    )
        requires
            pixels.len() == pow2(k) * pow2(k),
            Self::built(
                quantized(pixels, entries(palette)),
                pow2(k),
                0,
                0,
                pow2(k),
                16384,
                false,
            ).is_qti(palette, bytes),
            stored_entries(palette.spec_width(), meaningful(entries(palette))) <= u32::MAX,
            Self::qti_outcome(bytes) matches Ok((_, colors)) ==> restored.spec_width()
                == header_width(bytes[7]) && entries(restored) == colors,
            px < pow2(k),
            py < pow2(k),
        ensures
            Self::qti_outcome(bytes) matches Ok((tree, _)) && {
                let at = (py * pow2(k) + px) as int;
                let drawn = tree.rendered(restored, pow2(k), px, py, false);
                &&& 0 <= at < pixels.len()
                &&& tree.render_ok(restored.spec_width(), pow2(k))
                &&& drawn == palette.spec_rgba(quantized(pixels, entries(palette))[at])
                &&& entries(palette).contains(pixels[at]) ==> drawn == pixels[at]
            },
    {
        let side = pow2(k);
        let table = entries(palette);
        let grid = quantized(pixels, table);
        let at = (py * side + px) as int;
        palette.lemma_width();
        lemma2_to64();
        lemma_pow2_pos(palette.spec_width());
        if palette.spec_width() < 32 {
            vstd::arithmetic::power2::lemma_pow2_strictly_increases(palette.spec_width(), 32);
        }
        lemma_cell_index(side, side, px, py);
        assert forall|i: int| 0 <= i < grid.len() implies (#[trigger] grid[i] as nat) < capacity(
            palette.spec_width(),
        ) by {
            lemma_quantized_cell(pixels, table, i);
        }
        lemma_quantized_cell(pixels, table, at);
        Self::lemma_compress_decompress(grid, k, palette, bytes, restored, px, py);
        assert(cell(grid, side, px, py) == grid[at]);
        assert(table[grid[at] as int] == palette.spec_rgba(grid[at]));
    }
}

} // verus!
