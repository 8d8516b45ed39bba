//! Rendering a quadtree into a raster image, and analyzing a raster image
//! into a quadtree.

use vstd::arithmetic::power2::is_pow2;
use vstd::prelude::*;

use super::error::{AnalyzeError, DrawError};
use super::quantize::palette::{capacity, entries, index_count, Color, Palette};
use super::quantize::{quantize_to_palette, quantized};
use super::raster::RasterImage;
use super::{is_power_of_two, lemma_grid_side_unique, lemma_pow2_parts, QuadtreeNode, Sections};

verus! {

/// The channel value `k` steps out of `size` on the way from `a` to `b`,
/// rounded down.
pub open spec fn lerp(a: u8, b: u8, k: nat, size: nat) -> u8 {
    ((a as int * (size as int - k as int) + b as int * k as int) / (size as int)) as u8
}

/// The color `k` steps out of `size` on the way from `a` to `b`, each
/// channel rounded down.
pub open spec fn spec_color_lerp(a: Color, b: Color, k: nat, size: nat) -> Color {
    Color {
        r: lerp(a.r, b.r, k, size),
        g: lerp(a.g, b.g, k, size),
        b: lerp(a.b, b.b, k, size),
        a: lerp(a.a, b.a, k, size),
    }
}

/// The color at column `dx`, row `dy` of a square of side `size` that
/// blends four corner colors: first along the top and the bottom edge by
/// `dx`, then between the two results by `dy`.
pub open spec fn bilinear(
    top_left: Color,
    top_right: Color,
    bottom_left: Color,
    bottom_right: Color,
    dx: nat,
    dy: nat,
    size: nat,
) -> Color {
    spec_color_lerp(
        spec_color_lerp(top_left, top_right, dx, size),
        spec_color_lerp(bottom_left, bottom_right, dx, size),
        dy,
        size,
    )
}

/// The region that `to_image` draws: the one given, or the whole image.
pub open spec fn draw_region(width: nat, size: Option<u32>, start_pos: Option<(u32, u32)>) -> (
    nat,
    nat,
    nat,
) {
    let s = match size {
        Some(s) => s as nat,
        None => width,
    };
    match start_pos {
        Some(p) => (p.0 as nat, p.1 as nat, s),
        None => (0, 0, s),
    }
}

/// The image can be drawn into: it is square, and its side and the side of
/// the region, where one is given, are powers of two.
pub open spec fn drawable(img: &RasterImage, size: Option<u32>) -> bool {
    &&& img.spec_width() == img.spec_height()
    &&& is_pow2(img.spec_width() as int)
    &&& size matches Some(s) ==> is_pow2(s as int)
}

fn lerp_channel(a: u8, b: u8, k: u32, size: u32) -> (r: u8)
    requires
        k < size,
    ensures
        r == lerp(a, b, k as nat, size as nat),
{
    proof {
        assert(a * (size - k) + b * k <= 255 * size) by (nonlinear_arith)
            requires
                0 <= a <= 255,
                0 <= b <= 255,
                0 <= k < size,
        ;
        assert(a * (size - k) <= 255 * size && b * k <= 255 * size) by (nonlinear_arith)
            requires
                0 <= a <= 255,
                0 <= b <= 255,
                0 <= k < size,
        ;
        assert((a * (size - k) + b * k) / (size as int) <= 255) by (nonlinear_arith)
            requires
                a * (size - k) + b * k <= 255 * size,
                size > 0,
        ;
        assert((a * (size - k) + b * k) / (size as int) >= 0) by (nonlinear_arith)
            requires
                a * (size - k) + b * k >= 0,
                size > 0,
        ;
    }
    let v: u64 = (a as u64 * (size - k) as u64 + b as u64 * k as u64) / size as u64;
    v as u8
}

/// The color `k` steps out of `size` on the way from `a` to `b`, each
/// channel rounded down.
pub fn color_lerp(a: Color, b: Color, k: u32, size: u32) -> (c: Color)
    requires
        k < size,
    ensures
        c == spec_color_lerp(a, b, k as nat, size as nat),
{
    Color {
        r: lerp_channel(a.r, b.r, k, size),
        g: lerp_channel(a.g, b.g, k, size),
        b: lerp_channel(a.b, b.b, k, size),
        a: lerp_channel(a.a, b.a, k, size),
    }
}

impl<P: Palette + Default> Sections<P> {
    /// None of the four subnodes has subnodes of its own.
    pub open spec fn all_leaves(&self) -> bool {
        &&& self.top_left.sections is None
        &&& self.top_right.sections is None
        &&& self.bottom_left.sections is None
        &&& self.bottom_right.sections is None
    }
}

impl<P: Palette + Default> QuadtreeNode<P> {
    /// The color that the tree gives the pixel at column `dx`, row `dy` of
    /// a square of side `size`.
    ///
    /// A leaf, and any node of a square of one pixel, paints its own color.
    /// A branch over four leaves, when a gradient is asked for, blends their
    /// colors over the square. Any other branch leaves each quadrant to the
    /// subnode of that quadrant.
    pub open spec fn rendered(&self, palette: &P, size: nat, dx: nat, dy: nat, gradient: bool) -> Color
        decreases self,
    {
        match self.sections {
            None => palette.spec_rgba(self.color),
            Some(s) => {
                let h = size / 2;
                if size <= 1 {
                    palette.spec_rgba(self.color)
                } else if gradient && s.all_leaves() {
                    bilinear(
                        palette.spec_rgba(s.top_left.color),
                        palette.spec_rgba(s.top_right.color),
                        palette.spec_rgba(s.bottom_left.color),
                        palette.spec_rgba(s.bottom_right.color),
                        dx,
                        dy,
                        size,
                    )
                } else if dy < h {
                    if dx < h {
                        s.top_left.rendered(palette, h, dx, dy, gradient)
                    } else {
                        s.top_right.rendered(palette, h, (dx - h) as nat, dy, gradient)
                    }
                } else {
                    if dx < h {
                        s.bottom_left.rendered(palette, h, dx, (dy - h) as nat, gradient)
                    } else {
                        s.bottom_right.rendered(
                            palette,
                            h,
                            (dx - h) as nat,
                            (dy - h) as nat,
                            gradient,
                        )
                    }
                }
            },
        }
    }

    /// Every color that drawing a square of side `size` looks up is an index
    /// that `width` bits can address: the node's own and, while the square
    /// has more than one pixel, those of its subnodes on their quadrants.
    pub open spec fn render_ok(&self, width: nat, size: nat) -> bool
        decreases self,
    {
        &&& (self.color as nat) < capacity(width)
        &&& match self.sections {
            None => true,
            Some(s) => size > 1 ==> {
                &&& s.top_left.render_ok(width, size / 2)
                &&& s.top_right.render_ok(width, size / 2)
                &&& s.bottom_left.render_ok(width, size / 2)
                &&& s.bottom_right.render_ok(width, size / 2)
            },
        }
    }

    /// `after` is `before` with the square of side `size` at column `x`,
    /// row `y` drawn from the tree.
    pub open spec fn painted(
        &self,
        before: &RasterImage,
        after: &RasterImage,
        palette: &P,
        x: nat,
        y: nat,
        size: nat,
        gradient: bool,
    ) -> bool {
        &&& after.same_size(before)
        &&& forall|px: nat, py: nat|
            px < before.spec_width() && py < before.spec_height() ==> #[trigger] after.pixel(px, py)
                == if x <= px < x + size && y <= py < y + size {
                self.rendered(palette, size, (px - x) as nat, (py - y) as nat, gradient)
            } else {
                before.pixel(px, py)
            }
    }

    /// Whether every color that drawing a square of side `size` looks up is
    /// below `limit`.
    fn colors_drawable(&self, limit: u64, size: u32, Ghost(width): Ghost<nat>) -> (r: bool)
        requires
            limit == capacity(width),
        ensures
            r == self.render_ok(width, size as nat),
        decreases self,
    {
        if self.color as u64 >= limit {
            return false;
        }
        match &self.sections {
            None => true,
            Some(s) => {
                if size > 1 {
                    s.top_left.colors_drawable(limit, size / 2, Ghost(width))
                        && s.top_right.colors_drawable(limit, size / 2, Ghost(width))
                        && s.bottom_left.colors_drawable(limit, size / 2, Ghost(width))
                        && s.bottom_right.colors_drawable(limit, size / 2, Ghost(width))
                } else {
                    true
                }
            },
        }
    }

    /// Blends four corner colors over a square of the image.
    fn paint_gradient(
        img: &mut RasterImage,
        corners: (Color, Color, Color, Color),
        x: u32,
        y: u32,
        size: u32,
    )
        requires
            size >= 1,
            x + size <= old(img).spec_width(),
            y + size <= old(img).spec_height(),
        ensures
            final(img).same_size(old(img)),
            forall|px: nat, py: nat|
                px < old(img).spec_width() && py < old(img).spec_height() ==>
                    #[trigger] final(img).pixel(px, py)
                        == if x <= px < x + size && y <= py < y + size {
                    bilinear(
                        corners.0,
                        corners.1,
                        corners.2,
                        corners.3,
                        (px - x) as nat,
                        (py - y) as nat,
                        size as nat,
                    )
                } else {
                    old(img).pixel(px, py)
                },
    {
        let ghost before = *img;
        proof {
            before.lemma_dimensions();
        }
        let mut row: u32 = 0;
        while row < size
            invariant
                row <= size,
                x + size <= u32::MAX,
                y + size <= u32::MAX,
                x + size <= before.spec_width(),
                y + size <= before.spec_height(),
                img.same_size(&before),
                forall|px: nat, py: nat|
                    px < before.spec_width() && py < before.spec_height() ==>
                        #[trigger] img.pixel(px, py) == if x <= px < x + size && y <= py < y + row {
                        bilinear(
                            corners.0,
                            corners.1,
                            corners.2,
                            corners.3,
                            (px - x) as nat,
                            (py - y) as nat,
                            size as nat,
                        )
                    } else {
                        before.pixel(px, py)
                    },
            decreases size - row,
        {
            let mut col: u32 = 0;
            while col < size
                invariant
                    col <= size,
                    row < size,
                    x + size <= u32::MAX,
                    y + size <= u32::MAX,
                    x + size <= before.spec_width(),
                    y + size <= before.spec_height(),
                    img.same_size(&before),
                    forall|px: nat, py: nat|
                        px < before.spec_width() && py < before.spec_height()
                            ==> #[trigger] img.pixel(px, py) == if x <= px < x + size && (y <= py
                            < y + row || (py == y + row && px < x + col)) {
                            bilinear(
                                corners.0,
                                corners.1,
                                corners.2,
                                corners.3,
                                (px - x) as nat,
                                (py - y) as nat,
                                size as nat,
                            )
                        } else {
                            before.pixel(px, py)
                        },
                decreases size - col,
            {
                let top = color_lerp(corners.0, corners.1, col, size);
                let bottom = color_lerp(corners.2, corners.3, col, size);
                let color = color_lerp(top, bottom, row, size);
                img.put_pixel(x + col, y + row, color);
                col = col + 1;
            }
            row = row + 1;
        }
    }

    /// Draws the tree into one square of the image.
    fn paint(
        &self,
        img: &mut RasterImage,
        palette: &P,
        x: u32,
        y: u32,
        size: u32,
        gradient: bool,
    ) -> (r: Result<(), DrawError>)
        requires
            self.render_ok(palette.spec_width(), size as nat),
            is_pow2(size as int),
            x + size <= old(img).spec_width(),
            y + size <= old(img).spec_height(),
        ensures
            r is Ok,
            self.painted(old(img), final(img), palette, x as nat, y as nat, size as nat, gradient),
        decreases self,
    {
        let ghost before = *img;
        let own = match palette.to_rgba(self.color) {
            Ok(c) => c,
            Err(_) => {
                return Err(DrawError::ColorOutOfRange);
            },
        };
        proof {
            lemma_pow2_parts(size as int);
            before.lemma_dimensions();
            if let Some(s) = &self.sections {
                if size > 1 {
                    assert(s.top_left.render_ok(palette.spec_width(), size as nat / 2));
                    assert(s.top_right.render_ok(palette.spec_width(), size as nat / 2));
                    assert(s.bottom_left.render_ok(palette.spec_width(), size as nat / 2));
                    assert(s.bottom_right.render_ok(palette.spec_width(), size as nat / 2));
                }
            }
        }
        match &self.sections {
            None => {
                img.fill_square(x, y, size, own);
                Ok(())
            },
            Some(s) => {
                if size <= 1 {
                    img.fill_square(x, y, size, own);
                    Ok(())
                } else if gradient && s.top_left.sections.is_none()
                    && s.top_right.sections.is_none() && s.bottom_left.sections.is_none()
                    && s.bottom_right.sections.is_none() {
                    let c0 = match palette.to_rgba(s.top_left.color) {
                        Ok(c) => c,
                        Err(_) => {
                            return Err(DrawError::ColorOutOfRange);
                        },
                    };
                    let c1 = match palette.to_rgba(s.top_right.color) {
                        Ok(c) => c,
                        Err(_) => {
                            return Err(DrawError::ColorOutOfRange);
                        },
                    };
                    let c2 = match palette.to_rgba(s.bottom_left.color) {
                        Ok(c) => c,
                        Err(_) => {
                            return Err(DrawError::ColorOutOfRange);
                        },
                    };
                    let c3 = match palette.to_rgba(s.bottom_right.color) {
                        Ok(c) => c,
                        Err(_) => {
                            return Err(DrawError::ColorOutOfRange);
                        },
                    };
                    Self::paint_gradient(img, (c0, c1, c2, c3), x, y, size);
                    Ok(())
                } else {
                    let h = size / 2;
                    let _ = s.top_left.paint(img, palette, x, y, h, gradient);
                    let ghost first = *img;
                    let _ = s.top_right.paint(img, palette, x + h, y, h, gradient);
                    let ghost second = *img;
                    let _ = s.bottom_left.paint(img, palette, x, y + h, h, gradient);
                    let ghost third = *img;
                    let _ = s.bottom_right.paint(img, palette, x + h, y + h, h, gradient);
                    proof {
                        assert forall|px: nat, py: nat|
                            px < before.spec_width() && py < before.spec_height() implies
                                #[trigger] img.pixel(px, py)
                                    == if x <= px < x + size && y <= py < y + size {
                            self.rendered(
                                palette,
                                size as nat,
                                (px - x) as nat,
                                (py - y) as nat,
                                gradient,
                            )
                        } else {
                            before.pixel(px, py)
                        } by {
                            let _ = first.pixel(px, py);
                            let _ = second.pixel(px, py);
                            let _ = third.pixel(px, py);
                        }
                    }
                    Ok(())
                }
            },
        }
    }

    /// Attempts to generate an image into the supplied buffer from this
    /// quadtree node and its branches and leaves.
    ///
    /// Fails, and leaves the buffer as it was, if the image is not square
    /// (`NonSquare`), if its side or the given `size` is not a power of two
    /// (`NonPowerOfTwo`), or if a color that drawing looks up does not fit
    /// in the provided palette (`ColorOutOfRange`).
    ///
    /// The `size` and `start_pos` arguments choose a square of the image to
    /// draw into; `None` should be passed by outside callers, for the whole
    /// image. A square so given lies in the image.
    ///
    /// `gradient` indicates whether branches over four leaves are presented
    /// as solid squares of color or as bilinear gradients between the four
    /// leaves.
    pub fn to_image(
        &self,
        img: &mut RasterImage,
        palette: &P,
        size: Option<u32>,
        start_pos: Option<(u32, u32)>,
        gradient: bool,
    ) -> (r: Result<(), DrawError>)
        requires
            drawable(old(img), size) ==> {
                let (x, y, s) = draw_region(old(img).spec_width(), size, start_pos);
                x + s <= old(img).spec_width() && y + s <= old(img).spec_width()
            },
        ensures
            final(img).same_size(old(img)),
            r is Err ==> final(img)@ == old(img)@,
            old(img).spec_width() != old(img).spec_height() ==> r == Err::<(), DrawError>(
                DrawError::NonSquare,
            ),
            old(img).spec_width() == old(img).spec_height() && !drawable(old(img), size) ==> r
                == Err::<(), DrawError>(DrawError::NonPowerOfTwo),
            drawable(old(img), size) ==> {
                let (x, y, s) = draw_region(old(img).spec_width(), size, start_pos);
                if self.render_ok(palette.spec_width(), s) {
                    r == Ok::<(), DrawError>(()) && self.painted(
                        old(img),
                        final(img),
                        palette,
                        x,
                        y,
                        s,
                        gradient,
                    )
                } else {
                    r == Err::<(), DrawError>(DrawError::ColorOutOfRange)
                }
            },
    {
        // Check input validity
        let width = img.width();
        if width != img.height() {
            return Err(DrawError::NonSquare);
        }
        let size_fits = match size {
            Some(s) => is_power_of_two(s),
            None => true,
        };
        if !is_power_of_two(width) || !size_fits {
            return Err(DrawError::NonPowerOfTwo);
        }
        let curr_size = match size {
            Some(s) => s,
            None => width,
        };
        let curr_pos = match start_pos {
            Some(p) => p,
            None => (0, 0),
        };
        proof {
            palette.lemma_width();
        }
        let limit = index_count(palette.width());
        if !self.colors_drawable(limit, curr_size, Ghost(palette.spec_width())) {
            return Err(DrawError::ColorOutOfRange);
        }
        match self.paint(img, palette, curr_pos.0, curr_pos.1, curr_size, gradient) {
            Ok(_) => Ok(()),
            Err(e) => Err(e),
        }
    }

    /// Analyzes a traditional image into a quadtree, which replaces this
    /// node, rounding pixel colors to the nearest entries in the palette.
    ///
    /// Fails, and leaves the node as it was, if the image is not square
    /// (`NonSquare`) or its side is not a power of two (`NonPowerOfTwo`).
    ///
    /// See the documentation on `mount` for the meaning of `sensitivity` and
    /// `gradient`.
    pub fn from_image(
        &mut self,
        img: &RasterImage,
        palette: &P,
        sensitivity: usize,
        gradient: bool,
    ) -> (r: Result<(), AnalyzeError>)
        ensures
            r is Err ==> *final(self) == *old(self),
            img.spec_width() != img.spec_height() ==> r == Err::<(), AnalyzeError>(
                AnalyzeError::NonSquare,
            ),
            img.spec_width() == img.spec_height() && !is_pow2(img.spec_width() as int) ==> r
                == Err::<(), AnalyzeError>(AnalyzeError::NonPowerOfTwo),
            img.spec_width() == img.spec_height() && is_pow2(img.spec_width() as int) ==> r
                == Ok::<(), AnalyzeError>(()) && *final(self) == Self::built(
                quantized(img@, entries(palette)),
                img.spec_width(),
                0,
                0,
                img.spec_width(),
                sensitivity as nat,
                gradient,
            ),
    {
        // Validate image size
        let width = img.width();
        if width != img.height() {
            return Err(AnalyzeError::NonSquare);
        }
        if !is_power_of_two(width) {
            return Err(AnalyzeError::NonPowerOfTwo);
        }
        let palettified = quantize_to_palette(img, palette);
        proof {
            lemma_grid_side_unique(palettified@.len(), width as nat);
        }
        match self.mount(palettified.as_slice(), palette, None, None, sensitivity, gradient) {
            Ok(_) => Ok(()),
            Err(_) => vstd::pervasive::unreached(),
        }
    }
}

} // verus!
