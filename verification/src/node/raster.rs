//! A raster image held in memory: a rectangle of RGBA pixels, row by row.

use vstd::prelude::*;

use super::quantize::palette::Color;

verus! {

/// A rectangle of RGBA pixels, stored row by row from the top.
#[derive(Debug, PartialEq, Eq)]
pub struct RasterImage {
    width: u32,
    height: u32,
    pixels: Vec<Color>,
}

impl View for RasterImage {
    type V = Seq<Color>;

    /// The pixels, row by row.
    closed spec fn view(&self) -> Seq<Color> {
        self.pixels@
    }
}

impl Clone for RasterImage {
    /// A copy of the image, pixel for pixel.
    fn clone(&self) -> (img: Self)
        ensures
            img@ == self@,
            img.same_size(self),
    {
        proof {
            use_type_invariant(self);
        }
        let mut pixels: Vec<Color> = Vec::new();
        let mut i: usize = 0;
        while i < self.pixels.len()
            invariant
                i <= self.pixels@.len(),
                pixels@ == self.pixels@.take(i as int),
            decreases self.pixels@.len() - i,
        {
            pixels.push(self.pixels[i]);
            i = i + 1;
            assert(pixels@ =~= self.pixels@.take(i as int));
        }
        assert(pixels@ =~= self.pixels@);
        RasterImage { width: self.width, height: self.height, pixels }
    }
}

impl RasterImage {
    #[verifier::type_invariant]
    spec fn well_formed(self) -> bool {
        self.pixels@.len() == self.width * self.height
    }

    /// The number of pixels in a row.
    pub closed spec fn spec_width(&self) -> nat {
        self.width as nat
    }

    /// The number of rows.
    pub closed spec fn spec_height(&self) -> nat {
        self.height as nat
    }

    /// The pixel at column `x`, row `y`.
    pub open spec fn pixel(&self, x: nat, y: nat) -> Color {
        self@[(y * self.spec_width() + x) as int]
    }

    /// `self` has the dimensions of `other`.
    pub open spec fn same_size(&self, other: &RasterImage) -> bool {
        self.spec_width() == other.spec_width() && self.spec_height() == other.spec_height()
    }

    /// Each dimension of an image fits in 32 bits.
    pub proof fn lemma_dimensions(&self)
        ensures
            self.spec_width() <= u32::MAX,
            self.spec_height() <= u32::MAX,
    {
    }

    /// An image of one color, unless it would have more pixels than memory
    /// can address.
    pub fn from_pixel(width: u32, height: u32, color: Color) -> (r: Option<RasterImage>)
        ensures
            r is Some <==> width * height <= usize::MAX,
            r matches Some(img) ==> {
                &&& img.spec_width() == width
                &&& img.spec_height() == height
                &&& img@ == Seq::new((width * height) as nat, |i: int| color)
            },
    {
        proof {
            lemma_area_fits(width, height);
        }
        let total: u64 = width as u64 * height as u64;
        if total > usize::MAX as u64 {
            return None;
        }
        let mut pixels: Vec<Color> = Vec::new();
        let mut i: u64 = 0;
        while i < total
            invariant
                i <= total,
                pixels@ == Seq::new(i as nat, |j: int| color),
            decreases total - i,
        {
            pixels.push(color);
            i = i + 1;
            assert(pixels@ =~= Seq::new(i as nat, |j: int| color));
        }
        Some(RasterImage { width, height, pixels })
    }

    /// An image of the given pixels, row by row, unless their number is not
    /// `width * height`.
    pub fn from_vec(width: u32, height: u32, pixels: Vec<Color>) -> (r: Option<RasterImage>)
        ensures
            r is Some <==> pixels@.len() == width * height,
            r matches Some(img) ==> {
                &&& img.spec_width() == width
                &&& img.spec_height() == height
                &&& img@ == pixels@
            },
    {
        proof {
            lemma_area_fits(width, height);
        }
        if pixels.len() as u64 == width as u64 * height as u64 {
            Some(RasterImage { width, height, pixels })
        } else {
            None
        }
    }

    /// The number of pixels in a row.
    pub fn width(&self) -> (w: u32)
        ensures
            w == self.spec_width(),
            self@.len() == self.spec_width() * self.spec_height(),
    {
        proof {
            use_type_invariant(self);
        }
        self.width
    }

    /// The number of rows.
    pub fn height(&self) -> (h: u32)
        ensures
            h == self.spec_height(),
            self@.len() == self.spec_width() * self.spec_height(),
    {
        proof {
            use_type_invariant(self);
        }
        self.height
    }

    /// The pixels, row by row.
    pub fn pixels(&self) -> (p: &Vec<Color>)
        ensures
            p@ == self@,
            self@.len() == self.spec_width() * self.spec_height(),
    {
        proof {
            use_type_invariant(self);
        }
        &self.pixels
    }

    /// The pixel at column `x`, row `y`, which must lie in the image.
    pub fn get_pixel(&self, x: u32, y: u32) -> (c: Color)
        requires
            x < self.spec_width(),
            y < self.spec_height(),
        ensures
            c == self.pixel(x as nat, y as nat),
    {
        proof {
            use_type_invariant(self);
            lemma_cell_index(self.width as nat, self.height as nat, x as nat, y as nat);
        }
        let len = self.pixels.len();
        self.pixels[y as usize * self.width as usize + x as usize]
    }

    /// Sets the pixel at column `x`, row `y`, which must lie in the image.
    pub fn put_pixel(&mut self, x: u32, y: u32, color: Color)
        requires
            x < old(self).spec_width(),
            y < old(self).spec_height(),
        ensures
            final(self).same_size(old(self)),
            final(self)@ == old(self)@.update(y * old(self).spec_width() + x, color),
            y * old(self).spec_width() + x < old(self)@.len(),
            forall|px: nat, py: nat|
                px < old(self).spec_width() && py < old(self).spec_height() ==>
                    #[trigger] final(self).pixel(px, py) == if px == x && py == y {
                    color
                } else {
                    old(self).pixel(px, py)
                },
    {
        proof {
            use_type_invariant(&*self);
            lemma_cell_index(self.width as nat, self.height as nat, x as nat, y as nat);
        }
        let mut taken = RasterImage { width: 0, height: 0, pixels: Vec::new() };
        core::mem::swap(self, &mut taken);
        let RasterImage { width, height, mut pixels } = taken;
        let len = pixels.len();
        let at: usize = y as usize * width as usize + x as usize;
        let ghost before = pixels@;
        pixels.set(at, color);
        proof {
            assert forall|px: nat, py: nat| px < width && py < height implies #[trigger] pixels@[(py
                * (width as nat) + px) as int] == if px == x && py == y {
                color
            } else {
                before[(py * (width as nat) + px) as int]
            } by {
                lemma_cell_index(width as nat, height as nat, px, py);
                if py * (width as nat) + px == at {
                    lemma_cell_index_distinct(width as nat, px, py, x as nat, y as nat);
                }
            }
        }
        *self = RasterImage { width, height, pixels };
    }

    /// Paints the square of side `size` whose top-left corner is at column
    /// `x`, row `y`, which must lie in the image, in one color.
    pub fn fill_square(&mut self, x: u32, y: u32, size: u32, color: Color)
        requires
            x + size <= old(self).spec_width(),
            y + size <= old(self).spec_height(),
        ensures
            final(self).same_size(old(self)),
            forall|px: nat, py: nat|
                px < old(self).spec_width() && py < old(self).spec_height() ==>
                    #[trigger] final(self).pixel(px, py)
                        == if x <= px < x + size && y <= py < y + size {
                    color
                } else {
                    old(self).pixel(px, py)
                },
    {
        let ghost before = *self;
        proof {
            before.lemma_dimensions();
        }
        let mut row: u32 = 0;
        while row < size
            invariant
                row <= size,
                x + size <= u32::MAX,
                y + size <= u32::MAX,
                x + size <= before.spec_width(),
                y + size <= before.spec_height(),
                self.same_size(&before),
                forall|px: nat, py: nat|
                    px < before.spec_width() && py < before.spec_height() ==>
                        #[trigger] self.pixel(px, py)
                            == if x <= px < x + size && y <= py < y + row {
                        color
                    } else {
                        before.pixel(px, py)
                    },
            decreases size - row,
        {
            let mut col: u32 = 0;
            while col < size
                invariant
                    col <= size,
                    row < size,
                    x + size <= u32::MAX,
                    y + size <= u32::MAX,
                    x + size <= before.spec_width(),
                    y + size <= before.spec_height(),
                    self.same_size(&before),
                    forall|px: nat, py: nat|
                        px < before.spec_width() && py < before.spec_height()
                            ==> #[trigger] self.pixel(px, py) == if x <= px < x + size && (y <= py
                            < y + row || (py == y + row && px < x + col)) {
                            color
                        } else {
                            before.pixel(px, py)
                        },
                decreases size - col,
            {
                self.put_pixel(x + col, y + row, color);
                col = col + 1;
            }
            row = row + 1;
        }
    }
}

/// The number of pixels of an image fits in 64 bits.
pub proof fn lemma_area_fits(width: u32, height: u32)
    ensures
        width * height <= 0xffff_fffe_0000_0001,
{
    assert(width * height <= 0xffff_ffff * 0xffff_ffff) by (nonlinear_arith)
        requires
            0 <= width <= 0xffff_ffff,
            0 <= height <= 0xffff_ffff,
    ;
}

/// The place of the pixel at column `x`, row `y` in the row-by-row order
/// lies among the `width * height` pixels, and tells the pixel.
pub proof fn lemma_cell_index(width: nat, height: nat, x: nat, y: nat)
    requires
        x < width,
        y < height,
    ensures
        y * width + x < width * height,
        y * width + width <= width * height,
{
    assert(y * width + width <= width * height) by (nonlinear_arith)
        requires
            y + 1 <= height,
    ;
}

/// Two pixels at different places in the image stand at different places
/// in the row-by-row order.
pub proof fn lemma_cell_index_distinct(width: nat, x1: nat, y1: nat, x2: nat, y2: nat)
    requires
        x1 < width,
        x2 < width,
        y1 * width + x1 == y2 * width + x2,
    ensures
        x1 == x2,
        y1 == y2,
{
    if y1 < y2 {
        assert(y1 * width + width <= y2 * width) by (nonlinear_arith)
            requires
                y1 + 1 <= y2,
        ;
    } else if y2 < y1 {
        assert(y2 * width + width <= y1 * width) by (nonlinear_arith)
            requires
                y2 + 1 <= y1,
        ;
    }
}

} // verus!
