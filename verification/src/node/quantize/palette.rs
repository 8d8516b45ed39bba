use vstd::prelude::*;
use vstd::arithmetic::power2::{lemma2_to64, lemma_pow2_pos, lemma_pow2_unfold, pow2};
use vstd::std_specs::convert::{FromSpec, FromSpecImpl};
use vstd::slice::slice_subrange;

verus! {

/// An RGBA color, one byte per channel.
#[derive(Clone, Copy, Debug, PartialEq, Eq, Structural, Hash)]
pub struct Color {
    pub r: u8,
    pub g: u8,
    pub b: u8,
    pub a: u8,
}

/// Transparent black, the color of every palette entry that was never given.
pub open spec fn spec_filler() -> Color {
    Color { r: 0, g: 0, b: 0, a: 0 }
}

/// Transparent black, the color of every palette entry that was never given.
#[verifier::when_used_as_spec(spec_filler)]
pub fn filler() -> (c: Color)
    ensures
        c == spec_filler(),
{
    Color { r: 0, g: 0, b: 0, a: 0 }
}

/// The number of indices that `width` bits can address.
pub open spec fn capacity(width: nat) -> nat {
    pow2(width)
}

/// Computes `capacity(width)` for the widths a palette may have.
pub fn index_count(width: u8) -> (n: u64)
    requires
        width <= 32,
    ensures
        n == capacity(width as nat),
        1 <= n <= 0x1_0000_0000,
{
    let mut n: u64 = 1;
    let mut i: u8 = 0;
    proof {
        lemma2_to64();
    }
    while i < width
        invariant
            i <= width <= 32,
            n == pow2(i as nat),
            n <= pow2(32),
            pow2(32) == 0x1_0000_0000,
        decreases width - i,
    {
        proof {
            lemma_pow2_unfold((i + 1) as nat);
            if i + 1 < 32 {
                vstd::arithmetic::power2::lemma_pow2_strictly_increases((i + 1) as nat, 32);
            }
        }
        n = n * 2;
        i = i + 1;
    }
    proof {
        lemma_pow2_pos(width as nat);
    }
    n
}

/// What a list of colors holds at index `c`: the color given there, and
/// transparent black past its end.
pub open spec fn entry_or_filler(colors: Seq<Color>, c: u32) -> Color {
    if (c as int) < colors.len() {
        colors[c as int]
    } else {
        spec_filler()
    }
}

/// The least width from `w` up to 32 whose capacity holds `n` entries.
pub open spec fn width_from(n: nat, w: nat) -> nat
    decreases 32 - w,
{
    if w >= 32 || capacity(w) >= n {
        w
    } else {
        width_from(n, w + 1)
    }
}

/// The bit width of a palette of `n` entries: the least width, from 1 to 32,
/// whose capacity is at least `n`.
pub open spec fn width_for(n: nat) -> nat {
    width_from(n, 1)
}

/// Describes how to convert a number of a fixed bit width to an RGBA color.
pub trait Palette: Default {
    /// The bit width of each palette color's number.
    spec fn spec_width(&self) -> nat;

    /// The color behind index `c`, for the indices below `capacity(width)`.
    spec fn spec_rgba(&self, c: u32) -> Color;

    /// A width is at least 1, because 0 bits would not make a palette, and at
    /// most 32, because more would be better stored as direct RGBA.
    proof fn lemma_width(&self)
        ensures
            1 <= self.spec_width() <= 32,
    ;

    /// The bit width of each palette color's number.
    fn width(&self) -> (w: u8)
        ensures
            w as nat == self.spec_width(),
    ;

    /// Converts a number representing a palette entry into an RGBA value,
    /// or fails if `c` is outside the range of the palette.
    fn to_rgba(&self, c: u32) -> (r: Result<Color, ()>)
        ensures
            r is Ok <==> (c as nat) < capacity(self.spec_width()),
            r is Ok ==> r->Ok_0 == self.spec_rgba(c),
    ;

    /// Returns the slice listing all the colors in the palette, only if the
    /// way the colors are stored makes that possible.
    fn get_slice(&self) -> (r: Option<&[Color]>)
        ensures
            r matches Some(s) ==> {
                &&& s@.len() == capacity(self.spec_width())
                &&& forall|i: int| 0 <= i < s@.len() ==> #[trigger] s@[i] == self.spec_rgba(i as u32)
            },
    ;
}

/// The whole table of a palette: one color for each index that its width
/// can address.
pub open spec fn entries<P: Palette>(palette: &P) -> Seq<Color> {
    Seq::new(capacity(palette.spec_width()), |i: int| palette.spec_rgba(i as u32))
}

/// A `Palette` that can be made from a list of colors of any length.
pub trait DynamicPalette: Palette + From<Vec<Color>> {
    /// The palette made from a list is as wide as the list is long, holds the
    /// list in order and is transparent black behind it.
    proof fn lemma_from(colors: Vec<Color>)
        ensures
            Self::obeys_from_spec(),
            Self::from_spec(colors).spec_width() == width_for(colors@.len()),
            forall|c: u32| #[trigger]
                Self::from_spec(colors).spec_rgba(c) == entry_or_filler(colors@, c),
    ;
}

/// A list of colors forming a palette, of a width determined at runtime by
/// the length of the list.
#[derive(Debug, PartialEq, Eq)]
pub struct DynamicPaletteView {
    pub colors: Vec<Color>,
}

proof fn lemma_width_from_bounds(n: nat, w: nat)
    requires
        1 <= w <= 32,
    ensures
        w <= width_from(n, w) <= 32,
        width_from(n, w) < 32 ==> capacity(width_from(n, w)) >= n,
    decreases 32 - w,
{
    if w >= 32 || capacity(w) >= n {
    } else {
        lemma_width_from_bounds(n, w + 1);
    }
}

/// The width of a list that exactly fills the capacity of `w` bits is `w`.
pub proof fn lemma_width_for_full(w: nat)
    requires
        1 <= w <= 32,
    ensures
        width_for(capacity(w)) == w,
{
    lemma_width_from_full(w, 1);
}

proof fn lemma_width_from_full(w: nat, from: nat)
    requires
        1 <= from <= w <= 32,
    ensures
        width_from(capacity(w), from) == w,
    decreases w - from,
{
    if from < w {
        vstd::arithmetic::power2::lemma_pow2_strictly_increases(from, w);
        lemma_width_from_full(w, from + 1);
    }
}

impl Clone for DynamicPaletteView {
    /// A palette of the same colors.
    fn clone(&self) -> (p: Self)
        ensures
            p.colors@ == self.colors@,
    {
        let mut colors: Vec<Color> = Vec::new();
        let mut i: usize = 0;
        while i < self.colors.len()
            invariant
                i <= self.colors@.len(),
                colors@ == self.colors@.take(i as int),
            decreases self.colors@.len() - i,
        {
            colors.push(self.colors[i]);
            i = i + 1;
            assert(colors@ =~= self.colors@.take(i as int));
        }
        assert(colors@ =~= self.colors@);
        DynamicPaletteView { colors }
    }
}

impl Default for DynamicPaletteView {
    fn default() -> (p: Self)
        ensures
            p.colors@ == Seq::<Color>::empty(),
    {
        DynamicPaletteView { colors: Vec::new() }
    }
}

impl Palette for DynamicPaletteView {
    open spec fn spec_width(&self) -> nat {
        width_for(self.colors@.len())
    }

    open spec fn spec_rgba(&self, c: u32) -> Color {
        entry_or_filler(self.colors@, c)
    }

    proof fn lemma_width(&self) {
        lemma_width_from_bounds(self.colors@.len(), 1);
    }

    fn width(&self) -> (w: u8) {
        let n = self.colors.len() as u64;
        let mut w: u8 = 1;
        while w < 32 && index_count(w) < n
            invariant
                1 <= w <= 32,
                n == self.colors@.len(),
                width_from(n as nat, w as nat) == width_for(n as nat),
            decreases 32 - w,
        {
            w = w + 1;
        }
        w
    }

    fn to_rgba(&self, c: u32) -> (r: Result<Color, ()>) {
        let w = self.width();
        proof {
            self.lemma_width();
        }
        if c as u64 >= index_count(w) {
            Err(())
        } else if (c as usize) < self.colors.len() {
            Ok(self.colors[c as usize])
        } else {
            Ok(filler())
        }
    }

    fn get_slice(&self) -> (r: Option<&[Color]>)
        ensures
            r is Some <==> self.colors@.len() >= capacity(self.spec_width()),
    {
        let w = self.width();
        proof {
            self.lemma_width();
        }
        let n = index_count(w);
        if self.colors.len() as u64 >= n {
            let s = slice_subrange(self.colors.as_slice(), 0, n as usize);
            Some(s)
        } else {
            None
        }
    }
}

impl From<Vec<Color>> for DynamicPaletteView {
    fn from(v: Vec<Color>) -> (p: Self) {
        DynamicPaletteView { colors: v }
    }
}

impl FromSpecImpl<Vec<Color>> for DynamicPaletteView {
    open spec fn obeys_from_spec() -> bool {
        true
    }

    open spec fn from_spec(v: Vec<Color>) -> Self {
        DynamicPaletteView { colors: v }
    }
}

impl DynamicPalette for DynamicPaletteView {
    proof fn lemma_from(colors: Vec<Color>) {
    }
}

/// The width of a palette that was asked to be `width` bits wide: `width`
/// itself, but no less than 1 and no more than 32.
pub open spec fn fixed_width(width: u8) -> nat {
    if width < 1 {
        1
    } else if width > 32 {
        32
    } else {
        width as nat
    }
}

/// A list of colors viewed as a palette of the fixed width `WIDTH`, however
/// many colors the list holds: indices behind the list are transparent
/// black, and colors of the list behind the capacity of the width are out
/// of reach.
#[derive(Debug, PartialEq, Eq)]
pub struct PaletteView<const WIDTH: u8> {
    pub colors: Vec<Color>,
}

impl<const WIDTH: u8> Default for PaletteView<WIDTH> {
    fn default() -> (p: Self)
        ensures
            p.colors@ == Seq::<Color>::empty(),
    {
        PaletteView { colors: Vec::new() }
    }
}

impl<const WIDTH: u8> Palette for PaletteView<WIDTH> {
    open spec fn spec_width(&self) -> nat {
        fixed_width(WIDTH)
    }

    open spec fn spec_rgba(&self, c: u32) -> Color {
        entry_or_filler(self.colors@, c)
    }

    proof fn lemma_width(&self) {
    }

    fn width(&self) -> (w: u8) {
        if WIDTH < 1 {
            1
        } else if WIDTH > 32 {
            32
        } else {
            WIDTH
        }
    }

    fn to_rgba(&self, c: u32) -> (r: Result<Color, ()>) {
        if c as u64 >= index_count(self.width()) {
            Err(())
        } else if (c as usize) < self.colors.len() {
            Ok(self.colors[c as usize])
        } else {
            Ok(filler())
        }
    }

    fn get_slice(&self) -> (r: Option<&[Color]>)
        ensures
            r is Some <==> self.colors@.len() >= capacity(self.spec_width()),
    {
        let n = index_count(self.width());
        if self.colors.len() as u64 >= n {
            let s = slice_subrange(self.colors.as_slice(), 0, n as usize);
            Some(s)
        } else {
            None
        }
    }
}

impl<const WIDTH: u8> From<Vec<Color>> for PaletteView<WIDTH> {
    fn from(v: Vec<Color>) -> (p: Self) {
        PaletteView { colors: v }
    }
}

impl<const WIDTH: u8> FromSpecImpl<Vec<Color>> for PaletteView<WIDTH> {
    open spec fn obeys_from_spec() -> bool {
        true
    }

    open spec fn from_spec(v: Vec<Color>) -> Self {
        PaletteView { colors: v }
    }
}

} // verus!
