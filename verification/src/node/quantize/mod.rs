pub mod generate;
pub mod palette;

pub use generate::generate_palette;

use std::collections::HashMap;
use vstd::pervasive::unreached;
use vstd::prelude::*;

use super::raster::RasterImage;
use palette::{capacity, entries, index_count, Color, Palette};

verus! {

/// The distance between two channel values.
pub open spec fn spec_abs_sub(a: u8, b: u8) -> u8 {
    if a >= b {
        (a - b) as u8
    } else {
        (b - a) as u8
    }
}

/// The squared length of a vector of four bytes.
pub open spec fn spec_vec4_len_squared(a: u8, b: u8, c: u8, d: u8) -> u32 {
    (a * a + b * b + c * c + d * d) as u32
}

/// The squared Euclidean distance between two colors, all four channels
/// weighing the same.
pub open spec fn spec_color_distance(a: Color, b: Color) -> u32 {
    spec_vec4_len_squared(
        spec_abs_sub(a.r, b.r),
        spec_abs_sub(a.g, b.g),
        spec_abs_sub(a.b, b.b),
        spec_abs_sub(a.a, b.a),
    )
}

/// The squared distance by which colors are clustered: as the Euclidean one,
/// but the alpha difference is quartered first, so that it weighs a
/// sixteenth of a color channel.
pub open spec fn spec_dedup_distance(a: Color, b: Color) -> u32 {
    spec_vec4_len_squared(
        spec_abs_sub(a.r, b.r),
        spec_abs_sub(a.g, b.g),
        spec_abs_sub(a.b, b.b),
        spec_abs_sub(a.a, b.a) / 4,
    )
}

/// The four channels of a color as one number.
pub open spec fn spec_pack(c: Color) -> u32 {
    (c.r * 0x100_0000 + c.g * 0x1_0000 + c.b * 0x100 + c.a) as u32
}

/// `i` is the index of the entry of `table` nearest to `c`; among equally
/// near entries it is the lowest.
pub open spec fn is_nearest(table: Seq<Color>, c: Color, i: int) -> bool {
    &&& 0 <= i < table.len()
    &&& forall|j: int|
        0 <= j < table.len() ==> {
            &&& spec_color_distance(c, table[i]) <= spec_color_distance(c, #[trigger] table[j])
            &&& spec_color_distance(c, table[i]) == spec_color_distance(c, table[j]) ==> i <= j
        }
}

/// `out` holds, for each of `pixels`, the index of the nearest entry of
/// `table`.
pub open spec fn quantizes(pixels: Seq<Color>, table: Seq<Color>, out: Seq<u32>) -> bool {
    &&& out.len() == pixels.len()
    &&& forall|k: int| 0 <= k < pixels.len() ==> is_nearest(table, pixels[k], #[trigger] out[k] as int)
}

/// The index of the entry of `table` nearest to `c`.
pub open spec fn nearest_index(table: Seq<Color>, c: Color) -> int {
    choose|i: int| is_nearest(table, c, i)
}

/// The grid of palette indices of an image: for each pixel the index of the
/// nearest entry of `table`.
pub open spec fn quantized(pixels: Seq<Color>, table: Seq<Color>) -> Seq<u32> {
    Seq::new(pixels.len(), |k: int| nearest_index(table, pixels[k]) as u32)
}

/// What quantizes an image is its grid of palette indices.
pub proof fn lemma_quantized(pixels: Seq<Color>, table: Seq<Color>, out: Seq<u32>)
    requires
        quantizes(pixels, table, out),
    ensures
        out == quantized(pixels, table),
{
    assert forall|k: int| 0 <= k < pixels.len() implies out[k] == quantized(pixels, table)[k] by {
        assert(is_nearest(table, pixels[k], out[k] as int));
        lemma_nearest_unique(table, pixels[k], out[k] as int, nearest_index(table, pixels[k]));
    }
    assert(out =~= quantized(pixels, table));
}

/// Among the first `n` entries of a table one is nearest to `c`, and
/// lowest among the equally near.
proof fn lemma_nearest_among(table: Seq<Color>, c: Color, n: int) -> (i: int)
    requires
        1 <= n <= table.len(),
    ensures
        0 <= i < n,
        forall|j: int|
            0 <= j < n ==> {
                &&& spec_color_distance(c, table[i]) <= spec_color_distance(c, #[trigger] table[j])
                &&& spec_color_distance(c, table[i]) == spec_color_distance(c, table[j]) ==> i <= j
            },
    decreases n,
{
    if n == 1 {
        0
    } else {
        let before = lemma_nearest_among(table, c, n - 1);
        if spec_color_distance(c, table[n - 1]) < spec_color_distance(c, table[before]) {
            n - 1
        } else {
            before
        }
    }
}

/// Every table that holds a color has an entry nearest to `c`.
pub proof fn lemma_nearest_exists(table: Seq<Color>, c: Color)
    requires
        table.len() > 0,
    ensures
        is_nearest(table, c, nearest_index(table, c)),
{
    let i = lemma_nearest_among(table, c, table.len() as int);
    assert(is_nearest(table, c, i));
}

/// Each cell of the grid of an image is an index of the table, and an
/// index of the very color of its pixel where the table holds that color.
pub proof fn lemma_quantized_cell(pixels: Seq<Color>, table: Seq<Color>, k: int)
    requires
        0 < table.len() <= 0x1_0000_0000,
        0 <= k < pixels.len(),
    ensures
        0 <= (quantized(pixels, table)[k] as int) < table.len(),
        is_nearest(table, pixels[k], quantized(pixels, table)[k] as int),
        table.contains(pixels[k]) ==> table[quantized(pixels, table)[k] as int] == pixels[k],
{
    let c = pixels[k];
    lemma_nearest_exists(table, c);
    let i = nearest_index(table, c);
    if table.contains(c) {
        let j = choose|j: int| 0 <= j < table.len() && table[j] == c;
        assert(spec_abs_sub(c.r, c.r) == 0 && spec_abs_sub(c.g, c.g) == 0 && spec_abs_sub(
            c.b,
            c.b,
        ) == 0 && spec_abs_sub(c.a, c.a) == 0);
        let z: u8 = 0;
        assert(z * z == 0) by (nonlinear_arith)
            requires
                z == 0,
        ;
        assert(spec_vec4_len_squared(z, z, z, z) == 0);
        assert(spec_color_distance(c, table[j]) == 0);
        assert(spec_color_distance(c, table[i]) <= spec_color_distance(c, table[j]));
        lemma_distance_zero(c, table[i]);
    }
}

/// Only a color itself is at no distance from it.
pub proof fn lemma_distance_zero(a: Color, b: Color)
    requires
        spec_color_distance(a, b) == 0,
    ensures
        a == b,
{
    let r = spec_abs_sub(a.r, b.r) as int;
    let g = spec_abs_sub(a.g, b.g) as int;
    let bl = spec_abs_sub(a.b, b.b) as int;
    let al = spec_abs_sub(a.a, b.a) as int;
    assert(r * r <= 65025 && g * g <= 65025 && bl * bl <= 65025 && al * al <= 65025)
        by (nonlinear_arith)
        requires
            0 <= r <= 255,
            0 <= g <= 255,
            0 <= bl <= 255,
            0 <= al <= 255,
    ;
    assert(r * r >= r && g * g >= g && bl * bl >= bl && al * al >= al) by (nonlinear_arith)
        requires
            0 <= r,
            0 <= g,
            0 <= bl,
            0 <= al,
    ;
}

/// At most one index is the nearest.
pub proof fn lemma_nearest_unique(table: Seq<Color>, c: Color, i: int, j: int)
    requires
        is_nearest(table, c, i),
        is_nearest(table, c, j),
    ensures
        i == j,
{
    assert(spec_color_distance(c, table[i]) <= spec_color_distance(c, table[j]));
    assert(spec_color_distance(c, table[j]) <= spec_color_distance(c, table[i]));
}

/// The distance between two channel values.
pub fn abs_sub(a: u8, b: u8) -> (r: u8)
    ensures
        r == spec_abs_sub(a, b),
{
    if a >= b {
        a - b
    } else {
        b - a
    }
}

/// The squared length of a vector of four bytes.
pub fn vec4_len_squared(a: u8, b: u8, c: u8, d: u8) -> (r: u32)
    ensures
        r == spec_vec4_len_squared(a, b, c, d),
        r <= 260100,
{
    proof {
        assert(a * a <= 65025 && b * b <= 65025 && c * c <= 65025 && d * d <= 65025)
            by (nonlinear_arith)
            requires
                0 <= a <= 255,
                0 <= b <= 255,
                0 <= c <= 255,
                0 <= d <= 255,
        ;
    }
    (a as u32 * a as u32) + (b as u32 * b as u32) + (c as u32 * c as u32) + (d as u32 * d as u32)
}

/// The squared Euclidean distance between two colors.
pub fn color_distance(a: &Color, b: &Color) -> (r: u32)
    ensures
        r == spec_color_distance(*a, *b),
{
    vec4_len_squared(abs_sub(a.r, b.r), abs_sub(a.g, b.g), abs_sub(a.b, b.b), abs_sub(a.a, b.a))
}

/// The squared distance by which colors are clustered; alpha is less
/// important in it.
pub fn dedup_distance(a: &Color, b: &Color) -> (r: u32)
    ensures
        r == spec_dedup_distance(*a, *b),
{
    vec4_len_squared(
        abs_sub(a.r, b.r),
        abs_sub(a.g, b.g),
        abs_sub(a.b, b.b),
        abs_sub(a.a, b.a) / 4,
    )
}

/// The four channels of a color as one number, by which colors are keyed.
pub fn pack(c: &Color) -> (r: u32)
    ensures
        r == spec_pack(*c),
{
    c.r as u32 * 0x100_0000 + c.g as u32 * 0x1_0000 + c.b as u32 * 0x100 + c.a as u32
}

/// Finds the entry of the palette that is nearest to `c`.
fn nearest<P: Palette>(c: &Color, palette: &P, table: Option<&[Color]>, count: u64) -> (r: u32)
    requires
        count == capacity(palette.spec_width()),
        1 <= count <= 0x1_0000_0000,
        table matches Some(s) ==> s@ == entries(palette),
    ensures
        is_nearest(entries(palette), *c, r as int),
{
    let ghost all = entries(palette);
    let mut best: u32 = 0;
    let mut best_distance: u32 = 0;
    let mut i: u64 = 0;
    while i < count
        invariant
            i <= count,
            count == capacity(palette.spec_width()),
            count <= 0x1_0000_0000,
            all == entries(palette),
            table matches Some(s) ==> s@ == all,
            i > 0 ==> best < i && best_distance == spec_color_distance(*c, all[best as int]),
            forall|j: int|
                0 <= j < i ==> {
                    &&& best_distance <= spec_color_distance(*c, #[trigger] all[j])
                    &&& best_distance == spec_color_distance(*c, all[j]) ==> best <= j
                },
        decreases count - i,
    {
        let entry = match table {
            Some(s) => s[i as usize],
            None => match palette.to_rgba(i as u32) {
                Ok(e) => e,
                Err(_) => unreached(),
            },
        };
        let d = color_distance(c, &entry);
        if i == 0 || d < best_distance {
            best = i as u32;
            best_distance = d;
        }
        i = i + 1;
    }
    best
}

/// Processes an image given a palette so as to convert it to a rectangle of
/// pixels, each represented by the number of the palette color that most
/// closely matches the color of the pixel; among equally close colors the one
/// with the lowest number.
pub fn quantize_to_palette<P: Palette>(img: &RasterImage, palette: &P) -> (r: Vec<u32>)
    ensures
        r@ == quantized(img@, entries(palette)),
        quantizes(img@, entries(palette), r@),
        forall|k: int| 0 <= k < r@.len() ==> (#[trigger] r@[k] as nat) < capacity(palette.spec_width()),
{
    broadcast use vstd::std_specs::hash::group_hash_axioms;

    proof {
        palette.lemma_width();
    }
    let count = index_count(palette.width());
    let table = palette.get_slice();
    let ghost all = entries(palette);
    proof {
        if let Some(s) = table {
            assert(s@ =~= all);
        }
    }
    let pixels = img.pixels();
    let mut cache: HashMap<u32, u32> = HashMap::new();
    let mut out: Vec<u32> = Vec::new();
    let mut k: usize = 0;
    while k < pixels.len()
        invariant
            k <= pixels@.len(),
            pixels@ == img@,
            count == capacity(palette.spec_width()),
            1 <= count <= 0x1_0000_0000,
            all == entries(palette),
            table matches Some(s) ==> s@ == all,
            out@.len() == k,
            forall|j: int| 0 <= j < k ==> is_nearest(all, pixels@[j], #[trigger] out@[j] as int),
            forall|c: Color| cache@.contains_key(#[trigger] spec_pack(c)) ==>
                is_nearest(all, c, cache@[spec_pack(c)] as int),
        decreases pixels@.len() - k,
    {
        let pix = pixels[k];
        let key = pack(&pix);
        let index = match cache.get(&key) {
            Some(found) => *found,
            None => {
                let found = nearest(&pix, palette, table, count);
                cache.insert(key, found);
                proof {
                    assert forall|c: Color| cache@.contains_key(#[trigger] spec_pack(c)) implies
                        is_nearest(all, c, cache@[spec_pack(c)] as int) by {
                        if spec_pack(c) == key {
                            lemma_pack_injective(c, pix);
                        }
                    }
                }
                found
            },
        };
        out.push(index);
        k = k + 1;
    }
    proof {
        lemma_quantized(img@, all, out@);
    }
    out
}

/// Different colors pack to different numbers.
pub proof fn lemma_pack_injective(a: Color, b: Color)
    requires
        spec_pack(a) == spec_pack(b),
    ensures
        a == b,
{
    let (ar, ag, ab, aa) = (a.r as u64, a.g as u64, a.b as u64, a.a as u64);
    let (br, bg, bb, ba) = (b.r as u64, b.g as u64, b.b as u64, b.a as u64);
    assert(ar == br && ag == bg && ab == bb && aa == ba) by (bit_vector)
        requires
            ar < 256 && ag < 256 && ab < 256 && aa < 256,
            br < 256 && bg < 256 && bb < 256 && ba < 256,
            ar * 0x100_0000 + ag * 0x1_0000 + ab * 0x100 + aa == br * 0x100_0000 + bg * 0x1_0000
                + bb * 0x100 + ba,
    ;
}

} // verus!
