use quadtree_img::quantize::generate::{color_add_big, color_div, color_mul, BigColor};
use quadtree_img::quantize::palette::{
    filler, index_count, Color, DynamicPaletteView, Palette, PaletteView,
};
use quadtree_img::quantize::{
    abs_sub, color_distance, dedup_distance, generate_palette, pack, quantize_to_palette,
    vec4_len_squared,
};
use quadtree_img::RasterImage;

fn rgba(r: u8, g: u8, b: u8, a: u8) -> Color {
    Color { r, g, b, a }
}

#[test]
fn distances_between_colors() {
    assert_eq!(abs_sub(3, 10), 7);
    assert_eq!(abs_sub(10, 3), 7);
    assert_eq!(abs_sub(255, 0), 255);
    assert_eq!(vec4_len_squared(1, 2, 3, 4), 30);
    assert_eq!(vec4_len_squared(255, 255, 255, 255), 260100);
    assert_eq!(color_distance(&rgba(0, 0, 0, 0), &rgba(1, 2, 3, 4)), 30);
    assert_eq!(color_distance(&rgba(10, 20, 30, 40), &rgba(7, 24, 30, 50)), 9 + 16 + 100);
    // For clustering the alpha difference is quartered before it is squared.
    assert_eq!(dedup_distance(&rgba(10, 20, 30, 40), &rgba(7, 24, 30, 50)), 9 + 16 + 4);
    assert_eq!(dedup_distance(&rgba(0, 0, 0, 0), &rgba(0, 0, 0, 3)), 0);
    assert_eq!(dedup_distance(&rgba(0, 0, 0, 255), &rgba(0, 0, 0, 0)), 63 * 63);
    assert_eq!(pack(&rgba(1, 2, 3, 4)), 0x01020304);
}

#[test]
fn sums_of_colors() {
    let twice = color_mul(&rgba(1, 2, 3, 255), 2);
    assert_eq!(twice, BigColor { r: 2, g: 4, b: 6, a: 510 });
    let sum = color_add_big(twice, color_mul(&rgba(10, 0, 1, 255), 3));
    assert_eq!(sum, BigColor { r: 32, g: 4, b: 9, a: 1275 });
    assert_eq!(color_div(sum, 5), rgba(6, 0, 1, 255));
}

#[test]
fn palette_width_follows_the_number_of_colors() {
    let widths = [
        (0usize, 1u8),
        (1, 1),
        (2, 1),
        (3, 2),
        (4, 2),
        (5, 3),
        (8, 3),
        (9, 4),
        (256, 8),
        (257, 9),
        (65536, 16),
        (65537, 17),
    ];
    for (len, width) in widths {
        let pal = DynamicPaletteView::from(vec![rgba(1, 1, 1, 1); len]);
        assert_eq!(pal.width(), width);
    }
    assert_eq!(index_count(1), 2);
    assert_eq!(index_count(8), 256);
    assert_eq!(index_count(32), 1 << 32);
    assert_eq!(DynamicPaletteView::default().colors, Vec::new());
}

#[test]
fn palette_entries_behind_the_colors_are_transparent_black() {
    let pal = DynamicPaletteView::from(vec![rgba(1, 2, 3, 4), rgba(5, 6, 7, 8), rgba(9, 9, 9, 9)]);
    assert_eq!(pal.to_rgba(0), Ok(rgba(1, 2, 3, 4)));
    assert_eq!(pal.to_rgba(2), Ok(rgba(9, 9, 9, 9)));
    assert_eq!(pal.to_rgba(3), Ok(filler()));
    assert_eq!(filler(), rgba(0, 0, 0, 0));
    assert_eq!(pal.to_rgba(4), Err(()));
    assert_eq!(pal.to_rgba(u32::MAX), Err(()));
    assert_eq!(pal.get_slice(), None);
    let full = DynamicPaletteView::from(vec![rgba(1, 1, 1, 1); 8]);
    assert_eq!(full.get_slice(), Some(&vec![rgba(1, 1, 1, 1); 8][..]));
    assert_eq!(full.to_rgba(7), Ok(rgba(1, 1, 1, 1)));
    assert_eq!(full.to_rgba(8), Err(()));
}

#[test]
fn pixels_go_to_the_nearest_entry() {
    let pal = DynamicPaletteView::from(vec![
        rgba(0, 0, 0, 255),
        rgba(100, 100, 100, 255),
        rgba(100, 100, 100, 255),
        rgba(255, 255, 255, 255),
    ]);
    let img = RasterImage::from_vec(
        3,
        2,
        vec![
            rgba(10, 0, 0, 255),
            rgba(90, 100, 110, 255),
            rgba(250, 250, 250, 255),
            // As far from entry 0 as from entry 1: the lower index wins.
            rgba(50, 50, 50, 255),
            rgba(10, 0, 0, 255),
            // Alpha counts like any channel.
            rgba(100, 100, 100, 0),
        ],
    )
    .unwrap();
    assert_eq!(quantize_to_palette(&img, &pal), vec![0, 1, 3, 0, 0, 1]);
}

#[test]
fn filler_entries_take_part_in_quantization() {
    // Three colors make a palette of width 2, whose entry 3 is transparent
    // black.
    let pal = DynamicPaletteView::from(vec![
        rgba(200, 200, 200, 255),
        rgba(100, 100, 100, 255),
        rgba(50, 50, 50, 255),
    ]);
    let img = RasterImage::from_vec(2, 1, vec![rgba(5, 5, 5, 10), rgba(60, 60, 60, 250)]).unwrap();
    assert_eq!(quantize_to_palette(&img, &pal), vec![3, 2]);
    let none = RasterImage::from_pixel(0, 0, filler()).unwrap();
    assert_eq!(quantize_to_palette(&none, &pal), Vec::<u32>::new());
}

#[test]
fn palette_ranks_clusters_by_their_pixels() {
    let a = rgba(10, 10, 10, 255);
    let b = rgba(200, 0, 0, 255);
    let c = rgba(0, 0, 250, 255);
    let img = RasterImage::from_vec(4, 2, vec![a, b, b, c, b, c, c, c]).unwrap();
    let pal: DynamicPaletteView = generate_palette(&img, 1);
    assert_eq!(pal.colors, vec![c, b, a]);
    // Clusters that cover equally many pixels keep the order in which
    // their colors first occur.
    let img = RasterImage::from_vec(2, 2, vec![b, a, a, b]).unwrap();
    let pal: DynamicPaletteView = generate_palette(&img, 1);
    assert_eq!(pal.colors, vec![b, a]);
    let img = RasterImage::from_vec(2, 2, vec![a, b, c, c]).unwrap();
    let pal: DynamicPaletteView = generate_palette(&img, 0);
    assert_eq!(pal.colors, vec![c, a, b]);
}

#[test]
fn close_colors_become_their_weighted_average() {
    let a = rgba(100, 100, 100, 255);
    let near = rgba(104, 100, 97, 255);
    let far = rgba(100, 100, 120, 0);
    let other = rgba(0, 200, 0, 255);
    // `near` is 16 + 9 = 25 from `a`; `far` is 400 + 63 * 63 from it.
    let img = RasterImage::from_vec(
        4,
        2,
        vec![a, near, near, near, other, other, far, a],
    )
    .unwrap();
    let pal: DynamicPaletteView = generate_palette(&img, 26);
    // (2 * a + 3 * near) / 5 = (100 + 12 / 5, 100, 100 - 9 / 5) rounded down.
    assert_eq!(pal.colors, vec![rgba(102, 100, 98, 255), other, far]);
    // A color joins a cluster only if it is closer than the threshold.
    let pal: DynamicPaletteView = generate_palette(&img, 25);
    assert_eq!(pal.colors, vec![near, a, other, far]);
    // Distance is taken to the color that founded the cluster; with a
    // large threshold everything joins the first color.
    let pal: DynamicPaletteView = generate_palette(&img, u32::MAX);
    // r: (200 + 312 + 0 + 100) / 8, g: (200 + 300 + 400 + 100) / 8,
    // b: (200 + 291 + 0 + 120) / 8, a: (510 + 765 + 510 + 0) / 8
    assert_eq!(pal.colors, vec![rgba(76, 125, 76, 223)]);
    let none = RasterImage::from_pixel(0, 0, a).unwrap();
    let pal: DynamicPaletteView = generate_palette(&none, 5);
    assert_eq!(pal.colors, Vec::new());
}

#[test]
fn palette_of_a_fixed_width() {
    let pal: PaletteView<5> = PaletteView::from(vec![rgba(1, 2, 3, 4), rgba(5, 6, 7, 8)]);
    assert_eq!(pal.width(), 5);
    assert_eq!(pal.to_rgba(1), Ok(rgba(5, 6, 7, 8)));
    assert_eq!(pal.to_rgba(31), Ok(filler()));
    assert_eq!(pal.to_rgba(32), Err(()));
    assert_eq!(pal.get_slice(), None);
    // Colors behind the capacity of the width are out of reach.
    let narrow: PaletteView<1> = PaletteView::from(vec![rgba(1, 1, 1, 1); 5]);
    assert_eq!(narrow.width(), 1);
    assert_eq!(narrow.get_slice(), Some(&vec![rgba(1, 1, 1, 1); 2][..]));
    assert_eq!(narrow.to_rgba(2), Err(()));
    // A width is no less than 1 and no more than 32.
    assert_eq!(PaletteView::<0>::default().width(), 1);
    assert_eq!(PaletteView::<200>::default().width(), 32);
    assert_eq!(PaletteView::<32>::default().to_rgba(u32::MAX), Ok(filler()));
    let img = RasterImage::from_vec(2, 1, vec![rgba(9, 9, 9, 9), rgba(1, 2, 3, 5)]).unwrap();
    assert_eq!(quantize_to_palette(&img, &pal), vec![1, 0]);
}
