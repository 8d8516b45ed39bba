use quadtree_img::error::{AnalyzeError, DrawError};
use quadtree_img::node::image::color_lerp;
use quadtree_img::quantize::palette::{Color, DynamicPaletteView};
use quadtree_img::{QuadtreeNode, RasterImage};

type Node = QuadtreeNode<DynamicPaletteView>;

fn gray(v: u8) -> Color {
    Color { r: v, g: v, b: v, a: 255 }
}

fn palette() -> DynamicPaletteView {
    DynamicPaletteView::from(vec![
        gray(0),
        gray(100),
        gray(200),
        Color { r: 255, g: 0, b: 0, a: 255 },
        Color { r: 0, g: 255, b: 0, a: 128 },
    ])
}

fn blank(side: u32) -> RasterImage {
    RasterImage::from_pixel(side, side, Color { r: 9, g: 9, b: 9, a: 9 }).unwrap()
}

#[test]
fn raster_image_keeps_its_pixels() {
    let mut img = RasterImage::from_pixel(3, 2, gray(7)).unwrap();
    assert_eq!((img.width(), img.height()), (3, 2));
    assert_eq!(img.pixels(), &vec![gray(7); 6]);
    img.put_pixel(2, 1, gray(1));
    img.put_pixel(0, 1, gray(2));
    assert_eq!(img.get_pixel(2, 1), gray(1));
    assert_eq!(img.pixels(), &vec![gray(7), gray(7), gray(7), gray(2), gray(7), gray(1)]);
    img.fill_square(1, 0, 2, gray(3));
    assert_eq!(img.pixels(), &vec![gray(7), gray(3), gray(3), gray(2), gray(3), gray(3)]);
    assert_eq!(RasterImage::from_vec(3, 2, vec![gray(0); 5]), None);
    let copy = RasterImage::from_vec(3, 2, img.pixels().clone()).unwrap();
    assert_eq!(copy, img);
    assert_eq!(copy.clone(), img);
    assert_eq!(RasterImage::from_pixel(0, 5, gray(0)).unwrap().pixels().len(), 0);
}

#[test]
fn leaf_fills_the_image() {
    let mut img = blank(4);
    assert_eq!(Node::leaf(2).to_image(&mut img, &palette(), None, None, false), Ok(()));
    assert_eq!(img, RasterImage::from_pixel(4, 4, gray(200)).unwrap());
    let mut img = blank(4);
    assert_eq!(Node::leaf(1).to_image(&mut img, &palette(), None, None, true), Ok(()));
    assert_eq!(img, RasterImage::from_pixel(4, 4, gray(100)).unwrap());
}

#[test]
fn sections_fill_their_quadrants() {
    let tree = Node::branch(
        0,
        Node::leaf(1),
        Node::branch(0, Node::leaf(0), Node::leaf(1), Node::leaf(2), Node::leaf(3)),
        Node::leaf(2),
        Node::leaf(3),
    );
    let mut img = blank(4);
    assert_eq!(tree.to_image(&mut img, &palette(), None, None, false), Ok(()));
    let p = palette().colors;
    let rows = [
        [1, 1, 0, 1],
        [1, 1, 2, 3],
        [2, 2, 3, 3],
        [2, 2, 3, 3],
    ];
    for y in 0..4 {
        for x in 0..4 {
            assert_eq!(img.get_pixel(x, y), p[rows[y as usize][x as usize]]);
        }
    }
}

#[test]
fn drawing_stops_at_single_pixels() {
    // On a 2x2 image the sections of the sections are never reached.
    let deep = Node::branch(
        0,
        Node::branch(1, Node::leaf(9), Node::leaf(9), Node::leaf(9), Node::leaf(9)),
        Node::leaf(2),
        Node::leaf(3),
        Node::leaf(0),
    );
    let mut img = blank(2);
    assert_eq!(deep.to_image(&mut img, &palette(), None, None, false), Ok(()));
    let p = palette().colors;
    assert_eq!(img.pixels(), &vec![p[1], p[2], p[3], p[0]]);
    // On a 1x1 image only the root is drawn.
    let mut img = blank(1);
    assert_eq!(deep.to_image(&mut img, &palette(), None, None, true), Ok(()));
    assert_eq!(img.pixels(), &vec![p[0]]);
}

#[test]
fn gradient_blends_the_four_leaves() {
    let tree = Node::branch(0, Node::leaf(0), Node::leaf(1), Node::leaf(2), Node::leaf(3));
    let mut img = blank(4);
    assert_eq!(tree.to_image(&mut img, &palette(), None, None, true), Ok(()));
    // Along the top edge from gray 0 to gray 100 in quarters.
    assert_eq!(img.get_pixel(0, 0), gray(0));
    assert_eq!(img.get_pixel(1, 0), gray(25));
    assert_eq!(img.get_pixel(2, 0), gray(50));
    assert_eq!(img.get_pixel(3, 0), gray(75));
    // Down the left edge from gray 0 to gray 200.
    assert_eq!(img.get_pixel(0, 1), gray(50));
    assert_eq!(img.get_pixel(0, 3), gray(150));
    // Bottom edge at x = 1: from (200, 200, 200) to (255, 0, 0) is
    // (213, 150, 150); top edge there is gray 25; three quarters down:
    // 25 + (213 - 25) * 3 / 4 = 166, 25 + 125 * 3 / 4 = 118.75.
    assert_eq!(img.get_pixel(1, 3), Color { r: 166, g: 118, b: 118, a: 255 });
    // Without the flag the quadrants are flat.
    assert_eq!(tree.to_image(&mut img, &palette(), None, None, false), Ok(()));
    assert_eq!(img.get_pixel(1, 3), gray(200));
    assert_eq!(img.get_pixel(3, 0), gray(100));
}

#[test]
fn gradient_applies_only_above_four_leaves() {
    let inner = Node::branch(0, Node::leaf(0), Node::leaf(1), Node::leaf(2), Node::leaf(3));
    let tree = Node::branch(1, inner, Node::leaf(1), Node::leaf(2), Node::leaf(3));
    let mut img = blank(4);
    assert_eq!(tree.to_image(&mut img, &palette(), None, None, true), Ok(()));
    // The top-left quadrant is a gradient of side 2, the others are flat.
    assert_eq!(img.get_pixel(0, 0), gray(0));
    assert_eq!(img.get_pixel(1, 0), gray(50));
    assert_eq!(img.get_pixel(0, 1), gray(100));
    assert_eq!(img.get_pixel(1, 1), Color { r: 138, g: 75, b: 75, a: 255 });
    assert_eq!(img.get_pixel(2, 0), gray(100));
    assert_eq!(img.get_pixel(3, 3), Color { r: 255, g: 0, b: 0, a: 255 });
}

#[test]
fn interpolation_rounds_down() {
    assert_eq!(color_lerp(gray(0), gray(255), 1, 2), gray(127));
    assert_eq!(color_lerp(gray(255), gray(0), 1, 2), gray(127));
    assert_eq!(color_lerp(gray(10), gray(20), 0, 8), gray(10));
    assert_eq!(color_lerp(gray(10), gray(20), 7, 8), gray(18));
    assert_eq!(
        color_lerp(Color { r: 0, g: 255, b: 3, a: 100 }, Color { r: 3, g: 0, b: 0, a: 100 }, 1, 4),
        Color { r: 0, g: 191, b: 2, a: 100 }
    );
}

#[test]
fn image_that_is_not_square_is_refused() {
    let mut img = RasterImage::from_pixel(4, 2, gray(9)).unwrap();
    let before = img.clone();
    assert_eq!(
        Node::leaf(0).to_image(&mut img, &palette(), None, None, false),
        Err(DrawError::NonSquare)
    );
    assert_eq!(img, before);
    let mut tree = Node::leaf(3);
    assert_eq!(tree.from_image(&img, &palette(), 16384, false), Err(AnalyzeError::NonSquare));
    assert_eq!(tree, Node::leaf(3));
}

#[test]
fn side_that_is_no_power_of_two_is_refused() {
    for side in [0u32, 3, 6, 12] {
        let mut img = RasterImage::from_pixel(side, side, gray(9)).unwrap();
        let before = img.clone();
        assert_eq!(
            Node::leaf(0).to_image(&mut img, &palette(), None, None, false),
            Err(DrawError::NonPowerOfTwo)
        );
        assert_eq!(img, before);
        let mut tree = Node::leaf(3);
        assert_eq!(
            tree.from_image(&img, &palette(), 16384, false),
            Err(AnalyzeError::NonPowerOfTwo)
        );
        assert_eq!(tree, Node::leaf(3));
    }
    let mut img = blank(4);
    assert_eq!(
        Node::leaf(0).to_image(&mut img, &palette(), Some(3), Some((0, 0)), false),
        Err(DrawError::NonPowerOfTwo)
    );
    assert_eq!(img, blank(4));
}

#[test]
fn color_beyond_the_palette_is_not_drawn() {
    // Five colors make a palette of width 3: 8 is the first color outside.
    let tree = Node::branch(0, Node::leaf(1), Node::leaf(2), Node::leaf(8), Node::leaf(3));
    for gradient in [false, true] {
        let mut img = blank(4);
        assert_eq!(
            tree.to_image(&mut img, &palette(), None, None, gradient),
            Err(DrawError::ColorOutOfRange)
        );
        assert_eq!(img, blank(4));
    }
    // Indices behind the colors given are transparent black.
    let mut img = blank(2);
    let tree = Node::branch(0, Node::leaf(1), Node::leaf(2), Node::leaf(7), Node::leaf(3));
    assert_eq!(tree.to_image(&mut img, &palette(), None, None, false), Ok(()));
    assert_eq!(img.get_pixel(0, 1), Color { r: 0, g: 0, b: 0, a: 0 });
    // On one pixel the sections are not looked at.
    let mut img = blank(1);
    let bad = Node::branch(0, Node::leaf(1), Node::leaf(2), Node::leaf(8), Node::leaf(3));
    assert_eq!(bad.to_image(&mut img, &palette(), None, None, false), Ok(()));
}

#[test]
fn drawing_into_a_given_square() {
    let tree = Node::branch(0, Node::leaf(0), Node::leaf(1), Node::leaf(2), Node::leaf(3));
    let mut img = blank(4);
    assert_eq!(tree.to_image(&mut img, &palette(), Some(2), Some((2, 1)), false), Ok(()));
    let p = palette().colors;
    let old = Color { r: 9, g: 9, b: 9, a: 9 };
    assert_eq!(
        img.pixels(),
        &vec![
            old, old, old, old, //
            old, old, p[0], p[1], //
            old, old, p[2], p[3], //
            old, old, old, old,
        ]
    );
}

#[test]
fn analysis_rounds_pixels_to_the_palette() {
    let near = |v: u8| Color { r: v, g: v, b: v, a: 250 };
    let pixels = vec![
        near(3), near(5), near(98), near(104), //
        near(0), near(2), near(101), near(99), //
        near(190), near(210), near(201), near(199), //
        near(205), near(195), near(200), near(202),
    ];
    let img = RasterImage::from_vec(4, 4, pixels).unwrap();
    let mut tree = Node::default();
    assert_eq!(tree.from_image(&img, &palette(), 16384, false), Ok(()));
    assert_eq!(tree, Node::branch(2, Node::leaf(0), Node::leaf(1), Node::leaf(2), Node::leaf(2)));
    assert_eq!(tree.from_image(&img, &palette(), 8192, false), Ok(()));
    assert_eq!(tree, Node::leaf(2));
}

#[test]
fn full_sensitivity_loses_nothing_but_quantization() {
    let p = palette().colors;
    let indices: Vec<usize> = (0..64).map(|i| (i * i + i / 8) % 5).collect();
    let img = RasterImage::from_vec(8, 8, indices.iter().map(|i| p[*i]).collect()).unwrap();
    let mut tree = Node::default();
    assert_eq!(tree.from_image(&img, &palette(), 16384, false), Ok(()));
    let bytes = tree.to_qti(&palette()).unwrap();
    let (read, read_palette): (Node, DynamicPaletteView) = Node::from_qti(&bytes).unwrap();
    let mut out = blank(8);
    assert_eq!(read.to_image(&mut out, &read_palette, None, None, false), Ok(()));
    assert_eq!(out, img);
}

#[test]
fn uniform_image_comes_back_uniform() {
    let p = palette().colors;
    for side in [1u32, 2, 16] {
        for sensitivity in [0usize, 1, 9000, 16384] {
            let img = RasterImage::from_pixel(side, side, p[3]).unwrap();
            let mut tree = Node::default();
            assert_eq!(tree.from_image(&img, &palette(), sensitivity, true), Ok(()));
            assert_eq!(tree, Node::leaf(3));
            let bytes = tree.to_qti(&palette()).unwrap();
            let (read, read_palette): (Node, DynamicPaletteView) = Node::from_qti(&bytes).unwrap();
            let mut out = blank(side);
            assert_eq!(read.to_image(&mut out, &read_palette, None, None, true), Ok(()));
            assert_eq!(out, img);
        }
    }
}

#[test]
fn pixels_outside_the_palette_come_back_as_their_nearest_entry() {
    let p = palette().colors;
    let near = |i: usize, d: u8| Color { r: p[i].r ^ d, g: p[i].g, b: p[i].b ^ d, a: p[i].a };
    let indices: Vec<usize> = (0..16).map(|i| (3 * i + i / 4) % 5).collect();
    let img = RasterImage::from_vec(
        4,
        4,
        indices.iter().enumerate().map(|(k, i)| near(*i, (k % 3) as u8)).collect(),
    )
    .unwrap();
    let mut tree = Node::default();
    assert_eq!(tree.from_image(&img, &palette(), 16384, false), Ok(()));
    let bytes = tree.to_qti(&palette()).unwrap();
    let (read, read_palette): (Node, DynamicPaletteView) = Node::from_qti(&bytes).unwrap();
    let mut out = blank(4);
    assert_eq!(read.to_image(&mut out, &read_palette, None, None, false), Ok(()));
    let expected = RasterImage::from_vec(4, 4, indices.iter().map(|i| p[*i]).collect()).unwrap();
    assert_eq!(out, expected);
}
