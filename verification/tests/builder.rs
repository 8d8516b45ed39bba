use quadtree_img::error::MountError;
use quadtree_img::quantize::palette::{Color, DynamicPaletteView};
use quadtree_img::QuadtreeNode;

type Node = QuadtreeNode<DynamicPaletteView>;

fn palette(len: usize) -> DynamicPaletteView {
    let colors = (0..len)
        .map(|i| Color { r: i as u8, g: (i * 3) as u8, b: (i * 7) as u8, a: 255 })
        .collect::<Vec<_>>();
    DynamicPaletteView::from(colors)
}

fn count_leaves(node: &Node) -> usize {
    match &node.sections {
        None => 1,
        Some(s) => {
            count_leaves(&s.top_left)
                + count_leaves(&s.top_right)
                + count_leaves(&s.bottom_left)
                + count_leaves(&s.bottom_right)
        }
    }
}

fn leaf_depths(node: &Node, depth: usize, out: &mut Vec<usize>) {
    match &node.sections {
        None => out.push(depth),
        Some(s) => {
            leaf_depths(&s.top_left, depth + 1, out);
            leaf_depths(&s.top_right, depth + 1, out);
            leaf_depths(&s.bottom_left, depth + 1, out);
            leaf_depths(&s.bottom_right, depth + 1, out);
        }
    }
}

#[test]
fn sixteen_distinct_colors_subdivide_fully() {
    let grid: Vec<u32> = (0..16).collect();
    let pal = palette(16);
    let mut tree = Node::default();
    assert_eq!(tree.mount(&grid, &pal, None, None, 16384, false), Ok(()));
    assert_eq!(count_leaves(&tree), 16);
    let mut depths = Vec::new();
    leaf_depths(&tree, 0, &mut depths);
    assert!(depths.iter().all(|d| *d == 2));
    // Quadrants come in the order top-left, top-right, bottom-left,
    // bottom-right, and a branch has the lowest of its equally abundant colors.
    assert_eq!(tree.color, 0);
    let s = tree.sections.as_ref().unwrap();
    assert_eq!(s.top_left.color, 0);
    assert_eq!(s.top_right.color, 2);
    assert_eq!(s.bottom_left.color, 8);
    assert_eq!(s.bottom_right.color, 10);
    let tr = s.top_right.sections.as_ref().unwrap();
    assert_eq!(
        (tr.top_left.color, tr.top_right.color, tr.bottom_left.color, tr.bottom_right.color),
        (2, 3, 6, 7)
    );
}

#[test]
fn uniform_image_is_a_single_leaf() {
    let grid = vec![5u32; 16];
    let pal = palette(8);
    for sensitivity in [1usize, 100, 8192, 16384] {
        for gradient in [false, true] {
            let mut tree = Node::default();
            assert_eq!(tree.mount(&grid, &pal, None, None, sensitivity, gradient), Ok(()));
            assert_eq!(tree, Node::leaf(5));
        }
    }
}

#[test]
fn single_cell_grid_is_a_leaf() {
    let pal = palette(4);
    let mut tree = Node::default();
    assert_eq!(tree.mount(&[3], &pal, None, None, 16384, true), Ok(()));
    assert_eq!(tree, Node::leaf(3));
}

#[test]
fn grid_that_is_no_square_of_a_power_of_two_is_refused() {
    let pal = palette(4);
    for len in [0usize, 2, 3, 8, 9, 15, 32, 36] {
        let grid = vec![0u32; len];
        let mut tree = Node::leaf(77);
        assert_eq!(tree.mount(&grid, &pal, None, None, 16384, false), Err(MountError::InvalidSize));
        assert_eq!(tree, Node::leaf(77));
    }
}

#[test]
fn color_outside_the_palette_aborts_the_build() {
    // Width 2: the indices 0 to 3 are valid, 4 is not.
    let pal = palette(4);
    let mut grid = vec![1u32; 16];
    grid[15] = 4;
    let mut tree = Node::leaf(77);
    assert_eq!(tree.mount(&grid, &pal, None, None, 16384, false), Err(MountError::ColorOutOfRange));
    assert_eq!(tree, Node::leaf(77));
    // With a lower sensitivity the odd cell is never selected.
    assert_eq!(tree.mount(&grid, &pal, None, None, 8192, false), Ok(()));
    assert_eq!(tree, Node::leaf(1));
}

#[test]
fn threshold_is_a_share_of_the_region() {
    // 12 of 16 cells hold color 1: the region stays whole while the
    // threshold, sensitivity * 16 / 16384 rounded down, is at most 12.
    let mut grid = vec![1u32; 16];
    grid[0] = 0;
    grid[1] = 0;
    grid[4] = 0;
    grid[5] = 0;
    let pal = palette(4);
    let mut tree = Node::default();
    assert_eq!(tree.mount(&grid, &pal, None, None, 12288, false), Ok(()));
    assert_eq!(tree, Node::leaf(1));
    assert_eq!(tree.mount(&grid, &pal, None, None, 13311, false), Ok(()));
    assert_eq!(tree, Node::leaf(1));
    assert_eq!(tree.mount(&grid, &pal, None, None, 13312, false), Ok(()));
    assert_eq!(
        tree,
        Node::branch(1, Node::leaf(0), Node::leaf(1), Node::leaf(1), Node::leaf(1))
    );
}

#[test]
fn ties_go_to_the_lowest_color() {
    let grid = vec![3u32, 2, 2, 3];
    let pal = palette(4);
    let mut tree = Node::default();
    assert_eq!(tree.mount(&grid, &pal, None, None, 8192, false), Ok(()));
    assert_eq!(tree, Node::leaf(2));
}

#[test]
fn raising_sensitivity_never_removes_leaves() {
    let grid: Vec<u32> = (0..64).map(|i| ((i * 7 + i / 8) % 5) as u32).collect();
    let pal = palette(8);
    for gradient in [false, true] {
        let mut last = 0;
        for sensitivity in (0..=16384).step_by(512) {
            let mut tree = Node::default();
            assert_eq!(tree.mount(&grid, &pal, None, None, sensitivity, gradient), Ok(()));
            let leaves = count_leaves(&tree);
            assert!(leaves >= last);
            last = leaves;
        }
    }
}

#[test]
fn gradient_leaves_sample_the_corners() {
    // An 8x8 grid of four colors in quadrants, each quadrant with some noise
    // of a fifth color so that no region is uniform.
    let mut grid = vec![0u32; 64];
    for y in 0..8 {
        for x in 0..8 {
            let q = (if x >= 4 { 1 } else { 0 }) + (if y >= 4 { 2 } else { 0 });
            grid[y * 8 + x] = q;
        }
    }
    let pal = palette(8);
    let mut tree = Node::default();
    assert_eq!(tree.mount(&grid, &pal, None, None, 16384, true), Ok(()));
    // The top color has 16 of 64 cells, below the threshold of 64; the four
    // main colors together weigh 64, which does not exceed 64: no gradient
    // leaves, the quadrants are built instead and are uniform.
    assert_eq!(
        tree,
        Node::branch(0, Node::leaf(0), Node::leaf(1), Node::leaf(2), Node::leaf(3))
    );
    // With sensitivity 12288 the threshold is 48 and the floor 12: the four
    // main colors weigh 16 + 16 + 16 + 13 = 61 > 48, so the corners are
    // sampled: windows of side 2 at offsets 0 and 6. Color 1 is now the
    // lowest of the most abundant colors.
    grid[0] = 4;
    grid[1] = 4;
    grid[8] = 4;
    assert_eq!(tree.mount(&grid, &pal, None, None, 12288, true), Ok(()));
    assert_eq!(
        tree,
        Node::branch(1, Node::leaf(4), Node::leaf(1), Node::leaf(2), Node::leaf(3))
    );
    // Without the gradient flag the quadrants are built in full.
    assert_eq!(tree.mount(&grid, &pal, None, None, 12288, false), Ok(()));
    let s = tree.sections.as_ref().unwrap();
    assert_eq!(s.top_left.color, 0);
    assert_eq!(s.top_right, Node::leaf(1));
}

#[test]
fn mount_of_a_given_region() {
    let grid: Vec<u32> = (0..16).collect();
    let pal = palette(16);
    let mut tree = Node::default();
    assert_eq!(tree.mount(&grid, &pal, Some(2), Some((2, 2)), 16384, false), Ok(()));
    assert_eq!(
        tree,
        Node::branch(10, Node::leaf(10), Node::leaf(11), Node::leaf(14), Node::leaf(15))
    );
}
