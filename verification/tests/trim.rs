use quadtree_img::is_nearly_uniform;
use quadtree_img::quantize::palette::DynamicPaletteView;
use quadtree_img::QuadtreeNode;

type Node = QuadtreeNode<DynamicPaletteView>;

fn four(a: u32, b: u32, c: u32, d: u32) -> Node {
    Node::branch(9, Node::leaf(a), Node::leaf(b), Node::leaf(c), Node::leaf(d))
}

#[test]
fn nearly_uniform_colors() {
    // Three different colors.
    assert!(is_nearly_uniform(1, 1, 2, 3));
    assert!(is_nearly_uniform(1, 2, 3, 1));
    assert!(is_nearly_uniform(5, 2, 2, 3));
    // Two colors, three to one.
    assert!(is_nearly_uniform(1, 1, 1, 2));
    assert!(is_nearly_uniform(2, 1, 1, 1));
    assert!(is_nearly_uniform(1, 1, 2, 1));
    // Two colors, two to two.
    assert!(!is_nearly_uniform(1, 1, 2, 2));
    assert!(!is_nearly_uniform(1, 2, 2, 1));
    // One color, and four colors.
    assert!(!is_nearly_uniform(4, 4, 4, 4));
    assert!(!is_nearly_uniform(1, 2, 3, 4));
}

#[test]
fn leaves_with_repeated_colors_are_removed() {
    let mut tree = four(1, 1, 2, 3);
    tree.trim(0);
    assert_eq!(tree, Node::leaf(9));
    let mut tree = four(1, 2, 2, 2);
    tree.trim(-3);
    assert_eq!(tree, Node::leaf(9));
    let mut tree = four(1, 2, 3, 4);
    tree.trim(0);
    assert_eq!(tree, four(1, 2, 3, 4));
    let mut tree = four(1, 1, 1, 1);
    tree.trim(0);
    assert_eq!(tree, four(1, 1, 1, 1));
    let mut tree = Node::leaf(4);
    tree.trim(0);
    assert_eq!(tree, Node::leaf(4));
}

#[test]
fn leaves_above_the_depth_stay() {
    let mut tree = four(1, 1, 2, 3);
    tree.trim(1);
    assert_eq!(tree, four(1, 1, 2, 3));
    let nested = || Node::branch(7, four(1, 1, 2, 3), Node::leaf(0), four(1, 1, 2, 2), Node::leaf(1));
    let mut tree = nested();
    tree.trim(2);
    assert_eq!(tree, nested());
    let mut tree = nested();
    tree.trim(1);
    assert_eq!(
        tree,
        Node::branch(7, Node::leaf(9), Node::leaf(0), four(1, 1, 2, 2), Node::leaf(1))
    );
    // One pass removes one level only.
    let mut tree = Node::branch(7, four(1, 1, 1, 2), Node::leaf(9), Node::leaf(9), Node::leaf(3));
    tree.trim(0);
    assert_eq!(tree, Node::branch(7, Node::leaf(9), Node::leaf(9), Node::leaf(9), Node::leaf(3)));
    tree.trim(0);
    assert_eq!(tree, Node::leaf(7));
    let mut tree = nested();
    tree.trim(isize::MIN);
    assert_eq!(
        tree,
        Node::branch(7, Node::leaf(9), Node::leaf(0), four(1, 1, 2, 2), Node::leaf(1))
    );
}
