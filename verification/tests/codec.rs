use quadtree_img::error::{DecodeError, EncodeError};
use quadtree_img::quantize::palette::{Color, DynamicPaletteView, PaletteView};
use quadtree_img::{QuadtreeEncodeBitVec, QuadtreeNode};

type Node = QuadtreeNode<DynamicPaletteView>;

fn palette(len: usize) -> DynamicPaletteView {
    let colors = (0..len)
        .map(|i| Color { r: i as u8, g: 0, b: 0, a: 255 })
        .collect::<Vec<_>>();
    DynamicPaletteView::from(colors)
}

fn bits(buffer: &QuadtreeEncodeBitVec) -> String {
    (0..buffer.len())
        .map(|i| if buffer.get(i).unwrap() { '1' } else { '0' })
        .collect()
}

fn sample() -> Node {
    Node::branch(
        5,
        Node::leaf(1),
        Node::branch(2, Node::leaf(0), Node::leaf(7), Node::leaf(6), Node::leaf(3)),
        Node::leaf(4),
        Node::leaf(5),
    )
}

#[test]
fn bit_vector_keeps_bits_in_order() {
    let mut buffer = QuadtreeEncodeBitVec::new();
    assert_eq!(buffer.len(), 0);
    assert_eq!(buffer.get(0), None);
    for bit in [true, false, false, true, true, false, true, false, true] {
        buffer.push(bit);
    }
    assert_eq!(buffer.len(), 9);
    assert_eq!(bits(&buffer), "100110101");
    assert_eq!(buffer.get(9), None);
}

#[test]
fn bit_vector_counts_from_the_most_significant_bit() {
    let buffer = QuadtreeEncodeBitVec::from_bytes(&[0b1010_0001, 0x0f]);
    assert_eq!(buffer.len(), 16);
    assert_eq!(bits(&buffer), "1010000100001111");
    assert_eq!(buffer.to_bytes(), vec![0b1010_0001, 0x0f]);
    let mut built = QuadtreeEncodeBitVec::new();
    for bit in [true, true, false, false, false, false, false, true] {
        built.push(bit);
    }
    assert_eq!(built.to_bytes(), vec![0b1100_0001]);
    assert_eq!(QuadtreeEncodeBitVec::from_bytes(&[]).len(), 0);
    assert_eq!(QuadtreeEncodeBitVec::new().to_bytes(), Vec::<u8>::new());
}

#[test]
fn leaf_is_a_clear_flag_and_its_color() {
    let mut buffer = QuadtreeEncodeBitVec::new();
    assert_eq!(Node::leaf(5).encode_v1(&mut buffer, &palette(8)), Ok(()));
    assert_eq!(bits(&buffer), "0101");
    let mut wide = QuadtreeEncodeBitVec::new();
    assert_eq!(Node::leaf(5).encode_v1(&mut wide, &palette(200)), Ok(()));
    assert_eq!(bits(&wide), "000000101");
}

#[test]
fn branch_is_followed_by_its_four_sections() {
    let mut buffer = QuadtreeEncodeBitVec::new();
    assert_eq!(sample().encode_v1(&mut buffer, &palette(8)), Ok(()));
    assert_eq!(
        bits(&buffer),
        ["1101", "0001", "1010", "0000", "0111", "0110", "0011", "0100", "0101"].concat()
    );
}

#[test]
fn encoding_is_appended_to_the_buffer() {
    let mut buffer = QuadtreeEncodeBitVec::new();
    buffer.push(true);
    buffer.push(true);
    assert_eq!(Node::leaf(2).encode_v1(&mut buffer, &palette(4)), Ok(()));
    assert_eq!(bits(&buffer), "11010");
}

#[test]
fn color_beyond_the_palette_is_not_encoded() {
    let mut buffer = QuadtreeEncodeBitVec::new();
    buffer.push(true);
    // Width 3 addresses the colors 0 to 7.
    let tree = Node::branch(1, Node::leaf(0), Node::leaf(8), Node::leaf(0), Node::leaf(0));
    assert_eq!(tree.encode_v1(&mut buffer, &palette(8)), Err(EncodeError::ColorOutOfRange));
    assert_eq!(bits(&buffer), "1");
    assert_eq!(Node::leaf(7).encode_v1(&mut buffer, &palette(8)), Ok(()));
    assert_eq!(Node::leaf(8).encode_v1(&mut buffer, &palette(8)), Err(EncodeError::ColorOutOfRange));
}

#[test]
fn decoding_gives_back_what_was_encoded() {
    for width_of in [8usize, 9, 100, 70000] {
        let pal = palette(width_of);
        let mut buffer = QuadtreeEncodeBitVec::new();
        buffer.push(false);
        buffer.push(true);
        buffer.push(true);
        assert_eq!(sample().encode_v1(&mut buffer, &pal), Ok(()));
        let end = buffer.len();
        buffer.push(true);
        let mut tree = Node::default();
        assert_eq!(tree.decode_v1(&buffer, &pal, 3), Ok(end));
        assert_eq!(tree, sample());
    }
}

#[test]
fn decoding_reads_colors_most_significant_bit_first() {
    let buffer = QuadtreeEncodeBitVec::from_bytes(&[0b0110_0011]);
    let mut tree = Node::default();
    assert_eq!(tree.decode_v1(&buffer, &palette(8), 0), Ok(4));
    assert_eq!(tree, Node::leaf(6));
    assert_eq!(tree.decode_v1(&buffer, &palette(8), 4), Ok(8));
    assert_eq!(tree, Node::leaf(3));
    // With a palette of width 7 the whole byte is one leaf.
    assert_eq!(tree.decode_v1(&buffer, &palette(128), 0), Ok(8));
    assert_eq!(tree, Node::leaf(0b110_0011));
}

#[test]
fn truncated_encoding_lacks_data() {
    let pal = palette(8);
    let mut buffer = QuadtreeEncodeBitVec::new();
    assert_eq!(sample().encode_v1(&mut buffer, &pal), Ok(()));
    let whole = bits(&buffer);
    for keep in 0..whole.len() {
        let mut cut = QuadtreeEncodeBitVec::new();
        for c in whole.chars().take(keep) {
            cut.push(c == '1');
        }
        let mut tree = Node::leaf(9);
        assert_eq!(tree.decode_v1(&cut, &pal, 0), Err(DecodeError::InsufficientData));
        assert_eq!(tree, Node::leaf(9));
    }
    let mut tree = Node::leaf(9);
    assert_eq!(tree.decode_v1(&buffer, &pal, whole.len()), Err(DecodeError::InsufficientData));
    assert_eq!(tree.decode_v1(&buffer, &pal, whole.len() + 5), Err(DecodeError::InsufficientData));
    // Exactly the color bits but no room for the flag.
    let short = QuadtreeEncodeBitVec::from_bytes(&[0]);
    assert_eq!(tree.decode_v1(&short, &pal, 5), Err(DecodeError::InsufficientData));
    assert_eq!(tree.decode_v1(&short, &pal, 4), Ok(8));
}

#[test]
fn second_encoding_is_not_supported() {
    let buffer = QuadtreeEncodeBitVec::from_bytes(&[0xff, 0xff]);
    let mut tree = Node::leaf(3);
    assert_eq!(tree.decode_v2(&buffer, &palette(8), None), Err(DecodeError::MissingHeader));
    let mut queue = Vec::new();
    assert_eq!(
        tree.decode_v2(&buffer, &palette(8), Some(&mut queue)),
        Err(DecodeError::MissingHeader)
    );
    assert_eq!(tree, Node::leaf(3));
}

#[test]
fn tree_over_a_palette_of_fixed_width() {
    let pal: PaletteView<4> = PaletteView::default();
    let tree: QuadtreeNode<PaletteView<4>> = QuadtreeNode::branch(
        15,
        QuadtreeNode::leaf(0),
        QuadtreeNode::leaf(1),
        QuadtreeNode::leaf(2),
        QuadtreeNode::leaf(3),
    );
    let mut buffer = QuadtreeEncodeBitVec::new();
    assert_eq!(tree.encode_v1(&mut buffer, &pal), Ok(()));
    assert_eq!(bits(&buffer), "1111100000000010001000011");
    let mut read = QuadtreeNode::default();
    assert_eq!(read.decode_v1(&buffer, &pal, 0), Ok(25));
    assert_eq!(read, tree);
    let bytes = tree.to_qti(&pal).unwrap();
    // No color is given: the file stores nine transparent black entries.
    assert_eq!(bytes[7], 3);
    assert_eq!(bytes.len(), 8 + 36 + 4);
    let mut grown = QuadtreeNode::<PaletteView<4>>::leaf(0);
    assert_eq!(
        grown.mount(&[16, 1, 1, 1], &pal, None, None, 16384, false),
        Err(quadtree_img::error::MountError::ColorOutOfRange)
    );
}

#[test]
fn small_tree_fits_a_bit_vector() {
    assert!(sample().encoding_fits(3, 0));
    assert!(sample().encoding_fits(32, 1000));
    assert!(!sample().encoding_fits(3, usize::MAX / 8));
    assert!(!sample().encoding_fits(3, usize::MAX / 8 - 36 - 8));
    assert!(sample().encoding_fits(3, usize::MAX / 8 - 36 - 9));
    assert!(!sample().encoding_fits(3, usize::MAX));
}

#[test]
fn checked_encoding_writes_what_fits() {
    let mut buffer = QuadtreeEncodeBitVec::new();
    buffer.push(true);
    assert_eq!(sample().encode_v1_checked(&mut buffer, &palette(8)), Some(Ok(())));
    assert_eq!(
        bits(&buffer),
        ["1", "1101", "0001", "1010", "0000", "0111", "0110", "0011", "0100", "0101"].concat()
    );
    let before = bits(&buffer);
    assert_eq!(
        Node::leaf(8).encode_v1_checked(&mut buffer, &palette(8)),
        Some(Err(EncodeError::ColorOutOfRange))
    );
    assert_eq!(bits(&buffer), before);
}
