use quadtree_img::error::{DecodeError, EncodeError};
use quadtree_img::node::qti::palette_header;
use quadtree_img::quantize::palette::{Color, DynamicPaletteView, Palette};
use quadtree_img::QuadtreeNode;

type Node = QuadtreeNode<DynamicPaletteView>;

fn color(i: usize) -> Color {
    Color { r: i as u8 + 1, g: 2 * i as u8, b: 200, a: 255 - i as u8 }
}

fn palette(len: usize) -> DynamicPaletteView {
    DynamicPaletteView::from((0..len).map(color).collect::<Vec<_>>())
}

fn table(p: &DynamicPaletteView) -> Vec<Color> {
    (0..(1u64 << p.width())).map(|i| p.to_rgba(i as u32).unwrap()).collect()
}

fn sample() -> Node {
    Node::branch(
        2,
        Node::leaf(1),
        Node::leaf(0),
        Node::branch(3, Node::leaf(0), Node::leaf(1), Node::leaf(2), Node::leaf(3)),
        Node::leaf(2),
    )
}

#[test]
fn file_of_a_leaf_and_four_colors() {
    let bytes = Node::leaf(2).to_qti(&palette(4)).unwrap();
    let mut expected = b"QuTrIm".to_vec();
    // Version 1; width 2 and 16 sixteenths: (16 - 9) << 5 | (2 - 1).
    expected.extend_from_slice(&[1, 0xe1]);
    for i in 0..4 {
        let c = color(i);
        expected.extend_from_slice(&[c.r, c.g, c.b, c.a]);
    }
    // Flag 0, color 10, five clear bits of padding.
    expected.push(0b0100_0000);
    assert_eq!(bytes, expected);
}

#[test]
fn file_drops_transparent_black_at_the_end_of_the_palette() {
    // 20 colors make a palette of width 5: of its 32 entries the last 12
    // are transparent black. 9 sixteenths would be 18 entries, 10 are 20.
    let bytes = sample().to_qti(&palette(20)).unwrap();
    assert_eq!(&bytes[..6], b"QuTrIm");
    assert_eq!(bytes[6], 1);
    assert_eq!(bytes[7], ((10 - 9) << 5) | (5 - 1));
    // 9 nodes of 6 bits are 54 bits, 7 bytes.
    assert_eq!(bytes.len(), 8 + 4 * 20 + 7);
    let c = color(19);
    assert_eq!(&bytes[8 + 76..8 + 80], &[c.r, c.g, c.b, c.a]);
    assert_eq!(
        &bytes[88..],
        &[0b1000_1000, 0b0001_0000, 0b0010_0011, 0b0000_0000, 0b0001_0000, 0b1000_0011, 0b0000_1000]
    );
}

#[test]
fn file_stores_at_least_nine_sixteenths() {
    // 3 colors of 16: the file still stores 9 entries.
    let mut colors = (0..3).map(color).collect::<Vec<_>>();
    colors.resize(16, Color { r: 0, g: 0, b: 0, a: 0 });
    let pal = DynamicPaletteView::from(colors);
    assert_eq!(pal.width(), 4);
    let bytes = Node::leaf(1).to_qti(&pal).unwrap();
    assert_eq!(bytes[7], 3);
    assert_eq!(bytes.len(), 8 + 4 * 9 + 1);
    assert_eq!(&bytes[8 + 12..8 + 36], &[0u8; 24][..]);
}

#[test]
fn reading_gives_back_what_was_written() {
    for len in [1usize, 2, 3, 4, 5, 8, 9, 16, 20, 31, 32, 100, 256, 300] {
        let pal = palette(len);
        let tree = if len >= 4 { sample() } else { Node::leaf(0) };
        let bytes = tree.to_qti(&pal).unwrap();
        let (read, read_pal): (Node, DynamicPaletteView) = Node::from_qti(&bytes).unwrap();
        assert_eq!(read, tree);
        assert_eq!(read_pal.width(), pal.width());
        assert_eq!(table(&read_pal), table(&pal));
        assert_eq!(read_pal.colors.len(), 1usize << pal.width());
    }
}

#[test]
fn data_without_the_magic_bytes_has_no_header() {
    let good = sample().to_qti(&palette(4)).unwrap();
    for cut in 0..6 {
        assert_eq!(
            Node::from_qti(&good[..cut]).map(|r: (Node, DynamicPaletteView)| r.0),
            Err(DecodeError::MissingHeader)
        );
    }
    for at in 0..6 {
        let mut bad = good.clone();
        bad[at] ^= 0x20;
        assert_eq!(
            Node::from_qti(&bad).map(|r: (Node, DynamicPaletteView)| r.0),
            Err(DecodeError::MissingHeader)
        );
    }
    assert_eq!(
        Node::from_qti(b"\x89PNG\r\n\x1a\n0000000000000000")
            .map(|r: (Node, DynamicPaletteView)| r.0),
        Err(DecodeError::MissingHeader)
    );
}

#[test]
fn header_that_ends_early_is_missing() {
    let good = sample().to_qti(&palette(4)).unwrap();
    for cut in 6..8 {
        assert_eq!(
            Node::from_qti(&good[..cut]).map(|r: (Node, DynamicPaletteView)| r.0),
            Err(DecodeError::MissingHeader)
        );
    }
}

#[test]
fn other_versions_are_not_supported() {
    let good = sample().to_qti(&palette(4)).unwrap();
    for version in [0u8, 2, 3, 255] {
        let mut bad = good.clone();
        bad[6] = version;
        assert_eq!(
            Node::from_qti(&bad).map(|r: (Node, DynamicPaletteView)| r.0),
            Err(DecodeError::MissingHeader)
        );
    }
}

#[test]
fn palette_that_32_bits_cannot_count_is_too_large() {
    let mut bytes = b"QuTrIm".to_vec();
    bytes.extend_from_slice(&[1, 0xff, 0, 0, 0, 0]);
    assert_eq!(
        Node::from_qti(&bytes).map(|r: (Node, DynamicPaletteView)| r.0),
        Err(DecodeError::PaletteTooLarge)
    );
}

#[test]
fn file_that_ends_early_lacks_data() {
    let good = sample().to_qti(&palette(4)).unwrap();
    // 8 bytes of header, 16 of palette, 27 bits of tree in 4 bytes.
    assert_eq!(good.len(), 28);
    for cut in 8..27 {
        assert_eq!(
            Node::from_qti(&good[..cut]).map(|r: (Node, DynamicPaletteView)| r.0),
            Err(DecodeError::InsufficientData)
        );
    }
}

#[test]
fn version_is_judged_before_the_palette() {
    let good = sample().to_qti(&palette(4)).unwrap();
    // A file of a version that is not supported has no header, even where
    // its palette or its tree would be missing.
    for version in [0u8, 2, 3, 255] {
        for cut in 8..good.len() {
            let mut bad = good[..cut].to_vec();
            bad[6] = version;
            assert_eq!(
                Node::from_qti(&bad).map(|r: (Node, DynamicPaletteView)| r.0),
                Err(DecodeError::MissingHeader)
            );
        }
        // Nor does it matter what the palette byte announces.
        for byte in [0x00u8, 0x1f, 0xff] {
            let mut bad = b"QuTrIm".to_vec();
            bad.extend_from_slice(&[version, byte]);
            assert_eq!(
                Node::from_qti(&bad).map(|r: (Node, DynamicPaletteView)| r.0),
                Err(DecodeError::MissingHeader)
            );
        }
    }
    // With version 1 the same eight bytes are judged by their palette byte.
    let mut bytes = b"QuTrIm".to_vec();
    bytes.extend_from_slice(&[1, 0x00]);
    assert_eq!(
        Node::from_qti(&bytes).map(|r: (Node, DynamicPaletteView)| r.0),
        Err(DecodeError::InsufficientData)
    );
    bytes[7] = 0xff;
    assert_eq!(
        Node::from_qti(&bytes).map(|r: (Node, DynamicPaletteView)| r.0),
        Err(DecodeError::PaletteTooLarge)
    );
}

#[test]
fn odd_sixteenths_of_a_small_palette_round_down() {
    // Width 2 with 9 sixteenths: 9 * 4 / 16 = 2 stored entries.
    let mut bytes = b"QuTrIm".to_vec();
    bytes.extend_from_slice(&[1, 0x01]);
    bytes.extend_from_slice(&[1, 2, 3, 4, 5, 6, 7, 8]);
    bytes.push(0b0110_0000);
    let (tree, pal): (Node, DynamicPaletteView) = Node::from_qti(&bytes).unwrap();
    assert_eq!(tree, Node::leaf(3));
    assert_eq!(pal.width(), 2);
    assert_eq!(pal.to_rgba(1), Ok(Color { r: 5, g: 6, b: 7, a: 8 }));
    assert_eq!(pal.to_rgba(2), Ok(Color { r: 0, g: 0, b: 0, a: 0 }));
}

#[test]
fn tree_with_a_color_beyond_the_palette_is_not_written() {
    assert_eq!(Node::leaf(4).to_qti(&palette(4)), Err(EncodeError::ColorOutOfRange));
    assert_eq!(
        Node::branch(0, Node::leaf(0), Node::leaf(0), Node::leaf(0), Node::leaf(9))
            .to_qti(&palette(8)),
        Err(EncodeError::ColorOutOfRange)
    );
}

#[test]
fn stored_entries_for_given_counts() {
    // (width, meaningful entries) -> (palette byte, stored entries)
    assert_eq!(palette_header(1, 0), (0xe0, 2));
    assert_eq!(palette_header(1, 2), (0xe0, 2));
    assert_eq!(palette_header(2, 0), (0x61, 3));
    assert_eq!(palette_header(2, 4), (0xe1, 4));
    assert_eq!(palette_header(3, 5), (0x22, 5));
    assert_eq!(palette_header(3, 7), (0xa2, 7));
    assert_eq!(palette_header(4, 0), (0x03, 9));
    assert_eq!(palette_header(4, 10), (0x23, 10));
    assert_eq!(palette_header(5, 19), (0x24, 20));
    assert_eq!(palette_header(8, 145), (0x27, 160));
    assert_eq!(palette_header(8, 256), (0xe7, 256));
    assert_eq!(palette_header(32, 0), (0x1f, 9 << 28));
    assert_eq!(palette_header(32, 1 << 32), (0xff, 1 << 32));
}

#[test]
fn stored_entries_hold_the_meaningful_ones() {
    for width in 1u8..=10 {
        let capacity = 1u64 << width;
        for count in 0..=capacity {
            let (byte, stored) = palette_header(width, count);
            assert!(count <= stored && stored <= capacity);
            assert_eq!((byte & 0x1f) + 1, width);
            let chunks = (byte >> 5) as u64 + 9;
            assert_eq!(chunks * capacity / 16, stored);
            if width >= 4 {
                assert_eq!(stored % (capacity / 16), 0);
            }
        }
    }
}

#[test]
fn checked_writing_gives_the_same_file() {
    for len in [1usize, 4, 20, 300] {
        let pal = palette(len);
        let tree = if len >= 4 { sample() } else { Node::leaf(0) };
        assert_eq!(tree.to_qti_checked(&pal), Some(tree.to_qti(&pal)));
    }
    assert_eq!(
        Node::leaf(4).to_qti_checked(&palette(4)),
        Some(Err(EncodeError::ColorOutOfRange))
    );
}

#[test]
fn stored_entries_stand_behind_the_palette_byte() {
    for len in [1usize, 3, 5, 16, 20, 100, 300] {
        let pal = palette(len);
        let bytes = Node::leaf(0).to_qti(&pal).unwrap();
        let width = pal.width() as u32;
        assert_eq!((bytes[7] & 0x1f) as u32 + 1, width);
        let chunks = (bytes[7] >> 5) as usize + 9;
        assert!(9 <= chunks && chunks <= 16);
        let stored = chunks * (1usize << width) / 16;
        assert!(len <= stored && stored <= 1usize << width);
        if width >= 4 {
            assert_eq!(stored % ((1usize << width) / 16), 0);
        }
        // One leaf of 1 + width bits follows the stored entries.
        assert_eq!(bytes.len(), 8 + 4 * stored + (1 + width as usize + 7) / 8);
        for i in 0..stored {
            let c = pal.to_rgba(i as u32).unwrap();
            assert_eq!(&bytes[8 + 4 * i..12 + 4 * i], &[c.r, c.g, c.b, c.a]);
        }
    }
}
