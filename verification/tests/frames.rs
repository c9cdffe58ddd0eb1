use macos_media_toolkit::slot::{copy_pixel_buf_bgra, fill_pixel_buf_bgra, FrameSlot};
use macos_media_toolkit::BgraFrame;

fn frame(tag: u8) -> BgraFrame {
    BgraFrame {
        bgra: vec![tag; 4],
        width: 1,
        height: 1,
    }
}

#[test]
fn padding_is_dropped_when_packing() {
    // Two rows of one pixel, at a stride of six bytes; the last row has no padding.
    let pixels = [1, 2, 3, 4, 90, 91, 5, 6, 7, 8];
    let packed = copy_pixel_buf_bgra(&pixels, 1, 2, 6);
    assert_eq!(packed.bgra, vec![1, 2, 3, 4, 5, 6, 7, 8]);
    assert_eq!((packed.width, packed.height), (1, 2));
    let none = copy_pixel_buf_bgra(&[], 3, 0, 12);
    assert!(none.bgra.is_empty());
    assert_eq!((none.width, none.height), (3, 0));
}

#[test]
fn filling_leaves_the_padding_alone() {
    let mut pixels = [9u8; 14];
    fill_pixel_buf_bgra(&mut pixels, &[1, 2, 3, 4, 5, 6, 7, 8, 100], 1, 2, 6);
    assert_eq!(pixels, [1, 2, 3, 4, 9, 9, 5, 6, 7, 8, 9, 9, 9, 9]);
}

#[test]
fn packing_gives_back_what_was_filled_in() {
    let bgra: Vec<u8> = (0..24).collect();
    let mut pixels = [0xEEu8; 40];
    fill_pixel_buf_bgra(&mut pixels, &bgra, 2, 3, 13);
    let packed = copy_pixel_buf_bgra(&pixels, 2, 3, 13);
    assert_eq!(packed.bgra, bgra);
}

#[test]
fn a_slot_keeps_only_the_newest_frame() {
    let mut slot = FrameSlot::new();
    assert_eq!(slot.take(), None);
    slot.store(frame(1));
    slot.store(frame(2));
    slot.store(frame(3));
    assert_eq!(slot.take(), Some(frame(3)));
    assert_eq!(slot.take(), None);
    slot.store(frame(4));
    assert_eq!(slot.take(), Some(frame(4)));
}
