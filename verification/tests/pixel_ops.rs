//! The pixel-buffer capability: colors, the raw RGBA8 layout, and the
//! derived get/put pixel operations.

use life_grid::life::Life;
use life_grid::raw_draw::{RawColor, RawDraw};

#[test]
fn from_rgba_keeps_each_channel() {
    let c = RawColor::from_rgba(1, 2, 3, 4);
    assert_eq!(c.r, 1);
    assert_eq!(c.g, 2);
    assert_eq!(c.b, 3);
    assert_eq!(c.a, 4);
}

#[test]
fn from_single_is_grayscale_opaque() {
    let c = RawColor::from_single(17);
    assert_eq!(c.r, 17);
    assert_eq!(c.g, 17);
    assert_eq!(c.b, 17);
    assert_eq!(c.a, 255);
}

#[test]
fn put_then_get_returns_the_same_color() {
    let mut life = Life::new(4, 4);
    life.put_buf(0, 0, RawColor::from_rgba(1, 2, 3, 4));
    life.put_buf(3, 3, RawColor::from_rgba(9, 8, 7, 6));
    assert_eq!(life.get_buf(0, 0), RawColor::from_rgba(1, 2, 3, 4));
    assert_eq!(life.get_buf(3, 3), RawColor::from_rgba(9, 8, 7, 6));
    // An untouched pixel keeps the zero-filled bytes of construction.
    assert_eq!(life.get_buf(1, 0), RawColor::from_rgba(0, 0, 0, 0));
}

#[test]
fn buffer_is_row_major_rgba8() {
    let mut life = Life::new(3, 3);
    life.set(1, 1);
    let buf = life.buf();
    assert_eq!(buf.len(), 4 * 3 * 3);
    // Cell (1, 1) starts at byte 4 * (1 + 1 * 3).
    let i = 4 * (1 + 1 * 3);
    assert_eq!(&buf[i..i + 4], &[255, 255, 255, 255]);
    // The cell before it in row-major order is untouched.
    assert_eq!(&buf[i - 4..i], &[0, 0, 0, 0]);
}

#[test]
fn put_buf_overwrites_only_its_quartet() {
    let mut life = Life::new(3, 3);
    life.put_buf(1, 1, RawColor::from_single(42));
    let buf = life.buf();
    for (k, byte) in buf.iter().enumerate() {
        let i = 4 * (1 + 1 * 3);
        if k >= i && k < i + 3 {
            assert_eq!(*byte, 42);
        } else if k == i + 3 {
            assert_eq!(*byte, 255);
        } else {
            assert_eq!(*byte, 0);
        }
    }
}

#[test]
fn dimensions_are_those_of_construction() {
    let life = Life::new(7, 5);
    assert_eq!(life.width(), 7);
    assert_eq!(life.height(), 5);
    assert_eq!(life.buf().len(), 4 * 7 * 5);
}
