//! Behavior of the Life engine, observed through the pixel buffer: a cell is
//! live exactly when its pixel is white-opaque.

use life_grid::life::Life;
use life_grid::raw_draw::{RawColor, RawDraw};

fn assert_live(life: &Life, x: u32, y: u32) {
    assert_eq!(life.get_buf(x, y), RawColor::from_rgba(255, 255, 255, 255));
}

fn assert_dead(life: &Life, x: u32, y: u32) {
    let c = life.get_buf(x, y);
    assert_eq!(c.r, 0);
    assert_eq!(c.g, 0);
    assert_eq!(c.b, 0);
}

fn assert_only_live(life: &Life, cells: &[(u32, u32)]) {
    for y in 0..life.height() {
        for x in 0..life.width() {
            if cells.contains(&(x, y)) {
                assert_live(life, x, y);
            } else {
                assert_dead(life, x, y);
            }
        }
    }
}

#[test]
fn new_grid_is_all_dead_and_black() {
    let life = Life::new(4, 4);
    assert_eq!(life.width(), 4);
    assert_eq!(life.height(), 4);
    assert_eq!(life.buf().len(), 4 * 4 * 4);
    for byte in life.buf() {
        assert_eq!(*byte, 0);
    }
}

#[test]
fn set_paints_the_cell_white_opaque() {
    let mut life = Life::new(5, 5);
    life.set(2, 2);
    assert_only_live(&life, &[(2, 2)]);
}

#[test]
fn isolated_cell_dies_after_one_tick() {
    let mut life = Life::new(5, 5);
    life.set(2, 2);
    life.tick();
    assert_only_live(&life, &[]);
}

#[test]
fn dead_cell_turns_black_opaque() {
    let mut life = Life::new(5, 5);
    life.set(2, 2);
    life.tick();
    assert_eq!(life.get_buf(2, 2), RawColor::from_rgba(0, 0, 0, 255));
}

#[test]
fn tick_keeps_an_all_dead_grid_all_dead() {
    let mut life = Life::new(6, 6);
    life.tick();
    assert_only_live(&life, &[]);
    life.tick();
    assert_only_live(&life, &[]);
}

#[test]
fn setting_a_live_cell_again_changes_nothing() {
    let mut life = Life::new(6, 6);
    life.set(2, 2);
    life.set(2, 2);
    life.set(3, 2);
    assert_only_live(&life, &[(2, 2), (3, 2)]);
    // Two isolated neighbors die; corrupted counts would let cells survive
    // or be born instead.
    life.tick();
    assert_only_live(&life, &[]);
}

#[test]
fn block_is_a_still_life() {
    let mut life = Life::new(8, 8);
    let block = [(3, 3), (4, 3), (3, 4), (4, 4)];
    for &(x, y) in block.iter() {
        life.set(x, y);
    }
    for _ in 0..3 {
        life.tick();
        assert_only_live(&life, &block);
    }
}

#[test]
fn blinker_oscillates_with_period_two() {
    let mut life = Life::new(7, 7);
    life.set(2, 3);
    life.set(3, 3);
    life.set(4, 3);
    life.tick();
    assert_only_live(&life, &[(3, 2), (3, 3), (3, 4)]);
    life.tick();
    assert_only_live(&life, &[(2, 3), (3, 3), (4, 3)]);
}

#[test]
fn glider_translates_by_one_cell_in_four_ticks() {
    let mut life = Life::new(12, 12);
    // The standard glider, anchored at (2, 2).
    let start = [(3, 2), (4, 3), (2, 4), (3, 4), (4, 4)];
    for &(x, y) in start.iter() {
        life.set(x, y);
    }
    for _ in 0..4 {
        life.tick();
    }
    // The same shape, anchored at (3, 3).
    assert_only_live(&life, &[(4, 3), (5, 4), (3, 5), (4, 5), (5, 5)]);
}

#[test]
fn border_cells_stay_dead() {
    let mut life = Life::new(5, 5);
    // A vertical blinker whose flips touch cells next to the border.
    life.set(2, 1);
    life.set(2, 2);
    life.set(2, 3);
    for _ in 0..5 {
        life.tick();
        for i in 0..5 {
            assert_dead(&life, i, 0);
            assert_dead(&life, i, 4);
            assert_dead(&life, 0, i);
            assert_dead(&life, 4, i);
        }
    }
}

#[test]
fn smallest_grid_has_one_inner_cell() {
    let mut life = Life::new(3, 3);
    life.set(1, 1);
    assert_only_live(&life, &[(1, 1)]);
    life.tick();
    assert_only_live(&life, &[]);
}

#[test]
fn crowded_cell_dies_and_corners_are_born() {
    // A plus-shaped pattern: the center has four live neighbors and dies;
    // each arm survives with two; all four diagonal corners are born.
    let mut life = Life::new(9, 9);
    for &(x, y) in [(4, 3), (3, 4), (4, 4), (5, 4), (4, 5)].iter() {
        life.set(x, y);
    }
    life.tick();
    assert_only_live(
        &life,
        &[
            (4, 3),
            (3, 4),
            (5, 4),
            (4, 5),
            (3, 3),
            (5, 3),
            (3, 5),
            (5, 5),
        ],
    );
}
