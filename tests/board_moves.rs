use tetris::board::{Board, Tile};
use tetris::movement::Movement;
use tetris::piece::{Piece, Rotation};
use tetris::search_state::SearchState;

fn spawn(p: Piece) -> SearchState {
    SearchState::new(1, 4, Rotation::Normal, p)
}

#[test]
fn new_board_is_empty() {
    let b = Board::new();
    assert!(b.is_empty());
    assert_eq!(b.get(22, 0), None);
}

#[test]
fn tile_constructors() {
    assert_eq!(Tile::new().piece, None);
    assert_eq!(Tile::from(Piece::T).piece, Some(Piece::T));
}

#[test]
fn with_placement_fills_the_four_cells() {
    let b = Board::new().with_placement(Piece::O, 21, 4, Rotation::Normal);
    let mut filled = 0;
    for r in 0..23 {
        for c in 0..10 {
            if b.is_filled(r, c) {
                filled += 1;
            }
        }
    }
    assert_eq!(filled, 4);
    assert_eq!(b.get(21, 4), Some(Piece::O));
    assert_eq!(b.get(21, 5), Some(Piece::O));
    assert_eq!(b.get(22, 4), Some(Piece::O));
    assert_eq!(b.get(22, 5), Some(Piece::O));
    assert!(!b.is_empty());
}

#[test]
fn clear_lines_drops_rows_above() {
    let mut b = Board::new();
    for c in 0..10 {
        b.set(22, c, Some(Piece::I));
    }
    b.set(21, 0, Some(Piece::T));
    assert_eq!(b.clear_lines(), 1);
    assert_eq!(b.get(22, 0), Some(Piece::T));
    assert_eq!(b.get(21, 0), None);
    for c in 1..10 {
        assert_eq!(b.get(22, c), None);
    }
}

#[test]
fn clear_lines_two_rows_apart() {
    let mut b = Board::new();
    for c in 0..10 {
        b.set(22, c, Some(Piece::I));
        b.set(20, c, Some(Piece::J));
    }
    b.set(21, 3, Some(Piece::S));
    b.set(19, 7, Some(Piece::Z));
    assert_eq!(b.clear_lines(), 2);
    assert_eq!(b.get(22, 3), Some(Piece::S));
    assert_eq!(b.get(21, 7), Some(Piece::Z));
    assert_eq!(b.get(20, 7), None);
    assert_eq!(b.get(19, 7), None);
}

#[test]
fn clear_lines_without_full_rows_changes_nothing() {
    let mut b = Board::new().with_placement(Piece::T, 22, 4, Rotation::Normal);
    let before = b;
    assert_eq!(b.clear_lines(), 0);
    assert_eq!(b, before);
}

#[test]
fn shifts_and_slides_on_empty_board() {
    let b = Board::new();
    let s = spawn(Piece::T);
    assert_eq!(s.left(&b).col, 3);
    assert_eq!(s.right(&b).col, 5);
    assert_eq!(s.das_left(&b).col, 1);
    assert_eq!(s.das_right(&b).col, 8);
    assert_eq!(s.drop(&b).row, 22);
}

#[test]
fn shift_into_wall_stays() {
    let b = Board::new();
    let s = SearchState::new(1, 1, Rotation::Normal, Piece::T);
    assert_eq!(s.left(&b), s);
}

#[test]
fn drop_rests_on_stack() {
    let b = Board::new().with_placement(Piece::O, 21, 4, Rotation::Normal);
    let s = spawn(Piece::O);
    assert_eq!(s.drop(&b).row, 19);
}

#[test]
fn rotations_on_empty_board() {
    let b = Board::new();
    let s = spawn(Piece::T);
    assert_eq!(s.rotate_cw(&b), SearchState::new(1, 4, Rotation::Cw, Piece::T));
    assert_eq!(s.rotate_ccw(&b), SearchState::new(1, 4, Rotation::Ccw, Piece::T));
    assert_eq!(s.rotate_180(&b), SearchState::new(1, 4, Rotation::Flip, Piece::T));
    // The bar's centre correction moves the pivot.
    let i = spawn(Piece::I);
    assert_eq!(i.rotate_cw(&b), SearchState::new(1, 5, Rotation::Cw, Piece::I));
}

#[test]
fn rotation_uses_kick_when_blocked() {
    // A T in the Cw pose against the left wall, turned half way, would poke through the wall
    // and is kicked one column right.
    let b = Board::new();
    let s = SearchState::new(5, 0, Rotation::Cw, Piece::T);
    let t = s.rotate_180(&b);
    assert_eq!(t.rotation, Rotation::Ccw);
    assert_eq!(t.col, 1);
}

#[test]
fn failed_rotation_keeps_pose() {
    // Wall the bar in so that no trial shift fits.
    let mut b = Board::new();
    for r in 0..23 {
        for c in 0..10 {
            b.set(r, c, Some(Piece::Z));
        }
    }
    for c in 3..7 {
        b.set(10, c, None);
    }
    let s = SearchState::new(10, 4, Rotation::Normal, Piece::I);
    assert!(!s.intersects(&b));
    assert_eq!(s.rotate_cw(&b), s);
    assert_eq!(s.rotate_ccw(&b), s);
    assert_eq!(s.drop(&b), s);
}

#[test]
fn intersects_outside_or_on_filled() {
    let b = Board::new().with_placement(Piece::O, 21, 4, Rotation::Normal);
    assert!(SearchState::new(1, 0, Rotation::Normal, Piece::T).intersects(&b));
    assert!(SearchState::new(22, 4, Rotation::Normal, Piece::T).intersects(&b));
    assert!(!SearchState::new(1, 4, Rotation::Normal, Piece::T).intersects(&b));
}

#[test]
fn symmetrical_same_cells() {
    let s = SearchState::new(5, 4, Rotation::Normal, Piece::I);
    assert_eq!(s.symmetrical(), SearchState::new(5, 5, Rotation::Flip, Piece::I));
    let z = SearchState::new(5, 4, Rotation::Flip, Piece::Z);
    assert_eq!(z.symmetrical(), SearchState::new(6, 4, Rotation::Normal, Piece::Z));
    let t = SearchState::new(5, 4, Rotation::Cw, Piece::T);
    assert_eq!(t.symmetrical(), t);
    let b1 = Board::new().with_placement(Piece::S, 10, 4, Rotation::Cw);
    let m = SearchState::new(10, 4, Rotation::Cw, Piece::S).symmetrical();
    let b2 = Board::new().with_placement(Piece::S, m.row as u8, m.col as u8, m.rotation);
    assert_eq!(b1, b2);
}

#[test]
fn successors_in_fixed_order() {
    let b = Board::new();
    let s = spawn(Piece::L);
    let succ = s.successors(&b);
    assert_eq!(succ.len(), 8);
    assert_eq!(succ[0], (s.left(&b), Movement::Left));
    assert_eq!(succ[4].1, Movement::SoftDrop);
    assert_eq!(succ[7], (s.rotate_180(&b), Movement::Rotate180));
}

#[test]
fn kick_map_lengths() {
    assert_eq!(Piece::O.kick_map(Rotation::Normal, Rotation::Cw), vec![(0, 0)]);
    assert_eq!(Piece::T.kick_map(Rotation::Normal, Rotation::Flip).len(), 6);
    assert_eq!(Piece::I.kick_map(Rotation::Normal, Rotation::Cw)[1], (0, -2));
}

#[test]
fn rotation_group() {
    for r in [Rotation::Normal, Rotation::Cw, Rotation::Ccw, Rotation::Flip] {
        assert_eq!(r.cw().ccw(), r);
        assert_eq!(r.half().half(), r);
        assert_eq!(r.cw().cw(), r.half());
    }
}
