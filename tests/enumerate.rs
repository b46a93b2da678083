use tetris::board::Board;
use tetris::locations::{get_finesse_faults, get_locations, get_locations_with_finesse};
use tetris::movement::Movement;
use tetris::piece::{Piece, Rotation};
use tetris::search_state::SearchState;

const ALL: [Piece; 7] = [Piece::I, Piece::J, Piece::L, Piece::O, Piece::S, Piece::T, Piece::Z];

fn replay(board: &Board, piece: Piece, path: &[Movement]) -> SearchState {
    let mut s = SearchState::new(1, 4, Rotation::Normal, piece);
    for &m in path {
        s = s.apply(board, m);
    }
    s
}

#[test]
fn location_counts_on_empty_board() {
    let b = Board::new();
    assert_eq!(get_locations(&b, Piece::T).len(), 34);
    assert_eq!(get_locations(&b, Piece::I).len(), 17);
    assert_eq!(get_locations(&b, Piece::S).len(), 17);
    assert_eq!(get_locations(&b, Piece::Z).len(), 17);
    // The square has four orientation labels with one footprint each.
    assert_eq!(get_locations(&b, Piece::O).len(), 36);
}

#[test]
fn every_location_rests_on_the_floor_of_empty_board() {
    let b = Board::new();
    for p in ALL {
        for s in get_locations(&b, p) {
            assert!(!s.intersects(&b));
            assert_eq!(s.drop(&b), s);
        }
    }
}

#[test]
fn paths_replay_to_their_placement() {
    let mut b = Board::new();
    b = b.with_placement(Piece::O, 21, 0, Rotation::Normal);
    b = b.with_placement(Piece::I, 22, 5, Rotation::Normal);
    for board in [Board::new(), b] {
        for p in ALL {
            let found = get_locations_with_finesse(&board, p);
            assert!(!found.is_empty());
            for (rest, path) in found.iter() {
                assert_eq!(*path.last().unwrap(), Movement::HardDrop);
                assert_eq!(replay(&board, p, path), *rest);
            }
        }
    }
}

#[test]
fn paths_are_no_longer_than_a_brute_force_search() {
    // Every input sequence of up to three inputs followed by a hard drop, on the empty board:
    // the shortest one to each spot is never shorter than the path found.
    let b = Board::new();
    let moves = [
        Movement::Left,
        Movement::DasLeft,
        Movement::Right,
        Movement::DasRight,
        Movement::RotateCw,
        Movement::RotateCcw,
        Movement::Rotate180,
    ];
    for p in [Piece::T, Piece::L, Piece::I] {
        let found = get_locations_with_finesse(&b, p);
        let mut seqs: Vec<Vec<Movement>> = vec![vec![]];
        for _ in 0..3 {
            let mut next = Vec::new();
            for s in seqs.iter() {
                for &m in moves.iter() {
                    let mut t = s.clone();
                    t.push(m);
                    next.push(t);
                }
            }
            seqs.extend(next.into_iter());
        }
        for s in seqs.iter() {
            let mut full = s.clone();
            full.push(Movement::HardDrop);
            let rest = replay(&b, p, &full);
            let entry = found
                .iter()
                .find(|(r, _)| *r == rest || *r == rest.symmetrical() || r.symmetrical() == rest);
            let (_, path) = entry.expect("every reached spot is listed");
            assert!(path.len() <= full.len());
        }
    }
}

#[test]
fn spawn_blocked_gives_nothing() {
    let mut b = Board::new();
    b.set(1, 4, Some(Piece::Z));
    assert!(get_locations(&b, Piece::T).is_empty());
    assert!(get_locations_with_finesse(&b, Piece::T).is_empty());
}

#[test]
fn finesse_faults_counted_against_path() {
    let b = Board::new();
    // The square dropped straight from spawn takes one input.
    assert_eq!(get_finesse_faults(&b, Piece::O, 1, 21, 4, Rotation::Normal), (0, None));
    assert_eq!(
        get_finesse_faults(&b, Piece::O, 3, 21, 4, Rotation::Normal),
        (2, Some(vec![Movement::HardDrop]))
    );
    // The T to the left wall: slide left, drop.
    assert_eq!(
        get_finesse_faults(&b, Piece::T, 4, 22, 1, Rotation::Normal),
        (2, Some(vec![Movement::DasLeft, Movement::HardDrop]))
    );
}

#[test]
fn finesse_on_unreachable_spot_is_zero() {
    let b = Board::new();
    assert_eq!(get_finesse_faults(&b, Piece::T, 9, 3, 4, Rotation::Normal), (0, None));
}

#[test]
fn finesse_accepts_the_other_encoding() {
    let b = Board::new();
    // The bar flat at the floor: Normal at column 4 and Flip at column 5 are one spot.
    let a = get_finesse_faults(&b, Piece::I, 5, 22, 4, Rotation::Normal);
    let c = get_finesse_faults(&b, Piece::I, 5, 22, 5, Rotation::Flip);
    assert_eq!(a, c);
    assert_eq!(a, (4, Some(vec![Movement::HardDrop])));
}
