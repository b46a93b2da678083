use tetris::bag::{gen_bag, get_next_piece, init_queue};
use tetris::board::Board;
use tetris::key_action::KeyAction;
use tetris::piece::{Piece, Rotation};
use tetris::placement::Placement;
use tetris::setup::{add_mirrors, find_setups, PcSetup, SetupState};
use tetris::stats::Stats;

use rand::rngs::StdRng;
use rand::SeedableRng;

fn two_squares() -> PcSetup {
    PcSetup::new(
        "Two squares",
        vec![
            Placement::place(Piece::O, 21, 0, Rotation::Normal),
            Placement::place(Piece::O, 21, 2, Rotation::Normal),
        ],
    )
}

#[test]
fn short_of_a_kind_is_not_buildable() {
    let setup = two_squares();
    let b = Board::new();
    assert!(!setup.can_build(&b, &vec![Piece::I, Piece::T], Some(Piece::O), None, 0, 1));
    assert!(!setup.can_build(&b, &vec![Piece::I, Piece::T], None, Some(Piece::O), 0, 1));
}

#[test]
fn enough_squares_is_buildable() {
    let setup = two_squares();
    let b = Board::new();
    assert!(setup.can_build(&b, &vec![Piece::O], Some(Piece::O), None, 0, 1));
    // Through the hold: the square is held while the bar is not needed.
    assert!(setup.can_build(&b, &vec![Piece::O], Some(Piece::I), Some(Piece::O), 0, 1));
    assert!(!setup.can_build(&b, &vec![Piece::O], Some(Piece::I), Some(Piece::O), 1, 1));
}

#[test]
fn holds_per_turn_is_a_setting() {
    let setup = PcSetup::new("One square", vec![Placement::place(Piece::O, 21, 0, Rotation::Normal)]);
    let b = Board::new();
    let q = vec![Piece::O];
    // The square comes after the bar: one hold reaches it.
    assert!(setup.can_build(&b, &q, Some(Piece::I), None, 0, 1));
    // No hold left this turn.
    assert!(!setup.can_build(&b, &q, Some(Piece::I), None, 1, 1));
    assert!(setup.can_build(&b, &q, Some(Piece::I), None, 1, 2));
    // More holds used than allowed.
    assert!(!setup.can_build(&b, &q, Some(Piece::O), None, 2, 1));
}

#[test]
fn partly_built_or_polluted_is_not_buildable() {
    let setup = two_squares();
    let mut part = Board::new();
    part.set(22, 0, Some(Piece::O));
    assert!(!setup.can_build(&part, &vec![Piece::O], Some(Piece::O), None, 0, 1));
    let mut junk = Board::new();
    junk.set(22, 9, Some(Piece::T));
    assert!(!setup.can_build(&junk, &vec![Piece::O], Some(Piece::O), None, 0, 1));
}

#[test]
fn half_built_skeleton_continues() {
    let setup = two_squares();
    let b = Board::new().with_placement(Piece::O, 21, 0, Rotation::Normal);
    let (rest, filled) = setup.get_remaining_placements(&b);
    assert_eq!(rest, vec![Placement::place(Piece::O, 21, 2, Rotation::Normal)]);
    assert_eq!(filled, 4);
    assert!(setup.can_build(&b, &vec![], Some(Piece::O), None, 0, 1));
    // Fully built: nothing to suggest.
    let done = b.with_placement(Piece::O, 21, 2, Rotation::Normal);
    assert!(!setup.can_build(&done, &vec![], Some(Piece::O), None, 0, 1));
}

#[test]
fn unreachable_placement_is_not_buildable() {
    // The last square sits in a pocket under a square and beside an upright bar.
    let setup = PcSetup::new(
        "Pocket",
        vec![
            Placement::place(Piece::O, 19, 0, Rotation::Normal),
            Placement::place(Piece::I, 20, 2, Rotation::Cw),
            Placement::place(Piece::O, 21, 0, Rotation::Normal),
        ],
    );
    let b = Board::new()
        .with_placement(Piece::O, 19, 0, Rotation::Normal)
        .with_placement(Piece::I, 20, 2, Rotation::Cw);
    let (rest, filled) = setup.get_remaining_placements(&b);
    assert_eq!(rest.len(), 1);
    assert_eq!(filled, 8);
    assert!(!setup.can_build(&b, &vec![Piece::O], Some(Piece::O), None, 0, 2));
}

#[test]
fn final_board_stamps_every_piece() {
    let setup = two_squares();
    let b = setup.get_final_board(&Board::new());
    for c in 0..4 {
        assert_eq!(b.get(21, c), Some(Piece::O));
        assert_eq!(b.get(22, c), Some(Piece::O));
    }
    assert_eq!(b.get(22, 4), None);
}

#[test]
fn mirrors_reflect_columns_and_kinds() {
    let mut setups = vec![PcSetup::new(
        "Mixed",
        vec![
            Placement::place(Piece::O, 21, 0, Rotation::Normal),
            Placement::place(Piece::J, 21, 3, Rotation::Cw),
            Placement::place(Piece::I, 18, 4, Rotation::Normal),
        ],
    )];
    add_mirrors(&mut setups);
    assert_eq!(setups.len(), 2);
    assert!(!setups[0].mirrored);
    assert!(setups[1].mirrored);
    assert_eq!(setups[1].name, "Mixed");
    assert_eq!(
        setups[1].placements,
        vec![
            Placement::place(Piece::O, 21, 8, Rotation::Normal),
            Placement::place(Piece::L, 21, 6, Rotation::Ccw),
            Placement::place(Piece::I, 18, 5, Rotation::Flip),
        ]
    );
    // The mirrored picture is the reflected picture.
    let a = setups[0].get_final_board(&Board::new());
    let m = setups[1].get_final_board(&Board::new());
    for r in 0..23 {
        for c in 0..10 {
            assert_eq!(a.is_filled(r, c), m.is_filled(r, 9 - c));
        }
    }
}

#[test]
fn setup_state_successors_place_or_hold() {
    let state = SetupState::new(
        Board::new(),
        vec![Placement::place(Piece::O, 21, 0, Rotation::Normal)],
        vec![Piece::T],
        Some(Piece::O),
        None,
        0,
    );
    let succ = state.successors(1);
    assert_eq!(succ.len(), 2);
    assert!(succ[0].placements.is_empty());
    assert_eq!(succ[0].piece, Some(Piece::T));
    assert_eq!(succ[1].hold, Some(Piece::O));
    assert_eq!(succ[1].holds, 1);
    // No second hold in the same turn.
    assert!(succ[1].successors(1).is_empty());
}

#[test]
fn bag_holds_each_kind_once() {
    let mut rng = StdRng::seed_from_u64(100);
    for _ in 0..20 {
        let mut bag = gen_bag(&mut rng);
        assert_eq!(bag.len(), 7);
        bag.sort_by_key(|p| *p as u8);
        assert_eq!(bag, vec![Piece::I, Piece::J, Piece::L, Piece::O, Piece::S, Piece::T, Piece::Z]);
    }
}

#[test]
fn queue_refills_from_bag() {
    let mut rng = StdRng::seed_from_u64(7);
    let (mut queue, mut bag) = init_queue(&mut rng);
    assert_eq!(queue.len(), 5);
    assert_eq!(bag.len(), 2);
    let front = queue[0];
    let next = bag[0];
    assert_eq!(get_next_piece(&mut queue, &mut bag, &mut rng), front);
    assert_eq!(queue.len(), 5);
    assert_eq!(queue[4], next);
    assert_eq!(bag.len(), 1);
    get_next_piece(&mut queue, &mut bag, &mut rng);
    get_next_piece(&mut queue, &mut bag, &mut rng);
    assert_eq!(bag.len(), 6);
}

#[test]
fn stats_start_at_zero() {
    let s = Stats::new();
    assert_eq!((s.inputs, s.pieces, s.lines, s.faults), (0, 0, 0, 0));
}

#[test]
fn every_key_action_listed() {
    let all = KeyAction::all();
    assert_eq!(all.len(), 10);
    assert!(all.contains(&KeyAction::Undo));
}

#[test]
fn find_setups_lists_buildable_skeletons() {
    let setups = vec![
        two_squares(),
        PcSetup::new("Bar", vec![Placement::place(Piece::I, 22, 1, Rotation::Normal)]),
        PcSetup::new("Square", vec![Placement::place(Piece::O, 21, 8, Rotation::Normal)]),
    ];
    let b = Board::new();
    let q = vec![Piece::O, Piece::T];
    assert_eq!(find_setups(&setups, &b, Some(Piece::O), None, &q, 7, false), vec![0, 2]);
    // Only the active piece is at hand.
    assert_eq!(find_setups(&setups, &b, Some(Piece::O), None, &q, 1, false), vec![2]);
    // The held bar comes right after the active piece.
    assert_eq!(find_setups(&setups, &b, Some(Piece::T), Some(Piece::I), &q, 2, false), vec![1]);
}
