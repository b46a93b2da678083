use tetris::board::Board;
use tetris::dsu::Dsu;
use tetris::pc::Pc;
use tetris::pc_state::PcState;
use tetris::piece::{Piece, Rotation};
use tetris::placement::Placement;
use tetris::solver::{dedup_pcs, find_pcs_helper, PcSearch, SearchAction, WINDOW};

fn row_with_gaps(gaps: &[usize]) -> Board {
    let mut b = Board::new();
    for c in 0..10 {
        if !gaps.contains(&c) {
            b.set(22, c, Some(Piece::Z));
        }
    }
    b
}

/// Plays the route on the board and reports whether the bottom rows end up cleared.
fn replays_to_clear(pc: &Pc) -> bool {
    let mut board = pc.board;
    for pl in pc.placements.iter() {
        if let Placement::Place { piece, row, col, rotation } = *pl {
            board = board.with_placement(piece, row, col, rotation);
            board.clear_lines();
        }
    }
    board.is_empty()
}

#[test]
fn dsu_unions_and_finds() {
    let mut d = Dsu::new(5);
    for i in 0..5 {
        assert_eq!(d.find(i), i);
    }
    d.union(0, 1);
    d.union(3, 4);
    assert_eq!(d.find(1), 0);
    assert_eq!(d.find(4), 3);
    d.union(1, 4);
    assert_eq!(d.find(4), d.find(0));
    assert_eq!(d.find(3), 0);
    assert_eq!(d.find(2), 2);
}

#[test]
fn region_check_flags_three_and_five() {
    // Bottom row: columns 0..3 and 4..9 empty, split by column 3; 3 + 5 = 8 empty cells.
    let b = row_with_gaps(&[0, 1, 2, 4, 5, 6, 7, 8]);
    let s = PcState::from(b, Some(Piece::I), None, 1);
    let queue = vec![Piece::I, Piece::I];
    assert!(s.fails_early(&queue));
}

#[test]
fn region_check_passes_four_and_four() {
    let b = row_with_gaps(&[0, 1, 2, 3, 5, 6, 7, 8]);
    let s = PcState::from(b, Some(Piece::I), None, 1);
    let queue = vec![Piece::I, Piece::I];
    assert!(!s.fails_early(&queue));
}

#[test]
fn fails_early_on_each_count() {
    let empty = Board::new();
    // Filled cell above the band.
    let mut high = Board::new();
    high.set(10, 0, Some(Piece::T));
    assert!(PcState::from(high, Some(Piece::I), None, 4).fails_early(&vec![Piece::I; 10]));
    // Ten empty cells are not a multiple of four.
    assert!(PcState::from(empty, Some(Piece::I), None, 1).fails_early(&vec![Piece::I; 10]));
    // Forty empty cells but six pieces.
    assert!(PcState::from(empty, Some(Piece::I), None, 4).fails_early(&vec![Piece::I; 5]));
    // Ten pieces are enough.
    assert!(!PcState::from(empty, Some(Piece::I), None, 4).fails_early(&vec![Piece::I; 9]));
    // A hold counts too.
    assert!(!PcState::from(empty, Some(Piece::I), Some(Piece::O), 4).fails_early(&vec![Piece::I; 8]));
}

#[test]
fn solved_band() {
    let mut b = Board::new();
    for c in 0..10 {
        b.set(22, c, Some(Piece::I));
    }
    assert!(PcState::from(b, None, None, 1).is_solved());
    assert!(!PcState::from(b, None, None, 2).is_solved());
    assert!(PcState::from(Board::new(), None, None, 0).is_solved());
    assert!(!PcState::from(b, None, None, 1).fails_early(&vec![]));
}

#[test]
fn node_successors_end_with_hold() {
    let s = PcState::from(Board::new(), Some(Piece::O), None, 2);
    let queue = vec![Piece::I, Piece::I, Piece::I, Piece::I];
    let succ = s.successors(&queue);
    let (last, pl) = succ.last().unwrap();
    assert_eq!(*pl, Placement::Hold);
    assert_eq!(last.piece, Some(Piece::I));
    assert_eq!(last.hold, Some(Piece::O));
    assert_eq!(last.queue_used, 1);
    for (next, pl) in succ.iter() {
        if let Placement::Place { piece, .. } = pl {
            assert_eq!(*piece, Piece::O);
            assert_eq!(next.queue_used, 1);
            assert_eq!(next.piece, Some(Piece::I));
        }
    }
    // The square must leave an even number of columns on each side: five columns, four
    // orientation labels each.
    assert_eq!(succ.len(), 1 + 5 * 4);
}

#[test]
fn no_active_piece_no_successors() {
    let s = PcState::from(Board::new(), None, Some(Piece::O), 2);
    assert!(s.successors(&vec![Piece::I]).is_empty());
}

#[test]
fn swap_with_held_piece() {
    let s = PcState::from(Board::new(), Some(Piece::T), Some(Piece::O), 2);
    let succ = s.successors(&vec![Piece::I]);
    let (last, pl) = succ.last().unwrap();
    assert_eq!(*pl, Placement::Hold);
    assert_eq!(last.piece, Some(Piece::O));
    assert_eq!(last.hold, Some(Piece::T));
    assert_eq!(last.queue_used, 0);
}

#[test]
fn four_row_clear_with_squares_and_bars() {
    // Two squares stacked in the left two columns and eight upright bars.
    let mut queue = vec![Piece::O];
    for _ in 0..8 {
        queue.push(Piece::I);
    }
    let mut search = PcSearch::new(Board::new(), Some(Piece::O), None, &queue, queue.len());
    let mut nodes = 0;
    while search.found_count() == 0 && !search.is_done() && nodes < 200_000 {
        search.step();
        nodes += 1;
    }
    let sols = search.take_solutions();
    assert!(!sols.is_empty());
    for pc in sols.iter() {
        assert!(replays_to_clear(pc));
    }
    assert_eq!(sols[0].height(), 4);
}

#[test]
fn two_row_clear_found_and_deterministic() {
    let queue = vec![Piece::O, Piece::I, Piece::I, Piece::I, Piece::I];
    let first = find_pcs_helper(Board::new(), Some(Piece::O), None, &queue, WINDOW, 1_000_000)
        .expect("search finishes");
    let second = find_pcs_helper(Board::new(), Some(Piece::O), None, &queue, WINDOW, 1_000_000)
        .expect("search finishes");
    assert!(!first.is_empty());
    assert_eq!(first.len(), second.len());
    for (a, b) in first.iter().zip(second.iter()) {
        assert_eq!(a.placements, b.placements);
    }
    for pc in first.iter() {
        assert!(replays_to_clear(pc));
        assert_eq!(pc.height(), 2);
    }
}

#[test]
fn nothing_to_search_when_all_targets_fail() {
    // A filled cell high up rules out every target height at once.
    let mut b = Board::new();
    b.set(5, 5, Some(Piece::T));
    let search = PcSearch::new(b, Some(Piece::O), None, &vec![Piece::I; 5], WINDOW);
    assert!(search.is_done());
    let found = find_pcs_helper(b, Some(Piece::O), None, &vec![Piece::I; 5], WINDOW, 10);
    assert!(found.expect("nothing to search").is_empty());
}

#[test]
fn cancelled_search_delivers_nothing() {
    let queue = vec![Piece::O, Piece::I, Piece::I, Piece::I, Piece::I];
    let mut search = PcSearch::new(Board::new(), Some(Piece::O), None, &queue, WINDOW);
    assert!(matches!(search.advance(true), SearchAction::Abort));
    assert_eq!(search.found_count(), 0);
}

#[test]
fn finished_search_delivers_its_routes() {
    let queue = vec![Piece::O, Piece::I, Piece::I, Piece::I, Piece::I];
    let mut search = PcSearch::new(Board::new(), Some(Piece::O), None, &queue, WINDOW);
    loop {
        match search.advance(false) {
            SearchAction::Continue => {}
            SearchAction::Deliver(sols) => {
                assert!(!sols.is_empty());
                break;
            }
            SearchAction::Abort => panic!("not cancelled"),
        }
    }
}

#[test]
fn route_height_counts_cells() {
    let pls = vec![Placement::place(Piece::I, 22, 4, Rotation::Normal); 10];
    let pc = Pc::new(Board::new(), pls);
    assert_eq!(pc.height(), 4);
    let pc = Pc::new(Board::new(), vec![Placement::Hold, Placement::place(Piece::O, 21, 0, Rotation::Normal)]);
    assert_eq!(pc.height(), 0);
}

#[test]
fn reordered_routes_draw_one_picture() {
    let a = Pc::new(
        Board::new(),
        vec![
            Placement::place(Piece::O, 21, 0, Rotation::Normal),
            Placement::place(Piece::O, 21, 2, Rotation::Normal),
        ],
    );
    let b = Pc::new(
        Board::new(),
        vec![
            Placement::Hold,
            Placement::place(Piece::O, 21, 2, Rotation::Normal),
            Placement::place(Piece::O, 21, 0, Rotation::Normal),
        ],
    );
    let c = Pc::new(
        Board::new(),
        vec![
            Placement::place(Piece::O, 21, 0, Rotation::Normal),
            Placement::place(Piece::O, 21, 4, Rotation::Normal),
        ],
    );
    assert!(a.same_result(&b));
    assert!(!a.same_result(&c));
    let kept = dedup_pcs(vec![a, b, c]);
    assert_eq!(kept.len(), 2);
    assert_eq!(kept[0].placements.len(), 2);
    assert_eq!(kept[1].placements[1], Placement::place(Piece::O, 21, 4, Rotation::Normal));
}

#[test]
fn picture_puts_pieces_back_in_their_rows() {
    // The bottom row clears first; the two bars placed after it land on the floor but were
    // drawn one row higher.
    let pc = Pc::new(
        Board::new(),
        vec![
            Placement::place(Piece::I, 22, 1, Rotation::Normal),
            Placement::place(Piece::I, 22, 5, Rotation::Normal),
            Placement::place(Piece::O, 21, 8, Rotation::Normal),
            Placement::place(Piece::I, 22, 1, Rotation::Normal),
            Placement::place(Piece::I, 22, 5, Rotation::Normal),
        ],
    );
    let pic = pc.get_final_board();
    for c in 0..8 {
        assert_eq!(pic.get(21, c), Some(Piece::I));
        assert_eq!(pic.get(22, c), Some(Piece::I));
    }
    for r in 21..23 {
        for c in 8..10 {
            assert_eq!(pic.get(r, c), Some(Piece::O));
        }
    }
    for r in 0..21 {
        for c in 0..10 {
            assert_eq!(pic.get(r, c), None);
        }
    }
    assert!(replays_to_clear(&pc));
}

#[test]
fn region_check_across_rows() {
    // Rows 20..23 full except a pocket of three in row 20 and an L of five below it.
    let mut b = Board::new();
    for r in 20..23 {
        for c in 0..10 {
            b.set(r, c, Some(Piece::I));
        }
    }
    for &(r, c) in [(20, 0), (20, 1), (20, 2), (21, 3), (22, 0), (22, 1), (22, 2), (22, 3)].iter() {
        b.set(r, c, None);
    }
    let s = PcState::from(b, Some(Piece::I), None, 3);
    assert!(s.fails_early(&vec![Piece::I, Piece::I]));
}
