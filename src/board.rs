use vstd::prelude::*;

use crate::piece::{offsets, Piece, Rotation};

verus! {

/// Rows of the well, the three hidden rows above the visible area included.
pub const ROWS: usize = 23;

/// Columns of the well.
pub const COLS: usize = 10;

/// Cells of the well.
pub const CELLS: usize = 230;

/// One cell of the well, with the kind of piece that fills it, if any.
#[derive(Clone, Copy, Debug, PartialEq, Eq, Hash, Structural)]
pub struct Tile {
    pub piece: Option<Piece>,
}

impl Tile {
    pub fn new() -> (t: Tile)
        ensures
            t.piece is None,
    {
        Tile { piece: None }
    }

    pub fn from(piece: Piece) -> (t: Tile)
        ensures
            t.piece == Some(piece),
    {
        Tile { piece: Some(piece) }
    }
}

/// The well: `ROWS` rows of `COLS` cells, stored row by row, row 0 at the top.
#[derive(Clone, Copy, Debug, PartialEq, Eq, Hash)]
pub struct Board {
    pub tiles: [Tile; 230],
}

pub open spec fn in_bounds(r: int, c: int) -> bool {
    0 <= r < ROWS && 0 <= c < COLS
}

/// One row of a board, as the pieces in its cells.
pub type Row = Seq<Option<Piece>>;

/// Row and column of the `k`-th cell of a piece whose pivot is at (`row`, `col`).
pub open spec fn cell_row(p: Piece, rot: Rotation, row: int, k: int) -> int {
    row + offsets(p, rot)[k].0
}

pub open spec fn cell_col(p: Piece, rot: Rotation, col: int, k: int) -> int {
    col + offsets(p, rot)[k].1
}

/// Whether a piece with pivot (`row`, `col`) covers cell (`r`, `c`).
pub open spec fn covers(p: Piece, rot: Rotation, row: int, col: int, r: int, c: int) -> bool {
    exists|k: int| 0 <= k < 4 && cell_row(p, rot, row, k) == r && cell_col(p, rot, col, k) == c
}

/// Whether all four cells of a piece with pivot (`row`, `col`) lie in the well.
pub open spec fn fits_in_well(p: Piece, rot: Rotation, row: int, col: int) -> bool {
    forall|k: int|
        0 <= k < 4 ==> in_bounds(#[trigger] cell_row(p, rot, row, k), cell_col(p, rot, col, k))
}

impl Board {
    /// What fills cell (`r`, `c`).
    pub open spec fn cell(self, r: int, c: int) -> Option<Piece> {
        self.tiles@[r * 10 + c].piece
    }

    pub open spec fn filled(self, r: int, c: int) -> bool {
        self.cell(r, c) is Some
    }

    /// Row `r` as a sequence of cells.
    pub open spec fn row(self, r: int) -> Row {
        Seq::new(10, |c: int| self.cell(r, c))
    }

    pub open spec fn row_full(self, r: int) -> bool {
        forall|c: int| 0 <= c < COLS ==> #[trigger] self.filled(r, c)
    }

    pub open spec fn is_clear(self) -> bool {
        forall|r: int, c: int| in_bounds(r, c) ==> #[trigger] self.cell(r, c) is None
    }

    /// The rows at and below `r` that are not full, top to bottom.
    pub open spec fn kept_from(self, r: int) -> Seq<Row>
        decreases ROWS - r,
    {
        if r >= ROWS || r < 0 {
            Seq::empty()
        } else if self.row_full(r) {
            self.kept_from(r + 1)
        } else {
            seq![self.row(r)] + self.kept_from(r + 1)
        }
    }

    /// The board after full rows are removed and the rest fall down.
    pub open spec fn compacted_cell(self, r: int, c: int) -> Option<Piece> {
        let kept = self.kept_from(0);
        let top = ROWS - kept.len();
        if r < top {
            None
        } else {
            kept[r - top][c]
        }
    }

    pub fn new() -> (b: Board)
        ensures
            b.is_clear(),
    {
        Board { tiles: [Tile { piece: None }; 230] }
    }

    pub fn get(&self, r: usize, c: usize) -> (t: Option<Piece>)
        requires
            in_bounds(r as int, c as int),
        ensures
            t == self.cell(r as int, c as int),
    {
        self.tiles[r * 10 + c].piece
    }

    pub fn is_filled(&self, r: usize, c: usize) -> (f: bool)
        requires
            in_bounds(r as int, c as int),
        ensures
            f == self.filled(r as int, c as int),
    {
        self.tiles[r * 10 + c].piece.is_some()
    }

    pub fn set(&mut self, r: usize, c: usize, t: Option<Piece>)
        requires
            in_bounds(r as int, c as int),
        ensures
            forall|i: int, j: int|
                in_bounds(i, j) ==> #[trigger] final(self).cell(i, j) == if i == r && j == c {
                    t
                } else {
                    old(self).cell(i, j)
                },
    {
        self.tiles[r * 10 + c] = Tile { piece: t };
        proof {
            assert forall|i: int, j: int| in_bounds(i, j) implies #[trigger] self.cell(i, j) == if i
                == r && j == c {
                t
            } else {
                old(self).cell(i, j)
            } by {
                if i != r || j != c {
                    assert(i * 10 + j != r * 10 + c);
                }
            }
        }
    }

    /// True iff no cell of the well is filled.
    pub fn is_empty(&self) -> (e: bool)
        ensures
            e == self.is_clear(),
    {
        let mut r: usize = 0;
        while r < ROWS
            invariant
                r <= ROWS,
                forall|i: int, j: int| 0 <= i < r && 0 <= j < COLS ==> #[trigger] self.cell(i, j) is None,
            decreases ROWS - r,
        {
            let mut c: usize = 0;
            while c < COLS
                invariant
                    r < ROWS,
                    c <= COLS,
                    forall|i: int, j: int|
                        0 <= i < r && 0 <= j < COLS ==> #[trigger] self.cell(i, j) is None,
                    forall|j: int| 0 <= j < c ==> #[trigger] self.cell(r as int, j) is None,
                decreases COLS - c,
            {
                if self.is_filled(r, c) {
                    return false;
                }
                c += 1;
            }
            r += 1;
        }
        true
    }

    /// A copy of the board with `piece` stamped at pivot (`row`, `col`) in `rotation`.
    pub fn with_placement(&self, piece: Piece, row: u8, col: u8, rotation: Rotation) -> (b: Board)
        requires
            fits_in_well(piece, rotation, row as int, col as int),
        ensures
            forall|r: int, c: int|
                in_bounds(r, c) ==> #[trigger] b.cell(r, c) == if covers(
                    piece,
                    rotation,
                    row as int,
                    col as int,
                    r,
                    c,
                ) {
                    Some(piece)
                } else {
                    self.cell(r, c)
                },
    {
        let mut b = *self;
        let offs = piece.offset_map(rotation);
        let mut k: usize = 0;
        while k < 4
            invariant
                k <= 4,
                offs@ == offsets(piece, rotation),
                fits_in_well(piece, rotation, row as int, col as int),
                forall|r: int, c: int|
                    in_bounds(r, c) ==> #[trigger] b.cell(r, c) == if exists|j: int|
                        0 <= j < k && cell_row(piece, rotation, row as int, j) == r && cell_col(
                            piece,
                            rotation,
                            col as int,
                            j,
                        ) == c {
                        Some(piece)
                    } else {
                        self.cell(r, c)
                    },
            decreases 4 - k,
        {
            assert(in_bounds(
                cell_row(piece, rotation, row as int, k as int),
                cell_col(piece, rotation, col as int, k as int),
            ));
            let (dr, dc) = offs[k];
            let r = (row as i16 + dr as i16) as usize;
            let c = (col as i16 + dc as i16) as usize;
            b.set(r, c, Some(piece));
            k += 1;
        }
        b
    }

    /// Removes every full row, lets the rows above fall, and returns how many were removed.
    pub fn clear_lines(&mut self) -> (n: u8)
        ensures
            n as int == ROWS - old(self).kept_from(0).len(),
            forall|r: int, c: int|
                in_bounds(r, c) ==> #[trigger] final(self).cell(r, c) == old(self).compacted_cell(
                    r,
                    c,
                ),
    {
        let src = *self;
        let mut dst = Board::new();
        // Rows `w..ROWS` of `dst` hold the rows kept from `r` down; at the end `w` rows were cleared.
        let mut w: usize = ROWS;
        let mut r: usize = ROWS;
        while r > 0
            invariant
                r <= ROWS,
                w + src.kept_from(r as int).len() == ROWS,
                forall|i: int|
                    0 <= i < src.kept_from(r as int).len() ==> #[trigger] src.kept_from(
                        r as int,
                    )[i].len() == 10,
                forall|i: int, c: int|
                    0 <= i < w && 0 <= c < COLS ==> #[trigger] dst.cell(i, c) is None,
                forall|i: int, c: int|
                    w <= i < ROWS && 0 <= c < COLS ==> #[trigger] dst.cell(i, c) == src.kept_from(
                        r as int,
                    )[i - w][c],
            decreases r,
        {
            r -= 1;
            proof {
                lemma_kept_len(src, r as int);
                lemma_kept_rows(src, r as int);
            }
            let mut full = true;
            let mut c: usize = 0;
            while c < COLS
                invariant
                    r < ROWS,
                    c <= COLS,
                    full <==> forall|j: int| 0 <= j < c ==> #[trigger] src.filled(r as int, j),
                decreases COLS - c,
            {
                if !src.is_filled(r, c) {
                    full = false;
                }
                c += 1;
            }
            if !full {
                w -= 1;
                let mut c: usize = 0;
                while c < COLS
                    invariant
                        r < ROWS,
                        w < ROWS,
                        c <= COLS,
                        !src.row_full(r as int),
                        forall|i: int, j: int|
                            0 <= i < w && 0 <= j < COLS ==> #[trigger] dst.cell(i, j) is None,
                        forall|i: int, j: int|
                            w < i < ROWS && 0 <= j < COLS ==> #[trigger] dst.cell(i, j)
                                == src.kept_from(r as int + 1)[i - w - 1][j],
                        forall|j: int| 0 <= j < c ==> #[trigger] dst.cell(w as int, j) == src.cell(
                            r as int,
                            j,
                        ),
                        forall|j: int| c <= j < COLS ==> #[trigger] dst.cell(w as int, j) is None,
                    decreases COLS - c,
                {
                    let t = src.get(r, c);
                    dst.set(w, c, t);
                    c += 1;
                }
                proof {
                    let k = src.kept_from(r as int);
                    let k1 = src.kept_from(r as int + 1);
                    assert(k == seq![src.row(r as int)] + k1);
                    assert forall|i: int, j: int|
                        w <= i < ROWS && 0 <= j < COLS implies #[trigger] dst.cell(i, j) == k[i
                        - w][j] by {
                        if i == w {
                            assert(k[0] == src.row(r as int));
                        } else {
                            assert(k[i - w] == k1[i - w - 1]);
                        }
                    }
                }
            } else {
                assert(src.row_full(r as int));
            }
        }
        proof {
            lemma_kept_len(src, 0);
            assert forall|i: int, c: int| in_bounds(i, c) implies #[trigger] dst.cell(i, c)
                == src.compacted_cell(i, c) by {
                if i >= w {
                    let kr = src.kept_from(0)[i - w];
                    assert(kr.len() == 10) by {
                        lemma_kept_rows(src, 0);
                    }
                }
            }
        }
        *self = dst;
        w as u8
    }
}

/// Two boards that agree on every cell are the same board.
pub proof fn lemma_cells_equal(a: Board, b: Board)
    requires
        forall|r: int, c: int| in_bounds(r, c) ==> #[trigger] a.cell(r, c) == b.cell(r, c),
    ensures
        a == b,
{
    broadcast use vstd::array::group_array_axioms;

    assert forall|i: int| 0 <= i < 230 implies a.tiles[i] == b.tiles[i] by {
        let r = i / 10;
        let c = i % 10;
        assert(in_bounds(r, c));
        assert(r * 10 + c == i);
        assert(a.cell(r, c) == b.cell(r, c));
        assert(a.tiles@[i].piece == b.tiles@[i].piece);
    }
    assert(a.tiles =~= b.tiles);
}

/// Stamping one placement on one board gives one board.
pub proof fn lemma_stamp_unique(before: Board, m1: Board, m2: Board, p: Piece, rot: Rotation, row: int, col: int)
    requires
        forall|r: int, c: int|
            in_bounds(r, c) ==> #[trigger] m1.cell(r, c) == if covers(p, rot, row, col, r, c) {
                Some(p)
            } else {
                before.cell(r, c)
            },
        forall|r: int, c: int|
            in_bounds(r, c) ==> #[trigger] m2.cell(r, c) == if covers(p, rot, row, col, r, c) {
                Some(p)
            } else {
                before.cell(r, c)
            },
    ensures
        m1 == m2,
{
    lemma_cells_equal(m1, m2);
}

pub proof fn lemma_kept_len(b: Board, r: int)
    ensures
        b.kept_from(r).len() <= if r < 0 { 0 } else if r > ROWS { 0 } else { ROWS - r },
    decreases ROWS - r,
{
    if r >= 0 && r < ROWS {
        lemma_kept_len(b, r + 1);
    }
}

pub proof fn lemma_kept_rows(b: Board, r: int)
    ensures
        forall|i: int| 0 <= i < b.kept_from(r).len() ==> #[trigger] b.kept_from(r)[i].len() == 10,
    decreases ROWS - r,
{
    if r >= 0 && r < ROWS {
        lemma_kept_rows(b, r + 1);
        let k1 = b.kept_from(r + 1);
        if !b.row_full(r) {
            let k = b.kept_from(r);
            assert forall|i: int| 0 <= i < k.len() implies #[trigger] k[i].len() == 10 by {
                if i > 0 {
                    assert(k[i] == k1[i - 1]);
                }
            }
        }
    }
}

} // verus!
