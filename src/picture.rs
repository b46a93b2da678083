use vstd::prelude::*;

use crate::board::{covers, fits_in_well, in_bounds, Board};
use crate::piece::{Piece, Rotation};
use crate::placement::Placement;

verus! {

/// The cells of a well, row by row.
pub type Cells = Seq<Option<Piece>>;

pub open spec fn cells_of(b: Board) -> Cells {
    Seq::new(230, |i: int| b.tiles@[i].piece)
}

pub open spec fn row_full_v(v: Cells, r: int) -> bool {
    forall|c: int| 0 <= c < 10 ==> (#[trigger] v[r * 10 + c]) is Some
}

/// Indices of the rows at and below `r` that are not full, top to bottom.
pub open spec fn kept_idx(v: Cells, r: int) -> Seq<int>
    decreases 23 - r,
{
    if r >= 23 || r < 0 {
        Seq::empty()
    } else if row_full_v(v, r) {
        kept_idx(v, r + 1)
    } else {
        seq![r] + kept_idx(v, r + 1)
    }
}

/// `v` with piece `p` stamped at pivot (`row`, `col`).
pub open spec fn stamp_v(v: Cells, p: Piece, rot: Rotation, row: int, col: int) -> Cells {
    Seq::new(230, |i: int| if covers(p, rot, row, col, i / 10, i % 10) { Some(p) } else { v[i] })
}

/// `v` with full rows removed and the rest fallen.
pub open spec fn compact_v(v: Cells) -> Cells {
    let k = kept_idx(v, 0);
    let top = 23 - k.len();
    Seq::new(
        230,
        |i: int|
            if i / 10 < top {
                None
            } else {
                v[k[i / 10 - top] * 10 + i % 10]
            },
    )
}

/// Original row of each current row after the rows of `v` that are full are removed; -1 for
/// the new rows at the top.
pub open spec fn remap(v: Cells, map: Seq<int>) -> Seq<int> {
    let k = kept_idx(v, 0);
    let top = 23 - k.len();
    Seq::new(23, |r: int| if r < top { -1 } else { map[k[r - top]] })
}

/// The picture with piece `p` drawn where it lands, in original rows.
pub open spec fn stamp_picture(
    pic: Cells,
    map: Seq<int>,
    p: Piece,
    rot: Rotation,
    row: int,
    col: int,
) -> Cells {
    Seq::new(
        230,
        |i: int|
            if exists|r: int|
                0 <= r < 23 && #[trigger] map[r] >= 0 && map[r] * 10 <= i < map[r] * 10 + 10
                    && covers(p, rot, row, col, r, i - map[r] * 10) {
                Some(p)
            } else {
                pic[i]
            },
    )
}

/// After the placements `pls` from a well with cells `start`: the cells of the well, the
/// original row of each current row, and the picture of every piece in original rows drawn
/// over `start`. A placement that leaves the well is passed over.
pub open spec fn route_picture(start: Cells, pls: Seq<Placement>) -> (Cells, Seq<int>, Cells)
    decreases pls.len(),
{
    if pls.len() == 0 {
        (start, Seq::new(23, |r: int| r), start)
    } else {
        let (v, map, pic) = route_picture(start, pls.drop_last());
        match pls.last() {
            Placement::Place { piece, row, col, rotation } => if fits_in_well(
                piece,
                rotation,
                row as int,
                col as int,
            ) {
                let s = stamp_v(v, piece, rotation, row as int, col as int);
                (
                    compact_v(s),
                    remap(s, map),
                    stamp_picture(pic, map, piece, rotation, row as int, col as int),
                )
            } else {
                (v, map, pic)
            },
            Placement::Hold => (v, map, pic),
        }
    }
}

pub open spec fn map_ok(map: Seq<int>) -> bool {
    &&& map.len() == 23
    &&& forall|r: int| 0 <= r < 23 ==> -1 <= #[trigger] map[r] < 23
}

proof fn lemma_kept_idx(v: Cells, r: int)
    ensures
        kept_idx(v, r).len() <= if 0 <= r <= 23 { 23 - r } else { 0 },
        forall|j: int|
            0 <= j < kept_idx(v, r).len() ==> r <= #[trigger] kept_idx(v, r)[j] < 23 && !row_full_v(
                v,
                kept_idx(v, r)[j],
            ),
    decreases 23 - r,
{
    if 0 <= r < 23 {
        lemma_kept_idx(v, r + 1);
        let k = kept_idx(v, r);
        let k1 = kept_idx(v, r + 1);
        if !row_full_v(v, r) {
            assert forall|j: int| 0 <= j < k.len() implies r <= #[trigger] k[j] < 23 && !row_full_v(v, k[j]) by {
                if j > 0 {
                    assert(k[j] == k1[j - 1]);
                }
            }
        }
    }
}

pub(crate) proof fn lemma_route_map(start: Cells, pls: Seq<Placement>)
    requires
        start.len() == 230,
    ensures
        map_ok(route_picture(start, pls).1),
        route_picture(start, pls).0.len() == 230,
        route_picture(start, pls).2.len() == 230,
    decreases pls.len(),
{
    if pls.len() > 0 {
        lemma_route_map(start, pls.drop_last());
        let (v, map, pic) = route_picture(start, pls.drop_last());
        if let Placement::Place { piece, row, col, rotation } = pls.last() {
            let s = stamp_v(v, piece, rotation, row as int, col as int);
            lemma_kept_idx(s, 0);
        }
    }
}

pub(crate) proof fn lemma_route_len(start: Cells, pls: Seq<Placement>)
    requires
        start.len() == 230,
    ensures
        route_picture(start, pls).2.len() == 230,
{
    lemma_route_map(start, pls);
}

/// Cells of a well as a vector.
fn cells_vec(b: &Board) -> (v: Vec<Option<Piece>>)
    ensures
        v@ == cells_of(*b),
{
    let mut v: Vec<Option<Piece>> = Vec::new();
    let mut i: usize = 0;
    while i < 230
        invariant
            i <= 230,
            v@ == cells_of(*b).subrange(0, i as int),
        decreases 230 - i,
    {
        v.push(b.tiles[i].piece);
        i += 1;
        assert(v@ =~= cells_of(*b).subrange(0, i as int));
    }
    assert(v@ =~= cells_of(*b));
    v
}

/// True iff the four cells of the piece lie in the well.
fn in_well(p: Piece, rot: Rotation, row: u8, col: u8) -> (r: bool)
    ensures
        r == fits_in_well(p, rot, row as int, col as int),
{
    let offs = p.offset_map(rot);
    let mut k: usize = 0;
    while k < 4
        invariant
            k <= 4,
            offs@ == crate::piece::offsets(p, rot),
            forall|j: int|
                0 <= j < k ==> in_bounds(
                    #[trigger] crate::board::cell_row(p, rot, row as int, j),
                    crate::board::cell_col(p, rot, col as int, j),
                ),
        decreases 4 - k,
    {
        let (dr, dc) = offs[k];
        let r = row as i16 + dr as i16;
        let c = col as i16 + dc as i16;
        if r < 0 || r >= 23 || c < 0 || c >= 10 {
            assert(!in_bounds(
                crate::board::cell_row(p, rot, row as int, k as int),
                crate::board::cell_col(p, rot, col as int, k as int),
            ));
            return false;
        }
        k += 1;
    }
    true
}

/// Stamps piece `p` on the cells `v` and, through the row map, on the picture.
fn stamp_both(
    v: &mut Vec<Option<Piece>>,
    pic: &mut Vec<Option<Piece>>,
    map: &Vec<i8>,
    p: Piece,
    rot: Rotation,
    row: u8,
    col: u8,
)
    requires
        old(v)@.len() == 230,
        old(pic)@.len() == 230,
        map@.len() == 23,
        forall|r: int| 0 <= r < 23 ==> -1 <= #[trigger] map@[r] < 23,
        fits_in_well(p, rot, row as int, col as int),
    ensures
        final(v)@ == stamp_v(old(v)@, p, rot, row as int, col as int),
        final(pic)@ == stamp_picture(
            old(pic)@,
            map@.map_values(|m: i8| m as int),
            p,
            rot,
            row as int,
            col as int,
        ),
{
    let ghost v0 = v@;
    let ghost pic0 = pic@;
    let ghost m = map@.map_values(|m: i8| m as int);
    let offs = p.offset_map(rot);
    let mut k: usize = 0;
    while k < 4
        invariant
            k <= 4,
            offs@ == crate::piece::offsets(p, rot),
            fits_in_well(p, rot, row as int, col as int),
            v@.len() == 230,
            pic@.len() == 230,
            map@.len() == 23,
            m == map@.map_values(|m: i8| m as int),
            forall|r: int| 0 <= r < 23 ==> -1 <= #[trigger] map@[r] < 23,
            forall|i: int|
                0 <= i < 230 ==> #[trigger] v@[i] == if exists|j: int|
                    0 <= j < k && crate::board::cell_row(p, rot, row as int, j) == i / 10
                        && crate::board::cell_col(p, rot, col as int, j) == i % 10 {
                    Some(p)
                } else {
                    v0[i]
                },
            forall|i: int|
                0 <= i < 230 ==> #[trigger] pic@[i] == if exists|j: int|
                    0 <= j < k && m[crate::board::cell_row(p, rot, row as int, j)] >= 0 && m[crate::board::cell_row(
                        p,
                        rot,
                        row as int,
                        j,
                    )] * 10 + crate::board::cell_col(p, rot, col as int, j) == i {
                    Some(p)
                } else {
                    pic0[i]
                },
        decreases 4 - k,
    {
        assert(in_bounds(
            crate::board::cell_row(p, rot, row as int, k as int),
            crate::board::cell_col(p, rot, col as int, k as int),
        ));
        let (dr, dc) = offs[k];
        let r = (row as i16 + dr as i16) as usize;
        let c = (col as i16 + dc as i16) as usize;
        v.set(r * 10 + c, Some(p));
        let mr = map[r];
        if mr >= 0 {
            pic.set(mr as usize * 10 + c, Some(p));
        }
        k += 1;
    }
    proof {
        assert forall|i: int| 0 <= i < 230 implies #[trigger] v@[i] == stamp_v(v0, p, rot, row as int, col as int)[i] by {
        }
        assert(v@ =~= stamp_v(v0, p, rot, row as int, col as int));
        assert forall|i: int| 0 <= i < 230 implies #[trigger] pic@[i] == stamp_picture(pic0, m, p, rot, row as int, col as int)[i] by {
            let e1 = exists|j: int|
                0 <= j < 4 && m[crate::board::cell_row(p, rot, row as int, j)] >= 0 && m[crate::board::cell_row(
                    p,
                    rot,
                    row as int,
                    j,
                )] * 10 + crate::board::cell_col(p, rot, col as int, j) == i;
            let e2 = exists|r: int|
                0 <= r < 23 && #[trigger] m[r] >= 0 && m[r] * 10 <= i < m[r] * 10 + 10
                    && covers(p, rot, row as int, col as int, r, i - m[r] * 10);
            if e1 {
                let j = choose|j: int|
                    0 <= j < 4 && m[crate::board::cell_row(p, rot, row as int, j)] >= 0 && m[crate::board::cell_row(
                        p,
                        rot,
                        row as int,
                        j,
                    )] * 10 + crate::board::cell_col(p, rot, col as int, j) == i;
                let r = crate::board::cell_row(p, rot, row as int, j);
                assert(in_bounds(r, crate::board::cell_col(p, rot, col as int, j)));
                assert(covers(p, rot, row as int, col as int, r, i - m[r] * 10));
            }
            if e2 {
                let r = choose|r: int|
                    0 <= r < 23 && #[trigger] m[r] >= 0 && m[r] * 10 <= i < m[r] * 10 + 10
                        && covers(p, rot, row as int, col as int, r, i - m[r] * 10);
                let j = choose|j: int|
                    0 <= j < 4 && crate::board::cell_row(p, rot, row as int, j) == r
                        && crate::board::cell_col(p, rot, col as int, j) == i - m[r] * 10;
                assert(m[crate::board::cell_row(p, rot, row as int, j)] * 10 + crate::board::cell_col(
                    p,
                    rot,
                    col as int,
                    j,
                ) == i);
            }
        }
        assert(pic@ =~= stamp_picture(pic0, m, p, rot, row as int, col as int));
    }
}

proof fn lemma_row_index(r: int, c: int)
    requires
        0 <= c < 10,
    ensures
        (r * 10 + c) / 10 == r,
        (r * 10 + c) % 10 == c,
{
}

/// Removes the full rows of `v`, letting the rest fall, and carries the row map along.
fn compact_both(v: &mut Vec<Option<Piece>>, map: &mut Vec<i8>)
    requires
        old(v)@.len() == 230,
        old(map)@.len() == 23,
        forall|r: int| 0 <= r < 23 ==> -1 <= #[trigger] old(map)@[r] < 23,
    ensures
        final(v)@ == compact_v(old(v)@),
        final(map)@.map_values(|m: i8| m as int) == remap(
            old(v)@,
            old(map)@.map_values(|m: i8| m as int),
        ),
        final(map)@.len() == 23,
        forall|r: int| 0 <= r < 23 ==> -1 <= #[trigger] final(map)@[r] < 23,
{
    let ghost v0 = v@;
    let ghost m0 = map@.map_values(|m: i8| m as int);
    let mut nv: Vec<Option<Piece>> = Vec::new();
    while nv.len() < 230
        invariant
            nv@.len() <= 230,
            forall|i: int| 0 <= i < nv@.len() ==> #[trigger] nv@[i] is None,
        decreases 230 - nv@.len(),
    {
        nv.push(None);
    }
    let mut nm: Vec<i8> = Vec::new();
    while nm.len() < 23
        invariant
            nm@.len() <= 23,
            forall|i: int| 0 <= i < nm@.len() ==> #[trigger] nm@[i] == -1,
        decreases 23 - nm@.len(),
    {
        nm.push(-1);
    }
    let mut w: usize = 23;
    let mut r: usize = 23;
    while r > 0
        invariant
            r <= 23,
            v@ == v0,
            v0.len() == 230,
            map@.len() == 23,
            m0 == map@.map_values(|m: i8| m as int),
            forall|q: int| 0 <= q < 23 ==> -1 <= #[trigger] map@[q] < 23,
            nv@.len() == 230,
            nm@.len() == 23,
            w + kept_idx(v0, r as int).len() == 23,
            forall|j: int|
                0 <= j < kept_idx(v0, r as int).len() ==> r <= #[trigger] kept_idx(v0, r as int)[j] < 23,
            forall|i: int|
                0 <= i < 230 ==> #[trigger] nv@[i] == if i / 10 < w {
                    None
                } else {
                    v0[kept_idx(v0, r as int)[i / 10 - w] * 10 + i % 10]
                },
            forall|q: int|
                0 <= q < 23 ==> #[trigger] nm@[q] as int == if q < w {
                    -1
                } else {
                    m0[kept_idx(v0, r as int)[q - w]]
                },
        decreases r,
    {
        r -= 1;
        proof {
            lemma_kept_idx(v0, r as int);
        }
        let mut full = true;
        let mut c: usize = 0;
        while c < 10
            invariant
                r < 23,
                c <= 10,
                v@ == v0,
                v0.len() == 230,
                full <==> forall|j: int| 0 <= j < c ==> (#[trigger] v0[r * 10 + j]) is Some,
            decreases 10 - c,
        {
            if v[r * 10 + c].is_none() {
                full = false;
            }
            c += 1;
        }
        let ghost k = kept_idx(v0, r as int);
        let ghost k1 = kept_idx(v0, r as int + 1);
        if !full {
            assert(!row_full_v(v0, r as int));
            assert(k == seq![r as int] + k1);
            w -= 1;
            let mut c: usize = 0;
            while c < 10
                invariant
                    r < 23,
                    w < 23,
                    c <= 10,
                    v@ == v0,
                    v0.len() == 230,
                    nv@.len() == 230,
                    k == seq![r as int] + k1,
                    forall|i: int|
                        0 <= i < 230 && i / 10 != w ==> #[trigger] nv@[i] == if i / 10 < w {
                            None
                        } else {
                            v0[k1[i / 10 - w - 1] * 10 + i % 10]
                        },
                    forall|i: int|
                        0 <= i < 230 && i / 10 == w ==> #[trigger] nv@[i] == if i % 10 < c {
                            v0[r * 10 + i % 10]
                        } else {
                            None
                        },
                decreases 10 - c,
            {
                proof {
                    lemma_row_index(w as int, c as int);
                }
                let x = v[r * 10 + c];
                nv.set(w * 10 + c, x);
                c += 1;
            }
            nm.set(w, map[r]);
            proof {
                assert forall|i: int| 0 <= i < 230 implies #[trigger] nv@[i] == if i / 10 < w {
                    None
                } else {
                    v0[k[i / 10 - w] * 10 + i % 10]
                } by {
                    if i / 10 > w {
                        assert(k[i / 10 - w] == k1[i / 10 - w - 1]);
                    }
                }
                assert forall|q: int| 0 <= q < 23 implies #[trigger] nm@[q] as int == if q < w {
                    -1
                } else {
                    m0[k[q - w]]
                } by {
                    if q > w {
                        assert(k[q - w] == k1[q - w - 1]);
                    }
                }
            }
        } else {
            assert(row_full_v(v0, r as int));
        }
    }
    proof {
        lemma_kept_idx(v0, 0);
        assert(nv@ =~= compact_v(v0));
        assert(nm@.map_values(|m: i8| m as int) =~= remap(v0, m0));
    }
    *v = nv;
    *map = nm;
}

/// The picture of the route `pls` from `board`: the board with every piece drawn where it
/// landed, in the rows it had before any line clear.
pub fn route_cells(board: &Board, pls: &Vec<Placement>) -> (pic: Vec<Option<Piece>>)
    ensures
        pic@ == route_picture(cells_of(*board), pls@).2,
{
    let mut v = cells_vec(board);
    let mut pic = cells_vec(board);
    let mut map: Vec<i8> = Vec::new();
    let mut r: usize = 0;
    while r < 23
        invariant
            r <= 23,
            map@.len() == r,
            forall|q: int| 0 <= q < r ==> #[trigger] map@[q] == q,
        decreases 23 - r,
    {
        map.push(r as i8);
        r += 1;
    }
    proof {
        assert(map@.map_values(|m: i8| m as int) =~= Seq::new(23, |q: int| q));
        assert(route_picture(cells_of(*board), pls@.subrange(0, 0)) == (
            cells_of(*board),
            Seq::new(23, |q: int| q),
            cells_of(*board),
        ));
    }
    let mut i: usize = 0;
    while i < pls.len()
        invariant
            i <= pls@.len(),
            v@.len() == 230,
            pic@.len() == 230,
            map@.len() == 23,
            forall|q: int| 0 <= q < 23 ==> -1 <= #[trigger] map@[q] < 23,
            route_picture(cells_of(*board), pls@.subrange(0, i as int)) == (
                v@,
                map@.map_values(|m: i8| m as int),
                pic@,
            ),
        decreases pls@.len() - i,
    {
        let ghost prefix = pls@.subrange(0, i as int + 1);
        assert(prefix.drop_last() =~= pls@.subrange(0, i as int));
        assert(prefix.last() == pls@[i as int]);
        if let Placement::Place { piece, row, col, rotation } = pls[i] {
            if in_well(piece, rotation, row, col) {
                let ghost m = map@.map_values(|m: i8| m as int);
                stamp_both(&mut v, &mut pic, &map, piece, rotation, row, col);
                compact_both(&mut v, &mut map);
            }
        }
        i += 1;
    }
    assert(pls@.subrange(0, pls@.len() as int) =~= pls@);
    pic
}

/// True iff the two routes draw the same picture.
pub fn same_picture(a: &Vec<Option<Piece>>, b: &Vec<Option<Piece>>) -> (r: bool)
    ensures
        r == (a@ == b@),
{
    if a.len() != b.len() {
        return false;
    }
    let mut i: usize = 0;
    while i < a.len()
        invariant
            i <= a@.len(),
            a@.len() == b@.len(),
            forall|j: int| 0 <= j < i ==> a@[j] == b@[j],
        decreases a@.len() - i,
    {
        if a[i] != b[i] {
            return false;
        }
        i += 1;
    }
    assert(a@ =~= b@);
    true
}

} // verus!
