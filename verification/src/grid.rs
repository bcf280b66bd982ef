//! The hex grid under the map: pointy-top hexes in an odd-r offset layout.
//! Directions: 0=E 1=SE 2=SW 3=W 4=NW 5=NE (any larger number means NE too).
use vstd::prelude::*;

verus! {

pub const COLS: usize = 30;

pub const ROWS: usize = 22;

/// Number of cells of the grid (`COLS * ROWS`).
pub const CELLS: usize = 660;

/// Column and row offset of a step in direction `d` from a cell in row `r`.
pub open spec fn step(r: int, d: int) -> (int, int) {
    let odd = r % 2;
    if d == 0 {
        (1, 0)
    } else if d == 1 {
        (odd, 1)
    } else if d == 2 {
        (odd - 1, 1)
    } else if d == 3 {
        (-1, 0)
    } else if d == 4 {
        (odd - 1, -1)
    } else {
        (odd, -1)
    }
}

/// The cell one step from column `c`, row `r` in direction `d`, if it is on the grid.
pub open spec fn spec_neighbor(c: int, r: int, d: int) -> Option<int> {
    let nc = c + step(r, d).0;
    let nr = r + step(r, d).1;
    if nc < 0 || nr < 0 || nc >= COLS || nr >= ROWS {
        None
    } else {
        Some(nr * COLS + nc)
    }
}

pub fn neighbor_of(c: usize, r: usize, d: usize) -> (res: Option<usize>)
    requires
        c < 0x7fff_ffff,
        r < 0x7fff_ffff,
    ensures
        match res {
            Some(j) => spec_neighbor(c as int, r as int, d as int) == Some(j as int),
            None => spec_neighbor(c as int, r as int, d as int) is None,
        },
{
    let odd: i64 = (r % 2) as i64;
    let (dc, dr): (i64, i64) = if d == 0 {
        (1, 0)
    } else if d == 1 {
        (odd, 1)
    } else if d == 2 {
        (odd - 1, 1)
    } else if d == 3 {
        (-1, 0)
    } else if d == 4 {
        (odd - 1, -1)
    } else {
        (odd, -1)
    };
    let nc: i64 = c as i64 + dc;
    let nr: i64 = r as i64 + dr;
    if nc < 0 || nr < 0 || nc >= COLS as i64 || nr >= ROWS as i64 {
        None
    } else {
        Some(nr as usize * COLS + nc as usize)
    }
}

/// The on-grid neighbors of cell `i` among directions `0..k`, in direction order.
pub open spec fn nbrs_upto(i: int, k: int) -> Seq<usize>
    decreases k,
{
    if k <= 0 {
        seq![]
    } else {
        let prev = nbrs_upto(i, k - 1);
        match spec_neighbor(i % COLS as int, i / COLS as int, k - 1) {
            Some(j) => prev.push(j as usize),
            None => prev,
        }
    }
}

/// The on-grid neighbors of cell `i`, in direction order.
pub open spec fn spec_cell_neighbors(i: int) -> Seq<usize> {
    nbrs_upto(i, 6)
}

/// Cells `i` and `j` share a hex edge.
pub open spec fn cell_adjacent(i: int, j: int) -> bool {
    exists|d: int| 0 <= d < 6 && #[trigger] spec_neighbor(i % COLS as int, i / COLS as int, d) == Some(j)
}

pub fn cell_neighbors(i: usize) -> (res: Vec<usize>)
    requires
        i / COLS < 0x7fff_ffff,
    ensures
        res@ == spec_cell_neighbors(i as int),
{
    let c = i % COLS;
    let r = i / COLS;
    let mut out: Vec<usize> = Vec::new();
    let mut d: usize = 0;
    while d < 6
        invariant
            d <= 6,
            c == i % COLS,
            r == i / COLS,
            r < 0x7fff_ffff,
            out@ == nbrs_upto(i as int, d as int),
        decreases 6 - d,
    {
        if let Some(j) = neighbor_of(c, r, d) {
            out.push(j);
        }
        d = d + 1;
    }
    out
}

proof fn lemma_neighbor_range(c: int, r: int, d: int)
    ensures
        spec_neighbor(c, r, d) matches Some(x) ==> 0 <= x < CELLS,
{
}

proof fn lemma_upto_contains(i: int, k: int, j: usize)
    requires
        nbrs_upto(i, k).contains(j),
    ensures
        exists|d: int| 0 <= d < k && #[trigger] spec_neighbor(i % COLS as int, i / COLS as int, d) == Some(j as int),
    decreases k,
{
    if k > 0 {
        let prev = nbrs_upto(i, k - 1);
        lemma_neighbor_range(i % COLS as int, i / COLS as int, k - 1);
        match spec_neighbor(i % COLS as int, i / COLS as int, k - 1) {
            Some(x) => {
                if prev.contains(j) {
                    lemma_upto_contains(i, k - 1, j);
                } else {
                    assert(prev.push(x as usize).last() == x as usize);
                    assert(x as usize == j);
                }
            },
            None => {
                lemma_upto_contains(i, k - 1, j);
            },
        }
    }
}

proof fn lemma_upto_has(i: int, k: int, d: int, j: int)
    requires
        0 <= d < k,
        spec_neighbor(i % COLS as int, i / COLS as int, d) == Some(j),
    ensures
        nbrs_upto(i, k).contains(j as usize),
    decreases k,
{
    if d < k - 1 {
        lemma_upto_has(i, k - 1, d, j);
        let prev = nbrs_upto(i, k - 1);
        let idx = choose|idx: int| 0 <= idx < prev.len() && prev[idx] == j as usize;
        match spec_neighbor(i % COLS as int, i / COLS as int, k - 1) {
            Some(x) => assert(prev.push(x as usize)[idx] == j as usize),
            None => {},
        }
    } else {
        let prev = nbrs_upto(i, k - 1);
        assert(prev.push(j as usize)[prev.len() as int] == j as usize);
    }
}

/// The listed neighbors of a cell are exactly the adjacent cells.
pub proof fn lemma_cell_neighbors_adjacent(i: int, j: usize)
    ensures
        spec_cell_neighbors(i).contains(j) <==> cell_adjacent(i, j as int),
{
    if spec_cell_neighbors(i).contains(j) {
        lemma_upto_contains(i, 6, j);
    }
    if cell_adjacent(i, j as int) {
        let d = choose|d: int| 0 <= d < 6 && #[trigger] spec_neighbor(i % COLS as int, i / COLS as int, d) == Some(j as int);
        lemma_upto_has(i, 6, d, j as int);
    }
}

proof fn lemma_cell_coords(nr: int, nc: int)
    requires
        0 <= nc < 30,
        0 <= nr,
    ensures
        (nr * 30 + nc) % 30 == nc,
        (nr * 30 + nc) / 30 == nr,
{
    vstd::arithmetic::div_mod::lemma_fundamental_div_mod_converse(nr * 30 + nc, 30, nr, nc);
}

proof fn lemma_parity_flip(r: int)
    requires
        r >= 0,
    ensures
        (r + 1) % 2 == 1 - r % 2,
        r >= 1 ==> (r - 1) % 2 == 1 - r % 2,
{
}

/// Adjacency of cells is symmetric and never relates a cell to itself.
pub proof fn lemma_cell_adjacency_symmetric(i: int, j: int)
    requires
        0 <= i < CELLS,
        cell_adjacent(i, j),
    ensures
        0 <= j < CELLS,
        j != i,
        cell_adjacent(j, i),
{
    let d = choose|d: int| 0 <= d < 6 && #[trigger] spec_neighbor(i % COLS as int, i / COLS as int, d) == Some(j);
    let c = i % 30;
    let r = i / 30;
    lemma_cell_coords(r, c);
    let nc = c + step(r, d).0;
    let nr = r + step(r, d).1;
    lemma_cell_coords(nr, nc);
    lemma_parity_flip(r);
    let back = if d < 3 {
        d + 3
    } else {
        d - 3
    };
    assert(spec_neighbor(nc, nr, back) == Some(i));
    assert(spec_neighbor(j % COLS as int, j / COLS as int, back) == Some(i));
}

} // verus!
