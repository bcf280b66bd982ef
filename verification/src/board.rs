//! The map: which hex cell belongs to which land, who owns each land, how many
//! dice it holds, and which lands border each other; and the generator that
//! grows a fresh map from the global random generator.
use vstd::prelude::*;
use vstd::set_lib::*;
use crate::graph::{adj_of, all_connected, explore, graph_wf, has_nb, largest_cluster, largest_region_spec};
use crate::grid::{
    cell_adjacent, cell_neighbors, lemma_cell_adjacency_symmetric, lemma_cell_neighbors_adjacent,
    spec_cell_neighbors, CELLS,
};
use crate::rng::{rand_index, rand_range, shuffle};
use crate::rules::{Persona, MAX_DICE, N_HOLES, N_SEEDS};

verus! {

/// A map. Lands are numbered `0..n`; every per-land vector has length `n`.
pub struct Board {
    /// the land of each grid cell, or -1 for water
    pub cell_terr: Vec<i32>,
    pub owner: Vec<usize>,
    pub dice: Vec<u32>,
    /// neighboring lands of each land, ascending
    pub neighbors: Vec<Vec<usize>>,
    /// stable pseudo-random die faces of each land
    pub die_seed: Vec<u32>,
}

impl Board {
    pub open spec fn n(&self) -> nat {
        self.owner@.len()
    }

    pub open spec fn adj(&self) -> Seq<Seq<usize>> {
        adj_of(self.neighbors@)
    }

    /// Lengths agree, adjacency is symmetric, no land holds more than
    /// `MAX_DICE`, and every cell names water or a land.
    pub open spec fn wf(&self) -> bool {
        &&& self.cell_terr@.len() == CELLS
        &&& self.dice@.len() == self.n()
        &&& self.neighbors@.len() == self.n()
        &&& self.die_seed@.len() == self.n()
        &&& self.n() <= i32::MAX
        &&& graph_wf(self.adj())
        &&& forall|t: int| 0 <= t < self.n() ==> #[trigger] self.dice@[t] <= MAX_DICE
        &&& forall|i: int| 0 <= i < CELLS ==> -1 <= #[trigger] self.cell_terr@[i] < self.n()
    }
}

/// Number of cells among the first `k` whose entry is `t`.
pub open spec fn cells_in(ct: Seq<i32>, t: int, k: int) -> nat
    decreases k,
{
    if k <= 0 {
        0
    } else {
        cells_in(ct, t, k - 1) + if ct[k - 1] == t {
            1nat
        } else {
            0nat
        }
    }
}

/// Lands `t` and `u` differ and some cell of `t` among the first `k` touches a cell of `u`.
pub open spec fn touches_upto(ct: Seq<i32>, t: int, u: int, k: int) -> bool {
    t != u && exists|i: int, j: int|
        #![trigger cell_adjacent(i, j), ct[i], ct[j]]
        0 <= i < k && 0 <= j < ct.len() && ct[i] == t && ct[j] == u && cell_adjacent(i, j)
}

/// Lands `t` and `u` share a hex edge.
pub open spec fn touches(ct: Seq<i32>, t: int, u: int) -> bool {
    touches_upto(ct, t, u, ct.len() as int)
}

/// Number of lands among the first `k` owned by `p`.
pub open spec fn count_owned(owner: Seq<usize>, p: usize, k: int) -> nat
    decreases k,
{
    if k <= 0 {
        0
    } else {
        count_owned(owner, p, k - 1) + if owner[k - 1] == p {
            1nat
        } else {
            0nat
        }
    }
}

/// Dice on the lands among the first `k` owned by `p`.
pub open spec fn dice_owned(owner: Seq<usize>, dice: Seq<u32>, p: usize, k: int) -> nat
    decreases k,
{
    if k <= 0 {
        0
    } else {
        dice_owned(owner, dice, p, k - 1) + if owner[k - 1] == p {
            dice[k - 1] as nat
        } else {
            0nat
        }
    }
}

/// Smallest number of holes, from `h` up, that leaves a land count divisible by `players`.
pub open spec fn holes_from(players: int, h: int) -> int
    decreases N_SEEDS - h,
{
    if h >= N_SEEDS || players <= 0 || (N_SEEDS - h) % players == 0 {
        h
    } else {
        holes_from(players, h + 1)
    }
}

/// Number of lands on a map for `players` players: the most lands, at most
/// `N_SEEDS - N_HOLES`, that every player can get the same share of.
pub open spec fn territory_count(players: int) -> int {
    N_SEEDS - holes_from(players, N_HOLES as int)
}

pub proof fn lemma_cells_in_update(s: Seq<i32>, idx: int, v: i32, t: int, k: int)
    requires
        0 <= idx < s.len(),
        k <= s.len(),
    ensures
        cells_in(s.update(idx, v), t, k) + (if idx < k && s[idx] == t {
            1int
        } else {
            0int
        }) == cells_in(s, t, k) + (if idx < k && v == t {
            1int
        } else {
            0int
        }),
    decreases k,
{
    if k > 0 {
        lemma_cells_in_update(s, idx, v, t, k - 1);
    }
}

pub proof fn lemma_cells_in_bound(s: Seq<i32>, t: int, k: int)
    requires
        0 <= k,
    ensures
        cells_in(s, t, k) <= k,
    decreases k,
{
    if k > 0 {
        lemma_cells_in_bound(s, t, k - 1);
    }
}

pub proof fn lemma_cells_in_all(s: Seq<i32>, t: int, k: int)
    requires
        0 <= k <= s.len(),
        forall|i: int| 0 <= i < k ==> s[i] == t,
    ensures
        cells_in(s, t, k) == k,
    decreases k,
{
    if k > 0 {
        lemma_cells_in_all(s, t, k - 1);
    }
}

proof fn lemma_nbrs_len(i: int, k: int)
    ensures
        crate::grid::nbrs_upto(i, k).len() <= if k < 0 {
            0
        } else {
            k
        },
    decreases k,
{
    if k > 0 {
        lemma_nbrs_len(i, k - 1);
    }
}

/// Entries of a cell's neighbor list are cells of the grid.
proof fn lemma_neighbors_on_grid(i: int, nbrs: Seq<usize>)
    requires
        0 <= i < CELLS,
        nbrs == spec_cell_neighbors(i),
    ensures
        forall|k: int| 0 <= k < nbrs.len() ==> (#[trigger] nbrs[k] as int) < CELLS && cell_adjacent(i, nbrs[k] as int),
{
    assert forall|k: int| 0 <= k < nbrs.len() implies (#[trigger] nbrs[k] as int) < CELLS && cell_adjacent(
        i,
        nbrs[k] as int,
    ) by {
        assert(nbrs.contains(nbrs[k]));
        lemma_cell_neighbors_adjacent(i, nbrs[k]);
        lemma_cell_adjacency_symmetric(i, nbrs[k] as int);
    }
}

/// Every claimed cell that is not waiting in `frontier` has all its
/// neighboring cells claimed.
spec fn settled(ct: Seq<i32>, frontier: Seq<usize>) -> bool {
    forall|i: int, j: int|
        0 <= i < CELLS && 0 <= j < CELLS && #[trigger] cell_adjacent(i, j) && ct[i] >= 0 && !frontier.contains(
            i as usize,
        ) ==> ct[j] >= 0
}

/// Region `k` has at least one cell.
pub open spec fn region_used(ct: Seq<i32>, k: int) -> bool {
    exists|i: int| 0 <= i < CELLS && #[trigger] ct[i] == k
}

/// Growth has run to completion: no unclaimed cell borders a claimed one.
pub open spec fn fully_grown(ct: Seq<i32>) -> bool {
    forall|i: int, j: int| 0 <= i < CELLS && 0 <= j < CELLS && #[trigger] cell_adjacent(i, j) && ct[i] >= 0 ==> ct[j] >= 0
}

/// Seeds `N_SEEDS` regions on distinct random cells and grows them with a
/// randomized multi-source flood fill until no free cell borders a region.
/// `None` only if the draw budget (2^64 draws, more than the generator's
/// period) runs out before `N_SEEDS` distinct cells were drawn; whether it
/// does depends on the draws.
fn grow_regions() -> (res: Option<Vec<i32>>)
    ensures
        res matches Some(ct) ==> {
            &&& ct@.len() == CELLS
            &&& forall|i: int| 0 <= i < CELLS ==> -1 <= #[trigger] ct@[i] < N_SEEDS
            &&& forall|k: int| 0 <= k < N_SEEDS ==> #[trigger] region_used(ct@, k)
            &&& fully_grown(ct@)
        },
{
    let mut ct: Vec<i32> = vec![-1i32; CELLS];
    let mut frontier: Vec<usize> = Vec::new();
    let mut next_id: i32 = 0;
    let mut draws: u64 = 0;
    let ghost mut seeds: Seq<usize> = Seq::empty();
    proof {
        assert(forall|i: int| 0 <= i < CELLS ==> ct@[i] == -1);
        lemma_cells_in_all(ct@, -1, CELLS as int);
    }
    while next_id < N_SEEDS as i32 && draws < u64::MAX
        invariant
            ct@.len() == CELLS,
            0 <= next_id <= N_SEEDS,
            frontier.len() == next_id,
            cells_in(ct@, -1, CELLS as int) + next_id == CELLS,
            forall|i: int| 0 <= i < CELLS ==> -1 <= #[trigger] ct@[i] < next_id,
            forall|k: int|
                0 <= k < frontier.len() ==> (#[trigger] frontier@[k] as int) < CELLS && ct@[frontier@[k] as int]
                    >= 0,
            forall|i: int| 0 <= i < CELLS && #[trigger] ct@[i] >= 0 ==> frontier@.contains(i as usize),
            seeds.len() == next_id,
            forall|k: int| 0 <= k < next_id ==> (#[trigger] seeds[k] as int) < CELLS && ct@[seeds[k] as int] == k,
        decreases u64::MAX - draws,
    {
        draws = draws + 1;
        let c = rand_index(CELLS);
        if ct[c] == -1 {
            proof {
                lemma_cells_in_update(ct@, c as int, next_id, -1, CELLS as int);
            }
            let ghost f0 = frontier@;
            ct[c] = next_id;
            proof {
                seeds = seeds.push(c);
            }
            next_id = next_id + 1;
            frontier.push(c);
            proof {
                assert forall|i: int| 0 <= i < CELLS && #[trigger] ct@[i] >= 0 implies frontier@.contains(
                    i as usize,
                ) by {
                    if i == c as int {
                        assert(frontier@[frontier@.len() - 1] == c);
                    } else {
                        assert(f0.contains(i as usize));
                        let m = choose|m: int| 0 <= m < f0.len() && f0[m] == i as usize;
                        assert(frontier@[m] == i as usize);
                    }
                }
            }
        }
    }
    if next_id < N_SEEDS as i32 {
        return None;
    }
    proof {
        assert(settled(ct@, frontier@));
    }
    while frontier.len() > 0
        invariant
            ct@.len() == CELLS,
            forall|i: int| 0 <= i < CELLS ==> -1 <= #[trigger] ct@[i] < N_SEEDS,
            frontier.len() + cells_in(ct@, -1, CELLS as int) <= CELLS,
            forall|k: int|
                0 <= k < frontier.len() ==> (#[trigger] frontier@[k] as int) < CELLS && ct@[frontier@[k] as int]
                    >= 0,
            seeds.len() == N_SEEDS,
            forall|k: int| 0 <= k < N_SEEDS ==> (#[trigger] seeds[k] as int) < CELLS && ct@[seeds[k] as int] == k,
            settled(ct@, frontier@),
        decreases cells_in(ct@, -1, CELLS as int), frontier.len(),
    {
        let k = rand_index(frontier.len());
        let cell = frontier[k];
        let nbrs = cell_neighbors(cell);
        proof {
            lemma_neighbors_on_grid(cell as int, nbrs@);
            lemma_nbrs_len(cell as int, 6);
        }
        let mut free: Vec<usize> = Vec::new();
        let mut q: usize = 0;
        while q < nbrs.len()
            invariant
                ct@.len() == CELLS,
                q <= nbrs.len(),
                nbrs.len() <= 6,
                free.len() <= q,
                forall|m: int| 0 <= m < nbrs.len() ==> (#[trigger] nbrs@[m] as int) < CELLS,
                forall|m: int| 0 <= m < free.len() ==> (#[trigger] free@[m] as int) < CELLS && ct@[free@[m] as int] == -1,
                free.len() == 0 ==> forall|m: int| 0 <= m < q ==> ct@[#[trigger] nbrs@[m] as int] != -1,
            decreases nbrs.len() - q,
        {
            let x = nbrs[q];
            if ct[x] == -1 {
                free.push(x);
            }
            q = q + 1;
        }
        if free.len() == 0 {
            let ghost f0 = frontier@;
            frontier.swap_remove(k);
            proof {
                assert forall|i: int, j: int|
                    0 <= i < CELLS && 0 <= j < CELLS && #[trigger] cell_adjacent(i, j) && ct@[i] >= 0
                        && !frontier@.contains(i as usize) implies ct@[j] >= 0 by {
                    if i == cell as int {
                        lemma_cell_neighbors_adjacent(i, j as usize);
                        assert(nbrs@.contains(j as usize));
                        let m = choose|m: int| 0 <= m < nbrs@.len() && nbrs@[m] == j as usize;
                        assert(ct@[nbrs@[m] as int] != -1);
                    } else if f0.contains(i as usize) {
                        let m = choose|m: int| 0 <= m < f0.len() && f0[m] == i as usize;
                        if m == f0.len() - 1 {
                            assert(frontier@[k as int] == i as usize);
                        } else {
                            assert(m != k);
                            assert(frontier@[m] == i as usize);
                        }
                    }
                }
            }
        } else {
            let nn = free[rand_index(free.len())];
            let id = ct[cell];
            proof {
                lemma_cells_in_update(ct@, nn as int, id, -1, CELLS as int);
            }
            let ghost f0 = frontier@;
            let ghost ct0 = ct@;
            ct[nn] = id;
            frontier.push(nn);
            proof {
                assert forall|kk: int| 0 <= kk < N_SEEDS implies (#[trigger] seeds[kk] as int) < CELLS && ct@[seeds[kk] as int]
                    == kk by {
                    assert(ct0[seeds[kk] as int] == kk);
                }
                assert forall|i: int, j: int|
                    0 <= i < CELLS && 0 <= j < CELLS && #[trigger] cell_adjacent(i, j) && ct@[i] >= 0
                        && !frontier@.contains(i as usize) implies ct@[j] >= 0 by {
                    assert(frontier@[frontier@.len() - 1] == nn);
                    assert(i != nn as int);
                    if f0.contains(i as usize) {
                        let m = choose|m: int| 0 <= m < f0.len() && f0[m] == i as usize;
                        assert(frontier@[m] == i as usize);
                    }
                    assert(ct0[i] >= 0);
                    assert(ct0[j] >= 0);
                }
            }
        }
    }
    proof {
        assert(frontier@ =~= Seq::<usize>::empty());
        assert forall|kk: int| 0 <= kk < N_SEEDS implies #[trigger] region_used(ct@, kk) by {
            assert(ct@[seeds[kk] as int] == kk);
        }
    }
    Some(ct)
}

/// Region `t` (or -1) once the regions listed first in `ids` (the first
/// `h` of them) became holes and the others were numbered in list order.
pub open spec fn renumbered(ids: Seq<usize>, h: int, t: i32) -> i32 {
    if t < 0 {
        -1i32
    } else {
        let k = ids.index_of(t as usize);
        if k < h {
            -1i32
        } else {
            (k - h) as i32
        }
    }
}

/// Cuts holes: removes the smallest number of regions, at least `N_HOLES`,
/// that leaves a region count divisible by `players`, choosing which ones by a
/// shuffle, and renumbers the rest `0..n` in shuffled order. Holes are whole
/// regions: every cell of a removed region becomes water.
fn punch_holes(ct: &mut Vec<i32>, players: usize) -> (n: usize)
    requires
        old(ct)@.len() == CELLS,
        forall|i: int| 0 <= i < CELLS ==> -1 <= #[trigger] old(ct)@[i] < N_SEEDS,
        players >= 1,
    ensures
        final(ct)@.len() == CELLS,
        n == territory_count(players as int),
        n <= N_SEEDS,
        forall|i: int| 0 <= i < CELLS ==> -1 <= #[trigger] final(ct)@[i] < n,
        exists|ids: Seq<usize>|
            {
                &&& ids.len() == N_SEEDS
                &&& ids.no_duplicates()
                &&& forall|k: int| 0 <= k < N_SEEDS ==> (#[trigger] ids[k] as int) < N_SEEDS
                &&& forall|c: int| 0 <= c < CELLS ==> #[trigger] final(ct)@[c] == renumbered(ids, N_SEEDS - n, old(ct)@[c])
            },
{
    let ghost ct0 = ct@;
    let mut holes_n: usize = N_HOLES;
    while holes_n < N_SEEDS && (N_SEEDS - holes_n) % players != 0
        invariant
            N_HOLES <= holes_n <= N_SEEDS,
            players >= 1,
            holes_from(players as int, holes_n as int) == holes_from(players as int, N_HOLES as int),
        decreases N_SEEDS - holes_n,
    {
        holes_n = holes_n + 1;
    }
    let mut ids: Vec<usize> = Vec::new();
    let mut k: usize = 0;
    while k < N_SEEDS
        invariant
            k <= N_SEEDS,
            ids@ == range_seq(k as nat),
        decreases N_SEEDS - k,
    {
        ids.push(k);
        k = k + 1;
        proof {
            assert(ids@ =~= range_seq(k as nat));
        }
    }
    let ghost ids0 = ids@;
    shuffle(&mut ids);
    proof {
        lemma_perm_props(ids@, N_SEEDS as int);
    }
    let mut is_hole: Vec<bool> = vec![false; N_SEEDS];
    let mut k: usize = 0;
    while k < holes_n
        invariant
            k <= holes_n <= N_SEEDS,
            ids@.len() == N_SEEDS,
            is_hole@.len() == N_SEEDS,
            ids@.no_duplicates(),
            forall|i: int| 0 <= i < N_SEEDS ==> (#[trigger] ids@[i] as int) < N_SEEDS,
            forall|j: int| 0 <= j < N_SEEDS ==> is_hole@[#[trigger] ids@[j] as int] == (j < k),
        decreases holes_n - k,
    {
        let ghost h0 = is_hole@;
        is_hole.set(ids[k], true);
        proof {
            assert forall|j: int| 0 <= j < N_SEEDS implies is_hole@[#[trigger] ids@[j] as int] == (j < k + 1) by {
                if j != k {
                    assert(ids@[j] != ids@[k as int]);
                    assert(is_hole@[ids@[j] as int] == h0[ids@[j] as int]);
                }
            }
        }
        k = k + 1;
    }
    let n: usize = N_SEEDS - holes_n;
    let mut remap: Vec<i32> = vec![-1i32; N_SEEDS];
    let mut k: usize = holes_n;
    proof {
        assert forall|j: int| 0 <= j < N_SEEDS implies remap@[#[trigger] ids@[j] as int] == -1 by {}
    }
    while k < N_SEEDS
        invariant
            holes_n <= k <= N_SEEDS,
            n == N_SEEDS - holes_n,
            ids@.len() == N_SEEDS,
            remap@.len() == N_SEEDS,
            ids@.no_duplicates(),
            forall|i: int| 0 <= i < N_SEEDS ==> (#[trigger] ids@[i] as int) < N_SEEDS,
            forall|j: int|
                0 <= j < N_SEEDS ==> remap@[#[trigger] ids@[j] as int] == if holes_n <= j < k {
                    (j - holes_n) as i32
                } else {
                    -1i32
                },
        decreases N_SEEDS - k,
    {
        let ghost r0 = remap@;
        remap.set(ids[k], (k - holes_n) as i32);
        proof {
            assert forall|j: int| 0 <= j < N_SEEDS implies remap@[#[trigger] ids@[j] as int] == if holes_n <= j < k + 1 {
                (j - holes_n) as i32
            } else {
                -1i32
            } by {
                if j != k {
                    assert(ids@[j] != ids@[k as int]);
                    assert(remap@[ids@[j] as int] == r0[ids@[j] as int]);
                }
            }
        }
        k = k + 1;
    }
    let mut i: usize = 0;
    while i < CELLS
        invariant
            i <= CELLS,
            ct@.len() == CELLS,
            ct0.len() == CELLS,
            is_hole@.len() == N_SEEDS,
            remap@.len() == N_SEEDS,
            ids@.len() == N_SEEDS,
            n == N_SEEDS - holes_n,
            holes_n <= N_SEEDS,
            ids@.no_duplicates(),
            forall|k: int| 0 <= k < N_SEEDS ==> (#[trigger] ids@[k] as int) < N_SEEDS,
            forall|t: int| 0 <= t < N_SEEDS ==> #[trigger] listed(ids@, t),
            forall|j: int| 0 <= j < N_SEEDS ==> is_hole@[#[trigger] ids@[j] as int] == (j < holes_n),
            forall|j: int|
                0 <= j < N_SEEDS ==> remap@[#[trigger] ids@[j] as int] == if holes_n <= j {
                    (j - holes_n) as i32
                } else {
                    -1i32
                },
            forall|j: int| 0 <= j < CELLS ==> -1 <= #[trigger] ct0[j] < N_SEEDS,
            forall|j: int| 0 <= j < i ==> #[trigger] ct@[j] == renumbered(ids@, holes_n as int, ct0[j]),
            forall|j: int| i <= j < CELLS ==> #[trigger] ct@[j] == ct0[j],
        decreases CELLS - i,
    {
        let t = ct[i];
        proof {
            if t >= 0 {
                assert(listed(ids@, t as int));
                let j = choose|j: int| 0 <= j < ids@.len() && #[trigger] ids@[j] as int == t as int;
                let k = ids@.index_of(t as usize);
                assert(ids@[j] == t as usize);
                assert(0 <= k < ids@.len() && ids@[k] == t as usize);
                assert(k == j);
                assert(is_hole@[ids@[j] as int] == (j < holes_n));
                assert(remap@[ids@[j] as int] == if holes_n <= j { (j - holes_n) as i32 } else { -1i32 });
            }
        }
        let v: i32 = if t >= 0 && !is_hole[t as usize] {
            remap[t as usize]
        } else {
            -1
        };
        ct.set(i, v);
        i = i + 1;
    }
    proof {
        assert forall|c: int| 0 <= c < CELLS implies -1 <= #[trigger] ct@[c] < n by {
            assert(ct@[c] == renumbered(ids@, holes_n as int, ct0[c]));
            if ct0[c] >= 0 {
                assert(listed(ids@, ct0[c] as int));
                let j = choose|j: int| 0 <= j < ids@.len() && #[trigger] ids@[j] as int == ct0[c] as int;
                let k = ids@.index_of(ct0[c] as usize);
                assert(0 <= k < ids@.len() && ids@[k] == ct0[c] as usize);
            }
        }
        assert(N_SEEDS - n == holes_n);
    }
    n
}

/// Whether every land `0..n` has at least three cells.
fn regions_large_enough(ct: &Vec<i32>, n: usize) -> (ok: bool)
    requires
        ct@.len() == CELLS,
        n <= N_SEEDS,
    ensures
        ok <==> forall|t: int| 0 <= t < n ==> #[trigger] cells_in(ct@, t, CELLS as int) >= 3,
{
    let mut counts: Vec<usize> = vec![0usize; n];
    let mut i: usize = 0;
    while i < CELLS
        invariant
            i <= CELLS,
            ct@.len() == CELLS,
            counts@.len() == n,
            forall|t: int| 0 <= t < n ==> #[trigger] counts@[t] == cells_in(ct@, t, i as int),
        decreases CELLS - i,
    {
        let t = ct[i];
        proof {
            assert forall|u: int| 0 <= u < n implies cells_in(ct@, u, i as int) <= i by {
                lemma_cells_in_bound(ct@, u, i as int);
            }
        }
        if t >= 0 && (t as usize) < n {
            counts[t as usize] = counts[t as usize] + 1;
        }
        i = i + 1;
    }
    let mut t: usize = 0;
    while t < n
        invariant
            t <= n,
            counts@.len() == n,
            forall|u: int| 0 <= u < n ==> #[trigger] counts@[u] == cells_in(ct@, u, CELLS as int),
            forall|u: int| 0 <= u < t ==> #[trigger] cells_in(ct@, u, CELLS as int) >= 3,
        decreases n - t,
    {
        if counts[t] < 3 {
            return false;
        }
        t = t + 1;
    }
    true
}

/// One more cell of the scan: `t` and `u` touch within the first `i + 1`
/// cells iff they did within the first `i`, or cell `i` is in `t` and one of
/// its grid neighbors is in `u`.
proof fn lemma_touch_step(ct: Seq<i32>, i: int, t: int, u: int, nbrs: Seq<usize>)
    requires
        ct.len() == CELLS,
        0 <= i < CELLS,
        nbrs == spec_cell_neighbors(i),
    ensures
        touches_upto(ct, t, u, i + 1) <==> (touches_upto(ct, t, u, i) || (ct[i] == t && t != u && exists|q: int|
            0 <= q < nbrs.len() && ct[#[trigger] nbrs[q] as int] == u)),
{
    lemma_neighbors_on_grid(i, nbrs);
    if touches_upto(ct, t, u, i + 1) && !touches_upto(ct, t, u, i) {
        let (a, b) = choose|a: int, b: int|
            #![trigger cell_adjacent(a, b), ct[a], ct[b]]
            0 <= a < i + 1 && 0 <= b < ct.len() && ct[a] == t && ct[b] == u && cell_adjacent(a, b);
        assert(a == i);
        lemma_cell_neighbors_adjacent(i, b as usize);
        assert(nbrs.contains(b as usize));
        let q = choose|q: int| 0 <= q < nbrs.len() && nbrs[q] == b as usize;
        assert(ct[nbrs[q] as int] == u);
    }
    if ct[i] == t && t != u && exists|q: int| 0 <= q < nbrs.len() && ct[#[trigger] nbrs[q] as int] == u {
        let q = choose|q: int| 0 <= q < nbrs.len() && ct[#[trigger] nbrs[q] as int] == u;
        let b = nbrs[q] as int;
        assert(cell_adjacent(i, b));
        assert(ct[i] == t && ct[b] == u);
    }
    if touches_upto(ct, t, u, i) {
        let (a, b) = choose|a: int, b: int|
            #![trigger cell_adjacent(a, b), ct[a], ct[b]]
            0 <= a < i && 0 <= b < ct.len() && ct[a] == t && ct[b] == u && cell_adjacent(a, b);
        assert(0 <= a < i + 1);
    }
}

/// Lands that touch, touch the other way round too.
proof fn lemma_touches_symmetric(ct: Seq<i32>, t: int, u: int)
    requires
        ct.len() == CELLS,
        touches(ct, t, u),
    ensures
        touches(ct, u, t),
{
    let (a, b) = choose|a: int, b: int|
        #![trigger cell_adjacent(a, b), ct[a], ct[b]]
        0 <= a < ct.len() && 0 <= b < ct.len() && ct[a] == t && ct[b] == u && cell_adjacent(a, b);
    lemma_cell_adjacency_symmetric(a, b);
    assert(cell_adjacent(b, a));
}

/// Neighbor lists of lands `0..n`: `u` is listed for `t` exactly when some
/// cell of `t` shares a hex edge with a cell of `u`; lists are ascending.
fn territory_neighbors(ct: &Vec<i32>, n: usize) -> (nb: Vec<Vec<usize>>)
    requires
        ct@.len() == CELLS,
        n <= N_SEEDS,
        forall|i: int| 0 <= i < CELLS ==> -1 <= #[trigger] ct@[i] < n,
    ensures
        nb@.len() == n,
        graph_wf(adj_of(nb@)),
        forall|t: int, u: int| 0 <= t < n ==> (has_nb(adj_of(nb@), t, u) <==> (0 <= u < n && touches(ct@, t, u))),
        forall|t: int, a: int, b: int|
            0 <= t < n && 0 <= a < b < nb@[t]@.len() ==> #[trigger] nb@[t]@[a] < #[trigger] nb@[t]@[b],
{
    let mut m: Vec<Vec<bool>> = Vec::new();
    let mut t: usize = 0;
    while t < n
        invariant
            t <= n,
            m@.len() == t,
            forall|r: int| 0 <= r < t ==> #[trigger] m@[r]@ == Seq::new(n as nat, |x: int| false),
        decreases n - t,
    {
        m.push(vec![false; n]);
        t = t + 1;
    }
    let mut i: usize = 0;
    while i < CELLS
        invariant
            i <= CELLS,
            ct@.len() == CELLS,
            forall|j: int| 0 <= j < CELLS ==> -1 <= #[trigger] ct@[j] < n,
            m@.len() == n,
            forall|r: int| 0 <= r < n ==> #[trigger] m@[r]@.len() == n,
            forall|r: int, c: int|
                0 <= r < n && 0 <= c < n ==> (#[trigger] m@[r]@[c] <==> touches_upto(ct@, r, c, i as int)),
        decreases CELLS - i,
    {
        let t0 = ct[i];
        let nbrs = cell_neighbors(i);
        proof {
            lemma_neighbors_on_grid(i as int, nbrs@);
        }
        let mut q: usize = 0;
        while q < nbrs.len()
            invariant
                i < CELLS,
                t0 == ct@[i as int],
                nbrs@ == spec_cell_neighbors(i as int),
                q <= nbrs.len(),
                ct@.len() == CELLS,
                forall|j: int| 0 <= j < CELLS ==> -1 <= #[trigger] ct@[j] < n,
                forall|k: int| 0 <= k < nbrs.len() ==> (#[trigger] nbrs@[k] as int) < CELLS,
                m@.len() == n,
                forall|r: int| 0 <= r < n ==> #[trigger] m@[r]@.len() == n,
                forall|r: int, c: int|
                    0 <= r < n && 0 <= c < n ==> (#[trigger] m@[r]@[c] <==> (touches_upto(ct@, r, c, i as int) || (
                    r == t0 && r != c && exists|k: int| 0 <= k < q && ct@[#[trigger] nbrs@[k] as int] == c))),
            decreases nbrs.len() - q,
        {
            let u = ct[nbrs[q]];
            if t0 >= 0 && u >= 0 && u != t0 {
                m[t0 as usize][u as usize] = true;
            }
            proof {
                assert forall|r: int, c: int| 0 <= r < n && 0 <= c < n implies (#[trigger] m@[r]@[c] <==> (
                touches_upto(ct@, r, c, i as int) || (r == t0 && r != c && exists|k: int|
                    0 <= k < q + 1 && ct@[#[trigger] nbrs@[k] as int] == c))) by {
                    if r == t0 && r != c && c == u {
                        assert(ct@[nbrs@[q as int] as int] == c);
                    }
                    if r == t0 && r != c && exists|k: int| 0 <= k < q + 1 && ct@[#[trigger] nbrs@[k] as int] == c {
                        let k = choose|k: int| 0 <= k < q + 1 && ct@[#[trigger] nbrs@[k] as int] == c;
                        if k < q {
                            assert(exists|k: int| 0 <= k < q && ct@[#[trigger] nbrs@[k] as int] == c);
                        }
                    }
                }
            }
            q = q + 1;
        }
        proof {
            assert forall|r: int, c: int|
                0 <= r < n && 0 <= c < n implies (#[trigger] m@[r]@[c] <==> touches_upto(ct@, r, c, i + 1)) by {
                lemma_touch_step(ct@, i as int, r, c, nbrs@);
            }
        }
        i = i + 1;
    }
    let mut nb: Vec<Vec<usize>> = Vec::new();
    let mut t: usize = 0;
    while t < n
        invariant
            t <= n,
            ct@.len() == CELLS,
            m@.len() == n,
            forall|r: int| 0 <= r < n ==> #[trigger] m@[r]@.len() == n,
            forall|r: int, c: int|
                0 <= r < n && 0 <= c < n ==> (#[trigger] m@[r]@[c] <==> touches(ct@, r, c)),
            nb@.len() == t,
            forall|r: int, u: int| 0 <= r < t ==> (has_nb(adj_of(nb@), r, u) <==> (0 <= u < n && touches(ct@, r, u))),
            forall|r: int, a: int, b: int|
                0 <= r < t && 0 <= a < b < nb@[r]@.len() ==> #[trigger] nb@[r]@[a] < #[trigger] nb@[r]@[b],
            forall|r: int, a: int| 0 <= r < t && 0 <= a < nb@[r]@.len() ==> (#[trigger] nb@[r]@[a] as int) < n,
        decreases n - t,
    {
        let mut row: Vec<usize> = Vec::new();
        let mut u: usize = 0;
        while u < n
            invariant
                t < n,
                u <= n,
                m@.len() == n,
                forall|r: int| 0 <= r < n ==> #[trigger] m@[r]@.len() == n,
                forall|a: int| 0 <= a < row.len() ==> (#[trigger] row@[a] as int) < u && m@[t as int]@[row@[a] as int],
                forall|a: int, b: int| 0 <= a < b < row.len() ==> #[trigger] row@[a] < #[trigger] row@[b],
                forall|c: int| 0 <= c < u && m@[t as int]@[c] ==> exists|a: int| 0 <= a < row.len() && #[trigger] row@[a] as int == c,
            decreases n - u,
        {
            if m[t][u] {
                let ghost before = row@;
                row.push(u);
                proof {
                    assert forall|c: int| 0 <= c < u + 1 && m@[t as int]@[c] implies exists|a: int|
                        0 <= a < row.len() && #[trigger] row@[a] as int == c by {
                        if c < u {
                            let a = choose|a: int| 0 <= a < before.len() && #[trigger] before[a] as int == c;
                            assert(row@[a] as int == c);
                        } else {
                            assert(row@[before.len() as int] as int == c);
                        }
                    }
                }
            }
            u = u + 1;
        }
        let ghost rowv = row@;
        let ghost old_nb = nb@;
        assert forall|r: int, x: int| 0 <= r < t implies (has_nb(adj_of(old_nb), r, x) <==> (0 <= x < n
            && touches(ct@, r, x))) by {}
        nb.push(row);
        proof {
            assert(adj_of(nb@)[t as int] == rowv);
            assert forall|uu: int| has_nb(adj_of(nb@), t as int, uu) <==> (0 <= uu < n && touches(ct@, t as int, uu)) by {
                if has_nb(adj_of(nb@), t as int, uu) {
                    let a = choose|a: int| 0 <= a < adj_of(nb@)[t as int].len() && #[trigger] adj_of(nb@)[t as int][a] as int == uu;
                    assert(rowv[a] as int == uu);
                }
                if 0 <= uu < n && touches(ct@, t as int, uu) {
                    assert(m@[t as int]@[uu]);
                    let a = choose|a: int| 0 <= a < rowv.len() && #[trigger] rowv[a] as int == uu;
                    assert(adj_of(nb@)[t as int][a] as int == uu);
                }
            }
            assert forall|r: int, x: int| 0 <= r < t && true implies (has_nb(adj_of(nb@), r, x) <==> (0 <= x < n
                && touches(ct@, r, x))) by {
                assert(adj_of(nb@)[r] == adj_of(old_nb)[r]);
                if has_nb(adj_of(nb@), r, x) {
                    let a = choose|a: int| 0 <= a < adj_of(nb@)[r].len() && #[trigger] adj_of(nb@)[r][a] as int == x;
                    assert(adj_of(old_nb)[r][a] as int == x);
                }
                if has_nb(adj_of(old_nb), r, x) {
                    let a = choose|a: int| 0 <= a < adj_of(old_nb)[r].len() && #[trigger] adj_of(old_nb)[r][a] as int == x;
                    assert(adj_of(nb@)[r][a] as int == x);
                }
            }
        }
        t = t + 1;
    }
    proof {
        let adj = adj_of(nb@);
        assert forall|tt: int, k: int|
            #![trigger adj[tt][k]]
            0 <= tt < adj.len() && 0 <= k < adj[tt].len() implies {
                &&& (adj[tt][k] as int) < adj.len()
                &&& adj[tt][k] as int != tt
                &&& has_nb(adj, adj[tt][k] as int, tt)
            } by {
            let x = adj[tt][k] as int;
            assert(has_nb(adj, tt, x));
            lemma_touches_symmetric(ct@, tt, x);
        }
    }
    nb
}

/// Whether every land `0..n` can be reached from land 0.
fn is_connected(nb: &Vec<Vec<usize>>) -> (ok: bool)
    requires
        graph_wf(adj_of(nb@)),
        nb@.len() >= 1,
    ensures
        ok <==> all_connected(adj_of(nb@)),
{
    let n = nb.len();
    let zeros: Vec<usize> = vec![0usize; n];
    let mut seen: Vec<bool> = vec![false; n];
    let ghost adj = adj_of(nb@);
    proof {
        assert(zeros@ =~= crate::graph::one_owner(n as nat));
        assert(crate::graph::marked(seen@) =~= Set::empty());
    }
    let size = explore(nb, &zeros, 0, &mut seen, 0);
    proof {
        let own = crate::graph::one_owner(n as nat);
        let reg = crate::graph::region(adj, own, 0, 0);
        crate::graph::lemma_region_finite(adj, own, 0, 0);
        lemma_int_range(0, n as int);
        if size == n {
            assert(reg.subset_of(set_int_range(0, n as int)));
            lemma_subset_equality(reg, set_int_range(0, n as int));
            assert forall|tt: int| 0 <= tt < adj.len() implies #[trigger] crate::graph::connected(adj, own, 0, 0, tt) by {
                assert(set_int_range(0, n as int).contains(tt));
            }
        }
        if all_connected(adj) {
            assert forall|tt: int| set_int_range(0, n as int).contains(tt) implies reg.contains(tt) by {
                assert(crate::graph::connected(adj, own, 0, 0, tt));
            }
            lemma_len_subset(set_int_range(0, n as int), reg);
        }
    }
    size == n
}

/// The map size never drops below one land per player.
proof fn lemma_holes_bound(p: int, h: int)
    requires
        1 <= p,
        h <= N_SEEDS - p,
    ensures
        h <= holes_from(p, h) <= N_SEEDS - p,
        (N_SEEDS - holes_from(p, h)) % p == 0,
    decreases N_SEEDS - h,
{
    if (N_SEEDS - h) % p != 0 {
        if h == N_SEEDS - p {
            vstd::arithmetic::div_mod::lemma_mod_self_0(p);
        } else {
            lemma_holes_bound(p, h + 1);
        }
    }
}

proof fn lemma_holes_ge(p: int, h: int)
    ensures
        holes_from(p, h) >= h,
    decreases N_SEEDS - h,
{
    if !(h >= N_SEEDS || p <= 0 || (N_SEEDS - h) % p == 0) {
        lemma_holes_ge(p, h + 1);
    }
}

/// No map has more than `N_SEEDS - N_HOLES` lands.
pub proof fn lemma_territory_count_le(players: int)
    ensures
        territory_count(players) <= N_SEEDS - N_HOLES,
{
    lemma_holes_ge(players, N_HOLES as int);
}

/// A map for `players` players has at least one land each, and a land count
/// every player can get the same share of.
pub proof fn lemma_territory_count(players: int)
    requires
        1 <= players <= N_SEEDS - N_HOLES,
    ensures
        players <= territory_count(players) <= N_SEEDS - N_HOLES,
        territory_count(players) % players == 0,
{
    lemma_holes_bound(players, N_HOLES as int);
}

/// The lands among the first `k` owned by `p`.
pub open spec fn owned_set(owner: Seq<usize>, p: usize, k: int) -> Set<int> {
    Set::new(|t: int| 0 <= t < k && owner[t] == p)
}

pub proof fn lemma_count_owned_set(owner: Seq<usize>, p: usize, k: int)
    requires
        0 <= k <= owner.len(),
    ensures
        owned_set(owner, p, k).finite(),
        count_owned(owner, p, k) == owned_set(owner, p, k).len(),
    decreases k,
{
    let s = owned_set(owner, p, k);
    if k == 0 {
        assert(s =~= Set::empty());
    } else {
        lemma_count_owned_set(owner, p, k - 1);
        let prev = owned_set(owner, p, k - 1);
        if owner[k - 1] == p {
            assert(s =~= prev.insert(k - 1));
        } else {
            assert(s =~= prev);
        }
    }
}

/// `0..n` in order.
pub open spec fn range_seq(n: nat) -> Seq<usize> {
    Seq::new(n, |i: int| i as usize)
}

/// Exactly `m` numbers below `m * players` leave remainder `p`.
proof fn lemma_residue_count(m: int, players: int, p: int)
    requires
        m >= 0,
        players >= 1,
        0 <= p < players,
    ensures
        Set::new(|i: int| 0 <= i < m * players && i % players == p).finite(),
        Set::new(|i: int| 0 <= i < m * players && i % players == p).len() == m,
{
    let b = Set::new(|i: int| 0 <= i < m * players && i % players == p);
    let c = set_int_range(0, m);
    let g = |j: int| j * players + p;
    lemma_int_range(0, m);
    assert forall|x: int| #[trigger] c.map(g).contains(x) <==> b.contains(x) by {
        if c.map(g).contains(x) {
            let j = choose|j: int| c.contains(j) && g(j) == x;
            vstd::arithmetic::div_mod::lemma_fundamental_div_mod_converse(x, players, j, p);
            assert(j * players + p < m * players) by (nonlinear_arith)
                requires
                    0 <= j < m,
                    0 <= p < players,
            ;
            assert(0 <= j * players) by (nonlinear_arith)
                requires
                    0 <= j,
                    0 <= players,
            ;
        }
        if b.contains(x) {
            let j = x / players;
            vstd::arithmetic::div_mod::lemma_fundamental_div_mod(x, players);
            assert(x == players * j + p);
            assert(players * j == j * players) by (nonlinear_arith);
            assert(0 <= j < m) by (nonlinear_arith)
                requires
                    x == players * j + p,
                    0 <= x < m * players,
                    0 <= p < players,
            ;
            assert(g(j) == x);
            assert(c.contains(j));
        }
    }
    assert(c.map(g) =~= b);
    assert forall|j1: int, j2: int| c.contains(j1) && c.contains(j2) && #[trigger] g(j1) == #[trigger] g(j2) implies j1 == j2 by {
        assert(j1 == j2) by (nonlinear_arith)
            requires
                j1 * players + p == j2 * players + p,
                players >= 1,
        ;
    }
    lemma_map_size(c, b, g);
}

/// `t` occurs in `order`.
spec fn listed(order: Seq<usize>, t: int) -> bool {
    exists|i: int| 0 <= i < order.len() && #[trigger] order[i] as int == t
}

/// A rearrangement of `0..n` lists every land below `n` exactly once.
proof fn lemma_perm_props(order: Seq<usize>, n: int)
    requires
        0 <= n <= N_SEEDS,
        order.len() == n,
        order.to_multiset() == range_seq(n as nat).to_multiset(),
    ensures
        forall|i: int| 0 <= i < n ==> (#[trigger] order[i] as int) < n,
        order.no_duplicates(),
        forall|t: int| 0 <= t < n ==> #[trigger] listed(order, t),
{
    broadcast use vstd::seq_lib::to_multiset_contains;

    let r = range_seq(n as nat);
    assert forall|i: int| 0 <= i < n implies (#[trigger] order[i] as int) < n by {
        assert(order.contains(order[i]));
        assert(order.to_multiset().count(order[i]) > 0);
        assert(r.to_multiset().count(order[i]) > 0);
        assert(r.contains(order[i]));
    }
    assert forall|i: int, j: int| 0 <= i < r.len() && 0 <= j < r.len() && i != j implies r[i] != r[j] by {}
    assert(r.no_duplicates());
    r.lemma_multiset_has_no_duplicates();
    assert forall|x: usize| order.to_multiset().contains(x) implies order.to_multiset().count(x) == 1 by {
        assert(r.to_multiset().contains(x));
    }
    order.lemma_multiset_has_no_duplicates_conv();
    assert forall|t: int| 0 <= t < n implies #[trigger] listed(order, t) by {
        assert(r[t] == t as usize);
        assert(r.contains(t as usize));
        assert(r.to_multiset().count(t as usize) > 0);
        assert(order.to_multiset().count(t as usize) > 0);
        assert(order.contains(t as usize));
        let i = choose|i: int| 0 <= i < n && order[i] == t as usize;
        assert(order[i] as int == t);
    }
}

/// Dealing lands round-robin along a shuffled order gives every player the
/// same number of lands.
proof fn lemma_deal_balanced(order: Seq<usize>, owner: Seq<usize>, n: int, players: int)
    requires
        0 <= n <= N_SEEDS,
        order.len() == n,
        owner.len() == n,
        players >= 1,
        n % players == 0,
        order.to_multiset() == range_seq(n as nat).to_multiset(),
        forall|i: int| 0 <= i < n ==> #[trigger] owner[order[i] as int] == i % players,
    ensures
        forall|t: int| 0 <= t < n ==> #[trigger] owner[t] < players,
        forall|p: usize| p < players ==> #[trigger] count_owned(owner, p, n) == n / players,
{
    lemma_perm_props(order, n);
    assert forall|t: int| 0 <= t < n implies #[trigger] owner[t] < players by {
        assert(listed(order, t));
        let i = choose|i: int| 0 <= i < n && #[trigger] order[i] as int == t;
        assert(owner[order[i] as int] == i % players);
    }
    assert forall|p: usize| p < players implies #[trigger] count_owned(owner, p, n) == n / players by {
        let a = owned_set(owner, p, n);
        let m = n / players;
        vstd::arithmetic::div_mod::lemma_fundamental_div_mod(n, players);
        assert(n == m * players) by (nonlinear_arith)
            requires
                n == players * m + n % players,
                n % players == 0,
        ;
        let b = Set::new(|i: int| 0 <= i < m * players && i % players == p as int);
        lemma_residue_count(m, players, p as int);
        let f = |i: int| order[i] as int;
        assert forall|x: int| #[trigger] b.map(f).contains(x) <==> a.contains(x) by {
            if b.map(f).contains(x) {
                let i = choose|i: int| b.contains(i) && f(i) == x;
                assert(owner[order[i] as int] == i % players);
            }
            if a.contains(x) {
                assert(listed(order, x));
                let i = choose|i: int| 0 <= i < n && #[trigger] order[i] as int == x;
                assert(owner[order[i] as int] == i % players);
                assert(b.contains(i));
            }
        }
        assert(b.map(f) =~= a);
        assert forall|i1: int, i2: int|
            b.contains(i1) && b.contains(i2) && #[trigger] f(i1) == #[trigger] f(i2) implies i1 == i2 by {
            if i1 != i2 {
                assert(order[i1] != order[i2]);
            }
        }
        lemma_map_size(b, a, f);
        assert(a.len() == m);
        lemma_count_owned_set(owner, p, n);

    }
}

/// Deals the lands: up to 300 shuffled round-robin deals, keeping the one
/// whose largest single-player clusters differ least (stopping early at a
/// difference of one or less). Every player gets `n / players` lands.
/// The largest connected region among players `0..k`.
pub open spec fn region_max(adj: Seq<Seq<usize>>, owner: Seq<usize>, k: int) -> int
    decreases k,
{
    if k <= 0 {
        0
    } else {
        let prev = region_max(adj, owner, k - 1);
        let r = largest_region_spec(adj, owner, (k - 1) as usize) as int;
        if r > prev {
            r
        } else {
            prev
        }
    }
}

/// The smallest of the players' largest connected regions among players
/// `0..k` (`usize::MAX` for none).
pub open spec fn region_min(adj: Seq<Seq<usize>>, owner: Seq<usize>, k: int) -> int
    decreases k,
{
    if k <= 0 {
        usize::MAX as int
    } else {
        let prev = region_min(adj, owner, k - 1);
        let r = largest_region_spec(adj, owner, (k - 1) as usize) as int;
        if r < prev {
            r
        } else {
            prev
        }
    }
}

/// How uneven a deal is: the gap between the largest and the smallest of
/// the players' largest connected regions.
pub open spec fn spread(adj: Seq<Seq<usize>>, owner: Seq<usize>, players: int) -> int {
    region_max(adj, owner, players) - region_min(adj, owner, players)
}

/// `owner` is the least uneven of a run of deals (the first of equals):
/// at most 300 of them, ending early at the first whose spread is at most one.
pub open spec fn best_deal(adj: Seq<Seq<usize>>, owner: Seq<usize>, players: int) -> bool {
    exists|tries: Seq<Seq<usize>>|
        {
            &&& 1 <= tries.len() <= 300
            &&& tries.contains(owner)
            &&& forall|k: int| 0 <= k < tries.len() ==> spread(adj, owner, players) <= spread(adj, #[trigger] tries[k], players)
            &&& forall|k: int| 0 <= k < tries.len() - 1 ==> spread(adj, #[trigger] tries[k], players) > 1
            &&& tries.len() < 300 ==> spread(adj, owner, players) <= 1
        }
}

/// Deals the lands round-robin in random orders, up to 300 times, stopping
/// early at a deal whose spread is at most one, and keeps the least uneven
/// deal (the first of equals).
fn deal_owners(nb: &Vec<Vec<usize>>, players: usize) -> (owner: Vec<usize>)
    requires
        graph_wf(adj_of(nb@)),
        1 <= players,
        nb@.len() % (players as nat) == 0,
        nb@.len() <= N_SEEDS,
    ensures
        owner@.len() == nb@.len(),
        forall|t: int| 0 <= t < nb@.len() ==> #[trigger] owner@[t] < players,
        forall|p: usize| p < players ==> #[trigger] count_owned(owner@, p, nb@.len() as int) == nb@.len() / (players as nat),
        best_deal(adj_of(nb@), owner@, players as int),
{
    let n = nb.len();
    let mut order: Vec<usize> = Vec::new();
    let mut k: usize = 0;
    while k < n
        invariant
            k <= n,
            order@ == range_seq(k as nat),
        decreases n - k,
    {
        order.push(k);
        k = k + 1;
    }
    let ghost order0 = order@;
    let mut best_assign: Vec<usize> = Vec::new();
    let mut best_spread: usize = usize::MAX;
    let mut attempt: usize = 0;
    let mut settled = false;
    let ghost mut tries: Seq<Seq<usize>> = Seq::empty();
    while attempt < 300 && !settled
        invariant
            tries.len() == attempt,
            best_spread != usize::MAX ==> {
                &&& tries.contains(best_assign@)
                &&& best_spread == spread(adj_of(nb@), best_assign@, players as int)
            },
            forall|k: int|
                0 <= k < tries.len() ==> best_spread <= spread(adj_of(nb@), #[trigger] tries[k], players as int),
            !settled ==> forall|k: int| 0 <= k < tries.len() ==> spread(adj_of(nb@), #[trigger] tries[k], players as int) > 1,
            settled ==> best_spread <= 1,
            forall|k: int| 0 <= k < tries.len() - 1 ==> spread(adj_of(nb@), #[trigger] tries[k], players as int) > 1,
            graph_wf(adj_of(nb@)),
            n == nb@.len(),
            n <= N_SEEDS,
            1 <= players,
            n % players == 0,
            order0 == range_seq(n as nat),
            order@.len() == n,
            order@.to_multiset() == order0.to_multiset(),
            attempt <= 300,
            best_spread == usize::MAX ==> attempt == 0,
            settled ==> best_spread != usize::MAX,
            best_spread != usize::MAX ==> {
                &&& best_assign@.len() == n
                &&& forall|t: int| 0 <= t < n ==> #[trigger] best_assign@[t] < players
                &&& forall|p: usize| p < players ==> #[trigger] count_owned(best_assign@, p, n as int) == n / players
            },
        decreases 300 - attempt,
    {
        shuffle(&mut order);
        proof {
            lemma_perm_props(order@, n as int);
        }
        let mut owner_of: Vec<usize> = vec![0usize; n];
        let mut i: usize = 0;
        while i < n
            invariant
                n == nb@.len(),
                i <= n,
                1 <= players,
                order@.len() == n,
                owner_of@.len() == n,
                order@.to_multiset() == order0.to_multiset(),
                order0 == range_seq(n as nat),
                forall|j: int| 0 <= j < n ==> (#[trigger] order@[j] as int) < n,
                order@.no_duplicates(),
                forall|j: int| 0 <= j < i ==> #[trigger] owner_of@[order@[j] as int] == j % (players as int),
            decreases n - i,
        {
            proof {
                broadcast use vstd::seq_lib::to_multiset_contains;
                assert(order@.contains(order@[i as int]));
                assert(order@.to_multiset().count(order@[i as int]) > 0);
                assert(order0.contains(order@[i as int]));
            }
            owner_of[order[i]] = i % players;
            proof {
                assert forall|j: int| 0 <= j < i + 1 implies #[trigger] owner_of@[order@[j] as int] == j % (
                players as int) by {
                    if j < i {
                        assert(order@[j] != order@[i as int]);
                    }
                }
            }
            i = i + 1;
        }
        let mut mn: usize = usize::MAX;
        let mut mx: usize = 0;
        let mut p: usize = 0;
        while p < players
            invariant
                graph_wf(adj_of(nb@)),
                owner_of@.len() == n,
                n == nb@.len(),
                p <= players,
                mx <= n,
                p >= 1 ==> mn <= mx,
                mn == region_min(adj_of(nb@), owner_of@, p as int),
                mx == region_max(adj_of(nb@), owner_of@, p as int),
            decreases players - p,
        {
            let best = largest_cluster(nb, &owner_of, p);
            if best < mn {
                mn = best;
            }
            if best > mx {
                mx = best;
            }
            p = p + 1;
        }
        let spread = mx - mn;
        proof {
            assert(spread == crate::board::spread(adj_of(nb@), owner_of@, players as int));
            let t0 = tries;
            tries = tries.push(owner_of@);
            assert(tries[t0.len() as int] == owner_of@);
            assert forall|k: int| 0 <= k < t0.len() implies #[trigger] tries[k] == t0[k] by {}
            if best_spread != usize::MAX {
                let j = choose|j: int| 0 <= j < t0.len() && t0[j] == best_assign@;
                assert(tries[j] == best_assign@);
            }
        }
        if spread < best_spread {
            proof {
                lemma_deal_balanced(order@, owner_of@, n as int, players as int);
            }
            best_spread = spread;
            best_assign = owner_of;
            proof {
                assert(tries[tries.len() - 1] == best_assign@);
            }
            if spread <= 1 {
                settled = true;
            }
        }
        attempt = attempt + 1;
    }
    proof {
        assert(attempt >= 1);
        assert(tries.contains(best_assign@));
        assert(tries.len() < 300 ==> spread(adj_of(nb@), best_assign@, players as int) <= 1);
        assert({
            &&& 1 <= tries.len() <= 300
            &&& tries.contains(best_assign@)
            &&& forall|k: int|
                0 <= k < tries.len() ==> spread(adj_of(nb@), best_assign@, players as int) <= spread(
                    adj_of(nb@),
                    #[trigger] tries[k],
                    players as int,
                )
            &&& forall|k: int| 0 <= k < tries.len() - 1 ==> spread(adj_of(nb@), #[trigger] tries[k], players as int) > 1
            &&& tries.len() < 300 ==> spread(adj_of(nb@), best_assign@, players as int) <= 1
        });
    }
    best_assign
}

/// Lands of one player untouched, one land of `p` gains a die: `p`'s total
/// rises by one and everyone else's stays.
proof fn lemma_dice_owned_inc(owner: Seq<usize>, dice: Seq<u32>, t: int, q: usize, k: int)
    requires
        owner.len() == dice.len(),
        0 <= t < dice.len(),
        0 <= k <= dice.len(),
        dice[t] < u32::MAX,
    ensures
        dice_owned(owner, dice.update(t, (dice[t] + 1) as u32), q, k) == dice_owned(owner, dice, q, k) + if t
            < k && owner[t] == q {
            1nat
        } else {
            0nat
        },
    decreases k,
{
    if k > 0 {
        lemma_dice_owned_inc(owner, dice, t, q, k - 1);
    }
}

proof fn lemma_dice_owned_ones(owner: Seq<usize>, dice: Seq<u32>, q: usize, k: int)
    requires
        owner.len() == dice.len(),
        0 <= k <= dice.len(),
        forall|t: int| 0 <= t < k && owner[t] == q ==> #[trigger] dice[t] == 1,
    ensures
        dice_owned(owner, dice, q, k) == count_owned(owner, q, k),
    decreases k,
{
    if k > 0 {
        lemma_dice_owned_ones(owner, dice, q, k - 1);
    }
}

proof fn lemma_dice_owned_full(owner: Seq<usize>, dice: Seq<u32>, q: usize, k: int)
    requires
        owner.len() == dice.len(),
        0 <= k <= dice.len(),
        forall|t: int| 0 <= t < k && owner[t] == q ==> #[trigger] dice[t] >= MAX_DICE,
    ensures
        dice_owned(owner, dice, q, k) >= MAX_DICE * count_owned(owner, q, k),
    decreases k,
{
    if k > 0 {
        lemma_dice_owned_full(owner, dice, q, k - 1);
    }
}

/// Starting dice: one per land, then each player gets twice its land count
/// in extra dice, each on a random land of its own below `MAX_DICE`.
fn deal_dice(owner: &Vec<usize>, players: usize) -> (dice: Vec<u32>)
    requires
        owner@.len() <= N_SEEDS,
        forall|t: int| 0 <= t < owner@.len() ==> #[trigger] owner@[t] < players,
    ensures
        dice@.len() == owner@.len(),
        forall|t: int| 0 <= t < owner@.len() ==> 1 <= #[trigger] dice@[t] <= MAX_DICE,
        forall|p: usize|
            p < players ==> #[trigger] dice_owned(owner@, dice@, p, owner@.len() as int) == 3 * count_owned(
                owner@,
                p,
                owner@.len() as int,
            ),
{
    let n = owner.len();
    let mut dice: Vec<u32> = vec![1u32; n];
    let mut p: usize = 0;
    while p < players
        invariant
            n == owner@.len(),
            n <= N_SEEDS,
            p <= players,
            dice@.len() == n,
            forall|t: int| 0 <= t < n ==> #[trigger] owner@[t] < players,
            forall|t: int| 0 <= t < n ==> 1 <= #[trigger] dice@[t] <= MAX_DICE,
            forall|t: int| 0 <= t < n && owner@[t] >= p ==> #[trigger] dice@[t] == 1,
            forall|q: usize| q < p ==> #[trigger] dice_owned(owner@, dice@, q, n as int) == 3 * count_owned(
                owner@,
                q,
                n as int,
            ),
        decreases players - p,
    {
        let mut cnt: usize = 0;
        let mut t: usize = 0;
        while t < n
            invariant
                n == owner@.len(),
                t <= n,
                cnt == count_owned(owner@, p, t as int),
                cnt <= t,
            decreases n - t,
        {
            if owner[t] == p {
                cnt = cnt + 1;
            }
            t = t + 1;
        }
        proof {
            lemma_dice_owned_ones(owner@, dice@, p, n as int);
        }
        let mut k: usize = 0;
        while k < cnt * 2
            invariant
                n == owner@.len(),
                n <= N_SEEDS,
                p < players,
                dice@.len() == n,
                cnt == count_owned(owner@, p, n as int),
                cnt <= n,
                k <= cnt * 2,
                forall|t: int| 0 <= t < n ==> 1 <= #[trigger] dice@[t] <= MAX_DICE,
                forall|t: int| 0 <= t < n && owner@[t] > p ==> #[trigger] dice@[t] == 1,
                dice_owned(owner@, dice@, p, n as int) == cnt + k,
                forall|q: usize| q < p ==> #[trigger] dice_owned(owner@, dice@, q, n as int) == 3 * count_owned(
                    owner@,
                    q,
                    n as int,
                ),
            decreases cnt * 2 - k,
        {
            let mut cand: Vec<usize> = Vec::new();
            let mut t: usize = 0;
            while t < n
                invariant
                    n == owner@.len(),
                    dice@.len() == n,
                    t <= n,
                    cand@.len() <= t,
                    forall|a: int|
                        0 <= a < cand@.len() ==> (#[trigger] cand@[a] as int) < n && owner@[cand@[a] as int] == p
                            && dice@[cand@[a] as int] < MAX_DICE,
                    cand@.len() == 0 ==> forall|x: int| 0 <= x < t && owner@[x] == p ==> #[trigger] dice@[x] >= MAX_DICE,
                decreases n - t,
            {
                if owner[t] == p && dice[t] < MAX_DICE {
                    cand.push(t);
                }
                t = t + 1;
            }
            proof {
                if cand@.len() == 0 {
                    lemma_dice_owned_full(owner@, dice@, p, n as int);
                }
            }
            let pick = cand[rand_index(cand.len())];
            proof {
                assert forall|q: usize| #![trigger dice_owned(owner@, dice@.update(pick as int, (dice@[pick as int] + 1) as u32), q, n as int)]
                    true implies dice_owned(owner@, dice@.update(pick as int, (dice@[pick as int] + 1) as u32), q, n as int)
                    == dice_owned(owner@, dice@, q, n as int) + if owner@[pick as int] == q {
                    1nat
                } else {
                    0nat
                } by {
                    lemma_dice_owned_inc(owner@, dice@, pick as int, q, n as int);
                }
            }
            dice[pick] = dice[pick] + 1;
            k = k + 1;
        }
        p = p + 1;
    }
    dice
}

/// What a freshly generated map for `players` players looks like.
pub open spec fn fresh_map(b: Board, players: usize) -> bool {
    let n = b.n() as int;
    let ct = b.cell_terr@;
    &&& b.wf()
    &&& n == territory_count(players as int)
    &&& n % (players as int) == 0
    // every land has at least three cells
    &&& forall|t: int| 0 <= t < n ==> #[trigger] cells_in(ct, t, CELLS as int) >= 3
    // neighbors are exactly the lands sharing a hex edge, listed in ascending order
    &&& forall|t: int, u: int| 0 <= t < n ==> (has_nb(b.adj(), t, u) <==> (0 <= u < n && touches(ct, t, u)))
    &&& forall|t: int, i: int, j: int|
        0 <= t < n && 0 <= i < j < b.adj()[t].len() ==> #[trigger] b.adj()[t][i] < #[trigger] b.adj()[t][j]
    // the whole map is one connected landmass
    &&& all_connected(b.adj())
    &&& forall|t: int| 0 <= t < n ==> #[trigger] b.owner@[t] < players
    &&& forall|t: int| 0 <= t < n ==> 1 <= #[trigger] b.dice@[t] <= MAX_DICE
    &&& forall|t: int| 0 <= t < n ==> #[trigger] b.die_seed@[t] < 1_000_000
    // every player gets the same number of lands and three dice per land
    &&& forall|p: usize| p < players ==> #[trigger] count_owned(b.owner@, p, n) == n / (players as int)
    &&& forall|p: usize| p < players ==> #[trigger] dice_owned(b.owner@, b.dice@, p, n) == 3 * (n / (players as int))
}

/// A generated map with its computer players' personalities and the player
/// who moves first.
pub struct Setup {
    pub board: Board,
    pub personas: Vec<Persona>,
    pub first: usize,
}

/// Personality for a draw in `0..5`.
pub open spec fn spec_persona(k: u32) -> Persona {
    if k == 0 {
        Persona::Aggressive
    } else if k == 1 {
        Persona::Defensive
    } else if k == 2 {
        Persona::Greedy
    } else if k == 3 {
        Persona::Balancer
    } else {
        Persona::Chaotic
    }
}

fn persona_of(k: u32) -> (p: Persona)
    ensures
        p == spec_persona(k),
{
    match k {
        0 => Persona::Aggressive,
        1 => Persona::Defensive,
        2 => Persona::Greedy,
        3 => Persona::Balancer,
        _ => Persona::Chaotic,
    }
}

/// A walk over lands `0..n`, each step between lands that share a hex edge.
pub open spec fn land_walk(ct: Seq<i32>, n: int, path: Seq<int>) -> bool {
    &&& path.len() > 0
    &&& 0 <= path[0] < n
    &&& forall|i: int|
        0 <= i < path.len() - 1 ==> 0 <= #[trigger] path[i + 1] < n && touches(ct, path[i], path[i + 1])
}

/// Land `t` can be reached from land 0 across shared hex edges.
pub open spec fn reachable(ct: Seq<i32>, n: int, t: int) -> bool {
    exists|path: Seq<int>| #[trigger] land_walk(ct, n, path) && path[0] == 0 && path.last() == t
}

/// Every land `0..n` can be reached from land 0 across shared hex edges.
pub open spec fn lands_connected(ct: Seq<i32>, n: int) -> bool {
    forall|t: int| 0 <= t < n ==> #[trigger] reachable(ct, n, t)
}

/// What a drawn layout must pass to become a map: every land has at least
/// three cells, and the lands hang together.
pub open spec fn layout_ok(ct: Seq<i32>, n: int) -> bool {
    &&& forall|t: int| 0 <= t < n ==> #[trigger] cells_in(ct, t, CELLS as int) >= 3
    &&& lands_connected(ct, n)
}

/// Connectivity over adjacency lists that list exactly the touching lands
/// is connectivity across shared hex edges.
proof fn lemma_connected_layout(ct: Seq<i32>, nb: Seq<Seq<usize>>, n: int)
    requires
        n >= 1,
        nb.len() == n,
        forall|t: int, u: int| 0 <= t < n ==> (has_nb(nb, t, u) <==> (0 <= u < n && touches(ct, t, u))),
    ensures
        all_connected(nb) <==> lands_connected(ct, n),
{
    let own = crate::graph::one_owner(nb.len());
    assert forall|path: Seq<int>| #[trigger] crate::graph::is_path(nb, own, 0, path) <==> land_walk(ct, n, path) by {
        if crate::graph::is_path(nb, own, 0, path) {
            assert forall|i: int| 0 <= i < path.len() - 1 implies 0 <= #[trigger] path[i + 1] < n && touches(
                ct,
                path[i],
                path[i + 1],
            ) by {
                assert(crate::graph::linked(nb, own, 0, path[i], path[i + 1]));
            }
        }
        if land_walk(ct, n, path) {
            assert forall|i: int| 0 <= i < path.len() - 1 implies #[trigger] crate::graph::linked(
                nb,
                own,
                0,
                path[i],
                path[i + 1],
            ) by {
                assert(0 <= path[i + 1] < n && touches(ct, path[i], path[i + 1]));
                if i > 0 {
                    assert(0 <= path[(i - 1) + 1] < n);
                }
            }
        }
    }
    if all_connected(nb) {
        assert forall|t: int| 0 <= t < n implies #[trigger] reachable(ct, n, t) by {
            assert(crate::graph::connected(nb, own, 0, 0, t));
            let path = choose|path: Seq<int>| #[trigger] crate::graph::is_path(nb, own, 0, path) && path[0] == 0
                && path.last() == t;
            assert(land_walk(ct, n, path));
        }
    }
    if lands_connected(ct, n) {
        assert forall|t: int| 0 <= t < nb.len() implies #[trigger] crate::graph::connected(nb, own, 0, 0, t) by {
            assert(reachable(ct, n, t));
            let path = choose|path: Seq<int>| #[trigger] land_walk(ct, n, path) && path[0] == 0 && path.last() == t;
            assert(crate::graph::is_path(nb, own, 0, path));
        }
    }
}

/// The layout an attempt draws for `players` players: regions grown from
/// random seeds until the grid is full, then the holes punched (see
/// `grow_regions`, `punch_holes`). `None` only if the seed draws ran out of
/// their budget.
pub fn draw_layout(players: usize) -> (res: Option<(Vec<i32>, usize)>)
    requires
        1 <= players <= N_SEEDS - N_HOLES,
    ensures
        res matches Some((ct, n)) ==> {
            &&& ct@.len() == CELLS
            &&& n == territory_count(players as int)
            &&& 1 <= n <= N_SEEDS
            &&& (n as int) % (players as int) == 0
            &&& forall|i: int| 0 <= i < CELLS ==> -1 <= #[trigger] ct@[i] < n
            &&& exists|g: Seq<i32>, ids: Seq<usize>|
                {
                    &&& g.len() == CELLS
                    &&& forall|k: int| 0 <= k < N_SEEDS ==> #[trigger] region_used(g, k)
                    &&& fully_grown(g)
                    &&& ids.len() == N_SEEDS
                    &&& ids.no_duplicates()
                    &&& forall|k: int| 0 <= k < N_SEEDS ==> (#[trigger] ids[k] as int) < N_SEEDS
                    &&& forall|c: int| 0 <= c < CELLS ==> #[trigger] ct@[c] == renumbered(ids, N_SEEDS - n, g[c])
                }
        },
{
    let mut ct = match grow_regions() {
        Some(c) => c,
        None => {
            return None;
        },
    };
    let ghost g = ct@;
    let n = punch_holes(&mut ct, players);
    proof {
        lemma_territory_count(players as int);
        let ids = choose|ids: Seq<usize>|
            {
                &&& ids.len() == N_SEEDS
                &&& ids.no_duplicates()
                &&& forall|k: int| 0 <= k < N_SEEDS ==> (#[trigger] ids[k] as int) < N_SEEDS
                &&& forall|c: int| 0 <= c < CELLS ==> #[trigger] ct@[c] == renumbered(ids, N_SEEDS - n, g[c])
            };
        assert(g.len() == CELLS);
    }
    Some((ct, n))
}

/// Turns a drawn layout into a map for `players` players: `None` exactly
/// when the layout fails (a land with fewer than three cells, or lands that
/// fall apart into pieces); otherwise the lands are dealt to the players
/// (the least uneven of up to 300 deals), with three dice per land for each
/// player, personalities and the first player drawn.
pub fn finish_map(ct: Vec<i32>, n: usize, players: usize) -> (res: Option<Setup>)
    requires
        1 <= players <= N_SEEDS - N_HOLES,
        ct@.len() == CELLS,
        n == territory_count(players as int),
        forall|i: int| 0 <= i < CELLS ==> -1 <= #[trigger] ct@[i] < n,
    ensures
        res is None <==> !layout_ok(ct@, n as int),
        res matches Some(s) ==> {
            &&& s.board.cell_terr@ == ct@
            &&& fresh_map(s.board, players)
            &&& best_deal(s.board.adj(), s.board.owner@, players as int)
            &&& s.personas@.len() == players
            &&& s.first < players
        },
{
    proof {
        lemma_territory_count(players as int);
    }
    if !regions_large_enough(&ct, n) {
        return None;
    }
    let nb = territory_neighbors(&ct, n);
    proof {
        lemma_connected_layout(ct@, adj_of(nb@), n as int);
    }
    if !is_connected(&nb) {
        return None;
    }
    let mut die_seed: Vec<u32> = Vec::new();
    let mut t: usize = 0;
    while t < n
        invariant
            t <= n,
            die_seed@.len() == t,
            forall|i: int| 0 <= i < t ==> #[trigger] die_seed@[i] < 1_000_000,
        decreases n - t,
    {
        die_seed.push(rand_range(0, 1_000_000));
        t = t + 1;
    }
    let owner = deal_owners(&nb, players);
    let dice = deal_dice(&owner, players);
    let mut personas: Vec<Persona> = Vec::new();
    let mut p: usize = 0;
    while p < players
        invariant
            p <= players,
            personas@.len() == p,
        decreases players - p,
    {
        personas.push(persona_of(rand_range(0, 5)));
        p = p + 1;
    }
    let first = rand_index(players);
    let board = Board { cell_terr: ct, owner, dice, neighbors: nb, die_seed };
    proof {
        assert forall|pp: usize| pp < players implies #[trigger] dice_owned(board.owner@, board.dice@, pp, n as int) == 3 * (
        n as int / (players as int)) by {
            assert(count_owned(board.owner@, pp, n as int) == n as int / (players as int));
        }
    }
    Some(Setup { board, personas, first })
}

/// One attempt at generating a map for `players` players, drawing from the
/// global generator (seeded beforehand for a reproducible map): a layout is
/// drawn (`draw_layout`) and finished (`finish_map`). `None` when the layout
/// is rejected (see `finish_map`, which states exactly when) or the seed
/// draws ran out; which layout comes out depends on the draws. The caller
/// then tries again.
pub fn try_generate(players: usize) -> (res: Option<Setup>)
    requires
        1 <= players <= N_SEEDS - N_HOLES,
    ensures
        res matches Some(s) ==> {
            &&& fresh_map(s.board, players)
            &&& layout_ok(s.board.cell_terr@, s.board.n() as int)
            &&& best_deal(s.board.adj(), s.board.owner@, players as int)
            &&& s.personas@.len() == players
            &&& s.first < players
        },
{
    match draw_layout(players) {
        Some((ct, n)) => finish_map(ct, n, players),
        None => None,
    }
}

/// The seat that owns a land once the human (seat 0) takes over the lands of
/// seat `c`: seats 0 and `c` trade places.
pub open spec fn swapped_seat(p: usize, c: usize) -> usize {
    if p == 0 {
        c
    } else if p == c {
        0
    } else {
        p
    }
}

proof fn lemma_swapped_counts(owner: Seq<usize>, owner2: Seq<usize>, dice: Seq<u32>, c: usize, p: usize, k: int)
    requires
        0 <= k <= owner.len(),
        owner2.len() == owner.len(),
        forall|t: int| 0 <= t < owner.len() ==> #[trigger] owner2[t] == swapped_seat(owner[t], c),
    ensures
        count_owned(owner2, p, k) == count_owned(owner, swapped_seat(p, c), k),
        dice_owned(owner2, dice, p, k) == dice_owned(owner, dice, swapped_seat(p, c), k),
    decreases k,
{
    if k > 0 {
        lemma_swapped_counts(owner, owner2, dice, c, p, k - 1);
        assert(owner2[k - 1] == swapped_seat(owner[k - 1], c));
    }
}

/// The human plays the map position of color `c`, the color picked: seats 0
/// and `c` trade their lands, their personalities and the first move, so
/// that every land keeps its palette slot (see `lemma_color_pick_keeps_look`).
pub fn take_color(s: &mut Setup, players: usize, c: usize)
    requires
        fresh_map(old(s).board, players),
        old(s).personas@.len() == players,
        old(s).first < players,
        c < players,
    ensures
        fresh_map(final(s).board, players),
        final(s).board.cell_terr == old(s).board.cell_terr,
        final(s).board.dice == old(s).board.dice,
        final(s).board.neighbors == old(s).board.neighbors,
        final(s).board.die_seed == old(s).board.die_seed,
        final(s).board.owner@.len() == old(s).board.owner@.len(),
        forall|t: int|
            0 <= t < old(s).board.owner@.len() ==> #[trigger] final(s).board.owner@[t] == swapped_seat(
                old(s).board.owner@[t],
                c,
            ),
        final(s).personas@ == old(s).personas@.update(0, old(s).personas@[c as int]).update(
            c as int,
            old(s).personas@[0],
        ),
        final(s).first == swapped_seat(old(s).first, c),
{
    let ghost owner0 = s.board.owner@;
    let n = s.board.owner.len();
    let mut t: usize = 0;
    while t < n
        invariant
            n == owner0.len(),
            s.board.owner@.len() == n,
            t <= n,
            forall|u: int| 0 <= u < t ==> #[trigger] s.board.owner@[u] == swapped_seat(owner0[u], c),
            forall|u: int| t <= u < n ==> #[trigger] s.board.owner@[u] == owner0[u],
            owner0 == old(s).board.owner@,
            s.personas == old(s).personas,
            s.first == old(s).first,
            s.board.cell_terr == old(s).board.cell_terr,
            s.board.dice == old(s).board.dice,
            s.board.neighbors == old(s).board.neighbors,
            s.board.die_seed == old(s).board.die_seed,
        decreases n - t,
    {
        let q = s.board.owner[t];
        let r = if q == 0 {
            c
        } else if q == c {
            0
        } else {
            q
        };
        s.board.owner.set(t, r);
        t = t + 1;
    }
    let p0 = s.personas[0];
    let pc = s.personas[c];
    s.personas.set(0, pc);
    s.personas.set(c, p0);
    s.first = if s.first == 0 {
        c
    } else if s.first == c {
        0
    } else {
        s.first
    };
    proof {
        let b = s.board;
        let nn = n as int;
        let b0 = old(s).board;
        assert forall|p: usize| p < players implies #[trigger] count_owned(b.owner@, p, nn) == nn / (players as int) by {
            lemma_swapped_counts(owner0, b.owner@, b.dice@, c, p, nn);
            assert(count_owned(b0.owner@, swapped_seat(p, c), nn) == nn / (players as int));
        }
        assert forall|p: usize| p < players implies #[trigger] dice_owned(b.owner@, b.dice@, p, nn) == 3 * (nn / (
        players as int)) by {
            lemma_swapped_counts(owner0, b.owner@, b.dice@, c, p, nn);
            assert(dice_owned(b0.owner@, b0.dice@, swapped_seat(p, c), nn) == 3 * (nn / (players as int)));
        }
        assert(b.adj() == b0.adj());
        assert(b.n() == b0.n());
        assert forall|u: int| 0 <= u < nn implies #[trigger] b.owner@[u] < players by {
            assert(owner0[u] < players);
        }
    }
}

/// Picking color `c` keeps the map's look: once seats 0 and `c` traded
/// lands (`take_color`), every land is drawn in the palette slot
/// (`rules::color_map` with the color picked) it had with the first color,
/// and the human owns exactly the lands that seat `c` had.
pub proof fn lemma_color_pick_keeps_look(p: usize, c: usize)
    ensures
        crate::rules::spec_color_map(c, swapped_seat(p, c)) == crate::rules::spec_color_map(0, p),
        crate::rules::spec_color_map(0, p) == p,
        (swapped_seat(p, c) == 0) == (p == c),
{
}

} // verus!
