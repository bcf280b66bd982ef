//! Regions of a territory graph: which lands of one owner hang together, and
//! how big the largest such group is. Territories are numbered `0..n` and
//! `adj[t]` lists the neighbors of `t`.
use vstd::prelude::*;
use vstd::set_lib::*;

verus! {

/// The adjacency lists held by a vector of neighbor vectors.
pub open spec fn adj_of(nb: Seq<Vec<usize>>) -> Seq<Seq<usize>> {
    nb.map_values(|v: Vec<usize>| v@)
}

/// `v` is listed among the neighbors of `u`.
pub open spec fn has_nb(adj: Seq<Seq<usize>>, u: int, v: int) -> bool {
    exists|i: int| 0 <= i < adj[u].len() && #[trigger] adj[u][i] as int == v
}

/// Every neighbor index is in range, no land neighbors itself, and
/// adjacency goes both ways.
pub open spec fn graph_wf(adj: Seq<Seq<usize>>) -> bool {
    forall|t: int, i: int|
        #![trigger adj[t][i]]
        0 <= t < adj.len() && 0 <= i < adj[t].len() ==> {
            &&& (adj[t][i] as int) < adj.len()
            &&& adj[t][i] as int != t
            &&& has_nb(adj, adj[t][i] as int, t)
        }
}

/// `u` and `v` are adjacent lands that both belong to `p`.
pub open spec fn linked(adj: Seq<Seq<usize>>, owner: Seq<usize>, p: usize, u: int, v: int) -> bool {
    &&& 0 <= u < adj.len()
    &&& 0 <= v < adj.len()
    &&& owner[u] == p
    &&& owner[v] == p
    &&& has_nb(adj, u, v)
}

/// A walk over lands of `p`, each step between adjacent lands.
pub open spec fn is_path(adj: Seq<Seq<usize>>, owner: Seq<usize>, p: usize, path: Seq<int>) -> bool {
    &&& path.len() > 0
    &&& 0 <= path[0] < adj.len()
    &&& owner[path[0]] == p
    &&& forall|i: int| 0 <= i < path.len() - 1 ==> #[trigger] linked(adj, owner, p, path[i], path[i + 1])
}

/// `b` can be reached from `a` without leaving the lands of `p`.
pub open spec fn connected(adj: Seq<Seq<usize>>, owner: Seq<usize>, p: usize, a: int, b: int) -> bool {
    exists|path: Seq<int>| #[trigger] is_path(adj, owner, p, path) && path[0] == a && path.last() == b
}

/// The connected group of lands of `p` that contains `a` (empty if `p` does not own `a`).
pub open spec fn region(adj: Seq<Seq<usize>>, owner: Seq<usize>, p: usize, a: int) -> Set<int> {
    Set::new(|b: int| 0 <= b < adj.len() && connected(adj, owner, p, a, b))
}

/// The size of the largest connected group of lands of `p` among the groups of lands `0..k`.
pub open spec fn largest_upto(adj: Seq<Seq<usize>>, owner: Seq<usize>, p: usize, k: int) -> nat
    decreases k,
{
    if k <= 0 {
        0
    } else {
        let prev = largest_upto(adj, owner, p, k - 1);
        let here = if owner[k - 1] == p {
            region(adj, owner, p, k - 1).len()
        } else {
            0
        };
        if here > prev {
            here
        } else {
            prev
        }
    }
}

/// The size of the largest connected group of lands owned by `p`.
pub open spec fn largest_region_spec(adj: Seq<Seq<usize>>, owner: Seq<usize>, p: usize) -> nat {
    largest_upto(adj, owner, p, adj.len() as int)
}

/// `n` lands all owned by player 0.
pub open spec fn one_owner(n: nat) -> Seq<usize> {
    Seq::new(n, |i: int| 0usize)
}

/// Every land can be reached from land 0 (ownership ignored).
pub open spec fn all_connected(adj: Seq<Seq<usize>>) -> bool {
    forall|t: int| 0 <= t < adj.len() ==> #[trigger] connected(adj, one_owner(adj.len()), 0, 0, t)
}

/// A set of lands that no step over lands of `p` leaves.
pub open spec fn closed(adj: Seq<Seq<usize>>, owner: Seq<usize>, p: usize, s: Set<int>) -> bool {
    forall|u: int, v: int| #[trigger] s.contains(u) && #[trigger] linked(adj, owner, p, u, v) ==> s.contains(v)
}

pub proof fn lemma_single(adj: Seq<Seq<usize>>, owner: Seq<usize>, p: usize, a: int)
    requires
        0 <= a < adj.len(),
        owner[a] == p,
    ensures
        connected(adj, owner, p, a, a),
{
    let path = seq![a];
    assert(is_path(adj, owner, p, path));
}

pub proof fn lemma_extend(adj: Seq<Seq<usize>>, owner: Seq<usize>, p: usize, a: int, b: int, c: int)
    requires
        connected(adj, owner, p, a, b),
        linked(adj, owner, p, b, c),
    ensures
        connected(adj, owner, p, a, c),
{
    let path = choose|path: Seq<int>| #[trigger] is_path(adj, owner, p, path) && path[0] == a && path.last() == b;
    let np = path.push(c);
    assert forall|i: int| 0 <= i < np.len() - 1 implies #[trigger] linked(adj, owner, p, np[i], np[i + 1]) by {
        if i < path.len() - 1 {
            assert(linked(adj, owner, p, path[i], path[i + 1]));
        }
    }
    assert(is_path(adj, owner, p, np));
}

pub proof fn lemma_connected_in_range(adj: Seq<Seq<usize>>, owner: Seq<usize>, p: usize, a: int, b: int)
    requires
        connected(adj, owner, p, a, b),
    ensures
        0 <= a < adj.len(),
        0 <= b < adj.len(),
        owner[a] == p,
        owner[b] == p,
{
    let path = choose|path: Seq<int>| #[trigger] is_path(adj, owner, p, path) && path[0] == a && path.last() == b;
    if path.len() > 1 {
        assert(linked(adj, owner, p, path[path.len() - 2], path[path.len() - 2 + 1]));
    }
}

/// Every walk that starts in a closed set stays in it.
pub proof fn lemma_closed_path(adj: Seq<Seq<usize>>, owner: Seq<usize>, p: usize, s: Set<int>, path: Seq<int>)
    requires
        is_path(adj, owner, p, path),
        closed(adj, owner, p, s),
        s.contains(path[0]),
    ensures
        s.contains(path.last()),
    decreases path.len(),
{
    if path.len() > 1 {
        let q = path.drop_last();
        assert forall|i: int| 0 <= i < q.len() - 1 implies #[trigger] linked(adj, owner, p, q[i], q[i + 1]) by {
            assert(linked(adj, owner, p, path[i], path[i + 1]));
        }
        lemma_closed_path(adj, owner, p, s, q);
        assert(linked(adj, owner, p, path[path.len() - 2], path[path.len() - 2 + 1]));
    }
}

pub proof fn lemma_closed_reach(adj: Seq<Seq<usize>>, owner: Seq<usize>, p: usize, s: Set<int>, a: int, b: int)
    requires
        closed(adj, owner, p, s),
        s.contains(a),
        connected(adj, owner, p, a, b),
    ensures
        s.contains(b),
{
    let path = choose|path: Seq<int>| #[trigger] is_path(adj, owner, p, path) && path[0] == a && path.last() == b;
    lemma_closed_path(adj, owner, p, s, path);
}

pub proof fn lemma_trans(adj: Seq<Seq<usize>>, owner: Seq<usize>, p: usize, a: int, b: int, c: int)
    requires
        connected(adj, owner, p, a, b),
        connected(adj, owner, p, b, c),
    ensures
        connected(adj, owner, p, a, c),
{
    let p1 = choose|path: Seq<int>| #[trigger] is_path(adj, owner, p, path) && path[0] == a && path.last() == b;
    let p2 = choose|path: Seq<int>| #[trigger] is_path(adj, owner, p, path) && path[0] == b && path.last() == c;
    let np = p1 + p2.skip(1);
    assert forall|i: int| 0 <= i < np.len() - 1 implies #[trigger] linked(adj, owner, p, np[i], np[i + 1]) by {
        if i < p1.len() - 1 {
            assert(linked(adj, owner, p, p1[i], p1[i + 1]));
        } else {
            let j = i - (p1.len() - 1);
            assert(linked(adj, owner, p, p2[j], p2[j + 1]));
        }
    }
    assert(is_path(adj, owner, p, np));
}

/// Adjacency is symmetric, so reachability is too.
pub proof fn lemma_symmetric(adj: Seq<Seq<usize>>, owner: Seq<usize>, p: usize, a: int, b: int)
    requires
        graph_wf(adj),
        connected(adj, owner, p, a, b),
    ensures
        connected(adj, owner, p, b, a),
{
    let path = choose|path: Seq<int>| #[trigger] is_path(adj, owner, p, path) && path[0] == a && path.last() == b;
    lemma_symmetric_path(adj, owner, p, path);
}

proof fn lemma_symmetric_path(adj: Seq<Seq<usize>>, owner: Seq<usize>, p: usize, path: Seq<int>)
    requires
        graph_wf(adj),
        is_path(adj, owner, p, path),
    ensures
        connected(adj, owner, p, path.last(), path[0]),
    decreases path.len(),
{
    if path.len() == 1 {
        lemma_single(adj, owner, p, path[0]);
    } else {
        let q = path.drop_last();
        assert forall|i: int| 0 <= i < q.len() - 1 implies #[trigger] linked(adj, owner, p, q[i], q[i + 1]) by {
            assert(linked(adj, owner, p, path[i], path[i + 1]));
        }
        lemma_symmetric_path(adj, owner, p, q);
        let x = path[path.len() - 2];
        let b = path.last();
        assert(linked(adj, owner, p, x, path[path.len() - 2 + 1]));
        let k = choose|k: int| 0 <= k < adj[x].len() && #[trigger] adj[x][k] as int == b;
        assert(has_nb(adj, adj[x][k] as int, x));
        assert(linked(adj, owner, p, b, x));
        lemma_single(adj, owner, p, b);
        lemma_extend(adj, owner, p, b, b, x);
        lemma_trans(adj, owner, p, b, x, path[0]);
    }
}

pub proof fn lemma_region_finite(adj: Seq<Seq<usize>>, owner: Seq<usize>, p: usize, a: int)
    ensures
        region(adj, owner, p, a).finite(),
        region(adj, owner, p, a).len() <= adj.len(),
{
    lemma_int_range(0, adj.len() as int);
    lemma_len_subset(region(adj, owner, p, a), set_int_range(0, adj.len() as int));
}

/// Any land of a group has the same group.
pub proof fn lemma_region_eq(adj: Seq<Seq<usize>>, owner: Seq<usize>, p: usize, s: int, x: int)
    requires
        graph_wf(adj),
        region(adj, owner, p, s).contains(x),
    ensures
        region(adj, owner, p, x) == region(adj, owner, p, s),
{
    assert forall|y: int| region(adj, owner, p, x).contains(y) <==> region(adj, owner, p, s).contains(y) by {
        if region(adj, owner, p, x).contains(y) {
            lemma_trans(adj, owner, p, s, x, y);
        }
        if region(adj, owner, p, s).contains(y) {
            lemma_symmetric(adj, owner, p, s, x);
            lemma_trans(adj, owner, p, x, s, y);
        }
    }
    assert(region(adj, owner, p, x) =~= region(adj, owner, p, s));
}

pub proof fn lemma_largest_mono(adj: Seq<Seq<usize>>, owner: Seq<usize>, p: usize, j: int, k: int)
    requires
        j <= k,
    ensures
        largest_upto(adj, owner, p, j) <= largest_upto(adj, owner, p, k),
    decreases k - j,
{
    if j < k {
        lemma_largest_mono(adj, owner, p, j, k - 1);
    }
}

/// The set of lands marked in `seen`.
pub open spec fn marked(seen: Seq<bool>) -> Set<int> {
    Set::new(|x: int| 0 <= x < seen.len() && seen[x])
}

/// Depth-first search from `start` over lands of `p`: marks the whole group of
/// `start` in `seen` and returns its size. `seen` must already be closed under
/// steps, so the group is exactly what gets newly marked.
pub fn explore(nb: &Vec<Vec<usize>>, owner: &Vec<usize>, p: usize, seen: &mut Vec<bool>, start: usize) -> (size: usize)
    requires
        graph_wf(adj_of(nb@)),
        owner.len() == nb.len(),
        old(seen).len() == nb.len(),
        start < nb.len(),
        owner[start as int] == p,
        !old(seen)[start as int],
        closed(adj_of(nb@), owner@, p, marked(old(seen)@)),
    ensures
        final(seen).len() == old(seen).len(),
        marked(final(seen)@) == marked(old(seen)@).union(region(adj_of(nb@), owner@, p, start as int)),
        marked(old(seen)@).disjoint(region(adj_of(nb@), owner@, p, start as int)),
        size == region(adj_of(nb@), owner@, p, start as int).len(),
        closed(adj_of(nb@), owner@, p, marked(final(seen)@)),
{
    let ghost adj = adj_of(nb@);
    let ghost own = owner@;
    let ghost n = nb.len() as int;
    let ghost old_seen = marked(seen@);
    let ghost reg = region(adj, own, p, start as int);
    proof {
        lemma_region_finite(adj, own, p, start as int);
        lemma_single(adj, own, p, start as int);
    }
    seen[start] = true;
    let mut stack: Vec<usize> = Vec::new();
    stack.push(start);
    let ghost mut new_set: Set<int> = Set::empty().insert(start as int);
    let ghost mut done: Set<int> = Set::empty();
    let mut size: usize = 0;
    while stack.len() > 0
        invariant
            adj == adj_of(nb@),
            own == owner@,
            n == nb.len(),
            graph_wf(adj),
            owner.len() == nb.len(),
            seen.len() == n,
            0 <= start < n,
            reg == region(adj, own, p, start as int),
            reg.finite(),
            reg.len() <= n,
            closed(adj, own, p, old_seen),
            forall|x: int| 0 <= x < n ==> (seen@[x] <==> (old_seen.contains(x) || new_set.contains(x))),
            new_set.subset_of(reg),
            new_set.contains(start as int),
            new_set.finite(),
            old_seen.disjoint(new_set),
            done.subset_of(new_set),
            done.finite(),
            forall|i: int|
                0 <= i < stack.len() ==> new_set.contains(#[trigger] stack@[i] as int) && !done.contains(
                    stack@[i] as int,
                ),
            forall|i: int, j: int| 0 <= i < j < stack.len() ==> stack@[i] != stack@[j],
            done.len() + stack.len() == new_set.len(),
            size == done.len(),
            forall|u: int, v: int|
                #![trigger done.contains(u), linked(adj, own, p, u, v)]
                done.contains(u) && linked(adj, own, p, u, v) ==> seen@[v],
        decreases n - new_set.len(), stack.len(),
    {
        proof {
            lemma_len_subset(new_set, reg);
            lemma_len_subset(done, new_set);
        }
        let ghost stack_before = stack@;
        let t = stack.pop().unwrap();
        let ghost stack_after_pop = stack@;
        let ghost tn = t as int;
        proof {
            assert(stack_before[stack_before.len() - 1] == t);
            assert(new_set.contains(tn));
            assert(!done.contains(tn));
            lemma_connected_in_range(adj, own, p, start as int, tn);
            lemma_len_subset(done.insert(tn), new_set);
        }
        size = size + 1;
        let ghost ns0 = new_set;
        let row = &nb[t];
        let mut k: usize = 0;
        while k < row.len()
            invariant
                adj == adj_of(nb@),
                own == owner@,
                n == nb.len(),
                graph_wf(adj),
                owner.len() == nb.len(),
                seen.len() == n,
                0 <= tn < n,
                t == tn,
                own[tn] == p,
                row@ == adj[tn],
                k <= row.len(),
                0 <= start < n,
                reg == region(adj, own, p, start as int),
                reg.finite(),
                reg.len() <= n,
                forall|x: int| 0 <= x < n ==> (seen@[x] <==> (old_seen.contains(x) || new_set.contains(x))),
                new_set.subset_of(reg),
                new_set.contains(start as int),
                new_set.contains(tn),
                new_set.finite(),
                old_seen.disjoint(new_set),
                done.subset_of(new_set),
                done.finite(),
                !done.contains(tn),
                forall|i: int|
                    0 <= i < stack.len() ==> new_set.contains(#[trigger] stack@[i] as int) && !done.contains(
                        stack@[i] as int,
                    ) && stack@[i] != t,
                forall|i: int, j: int| 0 <= i < j < stack.len() ==> stack@[i] != stack@[j],
                done.len() + 1 + stack.len() == new_set.len(),
                size == done.len() + 1,
                new_set.len() + stack_after_pop.len() == ns0.len() + stack.len(),
                ns0.len() <= new_set.len(),
                new_set.len() <= reg.len(),
                forall|u: int, v: int|
                    #![trigger done.contains(u), linked(adj, own, p, u, v)]
                    done.contains(u) && linked(adj, own, p, u, v) ==> seen@[v],
                forall|i: int| 0 <= i < k ==> #[trigger] linked(adj, own, p, tn, row@[i] as int) ==> seen@[row@[i] as int],
            decreases row.len() - k,
        {
            let v = row[k];
            assert(adj[tn][k as int] == v);
            assert(has_nb(adj, tn, v as int));
            if !seen[v] && owner[v] == p {
                proof {
                    assert(linked(adj, own, p, tn, v as int));
                    assert(reg.contains(tn));
                    lemma_extend(adj, own, p, start as int, tn, v as int);
                    assert(!new_set.contains(v as int));
                    lemma_len_subset(new_set.insert(v as int), reg);
                }
                seen[v] = true;
                stack.push(v);
                proof {
                    new_set = new_set.insert(v as int);
                }
            }
            k = k + 1;
        }
        proof {
            let old_done = done;
            done = done.insert(tn);
            assert forall|u: int, v: int|
                #![trigger done.contains(u), linked(adj, own, p, u, v)]
                done.contains(u) && linked(adj, own, p, u, v) implies seen@[v] by {
                if u == tn {
                    let i = choose|i: int| 0 <= i < adj[tn].len() && #[trigger] adj[tn][i] as int == v;
                    assert(linked(adj, own, p, tn, row@[i] as int));
                } else {
                    assert(old_done.contains(u));
                }
            }
            lemma_len_subset(new_set, reg);
        }
    }
    proof {
        lemma_subset_equality(done, new_set);
        // the new marks are closed: an edge into an old mark would lead back by symmetry
        assert forall|u: int, v: int|
            #[trigger] new_set.contains(u) && #[trigger] linked(adj, own, p, u, v) implies new_set.contains(v) by {
            assert(done.contains(u));
            assert(seen@[v]);
            if old_seen.contains(v) {
                let i = choose|i: int| 0 <= i < adj[u].len() && #[trigger] adj[u][i] as int == v;
                assert(has_nb(adj, adj[u][i] as int, u));
                assert(linked(adj, own, p, v, u));
            }
        }
        assert forall|b: int| reg.contains(b) implies new_set.contains(b) by {
            lemma_closed_reach(adj, own, p, new_set, start as int, b);
        }
        assert(new_set =~= reg);
        assert(marked(seen@) =~= old_seen.union(reg));
        assert forall|u: int, v: int|
            #[trigger] marked(seen@).contains(u) && #[trigger] linked(adj, own, p, u, v) implies marked(
            seen@,
        ).contains(v) by {
            if old_seen.contains(u) {
                assert(old_seen.contains(v));
            } else {
                assert(new_set.contains(v));
            }
        }
    }
    size
}

/// Size of the largest connected group of lands owned by `p`.
pub fn largest_cluster(nb: &Vec<Vec<usize>>, owner: &Vec<usize>, p: usize) -> (best: usize)
    requires
        graph_wf(adj_of(nb@)),
        owner.len() == nb.len(),
    ensures
        best == largest_region_spec(adj_of(nb@), owner@, p),
        best <= nb.len(),
{
    let ghost adj = adj_of(nb@);
    let ghost own = owner@;
    let n = nb.len();
    let mut seen: Vec<bool> = vec![false; n];
    let mut best: usize = 0;
    let mut start: usize = 0;
    proof {
        assert(marked(seen@) =~= Set::empty());
    }
    while start < n
        invariant
            adj == adj_of(nb@),
            own == owner@,
            n == nb.len(),
            graph_wf(adj),
            owner.len() == n,
            seen.len() == n,
            start <= n,
            closed(adj, own, p, marked(seen@)),
            forall|x: int| 0 <= x < n && #[trigger] seen@[x] ==> own[x] == p,
            forall|x: int| 0 <= x < start && own[x] == p ==> #[trigger] seen@[x],
            forall|x: int|
                0 <= x < n && #[trigger] seen@[x] ==> region(adj, own, p, x).len() <= largest_upto(adj, own, p, start as int),
            best == largest_upto(adj, own, p, start as int),
            best <= n,
        decreases n - start,
    {
        let ghost before = seen@;
        proof {
            lemma_region_finite(adj, own, p, start as int);
        }
        if !seen[start] && owner[start] == p {
            let size = explore(nb, owner, p, &mut seen, start);
            proof {
                let reg = region(adj, own, p, start as int);
                assert(marked(seen@) == marked(before).union(reg));
                assert forall|x: int| 0 <= x < n && #[trigger] seen@[x] implies own[x] == p by {
                    if !before[x] {
                        assert(marked(seen@).contains(x));
                        assert(reg.contains(x));
                        lemma_connected_in_range(adj, own, p, start as int, x);
                    }
                }
                assert forall|x: int| 0 <= x < n && #[trigger] seen@[x] implies region(adj, own, p, x).len()
                    <= largest_upto(adj, own, p, start + 1) by {
                    lemma_largest_mono(adj, own, p, start as int, start + 1);
                    if !before[x] {
                        assert(marked(seen@).contains(x));
                        lemma_region_eq(adj, own, p, start as int, x);
                    }
                }
                lemma_single(adj, own, p, start as int);
                assert forall|x: int| 0 <= x < start + 1 && own[x] == p implies #[trigger] seen@[x] by {
                    if x < start {
                        assert(marked(before).contains(x));
                        assert(marked(seen@).contains(x));
                    } else {
                        assert(reg.contains(start as int));
                        assert(marked(seen@).contains(start as int));
                    }
                }
                assert(seen@[start as int]) by {
                    assert(reg.contains(start as int));
                    assert(marked(seen@).contains(start as int));
                }
            }
            if size > best {
                best = size;
            }
        } else {
            proof {
                lemma_largest_mono(adj, own, p, start as int, start + 1);
                assert forall|x: int|
                    0 <= x < n && #[trigger] seen@[x] implies region(adj, own, p, x).len() <= largest_upto(
                    adj,
                    own,
                    p,
                    start + 1,
                ) by {}
            }
        }
        start = start + 1;
    }
    best
}

} // verus!
