//! Dice: single faces behind a known total, the faces a drawn die shows, and
//! the exact odds of a battle.
use vstd::prelude::*;
use crate::rng::{rand_range, shuffle, DRAW_LIMIT};

verus! {

/// Sum of a sequence of die faces.
pub open spec fn seq_sum(s: Seq<u8>) -> nat
    decreases s.len(),
{
    if s.len() == 0 {
        0
    } else {
        seq_sum(s.drop_last()) + s.last() as nat
    }
}

proof fn lemma_sum_update(s: Seq<u8>, i: int, x: u8)
    requires
        0 <= i < s.len(),
    ensures
        seq_sum(s.update(i, x)) + s[i] == seq_sum(s) + x,
    decreases s.len(),
{
    if i < s.len() - 1 {
        lemma_sum_update(s.drop_last(), i, x);
        assert(s.update(i, x).drop_last() =~= s.drop_last().update(i, x));
    } else {
        assert(s.update(i, x).drop_last() =~= s.drop_last());
    }
}

proof fn lemma_sum_remove(s: Seq<u8>, j: int)
    requires
        0 <= j < s.len(),
    ensures
        seq_sum(s) == seq_sum(s.remove(j)) + s[j],
    decreases s.len(),
{
    if j < s.len() - 1 {
        lemma_sum_remove(s.drop_last(), j);
        assert(s.remove(j).drop_last() =~= s.drop_last().remove(j));
    } else {
        assert(s.remove(j) =~= s.drop_last());
    }
}

/// Sequences with the same entries have the same sum.
proof fn lemma_sum_multiset(s: Seq<u8>, t: Seq<u8>)
    requires
        s.to_multiset() == t.to_multiset(),
    ensures
        seq_sum(s) == seq_sum(t),
    decreases s.len(),
{
    broadcast use vstd::seq_lib::to_multiset_contains;
    broadcast use vstd::seq_lib::to_multiset_remove;
    broadcast use vstd::seq_lib::to_multiset_len;

    if s.len() == 0 {
        assert(s.to_multiset().len() == s.len());
        assert(t.to_multiset().len() == t.len());
        assert(t.len() == 0);
    } else {
        let x = s.last();
        assert(s.contains(x));
        assert(s.to_multiset().count(x) > 0);
        assert(t.to_multiset().count(x) > 0);
        assert(t.contains(x));
        let j = choose|j: int| 0 <= j < t.len() && t[j] == x;
        let s1 = s.drop_last();
        let t1 = t.remove(j);
        assert(s.remove(s.len() - 1) =~= s1);
        assert(s1.to_multiset() == s.to_multiset().remove(x));
        assert(t1.to_multiset() == t.to_multiset().remove(x));
        lemma_sum_multiset(s1, t1);
        lemma_sum_remove(t, j);
    }
}

/// A die count, with zero dice counted as one.
pub open spec fn at_least_one(n: u32) -> nat {
    if n == 0 {
        1
    } else {
        n as nat
    }
}

/// Total of `n` dice clamped to what they can show.
pub open spec fn clamp_total(sum: int, n: int) -> int {
    if sum < n {
        n
    } else if sum > 6 * n {
        6 * n
    } else {
        sum
    }
}

/// Partitions a known dice total back into `n` plausible faces (display
/// only): at least one die, every face `1..=6`, summing to the total clamped
/// to what that many dice can show, in shuffled order.
pub fn split_sum(sum: u32, n: u32) -> (v: Vec<u8>)
    requires
        n <= DRAW_LIMIT,
    ensures
        v@.len() == at_least_one(n),
        forall|i: int| 0 <= i < v@.len() ==> 1 <= #[trigger] v@[i] <= 6,
        seq_sum(v@) == clamp_total(sum as int, v@.len() as int),
{
    let n: u32 = if n == 0 {
        1
    } else {
        n
    };
    let mut v: Vec<u8> = vec![1u8; n as usize];
    let over: u32 = if sum > n {
        sum - n
    } else {
        0
    };
    let mut rem: u32 = if over < n * 5 {
        over
    } else {
        n * 5
    };
    let ghost total = n + rem;
    proof {
        lemma_ones(v@, n as int);
        assert(v@.take(n as int) =~= v@);
    }
    while rem > 0
        invariant
            1 <= n <= DRAW_LIMIT,
            v@.len() == n,
            forall|i: int| 0 <= i < n ==> 1 <= #[trigger] v@[i] <= 6,
            seq_sum(v@) + rem == total,
            rem <= room6(v@),
            total == clamp_total(sum as int, n as int),
        decreases rem,
    {
        let ghost rem0 = rem;
        let mut idx: usize = 0;
        let ghost mut progressed = false;
        while idx < n as usize && rem > 0
            invariant
                1 <= n <= DRAW_LIMIT,
                idx <= n,
                v@.len() == n,
                forall|i: int| 0 <= i < n ==> 1 <= #[trigger] v@[i] <= 6,
                seq_sum(v@) + rem == total,
                rem <= room6(v@),
                rem <= rem0,
                progressed ==> rem < rem0,
                !progressed ==> forall|k: int| 0 <= k < idx ==> #[trigger] v@[k] == 6,
            decreases n - idx,
        {
            let room: u32 = 6 - v[idx] as u32;
            let roll = rand_range(1, 6);
            let mut add: u32 = if rem < room {
                rem
            } else {
                room
            };
            if roll < add {
                add = roll;
            }
            proof {
                lemma_room6_update(v@, idx as int, (v@[idx as int] + add) as u8);
                lemma_sum_update(v@, idx as int, (v@[idx as int] + add) as u8);
            }
            v[idx] = v[idx] + add as u8;
            rem = rem - add;
            proof {
                if add > 0 {
                    progressed = true;
                }
            }
            idx = idx + 1;
        }
        proof {
            if !progressed && rem > 0 {
                lemma_room6_full(v@);
            }
        }
    }
    let ghost before = v@;
    shuffle(&mut v);
    proof {
        broadcast use vstd::seq_lib::to_multiset_contains;

        lemma_sum_multiset(v@, before);
        assert forall|i: int| 0 <= i < v@.len() implies 1 <= #[trigger] v@[i] <= 6 by {
            assert(v@.contains(v@[i]));
            assert(v@.to_multiset().count(v@[i]) > 0);
            assert(before.contains(v@[i]));
        }
    }
    v
}

/// Free pips left on dice showing the faces in `s`.
pub open spec fn room6(s: Seq<u8>) -> int
    decreases s.len(),
{
    if s.len() == 0 {
        0
    } else {
        room6(s.drop_last()) + 6 - s.last()
    }
}

proof fn lemma_ones(s: Seq<u8>, k: int)
    requires
        0 <= k <= s.len(),
        forall|i: int| 0 <= i < s.len() ==> s[i] == 1,
    ensures
        seq_sum(s.take(k)) == k,
        room6(s.take(k)) == 5 * k,
    decreases k,
{
    if k > 0 {
        lemma_ones(s, k - 1);
        assert(s.take(k).drop_last() =~= s.take(k - 1));
    }
}

proof fn lemma_room6_update(s: Seq<u8>, i: int, x: u8)
    requires
        0 <= i < s.len(),
    ensures
        room6(s.update(i, x)) + x == room6(s) + s[i],
    decreases s.len(),
{
    if i < s.len() - 1 {
        lemma_room6_update(s.drop_last(), i, x);
        assert(s.update(i, x).drop_last() =~= s.drop_last().update(i, x));
    } else {
        assert(s.update(i, x).drop_last() =~= s.drop_last());
    }
}

proof fn lemma_room6_full(s: Seq<u8>)
    requires
        forall|k: int| 0 <= k < s.len() ==> #[trigger] s[k] == 6,
    ensures
        room6(s) == 0,
    decreases s.len(),
{
    if s.len() > 0 {
        lemma_room6_full(s.drop_last());
    }
}


/// The scrambled value `0..6` behind the faces a drawn die shows: a fixed
/// hash of the die's seed, its place in the stack, and a salt.
pub open spec fn spec_face_val(seed: u32, idx: u32, salt: u32) -> usize {
    let h0 = seed.wrapping_mul(747_796_405u32).wrapping_add(idx.wrapping_mul(2_891_336_453u32)).wrapping_add(
        salt.wrapping_mul(277_803_737u32),
    );
    let h = (h0 ^ (h0 >> 13u32)).wrapping_mul(1_274_126_177u32);
    ((h >> 16u32) % 6) as usize
}

pub fn face_val(seed: u32, idx: u32, salt: u32) -> (f: usize)
    ensures
        f == spec_face_val(seed, idx, salt),
        f < 6,
{
    let mut h = seed.wrapping_mul(747_796_405).wrapping_add(idx.wrapping_mul(2_891_336_453)).wrapping_add(
        salt.wrapping_mul(277_803_737),
    );
    h = (h ^ (h >> 13u32)).wrapping_mul(1_274_126_177);
    ((h >> 16u32) % 6) as usize
}

/// The eight corners of a standard die, each as the three faces meeting
/// there in clockwise order (opposite faces sum to seven).
pub open spec fn spec_corner(k: u32) -> (u8, u8, u8) {
    match k {
        0 => (1, 2, 3),
        1 => (1, 3, 5),
        2 => (1, 5, 4),
        3 => (1, 4, 2),
        4 => (6, 2, 4),
        5 => (6, 4, 5),
        6 => (6, 5, 3),
        _ => (6, 3, 2),
    }
}

fn corner(k: u32) -> (c: (u8, u8, u8))
    ensures
        c == spec_corner(k),
{
    match k {
        0 => (1, 2, 3),
        1 => (1, 3, 5),
        2 => (1, 5, 4),
        3 => (1, 4, 2),
        4 => (6, 2, 4),
        5 => (6, 4, 5),
        6 => (6, 5, 3),
        _ => (6, 3, 2),
    }
}

/// A corner's faces turned `rot` steps.
pub open spec fn turned(c: (u8, u8, u8), rot: u32) -> (u8, u8, u8) {
    if rot == 0 {
        c
    } else if rot == 1 {
        (c.1, c.2, c.0)
    } else {
        (c.2, c.0, c.1)
    }
}

/// The faces (top, left, right) that die `idx` of a stack with seed `seed`
/// shows.
pub open spec fn spec_die_faces(seed: u32, idx: u32) -> (u8, u8, u8) {
    let h = (spec_face_val(seed, idx, 1) * 6 + spec_face_val(seed, idx, 2)) as u32;
    turned(spec_corner(h % 8), (h / 8) % 3)
}

/// Two faces that can be seen at once on a real die: different, and not
/// opposite each other.
pub open spec fn side_by_side(x: u8, y: u8) -> bool {
    x != y && x + y != 7
}

/// The faces a drawn die shows: like a real die, three different faces
/// that meet at one corner.
pub fn die_faces(seed: u32, idx: u32) -> (f: (u8, u8, u8))
    ensures
        f == spec_die_faces(seed, idx),
        1 <= f.0 <= 6 && 1 <= f.1 <= 6 && 1 <= f.2 <= 6,
        side_by_side(f.0, f.1) && side_by_side(f.1, f.2) && side_by_side(f.0, f.2),
{
    let h: u32 = face_val(seed, idx, 1) as u32 * 6 + face_val(seed, idx, 2) as u32;
    let tri = corner(h % 8);
    let rot = (h / 8) % 3;
    if rot == 0 {
        tri
    } else if rot == 1 {
        (tri.1, tri.2, tri.0)
    } else {
        (tri.2, tri.0, tri.1)
    }
}


pub open spec fn pow6(n: nat) -> nat
    decreases n,
{
    if n == 0 {
        1
    } else {
        6 * pow6((n - 1) as nat)
    }
}

/// In how many ways `n` dice show faces summing to `s`.
pub open spec fn ways(n: nat, s: int) -> nat
    decreases n,
{
    if n == 0 {
        if s == 0 {
            1
        } else {
            0
        }
    } else {
        let m = (n - 1) as nat;
        ways(m, s - 1) + ways(m, s - 2) + ways(m, s - 3) + ways(m, s - 4) + ways(m, s - 5) + ways(m, s - 6)
    }
}

/// `ways(n, s - 1) + .. + ways(n, s - f)`.
spec fn ways_part(n: nat, s: int, f: int) -> nat
    decreases f,
{
    if f <= 0 {
        0
    } else {
        ways_part(n, s, f - 1) + ways(n, s - f)
    }
}

/// In how many ways `n` dice show a total below `k`.
pub open spec fn ways_below(n: nat, k: int) -> nat
    decreases k,
{
    if k <= 0 {
        0
    } else {
        ways_below(n, k - 1) + ways(n, k - 1)
    }
}

/// Outcomes in which `a` attacking dice show a total below `k` and strictly
/// above the `d` defending dice.
pub open spec fn wins_below(a: nat, d: nat, k: int) -> nat
    decreases k,
{
    if k <= 0 {
        0
    } else {
        wins_below(a, d, k - 1) + ways(a, k - 1) * ways_below(d, k - 1)
    }
}

/// Of the `6^(a + d)` equally likely rolls of `a` attacking and `d`
/// defending dice, those in which the attacker's total is strictly higher.
pub open spec fn spec_win_count(a: nat, d: nat) -> nat {
    wins_below(a, d, (6 * a + 1) as int)
}

proof fn lemma_ways_range(n: nat, s: int)
    ensures
        (s < 0 || s > 6 * n) ==> ways(n, s) == 0,
    decreases n,
{
    if n > 0 {
        let m = (n - 1) as nat;
        lemma_ways_range(m, s - 1);
        lemma_ways_range(m, s - 2);
        lemma_ways_range(m, s - 3);
        lemma_ways_range(m, s - 4);
        lemma_ways_range(m, s - 5);
        lemma_ways_range(m, s - 6);
    }
}

proof fn lemma_ways_bound(n: nat, s: int)
    ensures
        ways(n, s) <= pow6(n),
    decreases n,
{
    if n > 0 {
        let m = (n - 1) as nat;
        lemma_ways_bound(m, s - 1);
        lemma_ways_bound(m, s - 2);
        lemma_ways_bound(m, s - 3);
        lemma_ways_bound(m, s - 4);
        lemma_ways_bound(m, s - 5);
        lemma_ways_bound(m, s - 6);
    }
}

proof fn lemma_pow6_mono(n: nat)
    requires
        n <= 8,
    ensures
        pow6(n) <= 1_679_616,
    decreases 8 - n,
{
    reveal_with_fuel(pow6, 9);
    if n < 8 {
        lemma_pow6_mono(n + 1);
    }
}

proof fn lemma_ways_below_bound(n: nat, k: int)
    requires
        n <= 8,
        k >= 0,
    ensures
        ways_below(n, k) <= k * 1_679_616,
    decreases k,
{
    if k > 0 {
        lemma_ways_below_bound(n, k - 1);
        lemma_ways_bound(n, k - 1);
        lemma_pow6_mono(n);
    }
}

/// For each total `s`, in how many ways `n` dice show it.
fn dice_ways(n: u32) -> (v: Vec<u64>)
    requires
        n <= 8,
    ensures
        v@.len() == 6 * n + 1,
        forall|s: int| 0 <= s < v@.len() ==> #[trigger] v@[s] == ways(n as nat, s),
{
    let mut v: Vec<u64> = vec![1u64];
    let mut k: u32 = 0;
    while k < n
        invariant
            k <= n <= 8,
            v@.len() == 6 * k + 1,
            forall|s: int| 0 <= s < v@.len() ==> #[trigger] v@[s] == ways(k as nat, s),
        decreases n - k,
    {
        let mut nv: Vec<u64> = Vec::new();
        let mut t: usize = 0;
        while t < v.len() + 6
            invariant
                k < n <= 8,
                v@.len() == 6 * k + 1,
                forall|s: int| 0 <= s < v@.len() ==> #[trigger] v@[s] == ways(k as nat, s),
                nv@.len() == t,
                t <= v@.len() + 6,
                forall|s: int| 0 <= s < t ==> #[trigger] nv@[s] == ways((k + 1) as nat, s),
            decreases v@.len() + 6 - t,
        {
            let mut acc: u64 = 0;
            let mut f: usize = 1;
            while f <= 6
                invariant
                    k < n <= 8,
                    v@.len() == 6 * k + 1,
                    forall|s: int| 0 <= s < v@.len() ==> #[trigger] v@[s] == ways(k as nat, s),
                    t < v@.len() + 6,
                    1 <= f <= 7,
                    acc == ways_part(k as nat, t as int, f - 1),
                    acc <= (f - 1) * 1_679_616,
                decreases 7 - f,
            {
                proof {
                    lemma_ways_range(k as nat, t - f);
                    lemma_ways_bound(k as nat, t - f);
                    lemma_pow6_mono(k as nat);
                }
                if t >= f && t - f < v.len() {
                    acc = acc + v[t - f];
                }
                f = f + 1;
            }
            proof {
                reveal_with_fuel(ways_part, 7);
                assert(ways((k + 1) as nat, t as int) == ways_part(k as nat, t as int, 6));
            }
            nv.push(acc);
            t = t + 1;
        }
        v = nv;
        k = k + 1;
    }
    v
}

/// Of the `6^(a + d)` equally likely rolls of `a` attacking and `d`
/// defending dice, how many the attacker wins (a strictly higher total).
pub fn win_count(a: u32, d: u32) -> (w: u64)
    requires
        a <= 8,
        d <= 8,
    ensures
        w == spec_win_count(a as nat, d as nat),
{
    let va = dice_ways(a);
    let vd = dice_ways(d);
    let mut acc: u64 = 0;
    let mut below: u64 = 0;
    let mut sa: usize = 0;
    while sa < va.len()
        invariant
            a <= 8,
            d <= 8,
            va@.len() == 6 * a + 1,
            vd@.len() == 6 * d + 1,
            forall|s: int| 0 <= s < va@.len() ==> #[trigger] va@[s] == ways(a as nat, s),
            forall|s: int| 0 <= s < vd@.len() ==> #[trigger] vd@[s] == ways(d as nat, s),
            sa <= va@.len(),
            acc == wins_below(a as nat, d as nat, sa as int),
            below == ways_below(d as nat, sa as int),
            acc <= sa * (49 * 1_679_616 * 1_679_616),
        decreases va@.len() - sa,
    {
        proof {
            lemma_ways_bound(a as nat, sa as int);
            lemma_pow6_mono(a as nat);
            lemma_ways_below_bound(d as nat, sa as int);
            let x = va@[sa as int];
            let y = below;
            assert(x * y <= 1_679_616 * (49 * 1_679_616)) by (nonlinear_arith)
                requires
                    x <= 1_679_616,
                    y <= sa * 1_679_616,
                    sa <= 49,
            ;
            let k = 49 * 1_679_616 * 1_679_616;
            assert(acc + x * y <= (sa + 1) * k && (sa + 1) * k <= 49 * k) by (nonlinear_arith)
                requires
                    acc <= sa * k,
                    x * y <= k,
                    sa + 1 <= 49,
                    k > 0,
            ;
        }
        acc = acc + va[sa] * below;
        proof {
            lemma_ways_range(d as nat, sa as int);
            lemma_ways_bound(d as nat, sa as int);
            lemma_pow6_mono(d as nat);
        }
        if sa < vd.len() {
            below = below + vd[sa];
        }
        sa = sa + 1;
    }
    acc
}


proof fn lemma_below_step(d: nat, j: int)
    ensures
        ways_below(d, j) == ways_below(d, j - 1) + ways(d, j - 1),
{
    if j <= 0 {
        lemma_ways_range(d, j - 1);
        assert(ways_below(d, j - 1) == 0);
    }
}

proof fn lemma_below_mono(d: nat, j: int, k: int)
    requires
        j <= k,
    ensures
        ways_below(d, j) <= ways_below(d, k),
    decreases k - j,
{
    if j < k {
        lemma_below_mono(d, j, k - 1);
        lemma_below_step(d, k);
    }
}

/// One more die: the totals below `k` split by the new die's face.
proof fn lemma_below_split(d: nat, k: int)
    ensures
        ways_below(d + 1, k) == ways_below(d, k - 1) + ways_below(d, k - 2) + ways_below(d, k - 3) + ways_below(d, k - 4)
            + ways_below(d, k - 5) + ways_below(d, k - 6),
    decreases if k < 0 { 0 } else { k },
{
    if k <= 0 {
        assert(ways_below(d, k - 1) == 0 && ways_below(d, k - 2) == 0 && ways_below(d, k - 3) == 0);
        assert(ways_below(d, k - 4) == 0 && ways_below(d, k - 5) == 0 && ways_below(d, k - 6) == 0);
    } else {
        lemma_below_split(d, k - 1);
        lemma_below_step(d, k - 1);
        lemma_below_step(d, k - 2);
        lemma_below_step(d, k - 3);
        lemma_below_step(d, k - 4);
        lemma_below_step(d, k - 5);
        lemma_below_step(d, k - 6);
        assert(ways(d + 1, k - 1) == ways(d, k - 2) + ways(d, k - 3) + ways(d, k - 4) + ways(d, k - 5) + ways(d, k - 6)
            + ways(d, k - 7));
    }
}

proof fn lemma_wins_below_def_le(a: nat, d: nat, k: int)
    ensures
        wins_below(a, d + 1, k) <= 6 * wins_below(a, d, k),
    decreases if k < 0 { 0 } else { k },
{
    if k > 0 {
        lemma_wins_below_def_le(a, d, k - 1);
        lemma_below_split(d, k - 1);
        lemma_below_mono(d, k - 2, k - 1);
        lemma_below_mono(d, k - 3, k - 1);
        lemma_below_mono(d, k - 4, k - 1);
        lemma_below_mono(d, k - 5, k - 1);
        lemma_below_mono(d, k - 6, k - 1);
        lemma_below_mono(d, k - 7, k - 1);
        let w = ways(a, k - 1);
        let b1 = ways_below(d + 1, k - 1);
        let b0 = ways_below(d, k - 1);
        assert(b1 <= 6 * b0);
        assert(w * b1 <= 6 * (w * b0)) by (nonlinear_arith)
            requires
                b1 <= 6 * b0,
                w >= 0,
        ;
    }
}

/// A defending die more never helps the attacker: of `6^(a + d + 1)`
/// rolls, at most six times as many win as of the `6^(a + d)` rolls with one
/// defending die less, so the chance to win does not grow.
pub proof fn lemma_more_defenders_fewer_wins(a: nat, d: nat)
    ensures
        spec_win_count(a, d + 1) <= 6 * spec_win_count(a, d),
{
    lemma_wins_below_def_le(a, d, (6 * a + 1) as int);
}

/// `sum over s < k` of `ways(a, s - f) * ways_below(d, s)`.
spec fn shifted_wins(a: nat, d: nat, k: int, f: int) -> nat
    decreases if k < 0 { 0 } else { k },
{
    if k <= 0 {
        0
    } else {
        shifted_wins(a, d, k - 1, f) + ways(a, k - 1 - f) * ways_below(d, k - 1)
    }
}

proof fn lemma_wins_split(a: nat, d: nat, k: int)
    ensures
        wins_below(a + 1, d, k) == shifted_wins(a, d, k, 1) + shifted_wins(a, d, k, 2) + shifted_wins(a, d, k, 3)
            + shifted_wins(a, d, k, 4) + shifted_wins(a, d, k, 5) + shifted_wins(a, d, k, 6),
    decreases if k < 0 { 0 } else { k },
{
    if k > 0 {
        lemma_wins_split(a, d, k - 1);
        let b = ways_below(d, k - 1);
        assert(ways(a + 1, k - 1) == ways(a, k - 2) + ways(a, k - 3) + ways(a, k - 4) + ways(a, k - 5) + ways(a, k - 6)
            + ways(a, k - 7));
        let (w1, w2, w3, w4, w5, w6) = (ways(a, k - 2), ways(a, k - 3), ways(a, k - 4), ways(a, k - 5), ways(a, k - 6), ways(a, k - 7));
        assert((w1 + w2 + w3 + w4 + w5 + w6) * b == w1 * b + w2 * b + w3 * b + w4 * b + w5 * b + w6 * b) by (nonlinear_arith);
    }
}

proof fn lemma_wins_mono(a: nat, d: nat, j: int, k: int)
    requires
        j <= k,
    ensures
        wins_below(a, d, j) <= wins_below(a, d, k),
    decreases k - j,
{
    if j < k {
        lemma_wins_mono(a, d, j, k - 1);
        if k > 0 {
            assert(wins_below(a, d, k) == wins_below(a, d, k - 1) + ways(a, k - 1) * ways_below(d, k - 1));
        }
    }
}

proof fn lemma_shifted_ge(a: nat, d: nat, k: int, f: int)
    requires
        1 <= f <= 6,
    ensures
        shifted_wins(a, d, k, f) >= wins_below(a, d, k - f),
    decreases if k < 0 { 0 } else { k },
{
    if k > 0 {
        lemma_shifted_ge(a, d, k - 1, f);
        if k - f > 0 {
            lemma_below_mono(d, k - 1 - f, k - 1);
            let w = ways(a, k - 1 - f);
            let b0 = ways_below(d, k - 1 - f);
            let b1 = ways_below(d, k - 1);
            assert(w * b0 <= w * b1) by (nonlinear_arith)
                requires
                    b0 <= b1,
                    w >= 0,
            ;
        }
    }
}

/// An attacking die more never hurts the attacker: of the `6^(a + 1 + d)`
/// rolls, at least six times as many win as of the `6^(a + d)` rolls with
/// one attacking die less, so the chance to win does not shrink.
pub proof fn lemma_more_attackers_more_wins(a: nat, d: nat)
    ensures
        spec_win_count(a + 1, d) >= 6 * spec_win_count(a, d),
{
    let k = (6 * (a + 1) + 1) as int;
    let k0 = (6 * a + 1) as int;
    lemma_wins_split(a, d, k);
    lemma_shifted_ge(a, d, k, 1);
    lemma_shifted_ge(a, d, k, 2);
    lemma_shifted_ge(a, d, k, 3);
    lemma_shifted_ge(a, d, k, 4);
    lemma_shifted_ge(a, d, k, 5);
    lemma_shifted_ge(a, d, k, 6);
    lemma_wins_mono(a, d, k0, k - 1);
    lemma_wins_mono(a, d, k0, k - 2);
    lemma_wins_mono(a, d, k0, k - 3);
    lemma_wins_mono(a, d, k0, k - 4);
    lemma_wins_mono(a, d, k0, k - 5);
    lemma_wins_mono(a, d, k0, k - 6);
}


/// `sum over s < k` of `ways(n, s)^2`: the rolls in which two sets of `n`
/// dice tie with a total below `k`.
spec fn tie_count(n: nat, k: int) -> nat
    decreases if k < 0 { 0 } else { k },
{
    if k <= 0 {
        0
    } else {
        tie_count(n, k - 1) + ways(n, k - 1) * ways(n, k - 1)
    }
}

/// Wins of either side and ties together make up every pair of rolls.
proof fn lemma_wins_ties(n: nat, k: int)
    ensures
        2 * wins_below(n, n, k) + tie_count(n, k) == ways_below(n, k) * ways_below(n, k),
    decreases if k < 0 { 0 } else { k },
{
    if k > 0 {
        lemma_wins_ties(n, k - 1);
        let w = ways(n, k - 1);
        let b = ways_below(n, k - 1);
        assert(wins_below(n, n, k) == wins_below(n, n, k - 1) + w * b);
        assert(tie_count(n, k) == tie_count(n, k - 1) + w * w);
        assert(ways_below(n, k) == b + w);
        assert((b + w) * (b + w) == b * b + 2 * (w * b) + w * w) by (nonlinear_arith);
        let bk = ways_below(n, k);
        assert(bk * bk == (b + w) * (b + w));
    } else {
        assert(ways_below(n, k) == 0);
        assert(0nat * 0nat == 0nat);
    }
}

proof fn lemma_all_ones(n: nat)
    ensures
        ways(n, n as int) >= 1,
    decreases n,
{
    if n > 0 {
        lemma_all_ones((n - 1) as nat);
    }
}

proof fn lemma_tie_count_has(n: nat, j: int, k: int)
    requires
        0 <= j < k,
    ensures
        tie_count(n, k) >= ways(n, j) * ways(n, j),
    decreases k,
{
    if j < k - 1 {
        lemma_tie_count_has(n, j, k - 1);
    }
}

proof fn lemma_below_full(n: nat, k: int)
    requires
        k >= 6 * n + 1,
    ensures
        ways_below(n, k) == ways_below(n, (6 * n + 1) as int),
    decreases k,
{
    if k > 6 * n + 1 {
        lemma_below_full(n, k - 1);
        lemma_ways_range(n, k - 1);
    }
}

/// Every roll of `n` dice has some total: the totals count `6^n` rolls.
proof fn lemma_below_total(n: nat)
    ensures
        ways_below(n, (6 * n + 1) as int) == pow6(n),
    decreases n,
{
    if n > 0 {
        let m = (n - 1) as nat;
        let k = (6 * n + 1) as int;
        lemma_below_total(m);
        lemma_below_split(m, k);
        lemma_below_full(m, k - 1);
        lemma_below_full(m, k - 2);
        lemma_below_full(m, k - 3);
        lemma_below_full(m, k - 4);
        lemma_below_full(m, k - 5);
        lemma_below_full(m, k - 6);
    } else {
        assert(ways_below(0, 1) == ways_below(0, 0) + ways(0, 0));
    }
}

/// Ties go to the defender: with as many dice on both sides, fewer than
/// half of the `6^(2n)` rolls win for the attacker.
pub proof fn lemma_even_fight_favors_defender(n: nat)
    ensures
        2 * spec_win_count(n, n) < pow6(n) * pow6(n),
{
    let k = (6 * n + 1) as int;
    lemma_wins_ties(n, k);
    lemma_below_total(n);
    lemma_all_ones(n);
    lemma_tie_count_has(n, n as int, k);
    let w = ways(n, n as int);
    assert(w * w >= 1) by (nonlinear_arith)
        requires
            w >= 1,
    ;
}


proof fn lemma_below_at_most_all(n: nat, k: int)
    ensures
        ways_below(n, k) <= pow6(n),
{
    let top = (6 * n + 1) as int;
    lemma_below_total(n);
    if k <= top {
        lemma_below_mono(n, k, top);
    } else {
        lemma_below_full(n, k);
    }
}

proof fn lemma_wins_bounded(a: nat, d: nat, k: int)
    ensures
        wins_below(a, d, k) <= ways_below(a, k) * pow6(d),
    decreases if k < 0 { 0 } else { k },
{
    if k > 0 {
        lemma_wins_bounded(a, d, k - 1);
        lemma_below_at_most_all(d, k - 1);
        let w = ways(a, k - 1);
        let b = ways_below(d, k - 1);
        let ba = ways_below(a, k - 1);
        let p = pow6(d);
        assert(wins_below(a, d, k) == wins_below(a, d, k - 1) + w * b);
        assert(ways_below(a, k) == ba + w);
        assert(w * b <= w * p && (ba + w) * p == ba * p + w * p) by (nonlinear_arith)
            requires
                b <= p,
                w >= 0,
        ;
    } else {
        assert(0nat * pow6(d) == 0nat);
    }
}

/// No more rolls win than there are: the count of wins is at most
/// `6^(a + d)`, so the chance to win lies between 0 and 1.
pub proof fn lemma_wins_at_most_all(a: nat, d: nat)
    ensures
        spec_win_count(a, d) <= pow6(a) * pow6(d),
{
    let k = (6 * a + 1) as int;
    lemma_wins_bounded(a, d, k);
    lemma_below_total(a);
}

} // verus!
