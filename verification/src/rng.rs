//! Random draws. The game takes every random number from macroquad's global
//! generator, seeded once per map so that a seed reproduces its map.
use vstd::prelude::*;

verus! {

/// Largest upper bound for which a draw is shown to stay below `high`.
pub const DRAW_LIMIT: u32 = 0x20_0000;

/// Calls `macroquad::rand::gen_range::<u32>(low, high)`, a draw from the
/// global generator. Its source computes `low + (high - low) * r` in `f64`
/// with `r` a multiple of 2^-32 in [0, 1) and truncates the result; for
/// `high <= 2^21` every step is exact, so the draw lies in `low..high`. Which
/// value comes out depends on the generator's state, which the contract does
/// not describe: two calls with the same bounds may differ.
#[verifier::external_body]
pub(crate) fn rand_range(low: u32, high: u32) -> (r: u32)
    requires
        low < high,
        high <= DRAW_LIMIT,
    ensures
        low <= r < high,
{
    macroquad::rand::gen_range(low, high)
}

/// Calls `macroquad::rand::rand()`: the next number of the global generator,
/// anywhere in `u32`. Which one depends on the generator's state, so the
/// contract says nothing of it.
#[verifier::external_body]
fn rand_u32() -> u32 {
    macroquad::rand::rand()
}

/// Calls `macroquad::rand::srand(seed)`: restarts the global generator from
/// `seed`. The generator's state is not modelled, so nothing is claimed.
#[verifier::external_body]
fn srand(seed: u64) {
    macroquad::rand::srand(seed)
}

/// Restarts the global generator before generating the map with seed
/// `seed`, so that the draws that follow depend on the seed alone. The
/// generator's state is not modelled: the contract states nothing, and that
/// a seed reproduces its map is checked by the tests, not proved.
pub fn seed_map(seed: u64) {
    srand(seed.wrapping_add(0x9E37_79B9));
}

/// A seed from the clock (in milliseconds) and a random number.
pub open spec fn seed_from(now_ms: u64, r: u32) -> u64 {
    ((now_ms ^ ((r as u64) << 16u64)) % crate::rules::SEED_MOD) as u64
}

pub fn mix_seed(now_ms: u64, r: u32) -> (s: u64)
    ensures
        s == seed_from(now_ms, r),
        s < crate::rules::SEED_MOD,
{
    (now_ms ^ ((r as u64) << 16u64)) % crate::rules::SEED_MOD
}

/// A fresh map seed: the clock (in milliseconds, read by the caller) mixed
/// with the global generator's next number.
pub fn random_seed(now_ms: u64) -> (s: u64)
    ensures
        s < crate::rules::SEED_MOD,
        exists|r: u32| s == seed_from(now_ms, r),
{
    let r = rand_u32();
    mix_seed(now_ms, r)
}

/// A random index in `0..n`. Which one depends on the global generator's
/// state, which is not modelled, so only the range is stated.
pub fn rand_index(n: usize) -> (r: usize)
    requires
        0 < n <= DRAW_LIMIT,
    ensures
        r < n,
{
    rand_range(0, n as u32) as usize
}

/// Exchanges two entries; the multiset of entries is unchanged.
pub proof fn lemma_swap_multiset<T>(s: Seq<T>, i: int, j: int)
    requires
        0 <= i < s.len(),
        0 <= j < s.len(),
    ensures
        s.update(i, s[j]).update(j, s[i]).to_multiset() == s.to_multiset(),
{
    broadcast use vstd::seq_lib::to_multiset_update;
    broadcast use vstd::multiset::group_multiset_properties;

    let m = s.to_multiset();
    let s1 = s.update(i, s[j]);
    assert(s1.to_multiset() == m.insert(s[j]).remove(s[i]));
    assert(s1.update(j, s[i]).to_multiset() == s1.to_multiset().insert(s[i]).remove(s1[j]));
    assert(s1[j] == s[j]);
    broadcast use vstd::seq_lib::to_multiset_contains;
    assert(s.contains(s[i]));
    assert(s.contains(s[j]));
    assert(m.count(s[i]) > 0);
    assert(m.insert(s[j]).remove(s[i]).insert(s[i]).remove(s[j]) =~= m);
}

/// Fisher-Yates shuffle driven by the global generator: the result holds
/// exactly the same entries. Which order comes out depends on the draws
/// (the order may stay as it was), so only that is stated.
pub fn shuffle<T: Copy>(v: &mut Vec<T>)
    requires
        old(v).len() <= DRAW_LIMIT,
    ensures
        final(v).len() == old(v).len(),
        final(v)@.to_multiset() == old(v)@.to_multiset(),
{
    let mut i: usize = v.len();
    while i > 1
        invariant
            i <= v.len(),
            v.len() == old(v).len(),
            v.len() <= DRAW_LIMIT,
            v@.to_multiset() == old(v)@.to_multiset(),
        decreases i,
    {
        i = i - 1;
        let j = rand_index(i + 1);
        let a = v[i];
        let b = v[j];
        proof {
            lemma_swap_multiset(v@, i as int, j as int);
        }
        v[i] = b;
        v[j] = a;
    }
}

} // verus!
