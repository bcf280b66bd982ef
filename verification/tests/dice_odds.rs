use dice_wars::dice::{die_faces, face_val, split_sum, win_count};

fn brute_force_wins(a: u32, d: u32) -> u64 {
    fn sums(n: u32) -> Vec<u64> {
        let mut v = vec![1u64];
        for _ in 0..n {
            let mut nv = vec![0u64; v.len() + 6];
            for (s, &c) in v.iter().enumerate() {
                for f in 1..=6 {
                    nv[s + f] += c;
                }
            }
            v = nv;
        }
        v
    }
    let (da, dd) = (sums(a), sums(d));
    let mut w = 0;
    for (sa, &ca) in da.iter().enumerate() {
        for (sd, &cd) in dd.iter().enumerate() {
            if sa > sd {
                w += ca * cd;
            }
        }
    }
    w
}

#[test]
fn win_count_small_cases() {
    assert_eq!(win_count(1, 1), 15);
    assert_eq!(win_count(2, 1), 181);
    assert_eq!(win_count(0, 0), 0);
    assert_eq!(win_count(1, 0), 6);
}

#[test]
fn win_count_matches_enumeration() {
    for a in 0..=8 {
        for d in 0..=8 {
            assert_eq!(win_count(a, d), brute_force_wins(a, d), "a={} d={}", a, d);
        }
    }
}

#[test]
fn win_count_odds_as_probability() {
    // an even 8 against 8 is slightly in the defender's favor
    let p = win_count(8, 8) as f64 / 6f64.powi(16);
    assert!(p > 0.40 && p < 0.50);
}

fn ties(a: u32, d: u32) -> u64 {
    let mut t = 0u64;
    for sa in 0..=6 * a as usize {
        let wa = ways(a, sa);
        t += wa * ways(d, sa);
    }
    t
}

fn ways(n: u32, s: usize) -> u64 {
    let mut v = vec![1u64];
    for _ in 0..n {
        let mut nv = vec![0u64; v.len() + 6];
        for (k, &c) in v.iter().enumerate() {
            for f in 1..=6 {
                nv[k + f] += c;
            }
        }
        v = nv;
    }
    v.get(s).copied().unwrap_or(0)
}

#[test]
fn wins_losses_and_ties_cover_every_roll() {
    for a in 1..=8u32 {
        for d in 1..=8u32 {
            let total = 6u64.pow(a + d);
            assert_eq!(win_count(a, d) + win_count(d, a) + ties(a, d), total);
        }
    }
    // one die never beats eight
    assert_eq!(win_count(1, 8), 0);
}

#[test]
fn face_val_is_a_fixed_hash() {
    let h = 7u32
        .wrapping_mul(747_796_405)
        .wrapping_add(3u32.wrapping_mul(2_891_336_453))
        .wrapping_add(1u32.wrapping_mul(277_803_737));
    let h = (h ^ (h >> 13)).wrapping_mul(1_274_126_177);
    assert_eq!(face_val(7, 3, 1), ((h >> 16) % 6) as usize);
    for s in 0..200 {
        assert!(face_val(s, s / 3, 2) < 6);
    }
}

#[test]
fn die_faces_look_like_a_real_die() {
    for seed in 0..300u32 {
        for idx in 0..8u32 {
            let (t, l, r) = die_faces(seed, idx);
            for &(x, y) in &[(t, l), (l, r), (t, r)] {
                assert!((1..=6).contains(&x) && (1..=6).contains(&y));
                assert_ne!(x, y);
                assert_ne!(x + y, 7, "opposite faces never show together");
            }
        }
    }
}

#[test]
fn die_faces_exact_value() {
    let h = face_val(1, 0, 1) as u32 * 6 + face_val(1, 0, 2) as u32;
    const CORNERS: [[u8; 3]; 8] =
        [[1, 2, 3], [1, 3, 5], [1, 5, 4], [1, 4, 2], [6, 2, 4], [6, 4, 5], [6, 5, 3], [6, 3, 2]];
    let tri = CORNERS[(h % 8) as usize];
    let rot = ((h / 8) % 3) as usize;
    assert_eq!(die_faces(1, 0), (tri[rot], tri[(rot + 1) % 3], tri[(rot + 2) % 3]));
}

#[test]
fn split_sum_keeps_the_total() {
    macroquad::rand::srand(1);
    let v = split_sum(17, 4);
    assert_eq!(v.len(), 4);
    assert_eq!(v.iter().map(|&x| x as u32).sum::<u32>(), 17);
    assert!(v.iter().all(|&x| (1..=6).contains(&x)));
}

#[test]
fn split_sum_clamps_impossible_totals() {
    macroquad::rand::srand(2);
    // three dice cannot show 40, nor 1
    assert_eq!(split_sum(40, 3), vec![6, 6, 6]);
    assert_eq!(split_sum(1, 3), vec![1, 1, 1]);
    // zero dice are shown as one
    let v = split_sum(4, 0);
    assert_eq!(v, vec![4]);
}

#[test]
fn more_dice_on_either_side_moves_the_odds_the_right_way() {
    for a in 1..8u32 {
        for d in 1..8u32 {
            // one attacking die more: at least six times the wins out of six times the rolls
            assert!(win_count(a + 1, d) >= 6 * win_count(a, d));
            // one defending die more: at most six times the wins
            assert!(win_count(a, d + 1) <= 6 * win_count(a, d));
        }
    }
}

#[test]
fn ties_go_to_the_defender_and_odds_stay_in_range() {
    for n in 1..=8u32 {
        let all = 6u64.pow(2 * n);
        assert!(2 * win_count(n, n) < all);
    }
    for a in 1..=8u32 {
        for d in 1..=8u32 {
            assert!(win_count(a, d) <= 6u64.pow(a + d));
        }
    }
    // one die each: 15 of 36 rolls win
    assert_eq!(win_count(1, 1), 15);
}
