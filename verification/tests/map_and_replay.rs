use dice_wars::board::{draw_layout, finish_map, take_color, try_generate, Setup};
use dice_wars::game::{Match, RepEvent};
use dice_wars::replay::Replay;
use dice_wars::rng::{mix_seed, random_seed, seed_map, shuffle};
use dice_wars::rules::{color_map, Difficulty, SEED_MOD};

fn generate(seed: u64, players: usize) -> Setup {
    seed_map(seed);
    loop {
        if let Some(s) = try_generate(players) {
            return s;
        }
    }
}

#[test]
fn generated_maps_are_fair_and_connected() {
    for (seed, players) in [(1u64, 2usize), (42, 3), (777, 5), (12345678, 8)] {
        let s = generate(seed, players);
        let b = &s.board;
        let n = b.owner.len();
        assert!(n > 0 && n % players == 0, "every player gets as many lands");
        assert_eq!(b.dice.len(), n);
        assert_eq!(b.neighbors.len(), n);
        assert_eq!(b.cell_terr.len(), 660);
        for p in 0..players {
            let lands = b.owner.iter().filter(|&&o| o == p).count();
            assert_eq!(lands, n / players);
            let dice: u32 = (0..n).filter(|&t| b.owner[t] == p).map(|t| b.dice[t]).sum();
            assert_eq!(dice as usize, 3 * (n / players));
        }
        assert!(b.dice.iter().all(|&d| (1..=8).contains(&d)));
        // adjacency symmetric, sorted, no self loops
        for t in 0..n {
            assert!(b.neighbors[t].windows(2).all(|w| w[0] < w[1]));
            for &u in &b.neighbors[t] {
                assert_ne!(u, t);
                assert!(b.neighbors[u].contains(&t));
            }
        }
        // connected
        let mut seen = vec![false; n];
        let mut stack = vec![0usize];
        seen[0] = true;
        while let Some(t) = stack.pop() {
            for &u in &b.neighbors[t] {
                if !seen[u] {
                    seen[u] = true;
                    stack.push(u);
                }
            }
        }
        assert!(seen.iter().all(|&x| x));
        assert!(s.first < players);
        assert_eq!(s.personas.len(), players);
        // every land's cells are there, and neighbors touch
        for t in 0..n {
            assert!(b.cell_terr.iter().any(|&c| c == t as i32));
        }
    }
}

#[test]
fn the_same_seed_gives_the_same_map() {
    let a = generate(31337, 4);
    let b = generate(31337, 4);
    assert_eq!(a.board.cell_terr, b.board.cell_terr);
    assert_eq!(a.board.owner, b.board.owner);
    assert_eq!(a.board.dice, b.board.dice);
    assert_eq!(a.first, b.first);
    let c = generate(31338, 4);
    assert_ne!(a.board.cell_terr, c.board.cell_terr);
}

#[test]
fn new_match_starts_clean() {
    let s = generate(9, 4);
    let board = s.board.clone_parts();
    let first = s.first;
    let m = Match::new(s, 4, 2, Difficulty::Hard);
    assert_eq!(m.players, 4);
    assert_eq!(m.humans, 2);
    assert_eq!(m.current, first);
    assert_eq!(m.reserve, vec![0; 4]);
    assert!(m.recording && !m.net_guest);
    assert!(m.events.is_empty() && m.battle.is_none() && m.over.is_none());
    assert_eq!(m.board.owner, board.0);
    assert_eq!(m.board.dice, board.1);
}

trait CloneParts {
    fn clone_parts(&self) -> (Vec<usize>, Vec<u32>);
}

impl CloneParts for dice_wars::board::Board {
    fn clone_parts(&self) -> (Vec<usize>, Vec<u32>) {
        (self.owner.clone(), self.dice.clone())
    }
}

#[test]
fn replaying_recorded_events_reproduces_the_board() {
    macroquad::rand::srand(77);
    let s = generate(2024, 3);
    let mut live = Match::new(s, 3, 1, Difficulty::Normal);
    // play a few turns: every player attacks once where it can, then ends the turn
    for _ in 0..9 {
        let opts = live.attack_options();
        if let Some(o) = opts.first() {
            live.begin_attack(o.a, o.d);
            let b = live.battle.take().unwrap();
            live.apply_battle(b);
        }
        if live.over.is_some() {
            break;
        }
        live.end_turn();
    }
    let s2 = generate(2024, 3);
    let again = Match::new(s2, 3, 1, Difficulty::Normal);
    let mut r = Replay::new(again, live.events.clone());
    assert!(!r.g.recording);
    while r.idx < r.events.len() {
        assert!(r.next_fits());
        r.apply_instant();
    }
    assert!(r.finished());
    assert_eq!(r.g.board.owner, live.board.owner);
    assert_eq!(r.g.board.dice, live.board.dice);
    assert!(r.g.events.is_empty());
}

#[test]
fn replay_watch_mode_starts_battles() {
    let s = generate(5, 2);
    let m = Match::new(s, 2, 1, Difficulty::Easy);
    let a = (0..m.board.owner.len()).find(|&t| !m.board.neighbors[t].is_empty()).unwrap();
    let d = m.board.neighbors[a][0];
    let events = vec![
        RepEvent::Attack { a, d, ra: 9, rd: 4, captured: true },
        RepEvent::Reinforce { player: 0, lands: vec![a] },
    ];
    let mut r = Replay::new(m, events);
    assert!(!r.waiting());
    r.step_watch();
    assert_eq!(r.idx, 1);
    assert!(r.waiting());
    let b = r.g.battle.clone().unwrap();
    assert_eq!((b.a, b.d, b.ra, b.rd, b.captured), (a, d, 9, 4, true));
    // nothing happens while the battle is on screen
    r.step_watch();
    assert_eq!(r.idx, 1);
    assert!(!r.finished());
}

#[test]
fn next_fits_rejects_lands_off_the_map() {
    let s = generate(6, 2);
    let m = Match::new(s, 2, 1, Difficulty::Easy);
    let n = m.board.owner.len();
    let r = Replay::new(m, vec![RepEvent::Reinforce { player: 0, lands: vec![0, n] }]);
    assert!(!r.next_fits());
}

#[test]
fn seeds_stay_in_range() {
    assert_eq!(mix_seed(0, 0), 0);
    assert_eq!(mix_seed(1_000, 1), (1_000u64 ^ (1 << 16)) % SEED_MOD);
    for t in [0u64, 17, u64::MAX] {
        assert!(random_seed(t) < SEED_MOD);
    }
}

#[test]
fn shuffle_keeps_the_entries() {
    macroquad::rand::srand(4);
    let mut v: Vec<u32> = (0..50).collect();
    shuffle(&mut v);
    let mut w = v.clone();
    w.sort();
    assert_eq!(w, (0..50).collect::<Vec<u32>>());
}

#[test]
fn picking_a_color_keeps_the_map_and_hands_over_its_lands() {
    let base = generate(2024, 5);
    for c in 0..5usize {
        let mut s = generate(2024, 5);
        take_color(&mut s, 5, c);
        assert_eq!(s.board.dice, base.board.dice);
        assert_eq!(s.board.cell_terr, base.board.cell_terr);
        for t in 0..base.board.owner.len() {
            // every land keeps its palette slot...
            assert_eq!(color_map(c, s.board.owner[t]), color_map(0, base.board.owner[t]));
            // ...and the human now plays the lands that seat c had
            assert_eq!(s.board.owner[t] == 0, base.board.owner[t] == c);
        }
    }
}

#[test]
fn finishing_a_layout_rejects_tiny_lands() {
    let s = generate(31, 3);
    let ct = s.board.cell_terr.clone();
    let n = s.board.owner.len();
    let ok = finish_map(ct.clone(), n, 3).expect("a generated layout passes");
    assert_eq!(ok.board.cell_terr, ct);
    // land 0 loses all its cells: the layout is refused
    let mut bad = ct.clone();
    for c in bad.iter_mut() {
        if *c == 0 {
            *c = -1;
        }
    }
    assert!(finish_map(bad, n, 3).is_none());
}

#[test]
fn drawn_layouts_have_every_land_on_the_grid() {
    seed_map(5);
    let (ct, n) = draw_layout(3).expect("the seed draws do not run out");
    assert_eq!(ct.len(), 660);
    assert_eq!(n % 3, 0);
    for t in 0..n as i32 {
        assert!(ct.contains(&t), "land {} has a cell", t);
    }
    assert!(ct.iter().all(|&c| c >= -1 && c < n as i32));
}
