use dice_wars::board::Board;
use dice_wars::game::{
    AttackOption, ClickOutcome, GameOver, Hint, Intent, IntentAction, Match, RepEvent,
};
use dice_wars::rules::{Difficulty, Persona, Snd};

/// Four lands in a row, 0 - 1 - 2 - 3, owned by players 0, 0, 1, 2.
fn line_board(dice: Vec<u32>, owner: Vec<usize>) -> Board {
    let mut cell_terr = vec![-1i32; 660];
    for t in 0..4 {
        cell_terr[t] = t as i32;
    }
    Board {
        cell_terr,
        owner,
        dice,
        neighbors: vec![vec![1], vec![0, 2], vec![1, 3], vec![2]],
        die_seed: vec![1, 2, 3, 4],
    }
}

fn line_match(dice: Vec<u32>, owner: Vec<usize>) -> Match {
    Match {
        players: 3,
        humans: 1,
        difficulty: Difficulty::Normal,
        personas: vec![Persona::Aggressive, Persona::Aggressive, Persona::Defensive],
        seed: 7,
        reserve: vec![0, 0, 0],
        recording: true,
        net_guest: false,
        my_seat: 0,
        events: Vec::new(),
        board: line_board(dice, owner),
        current: 0,
        selected: None,
        over: None,
        battle: None,
        snd: Vec::new(),
    }
}

#[test]
fn count_and_largest_region() {
    let m = line_match(vec![3, 2, 4, 1], vec![0, 0, 1, 0]);
    assert_eq!(m.count(0), 3);
    assert_eq!(m.count(1), 1);
    assert_eq!(m.count(2), 0);
    // lands 0 and 1 are joined, land 3 stands alone
    assert_eq!(m.largest_region(0), 2);
    assert_eq!(m.largest_region(1), 1);
    assert_eq!(m.largest_region(2), 0);
}

#[test]
fn begin_attack_rolls_one_die_per_die() {
    macroquad::rand::srand(11);
    let mut m = line_match(vec![3, 5, 4, 1], vec![0, 0, 1, 2]);
    m.selected = Some(1);
    m.begin_attack(1, 2);
    let b = m.battle.clone().unwrap();
    assert_eq!(b.a, 1);
    assert_eq!(b.d, 2);
    assert_eq!(b.ad.len(), 5);
    assert_eq!(b.dd.len(), 4);
    assert!(b.ad.iter().chain(b.dd.iter()).all(|&f| (1..=6).contains(&f)));
    assert_eq!(b.ra, b.ad.iter().map(|&x| x as u32).sum::<u32>());
    assert_eq!(b.rd, b.dd.iter().map(|&x| x as u32).sum::<u32>());
    assert_eq!(b.captured, b.ra > b.rd);
    assert_eq!(m.selected, None);
    assert_eq!(m.snd, vec![Snd::Roll]);
    assert_eq!(m.events.len(), 1);
    match &m.events[0] {
        RepEvent::Attack { a, d, ra, rd, captured } => {
            assert_eq!((*a, *d, *ra, *rd, *captured), (1, 2, b.ra, b.rd, b.captured));
        }
        _ => panic!("expected an attack event"),
    }
}

#[test]
fn apply_battle_capture_moves_dice() {
    let mut m = line_match(vec![3, 5, 4, 1], vec![0, 0, 1, 2]);
    let b = dice_wars::game::Battle { a: 1, d: 2, ra: 20, rd: 10, ad: vec![4; 5], dd: vec![2, 3, 3, 2], captured: true };
    let r = m.apply_battle(b);
    assert_eq!(r.attacker, 0);
    assert_eq!(r.defender, 1);
    assert!(r.captured);
    // player 1 owned only land 2
    assert!(r.eliminated);
    assert_eq!(m.board.owner, vec![0, 0, 0, 2]);
    assert_eq!(m.board.dice, vec![3, 1, 4, 1]);
    assert_eq!(m.snd, vec![Snd::Capture, Snd::Eliminated]);
    assert!(m.over.is_none());
}

#[test]
fn apply_battle_repelled_keeps_owner() {
    let mut m = line_match(vec![3, 5, 4, 1], vec![0, 0, 1, 2]);
    let b = dice_wars::game::Battle { a: 1, d: 2, ra: 10, rd: 10, ad: vec![2; 5], dd: vec![2, 3, 3, 2], captured: false };
    let r = m.apply_battle(b);
    assert!(!r.captured && !r.eliminated);
    assert_eq!(m.board.owner, vec![0, 0, 1, 2]);
    assert_eq!(m.board.dice, vec![3, 1, 4, 1]);
    assert_eq!(m.snd, vec![Snd::Repel]);
}

#[test]
fn conquering_the_map_ends_the_game() {
    let mut m = line_match(vec![3, 5, 4, 1], vec![0, 0, 0, 2]);
    let b = dice_wars::game::Battle { a: 2, d: 3, ra: 18, rd: 3, ad: vec![5, 5, 4, 4], dd: vec![3], captured: true };
    m.apply_battle(b);
    assert!(matches!(m.over, Some(GameOver::Conquered(0))));
    assert_eq!(m.snd, vec![Snd::Capture, Snd::Eliminated, Snd::Win]);
}

#[test]
fn losing_every_human_land_ends_the_game() {
    let mut m = line_match(vec![1, 1, 6, 1], vec![1, 0, 1, 2]);
    m.current = 1;
    let b = dice_wars::game::Battle { a: 2, d: 1, ra: 30, rd: 2, ad: vec![5; 6], dd: vec![2], captured: true };
    m.apply_battle(b);
    assert!(matches!(m.over, Some(GameOver::Wiped)));
    assert_eq!(*m.snd.last().unwrap(), Snd::Lose);
}

#[test]
fn advance_turn_skips_eliminated_players() {
    // player 1 owns nothing: after player 0 comes player 2, then player 0
    let mut m = line_match(vec![3, 2, 4, 1], vec![0, 0, 2, 2]);
    m.advance_turn();
    assert_eq!(m.current, 2);
    assert!(m.snd.is_empty());
    m.advance_turn();
    assert_eq!(m.current, 0);
    assert_eq!(m.snd, vec![Snd::Turn]);
}

#[test]
fn end_turn_reinforces_by_largest_region() {
    macroquad::rand::srand(5);
    let mut m = line_match(vec![3, 2, 4, 1], vec![0, 0, 1, 0]);
    let before: u32 = m.board.dice.iter().sum();
    let r = m.end_turn();
    assert_eq!(r.player, 0);
    // largest region of player 0 is lands 0-1: two dice
    assert_eq!(r.lands.len(), 2);
    assert_eq!(r.stored, 0);
    assert!(r.lands.iter().all(|&t| m.board.owner[t] == 0));
    let after: u32 = m.board.dice.iter().sum();
    assert_eq!(after, before + 2);
    assert_eq!(m.current, 1);
    assert_eq!(m.snd, vec![Snd::Reinforce]);
    assert!(matches!(m.events.last(), Some(RepEvent::Reinforce { player: 0, .. })));
}

#[test]
fn end_turn_stores_what_does_not_fit() {
    macroquad::rand::srand(9);
    let mut m = line_match(vec![8, 7, 4, 1], vec![0, 0, 1, 2]);
    m.reserve[0] = 3;
    let r = m.end_turn();
    // two dice due plus three stored; only one slot free
    assert_eq!(r.lands, vec![1]);
    assert_eq!(r.stored, 4);
    assert_eq!(m.reserve[0], 4);
    assert_eq!(m.board.dice, vec![8, 8, 4, 1]);
}

#[test]
fn click_selects_then_attacks_a_neighbor() {
    macroquad::rand::srand(3);
    let mut m = line_match(vec![3, 5, 4, 1], vec![0, 0, 1, 2]);
    assert_eq!(m.click_land(Some(1)), ClickOutcome::Selected(1));
    assert_eq!(m.selected, Some(1));
    assert_eq!(m.click_land(Some(2)), ClickOutcome::Attack(1, 2));
    assert!(m.battle.is_some());
    assert_eq!(m.selected, None);
    assert_eq!(m.snd, vec![Snd::Select, Snd::Roll]);
}

#[test]
fn click_refusals_and_deselect() {
    let mut m = line_match(vec![1, 5, 4, 1], vec![0, 0, 1, 2]);
    assert_eq!(m.click_land(Some(2)), ClickOutcome::Refused(Hint::EnemyFirst));
    assert_eq!(m.click_land(Some(0)), ClickOutcome::Refused(Hint::OneDie));
    assert_eq!(m.click_land(Some(1)), ClickOutcome::Selected(1));
    assert_eq!(m.click_land(Some(3)), ClickOutcome::Refused(Hint::TooFar));
    assert_eq!(m.selected, Some(1));
    assert_eq!(m.click_land(Some(1)), ClickOutcome::Deselected);
    assert_eq!(m.selected, None);
    assert_eq!(m.click_land(None), ClickOutcome::Cleared);
    assert_eq!(m.snd, vec![Snd::Invalid, Snd::Invalid, Snd::Select, Snd::Invalid, Snd::Click]);
}

#[test]
fn guest_click_only_requests_the_attack() {
    let mut m = line_match(vec![3, 5, 4, 1], vec![0, 0, 1, 2]);
    m.net_guest = true;
    m.click_land(Some(1));
    assert_eq!(m.click_land(Some(2)), ClickOutcome::Attack(1, 2));
    assert!(m.battle.is_none());
    assert_eq!(m.selected, None);
    assert!(m.events.is_empty());
}

#[test]
fn host_judges_guest_requests() {
    let mut m = line_match(vec![3, 5, 4, 1], vec![0, 0, 1, 2]);
    m.current = 1;
    m.board.owner = vec![1, 1, 0, 2];
    assert_eq!(m.judge_intent(1, Intent::Attack(Some(1), Some(2))), IntentAction::Attack(1, 2));
    // not a neighbor, not the seat's land, one die only, own land, off the map
    assert_eq!(m.judge_intent(1, Intent::Attack(Some(1), Some(3))), IntentAction::Ignore);
    assert_eq!(m.judge_intent(1, Intent::Attack(Some(2), Some(1))), IntentAction::Ignore);
    m.board.dice[1] = 1;
    assert_eq!(m.judge_intent(1, Intent::Attack(Some(1), Some(2))), IntentAction::Ignore);
    assert_eq!(m.judge_intent(1, Intent::Attack(Some(0), Some(1))), IntentAction::Ignore);
    assert_eq!(m.judge_intent(1, Intent::Attack(Some(0), Some(9))), IntentAction::Ignore);
    assert_eq!(m.judge_intent(1, Intent::Attack(None, Some(2))), IntentAction::Ignore);
    assert_eq!(m.judge_intent(1, Intent::EndTurn), IntentAction::EndTurn);
    assert_eq!(m.judge_intent(1, Intent::Unknown), IntentAction::Ignore);
    // out of turn
    assert_eq!(m.judge_intent(2, Intent::EndTurn), IntentAction::Ignore);
}

#[test]
fn leader_is_the_strongest_other_player() {
    let mut m = line_match(vec![1, 1, 1, 1], vec![1, 1, 2, 2]);
    // tie between 1 and 2: the later seat
    assert_eq!(m.leader(), Some(2));
    m.board.owner = vec![1, 1, 1, 2];
    assert_eq!(m.leader(), Some(1));
    m.board.owner = vec![0, 0, 0, 0];
    assert_eq!(m.leader(), None);
}

#[test]
fn attack_options_follow_personality() {
    // player 0 is Aggressive: any non-losing odds
    let mut m = line_match(vec![3, 3, 3, 1], vec![0, 0, 1, 2]);
    m.current = 0;
    let o: Vec<(usize, usize)> = m.attack_options().iter().map(|o: &AttackOption| (o.a, o.d)).collect();
    assert_eq!(o, vec![(1, 2)]);
    let first = m.attack_options()[0];
    assert_eq!(first.adv, 0);
    assert_eq!(first.a_dice, 3);
    assert_eq!(first.target, 1);
    assert_eq!(first.backup, 1);
    assert_eq!(first.friends, 1);
    assert_eq!(first.slot, 1);
    // player 2 is Defensive: needs two more dice
    m.current = 2;
    assert!(m.attack_options().is_empty());
    m.board.dice = vec![3, 3, 1, 3];
    let o: Vec<(usize, usize)> = m.attack_options().iter().map(|o| (o.a, o.d)).collect();
    assert_eq!(o, vec![(3, 2)]);
}

#[test]
fn net_apply_attack_fast_moves_at_least_one_die() {
    let mut m = line_match(vec![3, 1, 4, 1], vec![0, 0, 1, 2]);
    m.net_guest = true;
    m.recording = false;
    m.net_apply_attack_fast(1, 2, 6, 2, true);
    assert_eq!(m.board.owner, vec![0, 0, 0, 2]);
    assert_eq!(m.board.dice, vec![3, 1, 1, 1]);
    // off the map: ignored
    m.net_apply_attack_fast(9, 2, 6, 2, true);
    assert_eq!(m.board.dice, vec![3, 1, 1, 1]);
}

#[test]
fn net_apply_attack_shows_plausible_dice() {
    macroquad::rand::srand(21);
    let mut m = line_match(vec![3, 4, 2, 1], vec![0, 0, 1, 2]);
    m.net_guest = true;
    m.net_apply_attack(1, 2, 15, 3, true);
    let b = m.battle.clone().unwrap();
    assert_eq!(b.ad.len(), 4);
    assert_eq!(b.dd.len(), 2);
    assert_eq!(b.ad.iter().map(|&x| x as u32).sum::<u32>(), 15);
    assert_eq!(b.dd.iter().map(|&x| x as u32).sum::<u32>(), 3);
    assert!(b.captured);
}

#[test]
fn net_apply_reinforce_piles_and_passes_turn() {
    let mut m = line_match(vec![3, 7, 4, 1], vec![0, 0, 1, 2]);
    m.net_guest = true;
    m.recording = false;
    let placed = m.net_apply_reinforce(0, vec![1, 1, 0, 9]);
    // land 1 fills up after one die, land 9 does not exist
    assert_eq!(placed, 2);
    assert_eq!(m.board.dice, vec![4, 8, 4, 1]);
    assert_eq!(m.current, 1);
    assert_eq!(m.reserve[0], 0);
}

#[test]
fn replay_instant_applies_events() {
    let mut m = line_match(vec![3, 5, 4, 1], vec![0, 0, 1, 2]);
    m.recording = false;
    m.replay_instant(&RepEvent::Attack { a: 1, d: 2, ra: 20, rd: 10, captured: true });
    assert_eq!(m.board.owner, vec![0, 0, 0, 2]);
    assert_eq!(m.board.dice, vec![3, 1, 4, 1]);
    m.replay_instant(&RepEvent::Reinforce { player: 0, lands: vec![0, 0, 2] });
    assert_eq!(m.board.dice, vec![5, 1, 5, 1]);
}

#[test]
fn catching_up_matches_the_battle() {
    // the host's battle and a guest catching up on the announced result
    // leave the same board when the attacker had more than one die
    for captured in [true, false] {
        let mut host = line_match(vec![3, 5, 4, 1], vec![0, 0, 1, 2]);
        let b = dice_wars::game::Battle {
            a: 1,
            d: 2,
            ra: if captured { 20 } else { 9 },
            rd: 10,
            ad: vec![4; 5],
            dd: vec![2, 3, 3, 2],
            captured,
        };
        host.apply_battle(b);
        let mut guest = line_match(vec![3, 5, 4, 1], vec![0, 0, 1, 2]);
        guest.net_guest = true;
        guest.net_apply_attack_fast(1, 2, if captured { 20 } else { 9 }, 10, captured);
        assert_eq!(guest.board.owner, host.board.owner);
        assert_eq!(guest.board.dice, host.board.dice);
    }
}

#[test]
fn recorded_reinforcement_replays_exactly() {
    macroquad::rand::srand(5);
    let start = vec![3, 2, 4, 1];
    let mut live = line_match(start.clone(), vec![0, 0, 1, 0]);
    live.end_turn();
    let Some(RepEvent::Reinforce { player, lands }) = live.events.last().cloned() else {
        panic!("no reinforcement recorded");
    };
    let mut replayed = line_match(start, vec![0, 0, 1, 0]);
    replayed.recording = false;
    replayed.replay_instant(&RepEvent::Reinforce { player, lands: lands.clone() });
    assert_eq!(replayed.board.dice, live.board.dice);
    let mut guest = line_match(vec![3, 2, 4, 1], vec![0, 0, 1, 0]);
    guest.net_guest = true;
    guest.recording = false;
    guest.net_apply_reinforce(player, lands);
    assert_eq!(guest.board.dice, live.board.dice);
}

#[test]
fn guest_keeps_the_hosts_stored_dice() {
    macroquad::rand::srand(9);
    // lands 0 and 1 of player 0 are nearly full: part of the reinforcement is stored
    let mut host = line_match(vec![8, 7, 4, 1], vec![0, 0, 1, 2]);
    let r = host.end_turn();
    let mut guest = line_match(vec![8, 7, 4, 1], vec![0, 0, 1, 2]);
    guest.net_guest = true;
    guest.recording = false;
    let placed = guest.net_apply_reinforce(r.player, r.lands.clone());
    assert_eq!(placed as usize, r.lands.len());
    assert_eq!(guest.board.dice, host.board.dice);
    assert_eq!(guest.reserve, host.reserve);
    assert_eq!(guest.current, host.current);
}

#[test]
fn defensive_players_never_gamble_on_even_odds() {
    // player 2 (Defensive) on Hard with six dice facing six: no option,
    // while the Aggressive player 0 would take such a fight
    let mut m = line_match(vec![3, 6, 6, 6], vec![0, 0, 1, 2]);
    m.difficulty = Difficulty::Hard;
    m.current = 2;
    assert!(m.attack_options().is_empty());
    m.board.dice = vec![3, 6, 4, 6];
    let o: Vec<(usize, usize, i32)> = m.attack_options().iter().map(|o| (o.a, o.d, o.adv)).collect();
    assert_eq!(o, vec![(3, 2, 2)]);
    m.current = 0;
    m.board.dice = vec![3, 6, 6, 6];
    let o: Vec<(usize, usize)> = m.attack_options().iter().map(|o| (o.a, o.d)).collect();
    assert_eq!(o, vec![(1, 2)]);
}
