use dice_wars::lobby::{Admission, Lobby};
use dice_wars::game::{Intent, RepEvent};
use dice_wars::proto::{
    attack_line, event_line, hello_line, match_line, read_hello, read_host_line, read_intent,
    seat_map, take_byte, welcome_line, Hello, HostLine, LineStep, MatchInfo,
};
use dice_wars::text::{parse_number, push_decimal, split_on, split_words};

fn chars(s: &str) -> Vec<char> {
    s.chars().collect()
}

fn text(v: &[char]) -> String {
    v.iter().collect()
}

#[test]
fn words_split_on_unicode_white_space() {
    let w = split_words(&chars("  ATK\t1\u{3000}2 \n"));
    let w: Vec<String> = w.iter().map(|x| text(x)).collect();
    assert_eq!(w, vec!["ATK", "1", "2"]);
    assert!(split_words(&chars("   ")).is_empty());
    let std_words: Vec<&str> = "a\u{85}b\u{A0}c d".split_whitespace().collect();
    let ours: Vec<String> = split_words(&chars("a\u{85}b\u{A0}c d")).iter().map(|x| text(x)).collect();
    assert_eq!(ours, std_words);
}

#[test]
fn pieces_keep_empty_ones() {
    let p: Vec<String> = split_on(&chars("1,,2,"), ',').iter().map(|x| text(x)).collect();
    assert_eq!(p, vec!["1", "", "2", ""]);
    assert_eq!(split_on(&chars(""), ',').len(), 1);
}

#[test]
fn numbers_parse_like_str_parse() {
    assert_eq!(parse_number(&chars("42"), u64::MAX), Some(42));
    assert_eq!(parse_number(&chars("+7"), u64::MAX), Some(7));
    assert_eq!(parse_number(&chars("007"), u64::MAX), Some(7));
    assert_eq!(parse_number(&chars(""), u64::MAX), None);
    assert_eq!(parse_number(&chars("+"), u64::MAX), None);
    assert_eq!(parse_number(&chars("-1"), u64::MAX), None);
    assert_eq!(parse_number(&chars("1x"), u64::MAX), None);
    assert_eq!(parse_number(&chars("18446744073709551615"), u64::MAX), Some(u64::MAX));
    assert_eq!(parse_number(&chars("18446744073709551616"), u64::MAX), None);
    assert_eq!(parse_number(&chars("4294967296"), u32::MAX as u64), None);
    for s in ["0", "12", "+3", "-3", "99999999999999999999", "3.5", "x"] {
        assert_eq!(parse_number(&chars(s), u64::MAX), s.parse::<u64>().ok());
    }
}

#[test]
fn decimal_digits() {
    let mut v = chars("n=");
    push_decimal(&mut v, 0);
    push_decimal(&mut v, 1905);
    assert_eq!(text(&v), "n=01905");
}

#[test]
fn host_reads_attack_and_end_requests() {
    assert_eq!(read_intent(&chars("ATTACK 3 14")), Intent::Attack(Some(3), Some(14)));
    assert_eq!(read_intent(&chars("ATTACK x 14")), Intent::Attack(None, Some(14)));
    assert_eq!(read_intent(&chars("ATTACK")), Intent::Attack(None, None));
    assert_eq!(read_intent(&chars("END")), Intent::EndTurn);
    assert_eq!(read_intent(&chars("PING")), Intent::Unknown);
    assert_eq!(read_intent(&chars("")), Intent::Unknown);
    assert_eq!(read_intent(&attack_line(7, 8)), Intent::Attack(Some(7), Some(8)));
    assert_eq!(text(&attack_line(7, 8)), "ATTACK 7 8");
}

#[test]
fn guest_reads_events() {
    match read_host_line(&chars("ATK 1 2 10 7 1")) {
        HostLine::Attack { a, d, ra, rd, captured } => assert_eq!((a, d, ra, rd, captured), (1, 2, 10, 7, true)),
        other => panic!("{:?}", other),
    }
    // non-numbers are skipped; a wrong count is ignored
    match read_host_line(&chars("ATK 1 x 2 10 7 0")) {
        HostLine::Attack { a, d, ra, rd, captured } => assert_eq!((a, d, ra, rd, captured), (1, 2, 10, 7, false)),
        other => panic!("{:?}", other),
    }
    assert!(matches!(read_host_line(&chars("ATK 1 2 10 7")), HostLine::Other));
    match read_host_line(&chars("REINF 3 4,5,,x,6")) {
        HostLine::Reinforce { player, lands } => {
            assert_eq!(player, 3);
            assert_eq!(lands, vec![4, 5, 6]);
        }
        other => panic!("{:?}", other),
    }
    match read_host_line(&chars("REINF")) {
        HostLine::Reinforce { player, lands } => {
            assert_eq!(player, 0);
            assert!(lands.is_empty());
        }
        other => panic!("{:?}", other),
    }
}

#[test]
fn guest_reads_session_lines() {
    match read_host_line(&chars("START 12345678 4 2 0 1 5")) {
        HostLine::Start(i) => assert_eq!(
            i,
            MatchInfo { seed: 12345678, players: 4, humans: 2, difficulty: 0, seat: Some(1), color: Some(5) }
        ),
        other => panic!("{:?}", other),
    }
    match read_host_line(&chars("RESUME x")) {
        HostLine::Resume(i) => assert_eq!(
            i,
            MatchInfo { seed: 0, players: 2, humans: 2, difficulty: 1, seat: None, color: None }
        ),
        other => panic!("{:?}", other),
    }
    match read_host_line(&chars("WELCOME 2 00ff00ff00ff00ff")) {
        HostLine::Welcome { seat, token } => {
            assert_eq!(seat, Some(2));
            assert_eq!(text(&token), "00ff00ff00ff00ff");
        }
        other => panic!("{:?}", other),
    }
    match read_host_line(&chars("OVER P2   disconnected")) {
        HostLine::Over(t) => assert_eq!(text(&t), "P2 disconnected"),
        other => panic!("{:?}", other),
    }
    match read_host_line(&chars("BYE")) {
        HostLine::Bye(t) => assert!(t.is_empty()),
        other => panic!("{:?}", other),
    }
    assert!(matches!(read_host_line(&chars("SYNCED")), HostLine::Synced));
    assert!(matches!(read_host_line(&chars("PING")), HostLine::Ping));
    assert!(matches!(read_host_line(&chars("LOST")), HostLine::Lost));
    assert!(matches!(read_host_line(&chars("HELLO")), HostLine::Other));
}

#[test]
fn event_lines_read_back() {
    let ev = RepEvent::Attack { a: 12, d: 30, ra: 27, rd: 9, captured: true };
    let line = event_line(&ev);
    assert_eq!(text(&line), "ATK 12 30 27 9 1");
    match read_host_line(&line) {
        HostLine::Attack { a, d, ra, rd, captured } => assert_eq!((a, d, ra, rd, captured), (12, 30, 27, 9, true)),
        other => panic!("{:?}", other),
    }
    let ev = RepEvent::Reinforce { player: 4, lands: vec![3, 3, 17] };
    let line = event_line(&ev);
    assert_eq!(text(&line), "REINF 4 3,3,17");
    match read_host_line(&line) {
        HostLine::Reinforce { player, lands } => {
            assert_eq!(player, 4);
            assert_eq!(lands, vec![3, 3, 17]);
        }
        other => panic!("{:?}", other),
    }
    let ev = RepEvent::Reinforce { player: 1, lands: vec![] };
    let line = event_line(&ev);
    assert_eq!(text(&line), "REINF 1 ");
    match read_host_line(&line) {
        HostLine::Reinforce { player, lands } => {
            assert_eq!(player, 1);
            assert!(lands.is_empty());
        }
        other => panic!("{:?}", other),
    }
}

#[test]
fn match_lines_read_back() {
    let line = match_line(false, 5551234, 6, 3, 2, 2, 7);
    assert_eq!(text(&line), "START 5551234 6 3 2 2 7");
    match read_host_line(&line) {
        HostLine::Start(i) => assert_eq!(
            i,
            MatchInfo { seed: 5551234, players: 6, humans: 3, difficulty: 2, seat: Some(2), color: Some(7) }
        ),
        other => panic!("{:?}", other),
    }
    let line = match_line(true, 1, 2, 2, 1, 1, 0);
    assert_eq!(text(&line), "RESUME 1 2 2 1 1 0");
    assert!(matches!(read_host_line(&line), HostLine::Resume(_)));
    let w = welcome_line(3, &chars("abcd"));
    assert_eq!(text(&w), "WELCOME 3 abcd");
}

#[test]
fn host_reads_hellos() {
    let code = chars("4821");
    assert_eq!(text(&hello_line(&code, None)), "JOIN 4821 5");
    assert!(matches!(read_hello(&hello_line(&code, None), &code), Hello::Join));
    let tok = chars("0123456789abcdef");
    assert_eq!(text(&hello_line(&code, Some(&tok))), "REJOIN 4821 0123456789abcdef");
    match read_hello(&hello_line(&code, Some(&tok)), &code) {
        Hello::Rejoin(t) => assert_eq!(t, tok),
        other => panic!("{:?}", other),
    }
    assert!(matches!(read_hello(&chars("JOIN 4821 1"), &code), Hello::OldVersion));
    assert!(matches!(read_hello(&chars("JOIN 4821 2"), &code), Hello::OldVersion));
    assert!(matches!(read_hello(&chars("JOIN 4821 5"), &code), Hello::Join));
    assert!(matches!(read_hello(&chars("JOIN 4822 5"), &code), Hello::Refused));
    assert!(matches!(read_hello(&chars("REJOIN 4821"), &code), Hello::Refused));
    assert!(matches!(read_hello(&chars("HI"), &code), Hello::Refused));
}

#[test]
fn reading_a_line_byte_by_byte() {
    let mut buf: Vec<u8> = Vec::new();
    assert!(matches!(take_byte(&mut buf, b'O', 3), LineStep::Pending));
    assert!(matches!(take_byte(&mut buf, b'K', 3), LineStep::Pending));
    match take_byte(&mut buf, b'\n', 3) {
        LineStep::Complete(l) => assert_eq!(l, b"OK".to_vec()),
        other => panic!("{:?}", other),
    }
    assert!(buf.is_empty());
    for b in b"abc" {
        take_byte(&mut buf, *b, 3);
    }
    assert!(matches!(take_byte(&mut buf, b'd', 3), LineStep::Overflow));
}

#[test]
fn seats_are_compacted_in_order() {
    assert_eq!(seat_map(&vec![false, true, false, true, true]), vec![(2, 1), (4, 2), (5, 3)]);
    assert!(seat_map(&vec![false, false]).is_empty());
}

#[test]
fn lobby_seats_new_and_returning_guests() {
    let mut l = Lobby::new(3);
    assert_eq!(l.let_in(Hello::Join, 0), Admission::Seated { seat: 1, fresh: true });
    assert_eq!(l.let_in(Hello::Join, 0), Admission::Seated { seat: 2, fresh: true });
    assert_eq!(l.seats, vec![true, true, false]);
    assert_eq!(l.gens, vec![1, 1, 0]);
    l.add_token(chars("aa"), 1);
    l.add_token(chars("bb"), 2);
    // the guest on seat 1 drops; its count still matches, so the seat frees
    assert!(l.release_seat(1, 1));
    assert_eq!(l.seats, vec![false, true, false]);
    // a new guest takes the first free seat
    assert_eq!(l.let_in(Hello::Join, 0), Admission::Seated { seat: 1, fresh: true });
    assert_eq!(l.gens, vec![2, 1, 0]);
    // the guest of seat 2 comes back with its token before its old link ends
    assert_eq!(l.let_in(Hello::Rejoin(chars("bb")), 0), Admission::Seated { seat: 2, fresh: false });
    assert_eq!(l.gens, vec![2, 2, 0]);
    // the old link's end (count 1) no longer frees the seat
    assert!(!l.release_seat(2, 1));
    assert_eq!(l.seats, vec![true, true, false]);
    // once the match started nobody new gets in, but tokens still work
    l.started = true;
    assert_eq!(l.let_in(Hello::Join, 0), Admission::Full);
    assert_eq!(l.let_in(Hello::Rejoin(chars("aa")), 0), Admission::Seated { seat: 1, fresh: false });
    assert_eq!(l.let_in(Hello::OldVersion, 2), Admission::OldVersion);
}

#[test]
fn lobby_strikes_and_bans() {
    let mut l = Lobby::new(1);
    assert_eq!(l.let_in(Hello::Refused, 0), Admission::Refused { strikes: 1, banned: false });
    assert_eq!(l.let_in(Hello::Rejoin(chars("zz")), 3), Admission::Refused { strikes: 4, banned: false });
    assert_eq!(l.let_in(Hello::Refused, 4), Admission::Refused { strikes: 5, banned: true });
    assert_eq!(l.seats, vec![false]);
    assert_eq!(l.let_in(Hello::Join, 0), Admission::Seated { seat: 1, fresh: true });
    assert_eq!(l.let_in(Hello::Join, 0), Admission::Full);
}
