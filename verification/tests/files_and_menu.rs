use dice_wars::menu::{
    commit_seed, full_address, is_bookmarked, next_seed, paste_address, paste_code, prev_seed, seed_text,
    toggle_bookmark, type_address_char, type_code_char, type_seed_char,
};
use dice_wars::save::{initial_settings, read_bookmarks, read_settings, write_bookmarks, write_settings, Settings};

fn chars(s: &str) -> Vec<char> {
    s.chars().collect()
}

fn text(v: &[char]) -> String {
    v.iter().collect()
}

#[test]
fn settings_defaults_when_file_is_empty() {
    let s = read_settings(&chars(""));
    assert_eq!(s, initial_settings());
    assert!(s.chances && !s.muted && !s.colorblind && s.color == 0 && !s.fast && !s.dark);
}

#[test]
fn settings_file_format() {
    let s = Settings { chances: false, muted: true, colorblind: true, color: 5, fast: true, dark: false };
    assert_eq!(
        text(&write_settings(&s)),
        "chances 0\nmuted 1\ncolorblind 1\ncolor 5\nspeed 2\ndark 0\n"
    );
}

#[test]
fn settings_round_trip() {
    for color in 0..8 {
        for bits in 0..32u32 {
            let s = Settings {
                chances: bits & 1 != 0,
                muted: bits & 2 != 0,
                colorblind: bits & 4 != 0,
                color,
                fast: bits & 8 != 0,
                dark: bits & 16 != 0,
            };
            assert_eq!(read_settings(&write_settings(&s)), s);
        }
    }
}

#[test]
fn settings_reading_is_lenient() {
    let s = read_settings(&chars("muted yes\r\ncolor 13\nspeed 3\nbogus 1\ndark\n  chances   0  extra\n"));
    assert!(s.muted);
    assert_eq!(s.color, 5);
    assert!(!s.fast);
    assert!(!s.dark);
    assert!(!s.chances);
    let s = read_settings(&chars("color x\nspeed 2"));
    assert_eq!(s.color, 0);
    assert!(s.fast);
}

#[test]
fn bookmarks_round_trip() {
    let b = vec![(12345678u64, 4usize), (0, 2), (99999999, 8)];
    let t = write_bookmarks(&b);
    assert_eq!(text(&t), "12345678 4\n0 2\n99999999 8\n");
    assert_eq!(read_bookmarks(&t), b);
    assert!(read_bookmarks(&write_bookmarks(&vec![])).is_empty());
}

#[test]
fn bookmarks_reading_normalizes_and_skips() {
    let b = read_bookmarks(&chars("123456789 1\njunk\n5 99\n7\n\n8 3 extra\n"));
    assert_eq!(b, vec![(23456789, 2), (5, 8), (8, 3)]);
}

#[test]
fn seed_stepping_wraps() {
    assert_eq!(prev_seed(0), 99_999_999);
    assert_eq!(next_seed(99_999_999), 0);
    assert_eq!(next_seed(41), 42);
    for s in [0u64, 1, 5_000_000, 99_999_999] {
        assert_eq!(next_seed(prev_seed(s)), s);
        assert_eq!(prev_seed(next_seed(s)), s);
    }
}

#[test]
fn seed_field_editing() {
    let mut t = seed_text(1234);
    assert_eq!(text(&t), "1234");
    type_seed_char(&mut t, '5');
    type_seed_char(&mut t, 'x');
    assert_eq!(text(&t), "12345");
    for c in "6789".chars() {
        type_seed_char(&mut t, c);
    }
    assert_eq!(text(&t), "12345678");
    assert_eq!(commit_seed(&t, 1), 12345678);
    assert_eq!(commit_seed(&chars(""), 77), 77);
    assert_eq!(commit_seed(&chars("123456789"), 77), 23456789);
    for s in [0u64, 7, 99_999_999] {
        assert_eq!(commit_seed(&seed_text(s), 3), s);
    }
}

#[test]
fn bookmark_button_toggles() {
    let mut b = vec![(1u64, 2usize), (5, 3), (1, 2)];
    assert!(is_bookmarked(&b, 5, 3));
    assert!(!is_bookmarked(&b, 5, 4));
    toggle_bookmark(&mut b, 1, 2);
    assert_eq!(b, vec![(5, 3)]);
    let before = b.clone();
    toggle_bookmark(&mut b, 9, 4);
    assert_eq!(b, vec![(5, 3), (9, 4)]);
    toggle_bookmark(&mut b, 9, 4);
    assert_eq!(b, before);
}

#[test]
fn join_fields() {
    let mut code = Vec::new();
    for c in "12a345".chars() {
        type_code_char(&mut code, c);
    }
    assert_eq!(text(&code), "1234");
    let mut addr = Vec::new();
    for c in "192.168.0.7:80 x_".chars() {
        type_address_char(&mut addr, c);
    }
    assert_eq!(text(&addr), "192.168.0.7:80x");
    assert_eq!(text(&paste_code(&chars(" code: 98-76-54 "))), "9876");
    assert_eq!(text(&paste_address(&chars("  host.example:7777\n"))), "host.example:7777");
    let long: String = std::iter::repeat('a').take(50).collect();
    assert_eq!(paste_address(&chars(&long)).len(), 40);
    assert_eq!(text(&full_address(&chars("10.0.0.2"), 7777)), "10.0.0.2:7777");
    assert_eq!(text(&full_address(&chars("10.0.0.2:9000"), 7777)), "10.0.0.2:9000");
}

use dice_wars::menu::{MenuAction, MenuEvent, MenuState, MenuTarget};
use dice_wars::rules::{Difficulty, Snd};

fn menu() -> MenuState {
    MenuState {
        players: 6,
        humans: 1,
        difficulty: Difficulty::Normal,
        seed: 500,
        editing: false,
        seed_text: Vec::new(),
        bookmarks: Vec::new(),
        scroll: 0,
    }
}

#[test]
fn menu_seed_buttons_and_keys() {
    let mut m = menu();
    let mut s = initial_settings();
    let r = m.handle(&mut s, MenuEvent::Click(MenuTarget::Next));
    assert_eq!(m.seed, 501);
    assert!(r.regen && r.sound == Some(Snd::Click) && r.action == MenuAction::Stay);
    m.handle(&mut s, MenuEvent::Click(MenuTarget::Prev));
    m.handle(&mut s, MenuEvent::Click(MenuTarget::Prev));
    assert_eq!(m.seed, 499);
    let r = m.handle(&mut s, MenuEvent::Held(true));
    assert_eq!(m.seed, 500);
    assert!(r.regen && r.sound.is_none());
    let r = m.handle(&mut s, MenuEvent::NewSeedKey(77));
    assert_eq!(m.seed, 77);
    assert!(r.regen);
    let r = m.handle(&mut s, MenuEvent::Enter);
    assert_eq!(r.action, MenuAction::Start);
}

#[test]
fn menu_seed_typing() {
    let mut m = menu();
    let mut s = initial_settings();
    let r = m.handle(&mut s, MenuEvent::Click(MenuTarget::SeedBox));
    assert!(m.editing);
    assert_eq!(text(&m.seed_text), "500");
    assert_eq!(r.sound, Some(Snd::Click));
    m.handle(&mut s, MenuEvent::Backspace);
    m.handle(&mut s, MenuEvent::Char('7'));
    m.handle(&mut s, MenuEvent::Char('q'));
    assert_eq!(text(&m.seed_text), "507");
    // held arrows and N do nothing while typing
    m.handle(&mut s, MenuEvent::Held(true));
    m.handle(&mut s, MenuEvent::NewSeedKey(1));
    assert_eq!(m.seed, 500);
    let r = m.handle(&mut s, MenuEvent::Enter);
    assert_eq!(m.seed, 507);
    assert!(!m.editing && r.regen && r.action == MenuAction::Stay);
    // clicking elsewhere also takes the typed seed
    m.handle(&mut s, MenuEvent::Click(MenuTarget::SeedBox));
    m.handle(&mut s, MenuEvent::Char('1'));
    let r = m.handle(&mut s, MenuEvent::Click(MenuTarget::Start));
    assert_eq!(m.seed, 5071);
    assert!(r.regen);
    assert_eq!(r.action, MenuAction::Start);
}

#[test]
fn menu_choices_and_settings() {
    let mut m = menu();
    let mut s = initial_settings();
    m.handle(&mut s, MenuEvent::Click(MenuTarget::Players(0)));
    assert_eq!(m.players, 2);
    m.handle(&mut s, MenuEvent::Click(MenuTarget::Difficulty(2)));
    assert_eq!(m.difficulty, Difficulty::Hard);
    let r = m.handle(&mut s, MenuEvent::Click(MenuTarget::Color(3)));
    assert_eq!(s.color, 3);
    // the map is dealt again: the human takes over the lands of the color picked
    assert!(r.save_settings && r.regen);
    m.handle(&mut s, MenuEvent::Click(MenuTarget::Icon(0)));
    m.handle(&mut s, MenuEvent::Click(MenuTarget::Icon(3)));
    assert!(s.muted && s.fast);
    let r = m.handle(&mut s, MenuEvent::Click(MenuTarget::Host));
    assert_eq!(r.action, MenuAction::Host);
    let r = m.handle(&mut s, MenuEvent::Click(MenuTarget::Join));
    assert_eq!(r.action, MenuAction::Join);
    let r = m.handle(&mut s, MenuEvent::Click(MenuTarget::Nothing));
    assert_eq!(r.action, MenuAction::Stay);
    assert!(r.sound.is_none());
}

#[test]
fn menu_bookmarks() {
    let mut m = menu();
    let mut s = initial_settings();
    for seed in [1u64, 2, 3, 4, 5, 6] {
        m.seed = seed;
        let r = m.handle(&mut s, MenuEvent::Click(MenuTarget::BookmarkButton));
        assert!(r.save_bookmarks);
    }
    assert_eq!(m.bookmarks.len(), 6);
    m.handle(&mut s, MenuEvent::Wheel(false));
    m.handle(&mut s, MenuEvent::Wheel(false));
    m.handle(&mut s, MenuEvent::Wheel(false));
    assert_eq!(m.scroll, 2);
    let r = m.handle(&mut s, MenuEvent::Click(MenuTarget::BookmarkRow(1)));
    assert_eq!(m.seed, 4);
    assert_eq!(r.sound, Some(Snd::Select));
    m.handle(&mut s, MenuEvent::Click(MenuTarget::BookmarkDelete(3)));
    assert_eq!(m.bookmarks.len(), 5);
    assert_eq!(m.scroll, 1);
    // pressing on a bookmarked map removes it
    m.seed = 2;
    m.handle(&mut s, MenuEvent::Click(MenuTarget::BookmarkButton));
    assert_eq!(m.bookmarks.iter().map(|b| b.0).collect::<Vec<_>>(), vec![1, 3, 4, 5]);
    m.handle(&mut s, MenuEvent::Wheel(true));
    m.handle(&mut s, MenuEvent::Wheel(true));
    assert_eq!(m.scroll, 0);
    let r = m.handle(&mut s, MenuEvent::Click(MenuTarget::BookmarkRow(3)));
    assert_eq!(m.seed, 5);
    let r2 = m.handle(&mut s, MenuEvent::Click(MenuTarget::BookmarkRow(3)));
    assert_eq!(r, r2);
    let r = m.handle(&mut s, MenuEvent::Click(MenuTarget::BookmarkDelete(3)));
    assert!(r.save_bookmarks);
    let r = m.handle(&mut s, MenuEvent::Click(MenuTarget::BookmarkDelete(3)));
    assert!(!r.save_bookmarks);
}
