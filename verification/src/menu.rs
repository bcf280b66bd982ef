//! The menus' bookkeeping: stepping through map seeds, typing a seed,
//! bookmarking maps, and the join screen's address and code fields.
use vstd::prelude::*;
use crate::rules::{Difficulty, Snd, MAX_PLAYERS, SEED_MOD};
use crate::save::{Bookmark, Settings};
use crate::text::{decimal, lemma_decimal, parse_number, parsed_number, push_decimal};

verus! {

/// The seed before `seed`, wrapping from 0 to the last one.
pub fn prev_seed(seed: u64) -> (s: u64)
    requires
        seed + SEED_MOD <= u64::MAX,
    ensures
        s == (seed + SEED_MOD - 1) % (SEED_MOD as int),
{
    (seed + SEED_MOD - 1) % SEED_MOD
}

/// The seed after `seed`, wrapping from the last one to 0.
pub fn next_seed(seed: u64) -> (s: u64)
    requires
        seed < u64::MAX,
    ensures
        s == (seed + 1) % (SEED_MOD as int),
{
    (seed + 1) % SEED_MOD
}

/// Stepping back then forward, or forward then back, returns to the same seed.
pub proof fn lemma_seed_steps_undo(seed: u64)
    requires
        seed < SEED_MOD,
    ensures
        (((seed + SEED_MOD - 1) % (SEED_MOD as int)) + 1) % (SEED_MOD as int) == seed,
        (((seed + 1) % (SEED_MOD as int)) + SEED_MOD - 1) % (SEED_MOD as int) == seed,
{
}

pub open spec fn is_ascii_digit(c: char) -> bool {
    '0' <= c && c <= '9'
}

pub open spec fn is_ascii_alnum(c: char) -> bool {
    ||| ('0' <= c && c <= '9')
    ||| ('a' <= c && c <= 'z')
    ||| ('A' <= c && c <= 'Z')
}

/// A character an address may hold.
pub open spec fn address_char(c: char) -> bool {
    is_ascii_alnum(c) || c == '.' || c == ':' || c == '-'
}

/// Most digits a typed seed may have.
pub const SEED_DIGITS: usize = 8;

/// Digits of the join code.
pub const CODE_DIGITS: usize = 4;

/// Longest address the join screen takes.
pub const ADDRESS_LEN: usize = 40;

/// Typing `c` into the seed field: a digit is added while there is room.
pub fn type_seed_char(text: &mut Vec<char>, c: char)
    ensures
        final(text)@ == if is_ascii_digit(c) && old(text)@.len() < SEED_DIGITS {
            old(text)@.push(c)
        } else {
            old(text)@
        },
{
    if '0' <= c && c <= '9' && text.len() < SEED_DIGITS {
        text.push(c);
    }
}

/// Typing `c` into the code field: a digit is added while there is room.
pub fn type_code_char(code: &mut Vec<char>, c: char)
    ensures
        final(code)@ == if is_ascii_digit(c) && old(code)@.len() < CODE_DIGITS {
            old(code)@.push(c)
        } else {
            old(code)@
        },
{
    if '0' <= c && c <= '9' && code.len() < CODE_DIGITS {
        code.push(c);
    }
}

/// Typing `c` into the address field: a letter, digit, `.`, `:` or `-` is
/// added while there is room.
pub fn type_address_char(addr: &mut Vec<char>, c: char)
    ensures
        final(addr)@ == if address_char(c) && old(addr)@.len() < ADDRESS_LEN {
            old(addr)@.push(c)
        } else {
            old(addr)@
        },
{
    let ok = ('0' <= c && c <= '9') || ('a' <= c && c <= 'z') || ('A' <= c && c <= 'Z') || c == '.' || c == ':'
        || c == '-';
    if ok && addr.len() < ADDRESS_LEN {
        addr.push(c);
    }
}

/// The first `n` characters of `s` that pass `keep`.
pub open spec fn first_kept(s: Seq<char>, keep: spec_fn(char) -> bool, n: nat) -> Seq<char> {
    let f = s.filter(keep);
    if f.len() > n {
        f.take(n as int)
    } else {
        f
    }
}

/// Pasting into the code field: the first four digits of the pasted text.
pub fn paste_code(t: &Vec<char>) -> (code: Vec<char>)
    ensures
        code@ == first_kept(t@, |c: char| is_ascii_digit(c), CODE_DIGITS as nat),
{
    let ghost keep = |c: char| is_ascii_digit(c);
    let mut out: Vec<char> = Vec::new();
    let mut i: usize = 0;
    while i < t.len()
        invariant
            i <= t@.len(),
            keep == (|c: char| is_ascii_digit(c)),
            out@ == first_kept(t@.take(i as int), keep, CODE_DIGITS as nat),
        decreases t@.len() - i,
    {
        let c = t[i];
        proof {
            reveal(Seq::filter);
            assert(t@.take(i + 1).drop_last() =~= t@.take(i as int));
            assert(t@.take(i + 1).last() == c);
            let f0 = t@.take(i as int).filter(keep);
            let f1 = t@.take(i + 1).filter(keep);
            assert(f1 == if keep(c) { f0.push(c) } else { f0 });
            if f0.len() > CODE_DIGITS {
                assert(f1.take(CODE_DIGITS as int) =~= f0.take(CODE_DIGITS as int));
            }
            if f0.len() == CODE_DIGITS && keep(c) {
                assert(f1.take(CODE_DIGITS as int) =~= f0);
            }
        }
        if '0' <= c && c <= '9' && out.len() < CODE_DIGITS {
            out.push(c);
        }
        i = i + 1;
    }
    proof {
        assert(t@.take(t@.len() as int) =~= t@);
    }
    out
}

/// Pasting into the address field: the first forty address characters of
/// the pasted text (white space around it, which is trimmed, is not among
/// them either).
pub fn paste_address(t: &Vec<char>) -> (addr: Vec<char>)
    ensures
        addr@ == first_kept(t@, |c: char| address_char(c), ADDRESS_LEN as nat),
{
    let ghost keep = |c: char| address_char(c);
    let mut out: Vec<char> = Vec::new();
    let mut i: usize = 0;
    while i < t.len()
        invariant
            i <= t@.len(),
            keep == (|c: char| address_char(c)),
            out@ == first_kept(t@.take(i as int), keep, ADDRESS_LEN as nat),
        decreases t@.len() - i,
    {
        let c = t[i];
        proof {
            reveal(Seq::filter);
            assert(t@.take(i + 1).drop_last() =~= t@.take(i as int));
            assert(t@.take(i + 1).last() == c);
            let f0 = t@.take(i as int).filter(keep);
            let f1 = t@.take(i + 1).filter(keep);
            assert(f1 == if keep(c) { f0.push(c) } else { f0 });
            if f0.len() > ADDRESS_LEN {
                assert(f1.take(ADDRESS_LEN as int) =~= f0.take(ADDRESS_LEN as int));
            }
            if f0.len() == ADDRESS_LEN && keep(c) {
                assert(f1.take(ADDRESS_LEN as int) =~= f0);
            }
        }
        let ok = ('0' <= c && c <= '9') || ('a' <= c && c <= 'z') || ('A' <= c && c <= 'Z') || c == '.' || c
            == ':' || c == '-';
        if ok && out.len() < ADDRESS_LEN {
            out.push(c);
        }
        i = i + 1;
    }
    proof {
        assert(t@.take(t@.len() as int) =~= t@);
    }
    out
}

/// The address to connect to: as typed when it names a port, else with
/// `:port` added.
pub open spec fn full_address_of(addr: Seq<char>, port: u16) -> Seq<char> {
    if addr.contains(':') {
        addr
    } else {
        addr.push(':') + decimal(port as nat)
    }
}

pub fn full_address(addr: &Vec<char>, port: u16) -> (full: Vec<char>)
    ensures
        full@ == full_address_of(addr@, port),
{
    let mut i: usize = 0;
    while i < addr.len()
        invariant
            i <= addr@.len(),
            forall|k: int| 0 <= k < i ==> addr@[k] != ':',
        decreases addr@.len() - i,
    {
        if addr[i] == ':' {
            proof {
                assert(addr@[i as int] == ':');
            }
            return addr.clone();
        }
        i = i + 1;
    }
    let mut full = addr.clone();
    proof {
        assert(full@ =~= addr@);
    }
    full.push(':');
    push_decimal(&mut full, port as u64);
    full
}

/// The seed field's text when editing starts.
pub fn seed_text(seed: u64) -> (t: Vec<char>)
    ensures
        t@ == decimal(seed as nat),
{
    let mut t: Vec<char> = Vec::new();
    push_decimal(&mut t, seed);
    proof {
        assert(t@ =~= decimal(seed as nat));
    }
    t
}

/// The seed after editing ends: the typed number modulo `SEED_MOD`, or the
/// old seed when the field does not hold a number.
pub open spec fn committed_seed(text: Seq<char>, seed: u64) -> u64 {
    match parsed_number(text, u64::MAX as nat) {
        Some(v) => (v % SEED_MOD as nat) as u64,
        None => seed,
    }
}

pub fn commit_seed(text: &Vec<char>, seed: u64) -> (s: u64)
    ensures
        s == committed_seed(text@, seed),
{
    match parse_number(text, u64::MAX) {
        Some(v) => v % SEED_MOD,
        None => seed,
    }
}

/// Editing a seed and confirming it unchanged keeps the seed.
pub proof fn lemma_seed_edit_round_trip(seed: u64, other: u64)
    requires
        seed < SEED_MOD,
    ensures
        committed_seed(decimal(seed as nat), other) == seed,
{
    lemma_decimal(seed as nat);
}

/// Whether this map is bookmarked.
pub fn is_bookmarked(b: &Vec<Bookmark>, seed: u64, players: usize) -> (r: bool)
    ensures
        r == b@.contains((seed, players)),
{
    let mut i: usize = 0;
    while i < b.len()
        invariant
            i <= b@.len(),
            forall|k: int| 0 <= k < i ==> b@[k] != (seed, players),
        decreases b@.len() - i,
    {
        if b[i].0 == seed && b[i].1 == players {
            proof {
                assert(b@[i as int] == (seed, players));
            }
            return true;
        }
        i = i + 1;
    }
    false
}

/// Every bookmark but `x`.
pub open spec fn other_than(x: Bookmark) -> spec_fn(Bookmark) -> bool {
    |y: Bookmark| y != x
}

/// The bookmark button: a bookmarked map loses every bookmark of it, any
/// other map is bookmarked at the end of the list.
pub fn toggle_bookmark(b: &mut Vec<Bookmark>, seed: u64, players: usize)
    ensures
        final(b)@ == if old(b)@.contains((seed, players)) {
            old(b)@.filter(other_than((seed, players)))
        } else {
            old(b)@.push((seed, players))
        },
{
    if !is_bookmarked(b, seed, players) {
        b.push((seed, players));
        return;
    }
    let ghost keep = other_than((seed, players));
    let mut kept: Vec<Bookmark> = Vec::new();
    let mut i: usize = 0;
    while i < b.len()
        invariant
            i <= b@.len(),
            keep == other_than((seed, players)),
            kept@ == b@.take(i as int).filter(keep),
        decreases b@.len() - i,
    {
        let x = b[i];
        proof {
            reveal(Seq::filter);
            assert(b@.take(i + 1).drop_last() =~= b@.take(i as int));
            assert(b@.take(i + 1).last() == x);
        }
        if !(x.0 == seed && x.1 == players) {
            kept.push(x);
        }
        i = i + 1;
    }
    proof {
        assert(b@.take(b@.len() as int) =~= b@);
    }
    *b = kept;
}

/// Bookmarking a map that was not bookmarked, then pressing the button
/// again, leaves the list as it was.
pub proof fn lemma_toggle_twice(b: Seq<Bookmark>, x: Bookmark)
    requires
        !b.contains(x),
    ensures
        b.push(x).contains(x),
        b.push(x).filter(other_than(x)) == b,
{
    reveal(Seq::filter);
    let keep = other_than(x);
    assert(b.push(x)[b.len() as int] == x);
    assert(b.push(x).drop_last() =~= b);
    assert(b.filter(keep) =~= b) by {
        lemma_filter_keeps_all(b, x);
    }
}

proof fn lemma_filter_keeps_all(b: Seq<Bookmark>, x: Bookmark)
    requires
        !b.contains(x),
    ensures
        b.filter(other_than(x)) == b,
    decreases b.len(),
{
    reveal(Seq::filter);
    let keep = other_than(x);
    if b.len() > 0 {
        assert(!b.drop_last().contains(x)) by {
            if b.drop_last().contains(x) {
                let k = choose|k: int| 0 <= k < b.drop_last().len() && b.drop_last()[k] == x;
                assert(b[k] == x);
            }
        }
        lemma_filter_keeps_all(b.drop_last(), x);
        assert(b[b.len() - 1] != x);
        assert(b.drop_last().push(b.last()) =~= b);
    }
}


/// Bookmark rows shown at once.
pub const BOOKMARKS_SHOWN: usize = 4;

/// The main menu's state.
pub struct MenuState {
    pub players: usize,
    pub humans: usize,
    pub difficulty: Difficulty,
    pub seed: u64,
    /// the seed field has the keyboard
    pub editing: bool,
    pub seed_text: Vec<char>,
    pub bookmarks: Vec<Bookmark>,
    /// first bookmark row shown
    pub scroll: usize,
}

/// What the pointer was on when the button went down (the front end finds it).
#[derive(Clone, Copy, PartialEq, Eq, Structural, Debug)]
pub enum MenuTarget {
    /// one of the color swatches
    Color(usize),
    /// the button for `k + 2` players
    Players(usize),
    /// difficulty button `k`: Easy, Normal, Hard
    Difficulty(usize),
    SeedBox,
    Prev,
    Next,
    /// the "new map" button, with the fresh seed drawn for it
    NewSeed(u64),
    BookmarkButton,
    /// toolbar icon `i`: sound, chances, colorblind, speed, dark mode
    Icon(usize),
    /// the delete cross on bookmark row `i` (counting shown rows)
    BookmarkDelete(usize),
    BookmarkRow(usize),
    Start,
    Host,
    Join,
    Nothing,
}

/// Something the menu reacts to.
#[derive(Clone, Copy, PartialEq, Eq, Structural, Debug)]
pub enum MenuEvent {
    /// a typed character
    Char(char),
    Backspace,
    Enter,
    /// the `N` key, with the fresh seed drawn for it
    NewSeedKey(u64),
    /// the wheel turned over the bookmark list: up (`true`) or down
    Wheel(bool),
    /// a held arrow button repeats: back (`false`) or forward
    Held(bool),
    Click(MenuTarget),
}

/// What leaves the menu.
#[derive(Clone, Copy, PartialEq, Eq, Structural, Debug)]
pub enum MenuAction {
    Stay,
    Start,
    Host,
    Join,
}

/// What the front end has to do after an event.
#[derive(Clone, Copy, PartialEq, Eq, Structural, Debug)]
pub struct MenuReply {
    pub action: MenuAction,
    pub sound: Option<Snd>,
    /// the preview map has to be generated again
    pub regen: bool,
    pub save_settings: bool,
    pub save_bookmarks: bool,
}

pub open spec fn reply(action: MenuAction, sound: Option<Snd>, regen: bool, save_settings: bool, save_bookmarks: bool) -> MenuReply {
    MenuReply { action, sound, regen, save_settings, save_bookmarks }
}

pub open spec fn quiet() -> MenuReply {
    reply(MenuAction::Stay, None, false, false, false)
}

pub open spec fn clicked(regen: bool) -> MenuReply {
    reply(MenuAction::Stay, Some(Snd::Click), regen, false, false)
}

/// The settings after toolbar icon `i` (sound, chances, colorblind, speed,
/// dark mode) was pressed.
pub open spec fn toggled(s: Settings, i: usize) -> Settings {
    if i == 0 {
        Settings { muted: !s.muted, ..s }
    } else if i == 1 {
        Settings { chances: !s.chances, ..s }
    } else if i == 2 {
        Settings { colorblind: !s.colorblind, ..s }
    } else if i == 3 {
        Settings { fast: !s.fast, ..s }
    } else {
        Settings { dark: !s.dark, ..s }
    }
}

/// Presses toolbar icon `i`.
pub fn toggle_icon(s: &mut Settings, i: usize)
    ensures
        *final(s) == toggled(*old(s), i),
{
    if i == 0 {
        s.muted = !s.muted;
    } else if i == 1 {
        s.chances = !s.chances;
    } else if i == 2 {
        s.colorblind = !s.colorblind;
    } else if i == 3 {
        s.fast = !s.fast;
    } else {
        s.dark = !s.dark;
    }
}

/// Highest first row the bookmark list can be scrolled to.
pub open spec fn max_scroll(n: nat) -> int {
    if n > BOOKMARKS_SHOWN {
        n - BOOKMARKS_SHOWN
    } else {
        0
    }
}

/// `x` clamped to `0..=hi`.
pub open spec fn clamp_to(x: int, hi: int) -> int {
    if x < 0 {
        0
    } else if x > hi {
        hi
    } else {
        x
    }
}

/// The bookmark list after pressing the bookmark button on map `(seed, players)`.
pub open spec fn bookmarks_toggled(b: Seq<Bookmark>, x: Bookmark) -> Seq<Bookmark> {
    if b.contains(x) {
        b.filter(other_than(x))
    } else {
        b.push(x)
    }
}

/// What pressing `t` asks of the front end, the seed field being left first
/// if needed (`was_editing` tells whether the field had the keyboard before,
/// `row_ok` whether a bookmark row `t` names is on the list).
pub open spec fn target_reply(t: MenuTarget, was_editing: bool, row_ok: bool) -> MenuReply {
    match t {
        MenuTarget::Color(i) => if i < MAX_PLAYERS {
            reply(MenuAction::Stay, Some(Snd::Click), true, true, false)
        } else {
            quiet()
        },
        MenuTarget::Players(k) => if k < MAX_PLAYERS - 1 {
            clicked(true)
        } else {
            quiet()
        },
        MenuTarget::Difficulty(k) => if k < 3 {
            clicked(true)
        } else {
            quiet()
        },
        MenuTarget::SeedBox => if was_editing {
            quiet()
        } else {
            clicked(false)
        },
        MenuTarget::Prev => clicked(true),
        MenuTarget::Next => clicked(true),
        MenuTarget::NewSeed(_) => clicked(true),
        MenuTarget::BookmarkButton => reply(MenuAction::Stay, Some(Snd::Click), false, false, true),
        MenuTarget::Icon(i) => if i < 5 {
            reply(MenuAction::Stay, Some(Snd::Click), false, true, false)
        } else {
            quiet()
        },
        MenuTarget::BookmarkDelete(_) => if row_ok {
            reply(MenuAction::Stay, Some(Snd::Click), false, false, true)
        } else {
            quiet()
        },
        MenuTarget::BookmarkRow(_) => if row_ok {
            reply(MenuAction::Stay, Some(Snd::Select), true, false, false)
        } else {
            quiet()
        },
        MenuTarget::Start => reply(MenuAction::Start, None, false, false, false),
        MenuTarget::Host => reply(MenuAction::Host, Some(Snd::Click), false, false, false),
        MenuTarget::Join => reply(MenuAction::Join, Some(Snd::Click), false, false, false),
        MenuTarget::Nothing => quiet(),
    }
}

impl MenuState {
    /// Seeds are below `SEED_MOD`, the player count is a choice on the
    /// menu, and so are the bookmarks.
    pub open spec fn wf(&self) -> bool {
        &&& self.seed < SEED_MOD
        &&& self.seed_text@.len() <= SEED_DIGITS
        &&& 2 <= self.players <= MAX_PLAYERS
        &&& forall|i: int| 0 <= i < self.bookmarks@.len() ==> crate::save::kept_bookmark(#[trigger] self.bookmarks@[i])
    }

    /// Leaves the seed field: the typed seed is taken if it reads as a number.
    fn commit(&mut self)
        requires
            old(self).wf(),
        ensures
            final(self).wf(),
            !final(self).editing,
            final(self).seed == committed_seed(old(self).seed_text@, old(self).seed),
            final(self).seed_text == old(self).seed_text,
            final(self).players == old(self).players,
            final(self).humans == old(self).humans,
            final(self).difficulty == old(self).difficulty,
            final(self).bookmarks == old(self).bookmarks,
            final(self).scroll == old(self).scroll,
    {
        self.editing = false;
        self.seed = commit_seed(&self.seed_text, self.seed);
    }

    /// Whether shown bookmark row `i` is on the list.
    pub open spec fn row_ok(&self, i: usize) -> bool {
        i < BOOKMARKS_SHOWN && self.scroll + i < self.bookmarks@.len()
    }

    /// The menu's answer to a press on `t`, after the seed field was left.
    fn press(&mut self, settings: &mut Settings, t: MenuTarget) -> (r: MenuReply)
        requires
            old(self).wf(),
            t != MenuTarget::SeedBox ==> !old(self).editing,
            t matches MenuTarget::NewSeed(s) ==> s < SEED_MOD,
        ensures
            final(self).wf(),
            r == target_reply(
                t,
                old(self).editing,
                match t {
                    MenuTarget::BookmarkDelete(i) => old(self).row_ok(i),
                    MenuTarget::BookmarkRow(i) => old(self).row_ok(i),
                    _ => false,
                },
            ),
            final(self).humans == old(self).humans,
            press_effect(*old(self), *old(settings), t, *final(self), *final(settings)),
    {
        match t {
            MenuTarget::Color(i) => {
                if i < MAX_PLAYERS {
                    settings.color = i;
                    reply_of(MenuAction::Stay, Some(Snd::Click), true, true, false)
                } else {
                    reply_of(MenuAction::Stay, None, false, false, false)
                }
            },
            MenuTarget::Players(k) => {
                if k < MAX_PLAYERS - 1 {
                    self.players = k + 2;
                    reply_of(MenuAction::Stay, Some(Snd::Click), true, false, false)
                } else {
                    reply_of(MenuAction::Stay, None, false, false, false)
                }
            },
            MenuTarget::Difficulty(k) => {
                if k < 3 {
                    self.difficulty = crate::rules::idx_diff(k);
                    reply_of(MenuAction::Stay, Some(Snd::Click), true, false, false)
                } else {
                    reply_of(MenuAction::Stay, None, false, false, false)
                }
            },
            MenuTarget::SeedBox => {
                if self.editing {
                    reply_of(MenuAction::Stay, None, false, false, false)
                } else {
                    self.editing = true;
                    self.seed_text = seed_text(self.seed);
                    proof {
                        reveal_with_fuel(crate::text::ten_pow, 9);
                        crate::text::lemma_decimal_len(old(self).seed as nat, 8);
                    }
                    reply_of(MenuAction::Stay, Some(Snd::Click), false, false, false)
                }
            },
            MenuTarget::Prev => {
                self.seed = prev_seed(self.seed);
                reply_of(MenuAction::Stay, Some(Snd::Click), true, false, false)
            },
            MenuTarget::Next => {
                self.seed = next_seed(self.seed);
                reply_of(MenuAction::Stay, Some(Snd::Click), true, false, false)
            },
            MenuTarget::NewSeed(s) => {
                self.seed = s;
                reply_of(MenuAction::Stay, Some(Snd::Click), true, false, false)
            },
            MenuTarget::BookmarkButton => {
                let ghost b0 = self.bookmarks@;
                toggle_bookmark(&mut self.bookmarks, self.seed, self.players);
                proof {
                    lemma_toggle_keeps(b0, (self.seed, self.players));
                    assert(self.bookmarks@ == bookmarks_toggled(b0, (self.seed, self.players)));
                    assert forall|i: int| 0 <= i < self.bookmarks@.len() implies crate::save::kept_bookmark(
                        #[trigger] self.bookmarks@[i],
                    ) by {
                        assert(self.bookmarks@[i] == bookmarks_toggled(b0, (self.seed, self.players))[i]);
                    }
                }
                reply_of(MenuAction::Stay, Some(Snd::Click), false, false, true)
            },
            MenuTarget::Icon(i) => {
                if i < 5 {
                    toggle_icon(settings, i);
                    reply_of(MenuAction::Stay, Some(Snd::Click), false, true, false)
                } else {
                    reply_of(MenuAction::Stay, None, false, false, false)
                }
            },
            MenuTarget::BookmarkDelete(i) => {
                if i < BOOKMARKS_SHOWN && self.scroll < self.bookmarks.len() && i < self.bookmarks.len() - self.scroll {
                    let ghost b0 = self.bookmarks@;
                    self.bookmarks.remove(self.scroll + i);
                    let max: usize = if self.bookmarks.len() > BOOKMARKS_SHOWN {
                        self.bookmarks.len() - BOOKMARKS_SHOWN
                    } else {
                        0
                    };
                    if self.scroll > max {
                        self.scroll = max;
                    }
                    proof {
                        assert forall|k: int| 0 <= k < self.bookmarks@.len() implies crate::save::kept_bookmark(
                            #[trigger] self.bookmarks@[k],
                        ) by {
                            if k < old(self).scroll + i {
                                assert(self.bookmarks@[k] == b0[k]);
                            } else {
                                assert(self.bookmarks@[k] == b0[k + 1]);
                            }
                        }
                    }
                    reply_of(MenuAction::Stay, Some(Snd::Click), false, false, true)
                } else {
                    reply_of(MenuAction::Stay, None, false, false, false)
                }
            },
            MenuTarget::BookmarkRow(i) => {
                if i < BOOKMARKS_SHOWN && self.scroll < self.bookmarks.len() && i < self.bookmarks.len() - self.scroll {
                    let (s, p) = self.bookmarks[self.scroll + i];
                    proof {
                        assert(crate::save::kept_bookmark(self.bookmarks@[self.scroll + i]));
                    }
                    self.seed = s;
                    self.players = p;
                    reply_of(MenuAction::Stay, Some(Snd::Select), true, false, false)
                } else {
                    reply_of(MenuAction::Stay, None, false, false, false)
                }
            },
            MenuTarget::Start => reply_of(MenuAction::Start, None, false, false, false),
            MenuTarget::Host => reply_of(MenuAction::Host, Some(Snd::Click), false, false, false),
            MenuTarget::Join => reply_of(MenuAction::Join, Some(Snd::Click), false, false, false),
            MenuTarget::Nothing => reply_of(MenuAction::Stay, None, false, false, false),
        }
    }

    /// The menu's answer to `ev`, with the player's settings (the color and
    /// the toolbar switches live there).
    pub fn handle(&mut self, settings: &mut Settings, ev: MenuEvent) -> (r: MenuReply)
        requires
            old(self).wf(),
            ev matches MenuEvent::Click(MenuTarget::NewSeed(s)) ==> s < SEED_MOD,
            ev matches MenuEvent::NewSeedKey(s) ==> s < SEED_MOD,
        ensures
            final(self).wf(),
            final(self).humans == old(self).humans,
            match ev {
                MenuEvent::Char(c) => {
                    &&& r == quiet()
                    &&& *final(settings) == *old(settings)
                    &&& final(self).seed_text@ == if old(self).editing && is_ascii_digit(c) && old(self).seed_text@.len()
                        < SEED_DIGITS {
                        old(self).seed_text@.push(c)
                    } else {
                        old(self).seed_text@
                    }
                    &&& only_text_changed(*old(self), *final(self))
                },
                MenuEvent::Backspace => {
                    &&& r == quiet()
                    &&& *final(settings) == *old(settings)
                    &&& final(self).seed_text@ == if old(self).editing && old(self).seed_text@.len() > 0 {
                        old(self).seed_text@.drop_last()
                    } else {
                        old(self).seed_text@
                    }
                    &&& only_text_changed(*old(self), *final(self))
                },
                MenuEvent::Enter => {
                    &&& *final(settings) == *old(settings)
                    &&& if old(self).editing {
                        &&& r == reply(MenuAction::Stay, None, true, false, false)
                        &&& menu_with(
                            *old(self),
                            *final(self),
                            committed_seed(old(self).seed_text@, old(self).seed) as int,
                            false,
                            old(self).scroll as int,
                        )
                    } else {
                        &&& r == reply(MenuAction::Start, None, false, false, false)
                        &&& *final(self) == *old(self)
                    }
                },
                MenuEvent::NewSeedKey(s) => {
                    &&& *final(settings) == *old(settings)
                    &&& if old(self).editing {
                        r == quiet() && *final(self) == *old(self)
                    } else {
                        r == clicked(true) && menu_with(*old(self), *final(self), s as int, false, old(self).scroll as int)
                    }
                },
                MenuEvent::Wheel(up) => {
                    &&& r == quiet()
                    &&& *final(settings) == *old(settings)
                    &&& menu_with(
                        *old(self),
                        *final(self),
                        old(self).seed as int,
                        old(self).editing,
                        clamp_to(
                            if up {
                                old(self).scroll - 1
                            } else {
                                old(self).scroll + 1
                            },
                            max_scroll(old(self).bookmarks@.len()),
                        ),
                    )
                },
                MenuEvent::Held(forward) => {
                    &&& *final(settings) == *old(settings)
                    &&& if old(self).editing {
                        r == quiet() && *final(self) == *old(self)
                    } else {
                        &&& r == reply(MenuAction::Stay, None, true, false, false)
                        &&& menu_with(
                            *old(self),
                            *final(self),
                            if forward {
                                (old(self).seed + 1) % (SEED_MOD as int)
                            } else {
                                (old(self).seed + SEED_MOD - 1) % (SEED_MOD as int)
                            },
                            false,
                            old(self).scroll as int,
                        )
                    }
                },
                MenuEvent::Click(t) => {
                    // leaving the seed field first takes what was typed
                    let left_field = old(self).editing && t != MenuTarget::SeedBox;
                    let mid = if left_field {
                        MenuState {
                            editing: false,
                            seed: committed_seed(old(self).seed_text@, old(self).seed),
                            ..*old(self)
                        }
                    } else {
                        *old(self)
                    };
                    let tr = target_reply(
                        t,
                        mid.editing,
                        match t {
                            MenuTarget::BookmarkDelete(i) => mid.row_ok(i),
                            MenuTarget::BookmarkRow(i) => mid.row_ok(i),
                            _ => false,
                        },
                    );
                    &&& r == MenuReply { regen: tr.regen || left_field, ..tr }
                    &&& press_effect(mid, *old(settings), t, *final(self), *final(settings))
                },
            },
    {
        match ev {
            MenuEvent::Char(c) => {
                if self.editing {
                    type_seed_char(&mut self.seed_text, c);
                }
                reply_of(MenuAction::Stay, None, false, false, false)
            },
            MenuEvent::Backspace => {
                if self.editing {
                    self.seed_text.pop();
                }
                reply_of(MenuAction::Stay, None, false, false, false)
            },
            MenuEvent::Enter => {
                if self.editing {
                    self.commit();
                    reply_of(MenuAction::Stay, None, true, false, false)
                } else {
                    reply_of(MenuAction::Start, None, false, false, false)
                }
            },
            MenuEvent::NewSeedKey(s) => {
                if self.editing {
                    reply_of(MenuAction::Stay, None, false, false, false)
                } else {
                    self.seed = s;
                    reply_of(MenuAction::Stay, Some(Snd::Click), true, false, false)
                }
            },
            MenuEvent::Wheel(up) => {
                let max: usize = if self.bookmarks.len() > BOOKMARKS_SHOWN {
                    self.bookmarks.len() - BOOKMARKS_SHOWN
                } else {
                    0
                };
                if up {
                    if self.scroll == 0 {
                        self.scroll = 0;
                    } else if self.scroll - 1 > max {
                        self.scroll = max;
                    } else {
                        self.scroll = self.scroll - 1;
                    }
                } else if self.scroll >= max {
                    self.scroll = max;
                } else {
                    self.scroll = self.scroll + 1;
                }
                reply_of(MenuAction::Stay, None, false, false, false)
            },
            MenuEvent::Held(forward) => {
                if self.editing {
                    return reply_of(MenuAction::Stay, None, false, false, false);
                }
                self.seed = if forward {
                    next_seed(self.seed)
                } else {
                    prev_seed(self.seed)
                };
                reply_of(MenuAction::Stay, None, true, false, false)
            },
            MenuEvent::Click(t) => {
                let left_field = self.editing && t != MenuTarget::SeedBox;
                if left_field {
                    self.commit();
                }
                let r = self.press(settings, t);
                MenuReply { regen: r.regen || left_field, ..r }
            },
        }
    }
}

/// Only the seed field's text changed.
pub open spec fn only_text_changed(a: MenuState, b: MenuState) -> bool {
    &&& b.players == a.players
    &&& b.difficulty == a.difficulty
    &&& b.seed == a.seed
    &&& b.editing == a.editing
    &&& b.bookmarks == a.bookmarks
    &&& b.scroll == a.scroll
}

/// Every field of menu `b` but `humans` has the given value.
pub open spec fn menu_fields(
    b: MenuState,
    players: int,
    difficulty: Difficulty,
    seed: int,
    editing: bool,
    text: Seq<char>,
    bookmarks: Seq<Bookmark>,
    scroll: int,
) -> bool {
    &&& b.players == players
    &&& b.difficulty == difficulty
    &&& b.seed == seed
    &&& b.editing == editing
    &&& b.seed_text@ == text
    &&& b.bookmarks@ == bookmarks
    &&& b.scroll == scroll
}

/// Menu `b` is menu `a` with the seed, the editing flag and the scroll set
/// to the given values.
pub open spec fn menu_with(a: MenuState, b: MenuState, seed: int, editing: bool, scroll: int) -> bool {
    &&& b.humans == a.humans
    &&& menu_fields(b, a.players as int, a.difficulty, seed, editing, a.seed_text@, a.bookmarks@, scroll)
}

/// What a press on `t` does to the menu `m` (whose seed field is already
/// left, unless `t` is the field) and to the settings `s`: every field is
/// given.
pub open spec fn press_effect(m: MenuState, s: Settings, t: MenuTarget, m2: MenuState, s2: Settings) -> bool {
    let keep = menu_with(m, m2, m.seed as int, m.editing, m.scroll as int);
    let p = m.players as int;
    let txt = m.seed_text@;
    let bm = m.bookmarks@;
    let sc = m.scroll as int;
    &&& m2.humans == m.humans
    &&& match t {
        MenuTarget::Color(i) => keep && s2 == if i < MAX_PLAYERS {
            Settings { color: i, ..s }
        } else {
            s
        },
        MenuTarget::Players(k) => s2 == s && menu_fields(
            m2,
            if k < MAX_PLAYERS - 1 {
                k + 2
            } else {
                p
            },
            m.difficulty,
            m.seed as int,
            m.editing,
            txt,
            bm,
            sc,
        ),
        MenuTarget::Difficulty(k) => s2 == s && menu_fields(
            m2,
            p,
            if k < 3 {
                crate::rules::spec_idx_diff(k)
            } else {
                m.difficulty
            },
            m.seed as int,
            m.editing,
            txt,
            bm,
            sc,
        ),
        MenuTarget::SeedBox => s2 == s && menu_fields(
            m2,
            p,
            m.difficulty,
            m.seed as int,
            true,
            if m.editing {
                txt
            } else {
                decimal(m.seed as nat)
            },
            bm,
            sc,
        ),
        MenuTarget::Prev => s2 == s && menu_with(m, m2, (m.seed + SEED_MOD - 1) % (SEED_MOD as int), m.editing, sc),
        MenuTarget::Next => s2 == s && menu_with(m, m2, (m.seed + 1) % (SEED_MOD as int), m.editing, sc),
        MenuTarget::NewSeed(x) => s2 == s && menu_with(m, m2, x as int, m.editing, sc),
        MenuTarget::BookmarkButton => s2 == s && menu_fields(
            m2,
            p,
            m.difficulty,
            m.seed as int,
            m.editing,
            txt,
            bookmarks_toggled(bm, (m.seed, m.players)),
            sc,
        ),
        MenuTarget::Icon(i) => keep && s2 == if i < 5 {
            toggled(s, i)
        } else {
            s
        },
        MenuTarget::BookmarkDelete(i) => s2 == s && if m.row_ok(i) {
            let b2 = bm.remove(m.scroll + i);
            menu_fields(
                m2,
                p,
                m.difficulty,
                m.seed as int,
                m.editing,
                txt,
                b2,
                if m.scroll <= max_scroll(b2.len()) {
                    sc
                } else {
                    max_scroll(b2.len())
                },
            )
        } else {
            keep
        },
        MenuTarget::BookmarkRow(i) => s2 == s && if m.row_ok(i) {
            menu_fields(
                m2,
                bm[m.scroll + i].1 as int,
                m.difficulty,
                bm[m.scroll + i].0 as int,
                m.editing,
                txt,
                bm,
                sc,
            )
        } else {
            keep
        },
        _ => keep && s2 == s,
    }
}

fn reply_of(action: MenuAction, sound: Option<Snd>, regen: bool, save_settings: bool, save_bookmarks: bool) -> (r: MenuReply)
    ensures
        r == reply(action, sound, regen, save_settings, save_bookmarks),
{
    MenuReply { action, sound, regen, save_settings, save_bookmarks }
}

proof fn lemma_toggle_keeps(b: Seq<Bookmark>, x: Bookmark)
    requires
        forall|i: int| 0 <= i < b.len() ==> crate::save::kept_bookmark(#[trigger] b[i]),
        crate::save::kept_bookmark(x),
    ensures
        forall|i: int|
            0 <= i < bookmarks_toggled(b, x).len() ==> crate::save::kept_bookmark(#[trigger] bookmarks_toggled(b, x)[i]),
{
    let t = bookmarks_toggled(b, x);
    assert forall|i: int| 0 <= i < t.len() implies crate::save::kept_bookmark(#[trigger] t[i]) by {
        if b.contains(x) {
            let e = t[i];
            assert(t.contains(e));
            b.lemma_filter_contains_rev(other_than(x), e);
            let j = choose|j: int| 0 <= j < b.len() && b[j] == e;
            assert(crate::save::kept_bookmark(b[j]));
        } else if i < b.len() {
            assert(t[i] == b[i]);
        }
    }
}

} // verus!
