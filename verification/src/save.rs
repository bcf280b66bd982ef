//! The two small files the game keeps between sessions: the settings and the
//! bookmarked maps. Both are lines of white-space separated words; lines
//! that do not read are skipped.
use vstd::prelude::*;
use crate::rules::{MAX_PLAYERS, SEED_MOD};
use crate::text::{
    decimal, joined, lemma_decimal, lemma_joined_push, lemma_pieces_joined, lemma_pieces_nonempty, lemma_pieces_word, lemma_words_joined, parse_number, parsed_number,
    pieces, plain_word, push_decimal, split_on, split_words, words, free_of,
};

verus! {

/// The player's settings.
#[derive(Clone, Copy, PartialEq, Eq, Structural, Debug)]
pub struct Settings {
    /// show win-chance hints on attack options
    pub chances: bool,
    pub muted: bool,
    /// alternative palette and shape badges on the map
    pub colorblind: bool,
    /// which palette color the human plays as
    pub color: usize,
    /// double game speed
    pub fast: bool,
    pub dark: bool,
}

/// The settings before anything was saved.
pub open spec fn default_settings() -> Settings {
    Settings { chances: true, muted: false, colorblind: false, color: 0, fast: false, dark: false }
}

pub fn initial_settings() -> (s: Settings)
    ensures
        s == default_settings(),
{
    Settings { chances: true, muted: false, colorblind: false, color: 0, fast: false, dark: false }
}

pub open spec fn kw_chances() -> Seq<char> {
    seq!['c', 'h', 'a', 'n', 'c', 'e', 's']
}

pub open spec fn kw_muted() -> Seq<char> {
    seq!['m', 'u', 't', 'e', 'd']
}

pub open spec fn kw_colorblind() -> Seq<char> {
    seq!['c', 'o', 'l', 'o', 'r', 'b', 'l', 'i', 'n', 'd']
}

pub open spec fn kw_color() -> Seq<char> {
    seq!['c', 'o', 'l', 'o', 'r']
}

pub open spec fn kw_speed() -> Seq<char> {
    seq!['s', 'p', 'e', 'e', 'd']
}

pub open spec fn kw_dark() -> Seq<char> {
    seq!['d', 'a', 'r', 'k']
}

/// A setting line `name value` applied to `s`: a switch is on unless its
/// value is `0`; the color is read as a number (0 when it is not one)
/// modulo the number of colors; the speed is double exactly when it is `2`.
/// Other lines, and lines with fewer than two words, change nothing.
pub open spec fn apply_setting(s: Settings, line: Seq<char>) -> Settings {
    let ws = words(line);
    if ws.len() < 2 {
        s
    } else {
        let name = ws[0];
        let v = ws[1];
        if name == kw_chances() {
            Settings { chances: v != seq!['0'], ..s }
        } else if name == kw_muted() {
            Settings { muted: v != seq!['0'], ..s }
        } else if name == kw_colorblind() {
            Settings { colorblind: v != seq!['0'], ..s }
        } else if name == kw_color() {
            Settings {
                color: (match parsed_number(v, usize::MAX as nat) {
                    Some(c) => c,
                    None => 0,
                } % MAX_PLAYERS as nat) as usize,
                ..s
            }
        } else if name == kw_speed() {
            Settings { fast: v == seq!['2'], ..s }
        } else if name == kw_dark() {
            Settings { dark: v != seq!['0'], ..s }
        } else {
            s
        }
    }
}

/// The settings after reading `lines` one after the other.
pub open spec fn settings_after(lines: Seq<Seq<char>>) -> Settings
    decreases lines.len(),
{
    if lines.len() == 0 {
        default_settings()
    } else {
        apply_setting(settings_after(lines.drop_last()), lines.last())
    }
}

/// What a settings file says.
pub open spec fn settings_of(text: Seq<char>) -> Settings {
    settings_after(pieces(text, '\n'))
}

fn spells(w: &Vec<char>, lit: &Vec<char>) -> (b: bool)
    ensures
        b == (w@ == lit@),
{
    if w.len() != lit.len() {
        return false;
    }
    let mut i: usize = 0;
    while i < w.len()
        invariant
            w@.len() == lit@.len(),
            i <= w@.len(),
            forall|k: int| 0 <= k < i ==> w@[k] == lit@[k],
        decreases w@.len() - i,
    {
        if w[i] != lit[i] {
            return false;
        }
        i = i + 1;
    }
    proof {
        assert(w@ =~= lit@);
    }
    true
}

fn apply_line(s: Settings, line: &Vec<char>) -> (r: Settings)
    ensures
        r == apply_setting(s, line@),
{
    let ws = split_words(line);
    if ws.len() < 2 {
        return s;
    }
    let name = &ws[0];
    let v = &ws[1];
    let zero: Vec<char> = vec!['0'];
    let two: Vec<char> = vec!['2'];
    proof {
        assert(zero@ =~= seq!['0']);
        assert(two@ =~= seq!['2']);
    }
    if spells(name, &vec!['c', 'h', 'a', 'n', 'c', 'e', 's']) {
        Settings { chances: !spells(v, &zero), ..s }
    } else if spells(name, &vec!['m', 'u', 't', 'e', 'd']) {
        Settings { muted: !spells(v, &zero), ..s }
    } else if spells(name, &vec!['c', 'o', 'l', 'o', 'r', 'b', 'l', 'i', 'n', 'd']) {
        Settings { colorblind: !spells(v, &zero), ..s }
    } else if spells(name, &vec!['c', 'o', 'l', 'o', 'r']) {
        let c: u64 = match parse_number(v, usize::MAX as u64) {
            Some(c) => c,
            None => 0,
        };
        Settings { color: (c % MAX_PLAYERS as u64) as usize, ..s }
    } else if spells(name, &vec!['s', 'p', 'e', 'e', 'd']) {
        Settings { fast: spells(v, &two), ..s }
    } else if spells(name, &vec!['d', 'a', 'r', 'k']) {
        Settings { dark: !spells(v, &zero), ..s }
    } else {
        s
    }
}

/// Reads a settings file.
pub fn read_settings(text: &Vec<char>) -> (s: Settings)
    ensures
        s == settings_of(text@),
{
    let lines = split_on(text, '\n');
    let ghost lv = pieces(text@, '\n');
    let mut s = initial_settings();
    let mut k: usize = 0;
    while k < lines.len()
        invariant
            k <= lines@.len(),
            lines@.len() == lv.len(),
            forall|i: int| 0 <= i < lines@.len() ==> #[trigger] lines@[i]@ == lv[i],
            s == settings_after(lv.take(k as int)),
        decreases lines@.len() - k,
    {
        proof {
            assert(lv.take(k + 1).drop_last() =~= lv.take(k as int));
        }
        s = apply_line(s, &lines[k]);
        k = k + 1;
    }
    proof {
        assert(lv.take(lv.len() as int) =~= lv);
    }
    s
}

pub open spec fn flag(b: bool) -> Seq<char> {
    if b {
        seq!['1']
    } else {
        seq!['0']
    }
}

/// The settings file: one `name value` line per setting, switches as 0 or
/// 1, the speed as 1 or 2, each line ending in a newline.
pub open spec fn settings_text(s: Settings) -> Seq<char> {
    joined(
        seq![
            joined(seq![kw_chances(), flag(s.chances)], ' '),
            joined(seq![kw_muted(), flag(s.muted)], ' '),
            joined(seq![kw_colorblind(), flag(s.colorblind)], ' '),
            joined(seq![kw_color(), decimal(s.color as nat)], ' '),
            joined(seq![kw_speed(), if s.fast { seq!['2'] } else { seq!['1'] }], ' '),
            joined(seq![kw_dark(), flag(s.dark)], ' '),
            Seq::empty(),
        ],
        '\n',
    )
}

fn push_chars(out: &mut Vec<char>, w: &Vec<char>)
    ensures
        final(out)@ == old(out)@ + w@,
{
    let ghost o = out@;
    let mut i: usize = 0;
    while i < w.len()
        invariant
            i <= w@.len(),
            out@ == o + w@.take(i as int),
        decreases w@.len() - i,
    {
        out.push(w[i]);
        i = i + 1;
        proof {
            assert(w@.take(i as int) =~= w@.take(i - 1).push(w@[i - 1]));
        }
    }
    proof {
        assert(w@.take(w@.len() as int) =~= w@);
    }
}

/// Appends the line `name value` and a newline.
fn push_setting(out: &mut Vec<char>, name: &Vec<char>, value: &Vec<char>)
    ensures
        final(out)@ == old(out)@ + joined(seq![name@, value@], ' ').push('\n'),
{
    let ghost o = out@;
    push_chars(out, name);
    out.push(' ');
    push_chars(out, value);
    out.push('\n');
    proof {
        assert(seq![name@].push(value@) =~= seq![name@, value@]);
        lemma_joined_push(seq![name@], value@, ' ');
        assert(joined(seq![name@], ' ') == name@);
        assert(out@ =~= o + (name@.push(' ') + value@).push('\n'));
    }
}

fn flag_chars(b: bool) -> (v: Vec<char>)
    ensures
        v@ == flag(b),
{
    let v = if b {
        vec!['1']
    } else {
        vec!['0']
    };
    proof {
        assert(v@ =~= flag(b));
    }
    v
}

proof fn lemma_lines_joined(ls: Seq<Seq<char>>)
    requires
        ls.len() > 0,
    ensures
        joined(ls.push(Seq::empty()), '\n') == joined(ls, '\n').push('\n'),
{
    assert(ls.push(Seq::<char>::empty()).drop_last() =~= ls);
    assert(joined(ls, '\n').push('\n') + Seq::<char>::empty() =~= joined(ls, '\n').push('\n'));
}

/// The setting lines, in file order.
pub open spec fn setting_lines(s: Settings) -> Seq<Seq<char>> {
    seq![
        joined(seq![kw_chances(), flag(s.chances)], ' '),
        joined(seq![kw_muted(), flag(s.muted)], ' '),
        joined(seq![kw_colorblind(), flag(s.colorblind)], ' '),
        joined(seq![kw_color(), decimal(s.color as nat)], ' '),
        joined(seq![kw_speed(), if s.fast { seq!['2'] } else { seq!['1'] }], ' '),
        joined(seq![kw_dark(), flag(s.dark)], ' '),
    ]
}

proof fn lemma_next_line(t: Seq<char>, ls: Seq<Seq<char>>, l: Seq<char>)
    requires
        ls.len() > 0,
        t == joined(ls, '\n').push('\n'),
    ensures
        t + l.push('\n') == joined(ls.push(l), '\n').push('\n'),
{
    lemma_joined_push(ls, l, '\n');
    assert(t + l.push('\n') =~= (joined(ls, '\n').push('\n') + l).push('\n'));
}

/// Writes the settings file.
pub fn write_settings(s: &Settings) -> (t: Vec<char>)
    ensures
        t@ == settings_text(*s),
{
    let ghost ls = setting_lines(*s);
    let mut t: Vec<char> = Vec::new();
    let mut color: Vec<char> = Vec::new();
    push_decimal(&mut color, s.color as u64);
    let speed = if s.fast {
        vec!['2']
    } else {
        vec!['1']
    };
    proof {
        assert(speed@ =~= if s.fast { seq!['2'] } else { seq!['1'] });
    }
    push_setting(&mut t, &vec!['c', 'h', 'a', 'n', 'c', 'e', 's'], &flag_chars(s.chances));
    proof {
        assert(t@ =~= joined(ls.take(1), '\n').push('\n'));
    }
    let ghost t0 = t@;
    push_setting(&mut t, &vec!['m', 'u', 't', 'e', 'd'], &flag_chars(s.muted));
    proof {
        lemma_next_line(t0, ls.take(1), ls[1]);
        assert(ls.take(1).push(ls[1]) =~= ls.take(2));
    }
    let ghost t0 = t@;
    push_setting(&mut t, &vec!['c', 'o', 'l', 'o', 'r', 'b', 'l', 'i', 'n', 'd'], &flag_chars(s.colorblind));
    proof {
        lemma_next_line(t0, ls.take(2), ls[2]);
        assert(ls.take(2).push(ls[2]) =~= ls.take(3));
    }
    let ghost t0 = t@;
    push_setting(&mut t, &vec!['c', 'o', 'l', 'o', 'r'], &color);
    proof {
        lemma_next_line(t0, ls.take(3), ls[3]);
        assert(ls.take(3).push(ls[3]) =~= ls.take(4));
    }
    let ghost t0 = t@;
    push_setting(&mut t, &vec!['s', 'p', 'e', 'e', 'd'], &speed);
    proof {
        lemma_next_line(t0, ls.take(4), ls[4]);
        assert(ls.take(4).push(ls[4]) =~= ls.take(5));
    }
    let ghost t0 = t@;
    push_setting(&mut t, &vec!['d', 'a', 'r', 'k'], &flag_chars(s.dark));
    proof {
        lemma_next_line(t0, ls.take(5), ls[5]);
        assert(ls.take(5).push(ls[5]) =~= ls);
        lemma_lines_joined(ls);
        assert(ls.push(Seq::empty()) =~= seq![
            joined(seq![kw_chances(), flag(s.chances)], ' '),
            joined(seq![kw_muted(), flag(s.muted)], ' '),
            joined(seq![kw_colorblind(), flag(s.colorblind)], ' '),
            joined(seq![kw_color(), decimal(s.color as nat)], ' '),
            joined(seq![kw_speed(), if s.fast { seq!['2'] } else { seq!['1'] }], ' '),
            joined(seq![kw_dark(), flag(s.dark)], ' '),
            Seq::empty(),
        ]);
    }
    t
}


proof fn lemma_pair_line(name: Seq<char>, v: Seq<char>)
    requires
        plain_word(name),
        plain_word(v),
        free_of(name, '\n'),
        free_of(v, '\n'),
    ensures
        words(joined(seq![name, v], ' ')) == seq![name, v],
        free_of(joined(seq![name, v], ' '), '\n'),
{
    lemma_words_joined(seq![name, v]);
    lemma_joined_push(seq![name], v, ' ');
    assert(seq![name].push(v) =~= seq![name, v]);
    let l = joined(seq![name, v], ' ');
    assert(l == name.push(' ') + v);
    assert forall|i: int| 0 <= i < l.len() implies #[trigger] l[i] != '\n' by {
        if i < name.len() {
            assert(l[i] == name[i]);
        } else if i > name.len() {
            assert(l[i] == v[i - name.len() - 1]);
        }
    }
}

proof fn lemma_flag(b: bool)
    ensures
        plain_word(flag(b)),
        free_of(flag(b), '\n'),
        (flag(b) != seq!['0']) == b,
{
    if b {
        assert(flag(b)[0] != seq!['0'][0]);
    }
}

proof fn lemma_keywords_apart()
    ensures
        plain_word(kw_chances()) && plain_word(kw_muted()) && plain_word(kw_colorblind()),
        plain_word(kw_color()) && plain_word(kw_speed()) && plain_word(kw_dark()),
        free_of(kw_chances(), '\n') && free_of(kw_muted(), '\n') && free_of(kw_colorblind(), '\n'),
        free_of(kw_color(), '\n') && free_of(kw_speed(), '\n') && free_of(kw_dark(), '\n'),
        kw_muted() != kw_chances(),
        kw_colorblind() != kw_chances() && kw_colorblind() != kw_muted(),
        kw_color() != kw_chances() && kw_color() != kw_muted() && kw_color() != kw_colorblind(),
        kw_speed() != kw_chances() && kw_speed() != kw_muted() && kw_speed() != kw_colorblind() && kw_speed()
            != kw_color(),
        kw_dark() != kw_chances() && kw_dark() != kw_muted() && kw_dark() != kw_colorblind() && kw_dark()
            != kw_color() && kw_dark() != kw_speed(),
{
    assert(kw_muted()[0] != kw_chances()[0]);
    assert(kw_colorblind()[1] != kw_chances()[1]);
    assert(kw_colorblind().len() != kw_muted().len());
    assert(kw_color()[1] != kw_chances()[1]);
    assert(kw_color()[0] != kw_muted()[0]);
    assert(kw_color().len() != kw_colorblind().len());
    assert(kw_speed()[0] != kw_chances()[0]);
    assert(kw_speed()[0] != kw_muted()[0]);
    assert(kw_speed()[0] != kw_colorblind()[0]);
    assert(kw_speed()[0] != kw_color()[0]);
    assert(kw_dark().len() != kw_chances().len());
    assert(kw_dark().len() != kw_muted().len());
    assert(kw_dark().len() != kw_colorblind().len());
    assert(kw_dark().len() != kw_color().len());
    assert(kw_dark().len() != kw_speed().len());
}

/// Reading back a written settings file gives the same settings.
pub proof fn lemma_settings_round_trip(s: Settings)
    requires
        s.color < MAX_PLAYERS,
    ensures
        settings_of(settings_text(s)) == s,
{
    lemma_keywords_apart();
    lemma_flag(s.chances);
    lemma_flag(s.muted);
    lemma_flag(s.colorblind);
    lemma_flag(s.dark);
    lemma_decimal(s.color as nat);
    let sp: Seq<char> = if s.fast { seq!['2'] } else { seq!['1'] };
    assert(plain_word(sp) && free_of(sp, '\n'));
    assert((sp == seq!['2']) == s.fast) by {
        if !s.fast {
            assert(sp[0] != seq!['2'][0]);
        }
    }
    assert(free_of(decimal(s.color as nat), '\n')) by {
        assert forall|i: int| 0 <= i < decimal(s.color as nat).len() implies #[trigger] decimal(
            s.color as nat,
        )[i] != '\n' by {
            assert(crate::text::is_digit(decimal(s.color as nat)[i]));
        }
    }
    lemma_pair_line(kw_chances(), flag(s.chances));
    lemma_pair_line(kw_muted(), flag(s.muted));
    lemma_pair_line(kw_colorblind(), flag(s.colorblind));
    lemma_pair_line(kw_color(), decimal(s.color as nat));
    lemma_pair_line(kw_speed(), sp);
    lemma_pair_line(kw_dark(), flag(s.dark));
    let ls = setting_lines(s);
    let all = ls.push(Seq::empty());
    assert(all =~= seq![
        joined(seq![kw_chances(), flag(s.chances)], ' '),
        joined(seq![kw_muted(), flag(s.muted)], ' '),
        joined(seq![kw_colorblind(), flag(s.colorblind)], ' '),
        joined(seq![kw_color(), decimal(s.color as nat)], ' '),
        joined(seq![kw_speed(), sp], ' '),
        joined(seq![kw_dark(), flag(s.dark)], ' '),
        Seq::empty(),
    ]);
    assert forall|i: int| 0 <= i < all.len() implies free_of(#[trigger] all[i], '\n') by {}
    lemma_pieces_joined(all, '\n');
    assert(words(Seq::<char>::empty()).len() == 0);
    let s1 = apply_setting(default_settings(), ls[0]);
    let s2 = apply_setting(s1, ls[1]);
    let s3 = apply_setting(s2, ls[2]);
    let s4 = apply_setting(s3, ls[3]);
    let s5 = apply_setting(s4, ls[4]);
    let s6 = apply_setting(s5, ls[5]);
    assert(all.drop_last() =~= ls);
    assert(ls.drop_last() =~= ls.take(5));
    assert(ls.take(5).drop_last() =~= ls.take(4));
    assert(ls.take(4).drop_last() =~= ls.take(3));
    assert(ls.take(3).drop_last() =~= ls.take(2));
    assert(ls.take(2).drop_last() =~= ls.take(1));
    assert(ls.take(1).drop_last() =~= Seq::<Seq<char>>::empty());
    assert(ls.take(1).last() == ls[0]);
    assert(ls.take(2).last() == ls[1]);
    assert(ls.take(3).last() == ls[2]);
    assert(ls.take(4).last() == ls[3]);
    assert(ls.take(5).last() == ls[4]);
    assert(settings_after(Seq::<Seq<char>>::empty()) == default_settings());
    assert(settings_after(ls.take(1)) == s1);
    assert(settings_after(ls.take(2)) == s2);
    assert(settings_after(ls.take(3)) == s3);
    assert(settings_after(ls.take(4)) == s4);
    assert(settings_after(ls.take(5)) == s5);
    assert(settings_after(ls) == s6);
    assert(settings_after(all) == s6);
    assert(s6 == s);
}


/// A bookmarked map: its seed and number of players.
pub type Bookmark = (u64, usize);

/// What a bookmark line says: a seed and a number of players (the first two
/// words, both numbers), the seed taken modulo `SEED_MOD` and the players
/// clamped to `2..=MAX_PLAYERS`; `None` for any other line.
pub open spec fn bookmark_of(line: Seq<char>) -> Option<Bookmark> {
    let ws = words(line);
    if ws.len() < 2 {
        None
    } else {
        match (parsed_number(ws[0], u64::MAX as nat), parsed_number(ws[1], usize::MAX as nat)) {
            (Some(seed), Some(p)) => Some(
                (
                    (seed % SEED_MOD as nat) as u64,
                    if p < 2 {
                        2usize
                    } else if p > MAX_PLAYERS {
                        MAX_PLAYERS
                    } else {
                        p as usize
                    },
                ),
            ),
            _ => None,
        }
    }
}

/// The bookmarks that the lines hold, in order.
pub open spec fn bookmarks_in(lines: Seq<Seq<char>>) -> Seq<Bookmark>
    decreases lines.len(),
{
    if lines.len() == 0 {
        Seq::empty()
    } else {
        bookmarks_in(lines.drop_last()) + match bookmark_of(lines.last()) {
            Some(b) => seq![b],
            None => Seq::empty(),
        }
    }
}

/// What a bookmarks file holds.
pub open spec fn bookmarks_of(text: Seq<char>) -> Seq<Bookmark> {
    bookmarks_in(pieces(text, '\n'))
}

fn bookmark_line(line: &Vec<char>) -> (r: Option<Bookmark>)
    ensures
        r == bookmark_of(line@),
{
    let ws = split_words(line);
    if ws.len() < 2 {
        return None;
    }
    let seed = parse_number(&ws[0], u64::MAX);
    let p = parse_number(&ws[1], usize::MAX as u64);
    match (seed, p) {
        (Some(seed), Some(p)) => {
            let players: usize = if p < 2 {
                2
            } else if p > MAX_PLAYERS as u64 {
                MAX_PLAYERS
            } else {
                p as usize
            };
            Some((seed % SEED_MOD, players))
        },
        _ => None,
    }
}

/// Reads a bookmarks file.
pub fn read_bookmarks(text: &Vec<char>) -> (b: Vec<Bookmark>)
    ensures
        b@ == bookmarks_of(text@),
{
    let lines = split_on(text, '\n');
    let ghost lv = pieces(text@, '\n');
    let mut b: Vec<Bookmark> = Vec::new();
    let mut k: usize = 0;
    while k < lines.len()
        invariant
            k <= lines@.len(),
            lines@.len() == lv.len(),
            forall|i: int| 0 <= i < lines@.len() ==> #[trigger] lines@[i]@ == lv[i],
            b@ == bookmarks_in(lv.take(k as int)),
        decreases lines@.len() - k,
    {
        proof {
            assert(lv.take(k + 1).drop_last() =~= lv.take(k as int));
        }
        match bookmark_line(&lines[k]) {
            Some(x) => {
                b.push(x);
            },
            None => {},
        }
        proof {
            assert(b@ =~= bookmarks_in(lv.take(k + 1)));
        }
        k = k + 1;
    }
    proof {
        assert(lv.take(lv.len() as int) =~= lv);
    }
    b
}

/// The line of one bookmark, without its newline.
pub open spec fn bookmark_text(b: Bookmark) -> Seq<char> {
    joined(seq![decimal(b.0 as nat), decimal(b.1 as nat)], ' ')
}

/// The bookmarks file: one `seed players` line per bookmark, each ending in a newline.
pub open spec fn bookmarks_text(b: Seq<Bookmark>) -> Seq<char>
    decreases b.len(),
{
    if b.len() == 0 {
        Seq::empty()
    } else {
        bookmarks_text(b.drop_last()) + bookmark_text(b.last()).push('\n')
    }
}

/// Writes the bookmarks file.
pub fn write_bookmarks(b: &Vec<Bookmark>) -> (t: Vec<char>)
    ensures
        t@ == bookmarks_text(b@),
{
    let mut t: Vec<char> = Vec::new();
    let mut k: usize = 0;
    while k < b.len()
        invariant
            k <= b@.len(),
            t@ == bookmarks_text(b@.take(k as int)),
        decreases b@.len() - k,
    {
        let (seed, p) = b[k];
        let ghost t0 = t@;
        let mut s1: Vec<char> = Vec::new();
        push_decimal(&mut s1, seed);
        let mut s2: Vec<char> = Vec::new();
        push_decimal(&mut s2, p as u64);
        push_setting(&mut t, &s1, &s2);
        proof {
            assert(b@.take(k + 1).drop_last() =~= b@.take(k as int));
            assert(b@.take(k + 1).last() == (seed, p));
        }
        k = k + 1;
    }
    proof {
        assert(b@.take(b@.len() as int) =~= b@);
    }
    t
}

/// A bookmark as the file keeps it: seed below `SEED_MOD`, players in `2..=MAX_PLAYERS`.
pub open spec fn kept_bookmark(b: Bookmark) -> bool {
    b.0 < SEED_MOD && 2 <= b.1 <= MAX_PLAYERS
}

proof fn lemma_bookmark_line(b: Bookmark)
    requires
        kept_bookmark(b),
    ensures
        bookmark_of(bookmark_text(b)) == Some(b),
        free_of(bookmark_text(b), '\n'),
{
    lemma_decimal(b.0 as nat);
    lemma_decimal(b.1 as nat);
    let w = seq![decimal(b.0 as nat), decimal(b.1 as nat)];
    assert forall|i: int| 0 <= i < w.len() implies plain_word(#[trigger] w[i]) by {}
    lemma_words_joined(w);
    assert(parsed_number(decimal(b.0 as nat), u64::MAX as nat) == Some(b.0 as nat));
    assert(parsed_number(decimal(b.1 as nat), usize::MAX as nat) == Some(b.1 as nat));
    lemma_joined_push(seq![decimal(b.0 as nat)], decimal(b.1 as nat), ' ');
    assert(seq![decimal(b.0 as nat)].push(decimal(b.1 as nat)) =~= w);
    let l = bookmark_text(b);
    let d0 = decimal(b.0 as nat);
    let d1 = decimal(b.1 as nat);
    assert(l == d0.push(' ') + d1);
    assert forall|i: int| 0 <= i < l.len() implies #[trigger] l[i] != '\n' by {
        if i < d0.len() {
            assert(l[i] == d0[i]);
            assert(crate::text::is_digit(d0[i]));
        } else if i > d0.len() {
            assert(l[i] == d1[i - d0.len() - 1]);
            assert(crate::text::is_digit(d1[i - d0.len() - 1]));
        }
    }
}

proof fn lemma_bookmarks_pieces(b: Seq<Bookmark>)
    requires
        forall|i: int| 0 <= i < b.len() ==> kept_bookmark(#[trigger] b[i]),
    ensures
        pieces(bookmarks_text(b), '\n').last() == Seq::<char>::empty(),
        bookmarks_in(pieces(bookmarks_text(b), '\n')) == b,
    decreases b.len(),
{
    if b.len() == 0 {
        assert(pieces(Seq::<char>::empty(), '\n') =~= seq![Seq::<char>::empty()]);
        assert(seq![Seq::<char>::empty()].drop_last() =~= Seq::<Seq<char>>::empty());
        assert(bookmark_of(Seq::<char>::empty()) is None) by {
            assert(words(Seq::<char>::empty()).len() == 0);
        }
        assert(seq![Seq::<char>::empty()].last() == Seq::<char>::empty());
        assert(bookmarks_in(Seq::<Seq<char>>::empty()) == Seq::<Bookmark>::empty());
        assert(bookmarks_in(seq![Seq::<char>::empty()]) =~= Seq::<Bookmark>::empty());
    } else {
        let front = b.drop_last();
        assert forall|i: int| 0 <= i < front.len() implies kept_bookmark(#[trigger] front[i]) by {
            assert(front[i] == b[i]);
        }
        lemma_bookmarks_pieces(front);
        let t = bookmarks_text(front);
        let l = bookmark_text(b.last());
        lemma_bookmark_line(b.last());
        lemma_pieces_nonempty(t, '\n');
        lemma_pieces_word(t, l, '\n');
        let p0 = pieces(t, '\n');
        let p1 = p0.update(p0.len() - 1, p0.last() + l);
        assert(p0.last() + l =~= l);
        assert((t + l).push('\n') =~= t + l.push('\n'));
        assert((t + l).push('\n').drop_last() =~= t + l);
        let p2 = pieces(t + l.push('\n'), '\n');
        assert(p2 == p1.push(Seq::<char>::empty()));
        assert(p2.drop_last() =~= p1);
        assert(p1.drop_last() =~= p0.drop_last());
        assert(bookmark_of(Seq::<char>::empty()) is None) by {
            assert(words(Seq::<char>::empty()).len() == 0);
        }
        assert(p2.last() == Seq::<char>::empty());
        assert(bookmarks_in(p2) == bookmarks_in(p1));
        assert(p1.last() == l);
        assert(bookmarks_in(p0) == bookmarks_in(p0.drop_last()));
        assert(bookmarks_in(p0) == front);
        assert(bookmarks_in(p1) =~= bookmarks_in(p0.drop_last()).push(b.last()));
        assert(front.push(b.last()) =~= b);
        assert(bookmarks_text(b) == t + l.push('\n'));
    }
}

/// Reading back a written bookmarks file gives the same bookmarks.
pub proof fn lemma_bookmarks_round_trip(b: Seq<Bookmark>)
    requires
        forall|i: int| 0 <= i < b.len() ==> kept_bookmark(#[trigger] b[i]),
    ensures
        bookmarks_of(bookmarks_text(b)) == b,
{
    lemma_bookmarks_pieces(b);
}

} // verus!
