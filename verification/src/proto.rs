//! The network protocol: one line of words per message. The host announces
//! the match and every event; a guest sends its requests.
//!
//! Host to guest: `WELCOME seat token`, `START seed players humans difficulty
//! seat color`, `RESUME` (the same fields), `ATK a d ra rd captured`,
//! `REINF player land,land,..`, `SYNCED`, `PING`, `OVER reason..`,
//! `BYE reason..`. Guest to host: `JOIN code version`, `REJOIN code token`,
//! `ATTACK a d`, `END`, `PING`.
use vstd::prelude::*;
use crate::game::{Intent, RepEvent};
use crate::text::{
    decimal, free_of, joined, lemma_decimal, lemma_joined_push, lemma_pieces_joined, lemma_words_joined, parse_number,
    parsed_number, pieces, plain_word, push_decimal, split_on, split_words, word_scan, words,
};

verus! {

pub open spec fn kw_atk() -> Seq<char> {
    seq!['A', 'T', 'K']
}

pub open spec fn kw_reinf() -> Seq<char> {
    seq!['R', 'E', 'I', 'N', 'F']
}

pub open spec fn kw_start() -> Seq<char> {
    seq!['S', 'T', 'A', 'R', 'T']
}

pub open spec fn kw_resume() -> Seq<char> {
    seq!['R', 'E', 'S', 'U', 'M', 'E']
}

pub open spec fn kw_welcome() -> Seq<char> {
    seq!['W', 'E', 'L', 'C', 'O', 'M', 'E']
}

pub open spec fn kw_synced() -> Seq<char> {
    seq!['S', 'Y', 'N', 'C', 'E', 'D']
}

pub open spec fn kw_ping() -> Seq<char> {
    seq!['P', 'I', 'N', 'G']
}

pub open spec fn kw_lost() -> Seq<char> {
    seq!['L', 'O', 'S', 'T']
}

pub open spec fn kw_over() -> Seq<char> {
    seq!['O', 'V', 'E', 'R']
}

pub open spec fn kw_bye() -> Seq<char> {
    seq!['B', 'Y', 'E']
}

pub open spec fn kw_attack() -> Seq<char> {
    seq!['A', 'T', 'T', 'A', 'C', 'K']
}

pub open spec fn kw_end() -> Seq<char> {
    seq!['E', 'N', 'D']
}

pub open spec fn kw_join() -> Seq<char> {
    seq!['J', 'O', 'I', 'N']
}

pub open spec fn kw_rejoin() -> Seq<char> {
    seq!['R', 'E', 'J', 'O', 'I', 'N']
}

/// The protocol version a guest must speak.
pub open spec fn kw_version() -> Seq<char> {
    seq!['5']
}

/// The match a host announces: seed, seats, difficulty index, the seat of
/// the guest it is sent to, and the host's color choice.
#[derive(Clone, Copy, PartialEq, Eq, Structural, Debug)]
pub struct MatchInfo {
    pub seed: u64,
    pub players: usize,
    pub humans: usize,
    pub difficulty: usize,
    pub seat: Option<usize>,
    pub color: Option<usize>,
}

/// A line from the host, as a guest reads it.
#[derive(Clone, Debug)]
pub enum HostLine {
    Attack { a: usize, d: usize, ra: u32, rd: u32, captured: bool },
    Reinforce { player: usize, lands: Vec<usize> },
    Start(MatchInfo),
    Resume(MatchInfo),
    /// `seat` is `None` when it does not parse; a missing token is empty
    Welcome { seat: Option<usize>, token: Vec<char> },
    Synced,
    Ping,
    /// the connection dropped (the reader thread reports it this way)
    Lost,
    /// the words after `OVER`, joined by single spaces
    Over(Vec<char>),
    /// the words after `BYE`, joined by single spaces
    Bye(Vec<char>),
    /// an empty line, an unknown word, or an `ATK` without five numbers
    Other,
}

/// The `k`-th word, if there is one.
pub open spec fn nth_word(ws: Seq<Seq<char>>, k: int) -> Option<Seq<char>> {
    if 0 <= k < ws.len() {
        Some(ws[k])
    } else {
        None
    }
}

/// The `k`-th word read as a number no larger than `max`.
pub open spec fn word_number(ws: Seq<Seq<char>>, k: int, max: nat) -> Option<nat> {
    match nth_word(ws, k) {
        Some(w) => parsed_number(w, max),
        None => None,
    }
}

/// The `k`-th word read as a number, or `dflt` when it is missing or not one.
pub open spec fn number_or(ws: Seq<Seq<char>>, k: int, max: nat, dflt: nat) -> nat {
    match word_number(ws, k, max) {
        Some(v) => v,
        None => dflt,
    }
}

/// The words that read as numbers no larger than `max`, read, in order.
pub open spec fn numbers(ws: Seq<Seq<char>>, max: nat) -> Seq<nat>
    decreases ws.len(),
{
    if ws.len() == 0 {
        Seq::empty()
    } else {
        numbers(ws.drop_last(), max) + match parsed_number(ws.last(), max) {
            Some(v) => seq![v],
            None => Seq::empty(),
        }
    }
}

proof fn lemma_numbers_bound(ws: Seq<Seq<char>>, max: nat)
    ensures
        forall|i: int| 0 <= i < numbers(ws, max).len() ==> #[trigger] numbers(ws, max)[i] <= max,
    decreases ws.len(),
{
    if ws.len() > 0 {
        let front = numbers(ws.drop_last(), max);
        let tail: Seq<nat> = match parsed_number(ws.last(), max) {
            Some(v) => seq![v],
            None => Seq::empty(),
        };
        lemma_numbers_bound(ws.drop_last(), max);
        assert(numbers(ws, max) == front + tail);
        assert forall|i: int| 0 <= i < numbers(ws, max).len() implies #[trigger] numbers(ws, max)[i] <= max by {
            if i < front.len() {
                assert(numbers(ws, max)[i] == front[i]);
            } else {
                assert(numbers(ws, max)[i] == tail[i - front.len()]);
            }
        }
    }
}

pub open spec fn same_numbers(xs: Seq<usize>, v: Seq<nat>) -> bool {
    xs.len() == v.len() && forall|i: int| 0 <= i < xs.len() ==> xs[i] as nat == #[trigger] v[i]
}

/// The match announced by the words after the keyword.
pub open spec fn info_of(ws: Seq<Seq<char>>) -> MatchInfo {
    MatchInfo {
        seed: number_or(ws, 1, u64::MAX as nat, 0) as u64,
        players: number_or(ws, 2, usize::MAX as nat, 2) as usize,
        humans: number_or(ws, 3, usize::MAX as nat, 2) as usize,
        difficulty: number_or(ws, 4, usize::MAX as nat, 1) as usize,
        seat: match word_number(ws, 5, usize::MAX as nat) {
            Some(v) => Some(v as usize),
            None => None,
        },
        color: match word_number(ws, 6, usize::MAX as nat) {
            Some(v) => Some(v as usize),
            None => None,
        },
    }
}

/// The lands listed in a `REINF` line's last field.
pub open spec fn reinforced_lands(ws: Seq<Seq<char>>) -> Seq<nat> {
    match nth_word(ws, 2) {
        Some(w) => numbers(pieces(w, ','), usize::MAX as nat),
        None => Seq::empty(),
    }
}

/// What a guest makes of the host's line `line`.
pub open spec fn host_line_means(line: Seq<char>, r: HostLine) -> bool {
    let ws = words(line);
    let first = nth_word(ws, 0);
    if first == Some(kw_atk()) {
        let v = numbers(ws.drop_first(), u32::MAX as nat);
        if v.len() == 5 {
            r matches HostLine::Attack { a, d, ra, rd, captured } && a == v[0] && d == v[1] && ra == v[2] && rd
                == v[3] && captured == (v[4] == 1)
        } else {
            r is Other
        }
    } else if first == Some(kw_reinf()) {
        r matches HostLine::Reinforce { player, lands } && player == number_or(ws, 1, usize::MAX as nat, 0)
            && same_numbers(lands@, reinforced_lands(ws))
    } else if first == Some(kw_start()) {
        r == HostLine::Start(info_of(ws))
    } else if first == Some(kw_resume()) {
        r == HostLine::Resume(info_of(ws))
    } else if first == Some(kw_welcome()) {
        r matches HostLine::Welcome { seat, token } && seat == match word_number(ws, 1, usize::MAX as nat) {
            Some(v) => Some(v as usize),
            None => None,
        } && token@ == match nth_word(ws, 2) {
            Some(w) => w,
            None => Seq::empty(),
        }
    } else if first == Some(kw_synced()) {
        r is Synced
    } else if first == Some(kw_ping()) {
        r is Ping
    } else if first == Some(kw_lost()) {
        r is Lost
    } else if first == Some(kw_over()) {
        r matches HostLine::Over(t) && t@ == joined(ws.drop_first(), ' ')
    } else if first == Some(kw_bye()) {
        r matches HostLine::Bye(t) && t@ == joined(ws.drop_first(), ' ')
    } else {
        r is Other
    }
}

/// Whether `w` spells `lit`.
fn spells(w: &Vec<char>, lit: &Vec<char>) -> (b: bool)
    ensures
        b == (w@ == lit@),
{
    if w.len() != lit.len() {
        return false;
    }
    let mut i: usize = 0;
    while i < w.len()
        invariant
            w@.len() == lit@.len(),
            i <= w@.len(),
            forall|k: int| 0 <= k < i ==> w@[k] == lit@[k],
        decreases w@.len() - i,
    {
        if w[i] != lit[i] {
            return false;
        }
        i = i + 1;
    }
    proof {
        assert(w@ =~= lit@);
    }
    true
}

/// Whether word `k` of `ws` spells `lit`.
fn word_spells(ws: &Vec<Vec<char>>, k: usize, lit: &Vec<char>) -> (b: bool)
    ensures
        b == (k < ws@.len() && ws@[k as int]@ == lit@),
{
    k < ws.len() && spells(&ws[k], lit)
}

/// Word `k` of `ws` read as a number no larger than `max`.
fn word_num(ws: &Vec<Vec<char>>, k: usize, max: u64) -> (r: Option<u64>)
    ensures
        r matches Some(v) ==> k < ws@.len() && parsed_number(ws@[k as int]@, max as nat) == Some(v as nat),
        r is None ==> k >= ws@.len() || parsed_number(ws@[k as int]@, max as nat) is None,
{
    if k < ws.len() {
        parse_number(&ws[k], max)
    } else {
        None
    }
}

/// The words from `from` on that read as numbers no larger than `max`.
fn collect_numbers(ws: &Vec<Vec<char>>, from: usize, max: u64) -> (v: Vec<u64>)
    requires
        from <= ws@.len(),
    ensures
        forall|i: int| 0 <= i < v@.len() ==> #[trigger] v@[i] <= max,
        v@.len() == numbers(ws@.map_values(|w: Vec<char>| w@).skip(from as int), max as nat).len(),
        forall|i: int|
            0 <= i < v@.len() ==> #[trigger] v@[i] as nat == numbers(
                ws@.map_values(|w: Vec<char>| w@).skip(from as int),
                max as nat,
            )[i],
{
    let ghost all = ws@.map_values(|w: Vec<char>| w@);
    let mut v: Vec<u64> = Vec::new();
    let mut k: usize = from;
    while k < ws.len()
        invariant
            from <= k <= ws@.len(),
            all == ws@.map_values(|w: Vec<char>| w@),
            v@.len() == numbers(all.subrange(from as int, k as int), max as nat).len(),
            forall|i: int|
                0 <= i < v@.len() ==> #[trigger] v@[i] as nat == numbers(
                    all.subrange(from as int, k as int),
                    max as nat,
                )[i],
        decreases ws@.len() - k,
    {
        proof {
            assert(all.subrange(from as int, k + 1).drop_last() =~= all.subrange(from as int, k as int));
            assert(all.subrange(from as int, k + 1).last() == ws@[k as int]@);
        }
        match parse_number(&ws[k], max) {
            Some(x) => {
                v.push(x);
            },
            None => {},
        }
        k = k + 1;
    }
    proof {
        assert(all.subrange(from as int, ws@.len() as int) =~= all.skip(from as int));
        lemma_numbers_bound(all.skip(from as int), max as nat);
    }
    v
}


/// `ws` from word `from` on, written with single spaces between them.
fn join_from(ws: &Vec<Vec<char>>, from: usize) -> (t: Vec<char>)
    requires
        from <= ws@.len(),
    ensures
        t@ == joined(ws@.map_values(|w: Vec<char>| w@).skip(from as int), ' '),
{
    let ghost all = ws@.map_values(|w: Vec<char>| w@);
    let mut t: Vec<char> = Vec::new();
    let mut k: usize = from;
    while k < ws.len()
        invariant
            from <= k <= ws@.len(),
            all == ws@.map_values(|w: Vec<char>| w@),
            t@ == joined(all.subrange(from as int, k as int), ' '),
        decreases ws@.len() - k,
    {
        let ghost t0 = t@;
        if k > from {
            t.push(' ');
        }
        let w = &ws[k];
        let mut i: usize = 0;
        let ghost t1 = t@;
        while i < w.len()
            invariant
                i <= w@.len(),
                t@ == t1 + w@.take(i as int),
            decreases w@.len() - i,
        {
            t.push(w[i]);
            i = i + 1;
            proof {
                assert(w@.take(i as int) =~= w@.take(i - 1).push(w@[i - 1]));
            }
        }
        proof {
            let sub = all.subrange(from as int, k + 1);
            assert(sub.drop_last() =~= all.subrange(from as int, k as int));
            assert(sub.last() == w@);
            assert(w@.take(w@.len() as int) =~= w@);
            if k == from {
                assert(sub =~= seq![w@]);
                assert(t@ =~= w@);
            } else {
                assert(t@ =~= t0.push(' ') + w@);
            }
        }
        k = k + 1;
    }
    proof {
        assert(all.subrange(from as int, ws@.len() as int) =~= all.skip(from as int));
    }
    t
}

/// Reads a line the host sent.
pub fn read_host_line(line: &Vec<char>) -> (r: HostLine)
    ensures
        host_line_means(line@, r),
{
    let ws = split_words(line);
    let ghost wv = words(line@);
    proof {
        assert(ws@.map_values(|w: Vec<char>| w@) =~= wv);
        if wv.len() > 0 {
            assert(wv.skip(1) =~= wv.drop_first());
        }
    }
    let umax = usize::MAX as u64;
    if word_spells(&ws, 0, &vec!['A', 'T', 'K']) {
        let v = collect_numbers(&ws, 1, u32::MAX as u64);
        if v.len() == 5 {
            return HostLine::Attack {
                a: v[0] as usize,
                d: v[1] as usize,
                ra: v[2] as u32,
                rd: v[3] as u32,
                captured: v[4] == 1,
            };
        }
        return HostLine::Other;
    }
    if word_spells(&ws, 0, &vec!['R', 'E', 'I', 'N', 'F']) {
        let player: usize = match word_num(&ws, 1, umax) {
            Some(p) => p as usize,
            None => 0,
        };
        let mut lands: Vec<usize> = Vec::new();
        if ws.len() > 2 {
            let parts = split_on(&ws[2], ',');
            let ghost pv = pieces(ws@[2]@, ',');
            proof {
                assert(parts@.map_values(|w: Vec<char>| w@) =~= pv);
                assert(pv.skip(0) =~= pv);
            }
            let nums = collect_numbers(&parts, 0, umax);
            let mut i: usize = 0;
            while i < nums.len()
                invariant
                    i <= nums@.len(),
                    lands@.len() == i,
                    forall|k: int| 0 <= k < nums@.len() ==> #[trigger] nums@[k] <= usize::MAX,
                    forall|k: int| 0 <= k < i ==> #[trigger] lands@[k] as nat == nums@[k] as nat,
                decreases nums@.len() - i,
            {
                lands.push(nums[i] as usize);
                i = i + 1;
            }
        }
        return HostLine::Reinforce { player, lands };
    }
    let is_start = word_spells(&ws, 0, &vec!['S', 'T', 'A', 'R', 'T']);
    if is_start || word_spells(&ws, 0, &vec!['R', 'E', 'S', 'U', 'M', 'E']) {
        let info = MatchInfo {
            seed: match word_num(&ws, 1, u64::MAX) {
                Some(v) => v,
                None => 0,
            },
            players: match word_num(&ws, 2, umax) {
                Some(v) => v as usize,
                None => 2,
            },
            humans: match word_num(&ws, 3, umax) {
                Some(v) => v as usize,
                None => 2,
            },
            difficulty: match word_num(&ws, 4, umax) {
                Some(v) => v as usize,
                None => 1,
            },
            seat: match word_num(&ws, 5, umax) {
                Some(v) => Some(v as usize),
                None => None,
            },
            color: match word_num(&ws, 6, umax) {
                Some(v) => Some(v as usize),
                None => None,
            },
        };
        return if is_start {
            HostLine::Start(info)
        } else {
            HostLine::Resume(info)
        };
    }
    if word_spells(&ws, 0, &vec!['W', 'E', 'L', 'C', 'O', 'M', 'E']) {
        let seat = match word_num(&ws, 1, umax) {
            Some(v) => Some(v as usize),
            None => None,
        };
        let token = if ws.len() > 2 {
            ws[2].clone()
        } else {
            Vec::new()
        };
        return HostLine::Welcome { seat, token };
    }
    if word_spells(&ws, 0, &vec!['S', 'Y', 'N', 'C', 'E', 'D']) {
        return HostLine::Synced;
    }
    if word_spells(&ws, 0, &vec!['P', 'I', 'N', 'G']) {
        return HostLine::Ping;
    }
    if word_spells(&ws, 0, &vec!['L', 'O', 'S', 'T']) {
        return HostLine::Lost;
    }
    if word_spells(&ws, 0, &vec!['O', 'V', 'E', 'R']) {
        return HostLine::Over(join_from(&ws, 1));
    }
    if word_spells(&ws, 0, &vec!['B', 'Y', 'E']) {
        return HostLine::Bye(join_from(&ws, 1));
    }
    HostLine::Other
}


/// What the host makes of a guest's request line.
pub open spec fn intent_of(line: Seq<char>) -> Intent {
    let ws = words(line);
    if nth_word(ws, 0) == Some(kw_attack()) {
        Intent::Attack(
            match word_number(ws, 1, usize::MAX as nat) {
                Some(v) => Some(v as usize),
                None => None,
            },
            match word_number(ws, 2, usize::MAX as nat) {
                Some(v) => Some(v as usize),
                None => None,
            },
        )
    } else if nth_word(ws, 0) == Some(kw_end()) {
        Intent::EndTurn
    } else {
        Intent::Unknown
    }
}

/// Reads a request line from a guest.
pub fn read_intent(line: &Vec<char>) -> (i: Intent)
    ensures
        i == intent_of(line@),
{
    let ws = split_words(line);
    proof {
        assert(ws@.map_values(|w: Vec<char>| w@) =~= words(line@));
    }
    if word_spells(&ws, 0, &vec!['A', 'T', 'T', 'A', 'C', 'K']) {
        let umax = usize::MAX as u64;
        let a = match word_num(&ws, 1, umax) {
            Some(v) => Some(v as usize),
            None => None,
        };
        let d = match word_num(&ws, 2, umax) {
            Some(v) => Some(v as usize),
            None => None,
        };
        Intent::Attack(a, d)
    } else if word_spells(&ws, 0, &vec!['E', 'N', 'D']) {
        Intent::EndTurn
    } else {
        Intent::Unknown
    }
}

/// The host's answer to a guest's first line.
#[derive(Clone, Debug)]
pub enum Hello {
    /// a new guest with the right code and version
    Join,
    /// the right code, another protocol version
    OldVersion,
    /// a guest reclaiming its seat with this token
    Rejoin(Vec<char>),
    /// a wrong code or a line that is neither
    Refused,
}

/// What the host makes of a guest's first line, given the lobby's code.
pub open spec fn hello_means(line: Seq<char>, code: Seq<char>, h: Hello) -> bool {
    let ws = words(line);
    if nth_word(ws, 0) == Some(kw_join()) {
        if nth_word(ws, 1) != Some(code) {
            h is Refused
        } else if nth_word(ws, 2) != Some(kw_version()) {
            h is OldVersion
        } else {
            h is Join
        }
    } else if nth_word(ws, 0) == Some(kw_rejoin()) && nth_word(ws, 1) == Some(code) && ws.len() > 2 {
        h matches Hello::Rejoin(t) && t@ == ws[2]
    } else {
        h is Refused
    }
}

/// Reads a guest's first line.
pub fn read_hello(line: &Vec<char>, code: &Vec<char>) -> (h: Hello)
    ensures
        hello_means(line@, code@, h),
{
    let ws = split_words(line);
    proof {
        assert(ws@.map_values(|w: Vec<char>| w@) =~= words(line@));
    }
    if word_spells(&ws, 0, &vec!['J', 'O', 'I', 'N']) {
        let version: Vec<char> = vec!['5'];
        proof {
            assert(version@ =~= kw_version());
        }
        if !word_spells(&ws, 1, code) {
            Hello::Refused
        } else if !word_spells(&ws, 2, &version) {
            Hello::OldVersion
        } else {
            Hello::Join
        }
    } else if word_spells(&ws, 0, &vec!['R', 'E', 'J', 'O', 'I', 'N']) && word_spells(&ws, 1, code) && ws.len() > 2 {
        Hello::Rejoin(ws[2].clone())
    } else {
        Hello::Refused
    }
}

/// Appends a separator and the decimal digits of `n`.
fn add_number(out: &mut Vec<char>, sep: char, n: u64, Ghost(ws): Ghost<Seq<Seq<char>>>)
    requires
        ws.len() > 0,
        old(out)@ == joined(ws, sep),
    ensures
        final(out)@ == joined(ws.push(decimal(n as nat)), sep),
{
    proof {
        lemma_joined_push(ws, decimal(n as nat), sep);
    }
    out.push(sep);
    push_decimal(out, n);
}

/// Appends a separator and the characters of `w`.
fn add_word(out: &mut Vec<char>, sep: char, w: &Vec<char>, Ghost(ws): Ghost<Seq<Seq<char>>>)
    requires
        ws.len() > 0,
        old(out)@ == joined(ws, sep),
    ensures
        final(out)@ == joined(ws.push(w@), sep),
{
    proof {
        lemma_joined_push(ws, w@, sep);
    }
    out.push(sep);
    let ghost o = out@;
    let mut i: usize = 0;
    while i < w.len()
        invariant
            i <= w@.len(),
            out@ == o + w@.take(i as int),
        decreases w@.len() - i,
    {
        out.push(w[i]);
        i = i + 1;
        proof {
            assert(w@.take(i as int) =~= w@.take(i - 1).push(w@[i - 1]));
        }
    }
    proof {
        assert(w@.take(w@.len() as int) =~= w@);
    }
}

/// The digits of each number, in order.
pub open spec fn decimals(xs: Seq<usize>) -> Seq<Seq<char>> {
    xs.map_values(|x: usize| decimal(x as nat))
}

/// The line announcing an event.
pub open spec fn event_text(ev: RepEvent) -> Seq<char> {
    match ev {
        RepEvent::Attack { a, d, ra, rd, captured } => joined(
            seq![
                kw_atk(),
                decimal(a as nat),
                decimal(d as nat),
                decimal(ra as nat),
                decimal(rd as nat),
                decimal(if captured { 1 } else { 0 }),
            ],
            ' ',
        ),
        RepEvent::Reinforce { player, lands } => joined(
            seq![kw_reinf(), decimal(player as nat), joined(decimals(lands@), ',')],
            ' ',
        ),
    }
}

/// The numbers of `xs` written with `sep` between them.
fn number_list(xs: &Vec<usize>, sep: char) -> (t: Vec<char>)
    ensures
        t@ == joined(decimals(xs@), sep),
{
    let mut t: Vec<char> = Vec::new();
    if xs.len() == 0 {
        proof {
            assert(decimals(xs@).len() == 0);
        }
        return t;
    }
    push_decimal(&mut t, xs[0] as u64);
    let mut i: usize = 1;
    proof {
        assert(decimals(xs@.take(1)) =~= seq![decimal(xs@[0] as nat)]);
    }
    while i < xs.len()
        invariant
            1 <= i <= xs@.len(),
            t@ == joined(decimals(xs@.take(i as int)), sep),
        decreases xs@.len() - i,
    {
        add_number(&mut t, sep, xs[i] as u64, Ghost(decimals(xs@.take(i as int))));
        proof {
            assert(decimals(xs@.take(i as int)).push(decimal(xs@[i as int] as nat)) =~= decimals(xs@.take(i + 1)));
        }
        i = i + 1;
    }
    proof {
        assert(xs@.take(xs@.len() as int) =~= xs@);
    }
    t
}

/// The line a host sends to announce an event.
pub fn event_line(ev: &RepEvent) -> (t: Vec<char>)
    ensures
        t@ == event_text(*ev),
{
    match ev {
        RepEvent::Attack { a, d, ra, rd, captured } => {
            let mut t = vec!['A', 'T', 'K'];
            let ghost w0 = seq![kw_atk()];
            proof {
                assert(t@ =~= joined(w0, ' '));
            }
            add_number(&mut t, ' ', *a as u64, Ghost(w0));
            let ghost w1 = w0.push(decimal(*a as nat));
            add_number(&mut t, ' ', *d as u64, Ghost(w1));
            let ghost w2 = w1.push(decimal(*d as nat));
            add_number(&mut t, ' ', *ra as u64, Ghost(w2));
            let ghost w3 = w2.push(decimal(*ra as nat));
            add_number(&mut t, ' ', *rd as u64, Ghost(w3));
            let ghost w4 = w3.push(decimal(*rd as nat));
            add_number(&mut t, ' ', if *captured { 1 } else { 0 }, Ghost(w4));
            proof {
                let c: nat = if *captured { 1 } else { 0 };
                assert(w4.push(decimal(c)) =~= seq![
                    kw_atk(),
                    decimal(*a as nat),
                    decimal(*d as nat),
                    decimal(*ra as nat),
                    decimal(*rd as nat),
                    decimal(c),
                ]);
            }
            t
        },
        RepEvent::Reinforce { player, lands } => {
            let mut t = vec!['R', 'E', 'I', 'N', 'F'];
            let ghost w0 = seq![kw_reinf()];
            proof {
                assert(t@ =~= joined(w0, ' '));
            }
            add_number(&mut t, ' ', *player as u64, Ghost(w0));
            let ghost w1 = w0.push(decimal(*player as nat));
            let list = number_list(lands, ',');
            add_word(&mut t, ' ', &list, Ghost(w1));
            proof {
                assert(w1.push(list@) =~= seq![kw_reinf(), decimal(*player as nat), joined(decimals(lands@), ',')]);
            }
            t
        },
    }
}

/// The line announcing a match (`START`, or `RESUME` after a reconnect).
pub open spec fn match_text(resume: bool, seed: u64, players: usize, humans: usize, difficulty: usize, seat: usize, color: usize) -> Seq<char> {
    joined(
        seq![
            if resume { kw_resume() } else { kw_start() },
            decimal(seed as nat),
            decimal(players as nat),
            decimal(humans as nat),
            decimal(difficulty as nat),
            decimal(seat as nat),
            decimal(color as nat),
        ],
        ' ',
    )
}

pub fn match_line(resume: bool, seed: u64, players: usize, humans: usize, difficulty: usize, seat: usize, color: usize) -> (t: Vec<char>)
    ensures
        t@ == match_text(resume, seed, players, humans, difficulty, seat, color),
{
    let mut t = if resume {
        vec!['R', 'E', 'S', 'U', 'M', 'E']
    } else {
        vec!['S', 'T', 'A', 'R', 'T']
    };
    let ghost w0 = seq![if resume { kw_resume() } else { kw_start() }];
    proof {
        assert(t@ =~= joined(w0, ' '));
    }
    add_number(&mut t, ' ', seed, Ghost(w0));
    let ghost w1 = w0.push(decimal(seed as nat));
    add_number(&mut t, ' ', players as u64, Ghost(w1));
    let ghost w2 = w1.push(decimal(players as nat));
    add_number(&mut t, ' ', humans as u64, Ghost(w2));
    let ghost w3 = w2.push(decimal(humans as nat));
    add_number(&mut t, ' ', difficulty as u64, Ghost(w3));
    let ghost w4 = w3.push(decimal(difficulty as nat));
    add_number(&mut t, ' ', seat as u64, Ghost(w4));
    let ghost w5 = w4.push(decimal(seat as nat));
    add_number(&mut t, ' ', color as u64, Ghost(w5));
    proof {
        assert(w5.push(decimal(color as nat)) =~= seq![
            if resume { kw_resume() } else { kw_start() },
            decimal(seed as nat),
            decimal(players as nat),
            decimal(humans as nat),
            decimal(difficulty as nat),
            decimal(seat as nat),
            decimal(color as nat),
        ]);
    }
    t
}

/// `WELCOME seat token`: a new guest's seat and its reconnect token.
pub open spec fn welcome_text(seat: usize, token: Seq<char>) -> Seq<char> {
    joined(seq![kw_welcome(), decimal(seat as nat), token], ' ')
}

pub fn welcome_line(seat: usize, token: &Vec<char>) -> (t: Vec<char>)
    ensures
        t@ == welcome_text(seat, token@),
{
    let mut t = vec!['W', 'E', 'L', 'C', 'O', 'M', 'E'];
    let ghost w0 = seq![kw_welcome()];
    proof {
        assert(t@ =~= joined(w0, ' '));
    }
    add_number(&mut t, ' ', seat as u64, Ghost(w0));
    let ghost w1 = w0.push(decimal(seat as nat));
    add_word(&mut t, ' ', token, Ghost(w1));
    proof {
        assert(w1.push(token@) =~= seq![kw_welcome(), decimal(seat as nat), token@]);
    }
    t
}

/// `ATTACK a d`: a guest asks to attack `d` from `a`.
pub open spec fn attack_text(a: usize, d: usize) -> Seq<char> {
    joined(seq![kw_attack(), decimal(a as nat), decimal(d as nat)], ' ')
}

pub fn attack_line(a: usize, d: usize) -> (t: Vec<char>)
    ensures
        t@ == attack_text(a, d),
{
    let mut t = vec!['A', 'T', 'T', 'A', 'C', 'K'];
    let ghost w0 = seq![kw_attack()];
    proof {
        assert(t@ =~= joined(w0, ' '));
    }
    add_number(&mut t, ' ', a as u64, Ghost(w0));
    let ghost w1 = w0.push(decimal(a as nat));
    add_number(&mut t, ' ', d as u64, Ghost(w1));
    proof {
        assert(w1.push(decimal(d as nat)) =~= seq![kw_attack(), decimal(a as nat), decimal(d as nat)]);
    }
    t
}

/// `JOIN code 5` (a new guest speaking protocol version 5) or `REJOIN code token`
/// (a guest coming back).
pub open spec fn hello_text(code: Seq<char>, token: Option<Seq<char>>) -> Seq<char> {
    match token {
        None => joined(seq![kw_join(), code, kw_version()], ' '),
        Some(t) => joined(seq![kw_rejoin(), code, t], ' '),
    }
}

pub fn hello_line(code: &Vec<char>, token: Option<&Vec<char>>) -> (t: Vec<char>)
    ensures
        t@ == hello_text(
            code@,
            match token {
                Some(k) => Some(k@),
                None => None,
            },
        ),
{
    match token {
        None => {
            let mut t = vec!['J', 'O', 'I', 'N'];
            let ghost w0 = seq![kw_join()];
            proof {
                assert(t@ =~= joined(w0, ' '));
            }
            add_word(&mut t, ' ', code, Ghost(w0));
            let ghost w1 = w0.push(code@);
            let version: Vec<char> = vec!['5'];
            proof {
                assert(version@ =~= kw_version());
            }
            add_word(&mut t, ' ', &version, Ghost(w1));
            proof {
                assert(w1.push(seq!['5']) =~= seq![kw_join(), code@, kw_version()]);
            }
            t
        },
        Some(k) => {
            let mut t = vec!['R', 'E', 'J', 'O', 'I', 'N'];
            let ghost w0 = seq![kw_rejoin()];
            proof {
                assert(t@ =~= joined(w0, ' '));
            }
            add_word(&mut t, ' ', code, Ghost(w0));
            let ghost w1 = w0.push(code@);
            add_word(&mut t, ' ', k, Ghost(w1));
            proof {
                assert(w1.push(k@) =~= seq![kw_rejoin(), code@, k@]);
            }
            t
        },
    }
}


proof fn lemma_numbers_decimals(xs: Seq<nat>, max: nat)
    requires
        forall|i: int| 0 <= i < xs.len() ==> #[trigger] xs[i] <= max,
    ensures
        numbers(xs.map_values(|x: nat| decimal(x)), max) == xs,
    decreases xs.len(),
{
    if xs.len() > 0 {
        let f = |x: nat| decimal(x);
        assert(xs.map_values(f).drop_last() =~= xs.drop_last().map_values(f));
        lemma_numbers_decimals(xs.drop_last(), max);
        lemma_decimal(xs.last());
        assert(xs.map_values(f).last() == decimal(xs.last()));
        assert(parsed_number(decimal(xs.last()), max) == Some(xs.last()));
        assert(xs.drop_last().push(xs.last()) =~= xs);
    }
}

proof fn lemma_joined_no_space(ws: Seq<Seq<char>>, sep: char)
    requires
        !crate::text::is_space(sep),
        forall|i: int, j: int| 0 <= i < ws.len() && 0 <= j < ws[i].len() ==> !crate::text::is_space(#[trigger] ws[i][j]),
    ensures
        forall|j: int| 0 <= j < joined(ws, sep).len() ==> !crate::text::is_space(#[trigger] joined(ws, sep)[j]),
        ws.len() > 0 ==> joined(ws, sep).len() >= ws.last().len(),
    decreases ws.len(),
{
    if ws.len() > 1 {
        let front = ws.drop_last();
        assert forall|i: int, j: int| 0 <= i < front.len() && 0 <= j < front[i].len() implies !crate::text::is_space(
            #[trigger] front[i][j],
        ) by {
            assert(front[i] == ws[i]);
        }
        lemma_joined_no_space(front, sep);
        let h = joined(front, sep).push(sep);
        let w = ws.last();
        assert forall|j: int| 0 <= j < joined(ws, sep).len() implies !crate::text::is_space(#[trigger] joined(ws, sep)[j]) by {
            if j < h.len() - 1 {
                assert(joined(ws, sep)[j] == joined(front, sep)[j]);
            } else if j >= h.len() {
                assert(joined(ws, sep)[j] == ws[ws.len() - 1][j - h.len()]);
            }
        }
    }
}

proof fn lemma_words_trailing_space(s: Seq<char>)
    ensures
        words(s.push(' ')) == words(s),
{
    assert(s.push(' ').drop_last() =~= s);
}

proof fn lemma_keywords_differ()
    ensures
        kw_atk() != kw_reinf() && kw_atk() != kw_start() && kw_atk() != kw_resume() && kw_atk() != kw_welcome(),
        kw_reinf() != kw_start() && kw_reinf() != kw_resume() && kw_reinf() != kw_welcome(),
        kw_start() != kw_resume() && kw_start() != kw_welcome() && kw_resume() != kw_welcome(),
        kw_join() != kw_rejoin() && kw_attack() != kw_end(),
{
    assert(kw_atk().len() != kw_reinf().len());
    assert(kw_atk().len() != kw_start().len());
    assert(kw_atk().len() != kw_resume().len());
    assert(kw_atk().len() != kw_welcome().len());
    assert(kw_reinf()[0] != kw_start()[0]);
    assert(kw_reinf().len() != kw_resume().len());
    assert(kw_reinf().len() != kw_welcome().len());
    assert(kw_start().len() != kw_resume().len());
    assert(kw_start().len() != kw_welcome().len());
    assert(kw_resume().len() != kw_welcome().len());
    assert(kw_join().len() != kw_rejoin().len());
    assert(kw_attack().len() != kw_end().len());
}

proof fn lemma_keywords_plain()
    ensures
        plain_word(kw_atk()) && plain_word(kw_reinf()) && plain_word(kw_start()) && plain_word(kw_resume()),
        plain_word(kw_welcome()) && plain_word(kw_attack()) && plain_word(kw_join()) && plain_word(kw_rejoin()),
        plain_word(kw_version()),
{
}

/// What the host announces of an event, a guest reads back: the same
/// attack (whose land numbers fit the 32 bits the guest reads them in) or
/// the same reinforcement.
pub proof fn lemma_event_line_read(ev: RepEvent, r: HostLine)
    requires
        ev matches RepEvent::Attack { a, d, .. } ==> a <= u32::MAX && d <= u32::MAX,
        host_line_means(event_text(ev), r),
    ensures
        match ev {
            RepEvent::Attack { a, d, ra, rd, captured } => r == HostLine::Attack { a, d, ra, rd, captured },
            RepEvent::Reinforce { player, lands } => r matches HostLine::Reinforce { player: p, lands: l } && p == player
                && l@ == lands@,
        },
{
    lemma_keywords_differ();
    lemma_keywords_plain();
    match ev {
        RepEvent::Attack { a, d, ra, rd, captured } => {
            let c: nat = if captured { 1 } else { 0 };
            let xs: Seq<nat> = seq![a as nat, d as nat, ra as nat, rd as nat, c];
            let ws = seq![
                kw_atk(),
                decimal(a as nat),
                decimal(d as nat),
                decimal(ra as nat),
                decimal(rd as nat),
                decimal(c),
            ];
            lemma_decimal(a as nat);
            lemma_decimal(d as nat);
            lemma_decimal(ra as nat);
            lemma_decimal(rd as nat);
            lemma_decimal(c);
            assert forall|i: int| 0 <= i < ws.len() implies plain_word(#[trigger] ws[i]) by {}
            lemma_words_joined(ws);
            assert(ws.drop_first() =~= xs.map_values(|x: nat| decimal(x)));
            lemma_numbers_decimals(xs, u32::MAX as nat);
        },
        RepEvent::Reinforce { player, lands } => {
            lemma_decimal(player as nat);
            let ds = decimals(lands@);
            let xs = lands@.map_values(|x: usize| x as nat);
            assert forall|i: int| 0 <= i < xs.len() implies #[trigger] xs[i] <= usize::MAX by {}
            assert(ds =~= xs.map_values(|x: nat| decimal(x)));
            lemma_numbers_decimals(xs, usize::MAX as nat);
            let head = seq![kw_reinf(), decimal(player as nat)];
            assert forall|i: int| 0 <= i < head.len() implies plain_word(#[trigger] head[i]) by {}
            lemma_words_joined(head);
            if lands@.len() == 0 {
                let list = joined(ds, ',');
                assert(list =~= Seq::<char>::empty());
                let full = seq![kw_reinf(), decimal(player as nat), list];
                assert(full.drop_last() =~= head);
                assert(joined(full, ' ') =~= joined(head, ' ').push(' '));
                lemma_words_trailing_space(joined(head, ' '));
            } else {
                assert forall|i: int| 0 <= i < ds.len() implies free_of(#[trigger] ds[i], ',') by {
                    lemma_decimal(lands@[i] as nat);
                }
                assert forall|i: int, j: int| 0 <= i < ds.len() && 0 <= j < ds[i].len() implies !crate::text::is_space(
                    #[trigger] ds[i][j],
                ) by {
                    lemma_decimal(lands@[i] as nat);
                    assert(plain_word(ds[i]));
                }
                lemma_joined_no_space(ds, ',');
                lemma_decimal(lands@.last() as nat);
                lemma_pieces_joined(ds, ',');
                let full = seq![kw_reinf(), decimal(player as nat), joined(ds, ',')];
                assert forall|i: int| 0 <= i < full.len() implies plain_word(#[trigger] full[i]) by {}
                lemma_words_joined(full);
            }
            match r {
                HostLine::Reinforce { player: p, lands: l } => {
                    assert(reinforced_lands(words(event_text(ev))) == xs);
                    assert forall|i: int| 0 <= i < l@.len() implies l@[i] == lands@[i] by {
                        assert(xs[i] == lands@[i] as nat);
                    }
                    assert(l@ =~= lands@);
                },
                _ => {},
            }
        },
    }
}

/// What the host announces of a match, a guest reads back in full.
pub proof fn lemma_match_line_read(
    resume: bool,
    seed: u64,
    players: usize,
    humans: usize,
    difficulty: usize,
    seat: usize,
    color: usize,
    r: HostLine,
)
    requires
        host_line_means(match_text(resume, seed, players, humans, difficulty, seat, color), r),
    ensures
        ({
            let info = MatchInfo { seed, players, humans, difficulty, seat: Some(seat), color: Some(color) };
            r == if resume {
                HostLine::Resume(info)
            } else {
                HostLine::Start(info)
            }
        }),
{
    lemma_keywords_differ();
    lemma_keywords_plain();
    lemma_decimal(seed as nat);
    lemma_decimal(players as nat);
    lemma_decimal(humans as nat);
    lemma_decimal(difficulty as nat);
    lemma_decimal(seat as nat);
    lemma_decimal(color as nat);
    let ws = seq![
        if resume { kw_resume() } else { kw_start() },
        decimal(seed as nat),
        decimal(players as nat),
        decimal(humans as nat),
        decimal(difficulty as nat),
        decimal(seat as nat),
        decimal(color as nat),
    ];
    assert forall|i: int| 0 <= i < ws.len() implies plain_word(#[trigger] ws[i]) by {}
    lemma_words_joined(ws);
    assert(word_number(ws, 1, u64::MAX as nat) == Some(seed as nat));
    assert(word_number(ws, 2, usize::MAX as nat) == Some(players as nat));
    assert(word_number(ws, 3, usize::MAX as nat) == Some(humans as nat));
    assert(word_number(ws, 4, usize::MAX as nat) == Some(difficulty as nat));
    assert(word_number(ws, 5, usize::MAX as nat) == Some(seat as nat));
    assert(word_number(ws, 6, usize::MAX as nat) == Some(color as nat));
}

/// A new guest's seat and token, as the guest reads them back.
pub proof fn lemma_welcome_line_read(seat: usize, token: Seq<char>, r: HostLine)
    requires
        plain_word(token),
        host_line_means(welcome_text(seat, token), r),
    ensures
        r matches HostLine::Welcome { seat: s, token: t } && s == Some(seat) && t@ == token,
{
    lemma_keywords_differ();
    lemma_keywords_plain();
    lemma_decimal(seat as nat);
    let ws = seq![kw_welcome(), decimal(seat as nat), token];
    assert forall|i: int| 0 <= i < ws.len() implies plain_word(#[trigger] ws[i]) by {}
    lemma_words_joined(ws);
    assert(kw_welcome() != kw_atk() && kw_welcome() != kw_reinf());
    assert(word_number(ws, 1, usize::MAX as nat) == Some(seat as nat));
}

/// The host reads a guest's attack request and its end of turn as sent.
pub proof fn lemma_intent_read(a: usize, d: usize)
    ensures
        intent_of(attack_text(a, d)) == Intent::Attack(Some(a), Some(d)),
        intent_of(kw_end()) == Intent::EndTurn,
{
    lemma_keywords_differ();
    lemma_keywords_plain();
    lemma_decimal(a as nat);
    lemma_decimal(d as nat);
    let ws = seq![kw_attack(), decimal(a as nat), decimal(d as nat)];
    assert forall|i: int| 0 <= i < ws.len() implies plain_word(#[trigger] ws[i]) by {}
    lemma_words_joined(ws);
    assert(word_number(ws, 1, usize::MAX as nat) == Some(a as nat));
    assert(word_number(ws, 2, usize::MAX as nat) == Some(d as nat));
    let e = seq![kw_end()];
    assert(plain_word(kw_end()));
    lemma_words_joined(e);
    assert(joined(e, ' ') == kw_end());
}

/// With the lobby's code, a new guest is let in and a returning guest
/// is recognised with its token.
pub proof fn lemma_hello_read(code: Seq<char>, token: Seq<char>, h1: Hello, h2: Hello)
    requires
        plain_word(code),
        plain_word(token),
        hello_means(hello_text(code, None), code, h1),
        hello_means(hello_text(code, Some(token)), code, h2),
    ensures
        h1 is Join,
        h2 matches Hello::Rejoin(t) && t@ == token,
{
    lemma_keywords_differ();
    lemma_keywords_plain();
    let w1 = seq![kw_join(), code, kw_version()];
    assert forall|i: int| 0 <= i < w1.len() implies plain_word(#[trigger] w1[i]) by {}
    lemma_words_joined(w1);
    let w2 = seq![kw_rejoin(), code, token];
    assert forall|i: int| 0 <= i < w2.len() implies plain_word(#[trigger] w2[i]) by {}
    lemma_words_joined(w2);
}


/// Longest line a guest may send (its requests are tiny).
pub const GUEST_LINE_MAX: usize = 200;

/// Longest line the host may send (reinforcement lists can be long).
pub const HOST_LINE_MAX: usize = 4096;

/// What one more byte off the wire does to the line being read.
#[derive(Clone, Debug)]
pub enum LineStep {
    /// the byte was added; the line goes on
    Pending,
    /// a newline: these are the line's bytes (without it), and the buffer is empty again
    Complete(Vec<u8>),
    /// the line is longer than allowed: the connection is to be dropped
    Overflow,
}

/// Takes byte `b` of a line read with a cap of `cap` bytes.
pub fn take_byte(buf: &mut Vec<u8>, b: u8, cap: usize) -> (r: LineStep)
    ensures
        b == 10u8 ==> (r matches LineStep::Complete(l) && l@ == old(buf)@ && final(buf)@.len() == 0),
        b != 10u8 && old(buf)@.len() >= cap ==> r is Overflow && final(buf)@ == old(buf)@,
        b != 10u8 && old(buf)@.len() < cap ==> r is Pending && final(buf)@ == old(buf)@.push(b),
{
    if b == 10u8 {
        let mut line: Vec<u8> = Vec::new();
        std::mem::swap(&mut line, buf);
        return LineStep::Complete(line);
    }
    if buf.len() >= cap {
        return LineStep::Overflow;
    }
    buf.push(b);
    LineStep::Pending
}

/// The game seats of the guests when the host starts: the occupied lobby
/// seats `1..` in order get game seats `1, 2, ..` (the host is seat 0).
/// Returns the pairs (lobby seat, game seat).
pub fn seat_map(taken: &Vec<bool>) -> (m: Vec<(usize, usize)>)
    requires
        taken@.len() < usize::MAX,
    ensures
        m@.len() == taken@.filter(|t: bool| t).len(),
        forall|k: int| 0 <= k < m@.len() ==> (#[trigger] m@[k]).1 == k + 1,
        forall|k: int| 0 <= k < m@.len() ==> 1 <= (#[trigger] m@[k]).0 <= taken@.len() && taken@[m@[k].0 - 1],
        forall|k: int, j: int| 0 <= k < j < m@.len() ==> (#[trigger] m@[k]).0 < (#[trigger] m@[j]).0,
        forall|i: int| 0 <= i < taken@.len() && taken@[i] ==> exists|k: int| 0 <= k < m@.len() && (#[trigger] m@[k]).0 == i + 1,
{
    let mut m: Vec<(usize, usize)> = Vec::new();
    let mut i: usize = 0;
    while i < taken.len()
        invariant
            i <= taken@.len(),
            taken@.len() < usize::MAX,
            m@.len() == taken@.take(i as int).filter(|t: bool| t).len(),
            m@.len() <= i,
            forall|k: int| 0 <= k < m@.len() ==> (#[trigger] m@[k]).1 == k + 1,
            forall|k: int| 0 <= k < m@.len() ==> 1 <= (#[trigger] m@[k]).0 <= i && taken@[m@[k].0 - 1],
            forall|k: int, j: int| 0 <= k < j < m@.len() ==> (#[trigger] m@[k]).0 < (#[trigger] m@[j]).0,
            forall|x: int| 0 <= x < i && taken@[x] ==> exists|k: int| 0 <= k < m@.len() && (#[trigger] m@[k]).0 == x + 1,
        decreases taken@.len() - i,
    {
        proof {
            reveal(Seq::filter);
            assert(taken@.take(i + 1).drop_last() =~= taken@.take(i as int));
            assert(taken@.take(i + 1).last() == taken@[i as int]);
            taken@.take(i as int).lemma_filter_len(|t: bool| t);
        }
        if taken[i] {
            let ghost before = m@;
            m.push((i + 1, m.len() + 1));
            proof {
                assert forall|x: int| 0 <= x < i + 1 && taken@[x] implies exists|k: int|
                    0 <= k < m@.len() && (#[trigger] m@[k]).0 == x + 1 by {
                    if x < i {
                        let k = choose|k: int| 0 <= k < before.len() && (#[trigger] before[k]).0 == x + 1;
                        assert(m@[k] == before[k]);
                    } else {
                        assert(m@[before.len() as int].0 == x + 1);
                    }
                }
            }
        }
        i = i + 1;
    }
    proof {
        assert(taken@.take(taken@.len() as int) =~= taken@);
    }
    m
}

} // verus!
