//! The rules of a match: attacks and their outcome, reinforcements at the end
//! of a turn, whose turn is next, when the game is over, and the replay log.
use vstd::prelude::*;
use crate::board::{count_owned, dice_owned, Board, Setup};
use crate::dice::{seq_sum, split_sum};
use crate::graph::{adj_of, has_nb, largest_cluster, largest_region_spec};
use crate::rng::{rand_index, rand_range, DRAW_LIMIT};
use crate::rules::{Difficulty, Persona, Snd, MAX_DICE, MAX_RESERVE};

verus! {

/// Everything needed to replay a finished game (the map itself comes from the seed).
#[derive(Clone, Debug)]
pub enum RepEvent {
    Attack { a: usize, d: usize, ra: u32, rd: u32, captured: bool },
    Reinforce { player: usize, lands: Vec<usize> },
}

/// A battle under way: attacker `a`, defender `d`, their totals and single dice.
#[derive(Clone, Debug)]
pub struct Battle {
    pub a: usize,
    pub d: usize,
    pub ra: u32,
    pub rd: u32,
    pub ad: Vec<u8>,
    pub dd: Vec<u8>,
    pub captured: bool,
}

/// Why a match ended.
#[derive(Clone, Debug)]
pub enum GameOver {
    /// no human player owns a land any more
    Wiped,
    /// this player owns the whole map
    Conquered(usize),
    /// ended from outside the rules (a lost connection), with the reason
    Ended(String),
}

/// What a finished battle did, for the log.
#[derive(Clone, Copy, Debug)]
pub struct BattleReport {
    pub attacker: usize,
    pub defender: usize,
    pub captured: bool,
    pub eliminated: bool,
}

/// Where a turn's reinforcements went.
#[derive(Clone, Debug)]
pub struct Reinforcement {
    pub player: usize,
    pub lands: Vec<usize>,
    pub stored: u32,
}

/// A match in progress.
pub struct Match {
    pub players: usize,
    /// players `0..humans` are humans, the rest are computer players
    pub humans: usize,
    pub difficulty: Difficulty,
    /// one per player; index 0 (human) is unused
    pub personas: Vec<Persona>,
    pub seed: u64,
    /// per player: reinforcements stored when all lands are full
    pub reserve: Vec<u32>,
    /// live game: record events; replays don't
    pub recording: bool,
    /// this instance mirrors a remote host: no computer turns, no dice rolls
    pub net_guest: bool,
    /// which seat this screen controls
    pub my_seat: usize,
    pub events: Vec<RepEvent>,
    pub board: Board,
    pub current: usize,
    pub selected: Option<usize>,
    pub over: Option<GameOver>,
    pub battle: Option<Battle>,
    /// sound events, drained and played by the front end
    pub snd: Vec<Snd>,
}

/// How many times `t` occurs in `s`.
pub open spec fn occurrences(s: Seq<usize>, t: usize) -> nat
    decreases s.len(),
{
    if s.len() == 0 {
        0
    } else {
        occurrences(s.drop_last(), t) + if s.last() == t {
            1nat
        } else {
            0nat
        }
    }
}

/// How many entries of `s` name lands `0..k`.
pub open spec fn occ_total(s: Seq<usize>, k: int) -> int
    decreases k,
{
    if k <= 0 {
        0
    } else {
        occ_total(s, k - 1) + occurrences(s, (k - 1) as usize)
    }
}

proof fn lemma_occ_total_last(s: Seq<usize>, k: int)
    requires
        s.len() > 0,
        0 <= k <= usize::MAX,
    ensures
        occ_total(s, k) == occ_total(s.drop_last(), k) + if (s.last() as int) < k { 1int } else { 0int },
    decreases k,
{
    if k > 0 {
        lemma_occ_total_last(s, k - 1);
        let t = (k - 1) as usize;
        assert(t as int == k - 1);
        assert(occurrences(s, t) == occurrences(s.drop_last(), t) + if s.last() == t { 1nat } else { 0nat });
        assert((s.last() == t) == (s.last() as int == k - 1));
    }
}

/// Every entry of a list of lands `< n` is counted once.
proof fn lemma_occ_total_len(s: Seq<usize>, n: int)
    requires
        0 <= n <= usize::MAX,
        forall|i: int| 0 <= i < s.len() ==> (#[trigger] s[i] as int) < n,
    ensures
        occ_total(s, n) == s.len(),
    decreases s.len(),
{
    if s.len() > 0 {
        lemma_occ_total_last(s, n);
        assert forall|i: int| 0 <= i < s.drop_last().len() implies (#[trigger] s.drop_last()[i] as int) < n by {
            assert(s.drop_last()[i] == s[i]);
        }
        lemma_occ_total_len(s.drop_last(), n);
        assert(s.last() == s[s.len() - 1]);
    } else {
        lemma_occ_total_zero(s, n);
    }
}

proof fn lemma_occ_total_zero(s: Seq<usize>, k: int)
    requires
        s.len() == 0,
    ensures
        occ_total(s, k) == 0,
    decreases k,
{
    if k > 0 {
        lemma_occ_total_zero(s, k - 1);
    }
}

/// Dice that grew by the occurrences of `s` grew in total by their count.
proof fn lemma_dice_growth(before: Seq<u32>, after: Seq<u32>, s: Seq<usize>, k: int)
    requires
        0 <= k <= before.len(),
        k <= after.len(),
        forall|t: int| 0 <= t < k ==> #[trigger] after[t] - before[t] == occurrences(s, t as usize),
    ensures
        dice_total(after, k) - dice_total(before, k) == occ_total(s, k),
    decreases k,
{
    if k > 0 {
        lemma_dice_growth(before, after, s, k - 1);
        assert(after[k - 1] - before[k - 1] == occurrences(s, (k - 1) as usize));
    }
}

/// Free die slots on the lands among the first `k` owned by `p`.
pub open spec fn room(owner: Seq<usize>, dice: Seq<u32>, p: usize, k: int) -> nat
    decreases k,
{
    if k <= 0 {
        0
    } else {
        room(owner, dice, p, k - 1) + if owner[k - 1] == p && dice[k - 1] < MAX_DICE {
            (MAX_DICE - dice[k - 1]) as nat
        } else {
            0nat
        }
    }
}

/// The first player, from `w` on, who owns all `n` lands.
pub open spec fn winner_from(owner: Seq<usize>, n: int, players: int, w: int) -> Option<usize>
    decreases players - w,
{
    if w >= players || w < 0 {
        None
    } else if count_owned(owner, w as usize, n) == n {
        Some(w as usize)
    } else {
        winner_from(owner, n, players, w + 1)
    }
}

/// Some player among `0..humans` still owns a land.
pub open spec fn humans_alive(owner: Seq<usize>, n: int, humans: int) -> bool {
    exists|p: int| 0 <= p < humans && #[trigger] count_owned(owner, p as usize, n) > 0
}

/// The first player after `cur`, going round from step `s` on, who still owns a land.
pub open spec fn next_alive(owner: Seq<usize>, n: int, players: int, cur: int, s: int) -> Option<usize>
    decreases players + 1 - s,
{
    if s > players || s < 1 {
        None
    } else if count_owned(owner, ((cur + s) % players) as usize, n) > 0 {
        Some(((cur + s) % players) as usize)
    } else {
        next_alive(owner, n, players, cur, s + 1)
    }
}

/// Whose turn it is after `cur`: the next player round the table who still
/// owns a land, or `cur` again if nobody does.
pub open spec fn next_turn(owner: Seq<usize>, n: int, players: int, cur: int) -> usize {
    match next_alive(owner, n, players, cur, 1) {
        Some(q) => q,
        None => cur as usize,
    }
}

/// The rules' verdict on the map: every human out, or one player holding every land.
pub open spec fn verdict(owner: Seq<usize>, n: int, players: int, humans: int) -> Option<GameOver> {
    if !humans_alive(owner, n, humans) {
        Some(GameOver::Wiped)
    } else {
        match winner_from(owner, n, players, 0) {
            Some(w) => Some(GameOver::Conquered(w)),
            None => None,
        }
    }
}

/// The owners after a battle from `a` on `d`: a capture hands `d` to the
/// attacker.
pub open spec fn battle_owners(owners: Seq<usize>, a: int, d: int, captured: bool) -> Seq<usize> {
    if captured {
        owners.update(d, owners[a])
    } else {
        owners
    }
}

/// The dice after a battle from `a` on `d`: a capture moves all but one of
/// the attacker's dice onto `d`; the attacking land keeps one die.
pub open spec fn battle_dice(dice: Seq<u32>, a: int, d: int, captured: bool) -> Seq<u32> {
    (if captured {
        dice.update(d, (dice[a] - 1) as u32)
    } else {
        dice
    }).update(a, 1u32)
}

/// The dice after a battle as a guest catching up applies it: as in
/// `battle_dice`, except that a captured land gets at least one die.
pub open spec fn caught_up_dice(dice: Seq<u32>, a: int, d: int, captured: bool) -> Seq<u32> {
    (if captured {
        dice.update(d, if dice[a] <= 1 { 1u32 } else { (dice[a] - 1) as u32 })
    } else {
        dice
    }).update(a, 1u32)
}

/// What starting a battle from `a` on `d` does to a match: both sides are
/// rolled, one die per die on each land, the attacker captures on a strictly
/// higher total, the battle is recorded (when recording) and the selection
/// is cleared.
pub open spec fn attack_begun(before: Match, after: Match, a: usize, d: usize) -> bool {
    &&& after.same_setup(&before)
    &&& after.board == before.board
    &&& after.current == before.current
    &&& after.reserve == before.reserve
    &&& after.over == before.over
    &&& after.selected is None
    &&& after.snd@ == before.snd@.push(Snd::Roll)
    &&& after.battle matches Some(b) && {
        &&& b.a == a && b.d == d
        &&& b.ad@.len() == before.dice()[a as int]
        &&& b.dd@.len() == before.dice()[d as int]
        &&& forall|i: int| 0 <= i < b.ad@.len() ==> 1 <= #[trigger] b.ad@[i] <= 6
        &&& forall|i: int| 0 <= i < b.dd@.len() ==> 1 <= #[trigger] b.dd@[i] <= 6
        &&& b.ra == seq_sum(b.ad@)
        &&& b.rd == seq_sum(b.dd@)
        &&& b.captured == (b.ra > b.rd)
        &&& after.events@ == if before.recording {
            before.events@.push(RepEvent::Attack { a, d, ra: b.ra, rd: b.rd, captured: b.captured })
        } else {
            before.events@
        }
    }
}

impl Match {
    pub open spec fn n(&self) -> nat {
        self.board.n()
    }

    pub open spec fn owners(&self) -> Seq<usize> {
        self.board.owner@
    }

    pub open spec fn dice(&self) -> Seq<u32> {
        self.board.dice@
    }

    /// Lengths agree, players and seats are in range, stores stay within their cap.
    pub open spec fn wf(&self) -> bool {
        &&& self.board.wf()
        &&& self.n() <= crate::rng::DRAW_LIMIT
        &&& 1 <= self.humans <= self.players
        &&& self.players <= 0x1000_0000
        &&& self.personas@.len() == self.players
        &&& self.reserve@.len() == self.players
        &&& self.current < self.players
        &&& forall|t: int| 0 <= t < self.n() ==> #[trigger] self.owners()[t] < self.players
        &&& forall|p: int| 0 <= p < self.players ==> #[trigger] self.reserve@[p] <= MAX_RESERVE
        &&& self.selected matches Some(s) ==> s < self.n()
        &&& self.battle matches Some(b) ==> b.a < self.n() && b.d < self.n()
    }

    /// A fresh match on a generated map: nothing stored, nothing recorded yet,
    /// and the generator's pick moves first.
    pub fn new(setup: Setup, players: usize, humans: usize, difficulty: Difficulty) -> (m: Match)
        requires
            crate::board::fresh_map(setup.board, players),
            setup.personas@.len() == players,
            setup.first < players,
            1 <= humans <= players,
            players <= crate::rules::N_SEEDS - crate::rules::N_HOLES,
        ensures
            m.wf(),
            m.board == setup.board,
            m.players == players,
            m.humans == humans,
            m.difficulty == difficulty,
            m.personas == setup.personas,
            m.current == setup.first,
            m.seed == 0,
            m.reserve@ == Seq::new(players as nat, |i: int| 0u32),
            m.recording,
            !m.net_guest,
            m.my_seat == 0,
            m.events@.len() == 0,
            m.selected is None,
            m.over is None,
            m.battle is None,
            m.snd@.len() == 0,
    {
        proof {
            crate::board::lemma_territory_count_le(players as int);
        }
        Match {
            players,
            humans,
            difficulty,
            personas: setup.personas,
            seed: 0,
            reserve: vec![0u32; players],
            recording: true,
            net_guest: false,
            my_seat: 0,
            events: Vec::new(),
            board: setup.board,
            current: setup.first,
            selected: None,
            over: None,
            battle: None,
            snd: Vec::new(),
        }
    }

    /// Number of lands `p` owns.
    pub fn count(&self, p: usize) -> (c: usize)
        requires
            self.board.wf(),
        ensures
            c == count_owned(self.owners(), p, self.n() as int),
            c <= self.n(),
    {
        let n = self.board.owner.len();
        let mut c: usize = 0;
        let mut t: usize = 0;
        while t < n
            invariant
                n == self.n(),
                t <= n,
                c <= t,
                c == count_owned(self.owners(), p, t as int),
            decreases n - t,
        {
            if self.board.owner[t] == p {
                c = c + 1;
            }
            t = t + 1;
        }
        c
    }

    /// Size of the largest connected group of lands `p` owns: the number of
    /// dice `p` receives at the end of a turn, before stored dice.
    pub fn largest_region(&self, p: usize) -> (r: u32)
        requires
            self.wf(),
        ensures
            r == largest_region_spec(self.board.adj(), self.owners(), p),
            r <= self.n(),
    {
        let best = largest_cluster(&self.board.neighbors, &self.board.owner, p);
        best as u32
    }

    /// Fields a rule never changes.
    pub open spec fn same_setup(&self, other: &Match) -> bool {
        &&& self.players == other.players
        &&& self.humans == other.humans
        &&& self.difficulty == other.difficulty
        &&& self.personas == other.personas
        &&& self.seed == other.seed
        &&& self.recording == other.recording
        &&& self.net_guest == other.net_guest
        &&& self.my_seat == other.my_seat
        &&& self.board.cell_terr == other.board.cell_terr
        &&& self.board.neighbors == other.board.neighbors
        &&& self.board.die_seed == other.board.die_seed
    }

    /// Rolls both sides of an attack from `a` on `d` and starts the battle:
    /// one die per die on each land, the attacker captures on a strictly
    /// higher total. The battle is recorded (when recording) the moment it
    /// starts, so remote players watch the same dice.
    pub fn begin_attack(&mut self, a: usize, d: usize)
        requires
            old(self).wf(),
            a < old(self).n(),
            d < old(self).n(),
        ensures
            final(self).wf(),
            attack_begun(*old(self), *final(self), a, d),
    {
        let ad = roll_dice(self.board.dice[a]);
        let dd = roll_dice(self.board.dice[d]);
        let ra = face_total(&ad);
        let rd = face_total(&dd);
        let captured = ra > rd;
        self.battle = Some(Battle { a, d, ra, rd, ad, dd, captured });
        if self.recording {
            self.events.push(RepEvent::Attack { a, d, ra, rd, captured });
        }
        self.selected = None;
        self.snd.push(Snd::Roll);
        proof {
            assert forall|t: int| 0 <= t < self.n() implies #[trigger] self.owners()[t] < self.players by {
                assert(old(self).owners()[t] < old(self).players);
            }
        }
    }

    /// Whether some human still owns a land.
    fn any_human_alive(&self) -> (alive: bool)
        requires
            self.wf(),
        ensures
            alive == humans_alive(self.owners(), self.n() as int, self.humans as int),
    {
        let mut p: usize = 0;
        while p < self.humans
            invariant
                self.wf(),
                p <= self.humans,
                forall|q: int| 0 <= q < p ==> #[trigger] count_owned(self.owners(), q as usize, self.n() as int) == 0,
            decreases self.humans - p,
        {
            if self.count(p) > 0 {
                proof {
                    assert(count_owned(self.owners(), (p as int) as usize, self.n() as int) > 0);
                }
                return true;
            }
            p = p + 1;
        }
        false
    }

    /// The first player who owns every land, if any.
    fn find_winner(&self) -> (w: Option<usize>)
        requires
            self.wf(),
        ensures
            w == winner_from(self.owners(), self.n() as int, self.players as int, 0),
    {
        let n = self.board.owner.len();
        let mut k: usize = 0;
        while k < self.players
            invariant
                self.wf(),
                n == self.n(),
                k <= self.players,
                winner_from(self.owners(), n as int, self.players as int, 0) == winner_from(
                    self.owners(),
                    n as int,
                    self.players as int,
                    k as int,
                ),
            decreases self.players - k,
        {
            if self.count(k) == n {
                return Some(k);
            }
            k = k + 1;
        }
        None
    }

    /// Settles a finished battle: on a capture the defender's land changes
    /// hands and gets all but one of the attacker's dice; either way the
    /// attacking land keeps a single die. A live match (recording, or mirroring
    /// a host) then checks whether every human is out or one player holds the
    /// whole map, and ends the game if so.
    pub fn apply_battle(&mut self, b: Battle) -> (r: BattleReport)
        requires
            old(self).wf(),
            b.a < old(self).n(),
            b.d < old(self).n(),
            b.captured ==> old(self).dice()[b.a as int] >= 1,
        ensures
            final(self).wf(),
            final(self).same_setup(old(self)),
            final(self).current == old(self).current,
            final(self).reserve == old(self).reserve,
            final(self).selected == old(self).selected,
            final(self).battle == old(self).battle,
            final(self).events == old(self).events,
            r.attacker == old(self).owners()[b.a as int],
            r.defender == old(self).owners()[b.d as int],
            r.captured == b.captured,
            final(self).owners() == battle_owners(old(self).owners(), b.a as int, b.d as int, b.captured),
            final(self).dice() == battle_dice(old(self).dice(), b.a as int, b.d as int, b.captured),
            r.eliminated == (b.captured && count_owned(final(self).owners(), r.defender, final(self).n() as int) == 0),
            ({
                let s1 = old(self).snd@.push(if b.captured { Snd::Capture } else { Snd::Repel });
                let s2 = if r.eliminated { s1.push(Snd::Eliminated) } else { s1 };
                let v = verdict(final(self).owners(), final(self).n() as int, final(self).players as int, final(self).humans as int);
                if (old(self).recording || old(self).net_guest) && v is Some {
                    &&& final(self).over == v
                    &&& final(self).snd@ == s2.push(over_sound(v.unwrap(), final(self).humans))
                } else {
                    &&& final(self).over == old(self).over
                    &&& final(self).snd@ == s2
                }
            }),
    {
        let atk = self.board.owner[b.a];
        let def = self.board.owner[b.d];
        proof {
            assert(old(self).owners()[b.a as int] < old(self).players);
            assert(old(self).dice()[b.a as int] <= MAX_DICE);
        }
        if b.captured {
            self.board.owner[b.d] = atk;
            self.board.dice[b.d] = self.board.dice[b.a] - 1;
        }
        self.board.dice[b.a] = 1;
        proof {
            assert forall|t: int| 0 <= t < self.n() implies #[trigger] self.owners()[t] < self.players by {
                assert(old(self).owners()[t] < old(self).players);
            }
            assert forall|t: int| 0 <= t < self.n() implies #[trigger] self.dice()[t] <= MAX_DICE by {
                assert(old(self).dice()[t] <= MAX_DICE);
            }
            assert(self.board.wf());
        }
        self.snd.push(if b.captured { Snd::Capture } else { Snd::Repel });
        let eliminated = b.captured && self.count(def) == 0;
        if eliminated {
            self.snd.push(Snd::Eliminated);
        }
        let report = BattleReport { attacker: atk, defender: def, captured: b.captured, eliminated };
        if !self.recording && !self.net_guest {
            return report;
        }
        if !self.any_human_alive() {
            self.over = Some(GameOver::Wiped);
            self.snd.push(Snd::Lose);
        } else if let Some(w) = self.find_winner() {
            self.over = Some(GameOver::Conquered(w));
            self.snd.push(if w < self.humans { Snd::Win } else { Snd::Lose });
        }
        report
    }

    /// Passes the turn to the next player round the table who still owns a land.
    pub fn advance_turn(&mut self)
        requires
            old(self).wf(),
        ensures
            final(self).wf(),
            final(self).same_setup(old(self)),
            final(self).board == old(self).board,
            final(self).reserve == old(self).reserve,
            final(self).over == old(self).over,
            final(self).battle == old(self).battle,
            final(self).events == old(self).events,
            final(self).current == next_turn(old(self).owners(), old(self).n() as int, old(self).players as int, old(self).current as int),
            final(self).selected is None,
            final(self).snd@ == if final(self).current < final(self).humans {
                old(self).snd@.push(Snd::Turn)
            } else {
                old(self).snd@
            },
    {
        let ghost own = self.owners();
        let ghost n = self.n() as int;
        let ghost players = self.players as int;
        let ghost cur = self.current as int;
        let mut step: usize = 1;
        let mut found = false;
        let mut next = self.current;
        while step <= self.players && !found
            invariant
                self.wf(),
                own == self.owners(),
                n == self.n(),
                players == self.players,
                self.current == cur,
                next < self.players,
                1 <= step <= self.players + 1,
                !found ==> next == cur && next_alive(own, n, players, cur, 1) == next_alive(own, n, players, cur, step as int),
                found ==> next == next_turn(own, n, players, cur),
            decreases (self.players + 1 - step) * 2 + if found {
                0int
            } else {
                1int
            },
        {
            let q = (self.current + step) % self.players;
            if self.count(q) > 0 {
                next = q;
                found = true;
            } else {
                step = step + 1;
            }
        }
        self.current = next;
        self.selected = None;
        if self.current < self.humans {
            self.snd.push(Snd::Turn);
        }
    }
}

/// The sound that marks the end of a game for the humans.
pub open spec fn over_sound(v: GameOver, humans: usize) -> Snd {
    match v {
        GameOver::Conquered(w) => if w < humans {
            Snd::Win
        } else {
            Snd::Lose
        },
        _ => Snd::Lose,
    }
}

/// Rolls `k` dice.
fn roll_dice(k: u32) -> (v: Vec<u8>)
    ensures
        v@.len() == k,
        forall|i: int| 0 <= i < v@.len() ==> 1 <= #[trigger] v@[i] <= 6,
{
    let mut v: Vec<u8> = Vec::new();
    let mut i: u32 = 0;
    while i < k
        invariant
            i <= k,
            v@.len() == i,
            forall|j: int| 0 <= j < v@.len() ==> 1 <= #[trigger] v@[j] <= 6,
        decreases k - i,
    {
        v.push(rand_range(1, 7) as u8);
        i = i + 1;
    }
    v
}

/// Total of a handful of dice.
fn face_total(v: &Vec<u8>) -> (t: u32)
    requires
        v@.len() <= MAX_DICE,
    ensures
        t == seq_sum(v@),
{
    let mut t: u32 = 0;
    let mut i: usize = 0;
    while i < v.len()
        invariant
            i <= v@.len(),
            v@.len() <= MAX_DICE,
            t == seq_sum(v@.take(i as int)),
            t <= 255 * i,
        decreases v@.len() - i,
    {
        proof {
            assert(v@.take(i + 1).drop_last() =~= v@.take(i as int));
        }
        t = t + v[i] as u32;
        i = i + 1;
    }
    proof {
        assert(v@.take(v@.len() as int) =~= v@);
    }
    t
}

/// A recorded reinforcement of `p` onto `lands`.
pub open spec fn is_reinforce_event(e: RepEvent, p: usize, lands: Seq<usize>) -> bool {
    e matches RepEvent::Reinforce { player, lands: l } && player == p && l@ == lands
}

/// Land `t` borders a land that `p` does not own.
pub open spec fn is_front(adj: Seq<Seq<usize>>, owner: Seq<usize>, p: usize, t: int) -> bool {
    exists|i: int| 0 <= i < adj[t].len() && owner[#[trigger] adj[t][i] as int] != p
}

/// Before die `i` of a reinforcement by `p` onto `lands` (starting from
/// `dice0`), some border land of `p` still had room.
pub open spec fn border_room_at(
    adj: Seq<Seq<usize>>,
    own: Seq<usize>,
    dice0: Seq<u32>,
    p: usize,
    n: int,
    lands: Seq<usize>,
    i: int,
) -> bool {
    exists|t: int|
        0 <= t < n && own[t] == p && #[trigger] is_front(adj, own, p, t) && dice0[t] + occurrences(
            lands.take(i),
            t as usize,
        ) < MAX_DICE
}

pub proof fn lemma_occurrences_push(s: Seq<usize>, x: usize, t: usize)
    ensures
        occurrences(s.push(x), t) == occurrences(s, t) + if x == t {
            1nat
        } else {
            0nat
        },
{
    assert(s.push(x).drop_last() =~= s);
}

proof fn lemma_room_inc(owner: Seq<usize>, dice: Seq<u32>, p: usize, t: int, k: int)
    requires
        owner.len() == dice.len(),
        0 <= t < dice.len(),
        0 <= k <= dice.len(),
        owner[t] == p,
        dice[t] < MAX_DICE,
    ensures
        room(owner, dice.update(t, (dice[t] + 1) as u32), p, k) + (if t < k {
            1int
        } else {
            0int
        }) == room(owner, dice, p, k),
    decreases k,
{
    if k > 0 {
        lemma_room_inc(owner, dice, p, t, k - 1);
    }
}

proof fn lemma_room_zero(owner: Seq<usize>, dice: Seq<u32>, p: usize, k: int)
    requires
        owner.len() == dice.len(),
        0 <= k <= dice.len(),
    ensures
        room(owner, dice, p, k) == 0 <==> forall|t: int| 0 <= t < k && owner[t] == p ==> #[trigger] dice[t] >= MAX_DICE,
    decreases k,
{
    if k > 0 {
        lemma_room_zero(owner, dice, p, k - 1);
    }
}

proof fn lemma_room_other(owner: Seq<usize>, dice: Seq<u32>, p: usize, t: int, v: u32, k: int)
    requires
        owner.len() == dice.len(),
        0 <= t < dice.len(),
        0 <= k <= dice.len(),
        owner[t] != p,
    ensures
        room(owner, dice.update(t, v), p, k) == room(owner, dice, p, k),
    decreases k,
{
    if k > 0 {
        lemma_room_other(owner, dice, p, t, v, k - 1);
    }
}

impl Match {
    /// The lands of `p` that can still take a die, ascending.
    fn open_lands(&self, p: usize) -> (v: Vec<usize>)
        requires
            self.wf(),
        ensures
            v@.len() <= self.n(),
            forall|i: int|
                0 <= i < v@.len() ==> (#[trigger] v@[i] as int) < self.n() && self.owners()[v@[i] as int] == p
                    && self.dice()[v@[i] as int] < MAX_DICE,
            forall|t: int|
                0 <= t < self.n() && self.owners()[t] == p && self.dice()[t] < MAX_DICE ==> #[trigger] v@.contains(
                    t as usize,
                ),
            v@.len() == 0 <==> room(self.owners(), self.dice(), p, self.n() as int) == 0,
    {
        let n = self.board.owner.len();
        let mut v: Vec<usize> = Vec::new();
        let mut t: usize = 0;
        while t < n
            invariant
                self.wf(),
                n == self.n(),
                t <= n,
                v@.len() <= t,
                forall|i: int|
                    0 <= i < v@.len() ==> (#[trigger] v@[i] as int) < t && self.owners()[v@[i] as int] == p
                        && self.dice()[v@[i] as int] < MAX_DICE,
                forall|x: int|
                    0 <= x < t && self.owners()[x] == p && self.dice()[x] < MAX_DICE ==> #[trigger] v@.contains(
                        x as usize,
                    ),
            decreases n - t,
        {
            if self.board.owner[t] == p && self.board.dice[t] < MAX_DICE {
                let ghost before = v@;
                v.push(t);
                proof {
                    assert forall|x: int|
                        0 <= x < t + 1 && self.owners()[x] == p && self.dice()[x] < MAX_DICE implies #[trigger] v@.contains(
                        x as usize,
                    ) by {
                        if x < t {
                            assert(before.contains(x as usize));
                            let j = choose|j: int| 0 <= j < before.len() && before[j] == x as usize;
                            assert(v@[j] == x as usize);
                        } else {
                            assert(v@[before.len() as int] == x as usize);
                        }
                    }
                }
            }
            t = t + 1;
        }
        proof {
            lemma_room_zero(self.owners(), self.dice(), p, n as int);
            if v@.len() == 0 {
                assert forall|x: int| 0 <= x < n && self.owners()[x] == p implies #[trigger] self.dice()[x] >= MAX_DICE by {
                    if self.dice()[x] < MAX_DICE {
                        assert(v@.contains(x as usize));
                    }
                }
            } else {
                assert(self.dice()[v@[0] as int] < MAX_DICE);
            }
        }
        v
    }

    /// The lands in `pool` that border an enemy, in pool order.
    fn front_lands(&self, pool: &Vec<usize>, p: usize) -> (v: Vec<usize>)
        requires
            self.wf(),
            forall|i: int| 0 <= i < pool@.len() ==> (#[trigger] pool@[i] as int) < self.n(),
        ensures
            v@.len() <= pool@.len(),
            forall|i: int| 0 <= i < v@.len() ==> pool@.contains(#[trigger] v@[i]),
            forall|i: int| 0 <= i < v@.len() ==> is_front(self.board.adj(), self.owners(), p, #[trigger] v@[i] as int),
            v@.len() == 0 ==> forall|i: int|
                0 <= i < pool@.len() ==> !is_front(self.board.adj(), self.owners(), p, #[trigger] pool@[i] as int),
    {
        let ghost adj = self.board.adj();
        let mut v: Vec<usize> = Vec::new();
        let mut k: usize = 0;
        while k < pool.len()
            invariant
                self.wf(),
                adj == self.board.adj(),
                k <= pool@.len(),
                v@.len() <= k,
                forall|i: int| 0 <= i < pool@.len() ==> (#[trigger] pool@[i] as int) < self.n(),
                forall|i: int| 0 <= i < v@.len() ==> pool@.contains(#[trigger] v@[i]),
                forall|i: int| 0 <= i < v@.len() ==> is_front(adj, self.owners(), p, #[trigger] v@[i] as int),
                v@.len() == 0 ==> forall|i: int| 0 <= i < k ==> !is_front(adj, self.owners(), p, #[trigger] pool@[i] as int),
            decreases pool@.len() - k,
        {
            let t = pool[k];
            let row = &self.board.neighbors[t];
            let mut j: usize = 0;
            let mut front = false;
            while j < row.len()
                invariant
                    self.wf(),
                    adj == self.board.adj(),
                    (t as int) < self.n(),
                    row@ == adj[t as int],
                    j <= row@.len(),
                    front <==> exists|i: int| 0 <= i < j && self.owners()[#[trigger] adj[t as int][i] as int] != p,
                decreases row@.len() - j,
            {
                let x = row[j];
                proof {
                    assert(adj[t as int][j as int] == x);
                }
                if self.board.owner[x] != p {
                    front = true;
                }
                j = j + 1;
            }
            if front {
                let ghost before = v@;
                proof {
                    assert(pool@[k as int] == t);
                    assert(pool@.contains(t));
                    assert(is_front(adj, self.owners(), p, t as int));
                }
                v.push(t);
                proof {
                    assert forall|i: int| 0 <= i < v@.len() implies pool@.contains(#[trigger] v@[i]) && is_front(
                        adj,
                        self.owners(),
                        p,
                        v@[i] as int,
                    ) by {
                        if i < before.len() {
                            assert(v@[i] == before[i]);
                        }
                    }
                }
            }
            k = k + 1;
        }
        v
    }

    /// Ends the current player's turn: reinforcements equal to the player's
    /// largest connected group plus whatever was stored land one at a time on
    /// random lands of theirs that have room (computer players on Normal and
    /// Hard prefer lands on their borders); what does not fit is stored, up
    /// to `MAX_RESERVE`. Then the next player's turn begins.
    pub fn end_turn(&mut self) -> (r: Reinforcement)
        requires
            old(self).wf(),
        ensures
            final(self).wf(),
            final(self).same_setup(old(self)),
            final(self).owners() == old(self).owners(),
            final(self).over == old(self).over,
            final(self).battle == old(self).battle,
            ({
                let p = old(self).current;
                let n = old(self).n() as int;
                let due = largest_region_spec(old(self).board.adj(), old(self).owners(), p) + old(self).reserve@[p as int];
                let cap = room(old(self).owners(), old(self).dice(), p, n);
                let placed = r.lands@.len();
                &&& r.player == p
                &&& placed == if due < cap { due } else { cap as int }
                &&& forall|i: int|
                    0 <= i < placed ==> (#[trigger] r.lands@[i] as int) < n && old(self).owners()[r.lands@[i] as int] == p
                &&& forall|t: int|
                    0 <= t < n ==> #[trigger] final(self).dice()[t] == old(self).dice()[t] + occurrences(r.lands@, t as usize)
                &&& r.stored == if due - placed < MAX_RESERVE { (due - placed) as u32 } else { MAX_RESERVE }
                &&& final(self).reserve@ == old(self).reserve@.update(p as int, r.stored)
                &&& if old(self).recording {
                    &&& final(self).events@.len() == old(self).events@.len() + 1
                    &&& final(self).events@.drop_last() == old(self).events@
                    &&& is_reinforce_event(final(self).events@.last(), p, r.lands@)
                } else {
                    final(self).events@ == old(self).events@
                }
                &&& final(self).current == next_turn(old(self).owners(), n, old(self).players as int, p as int)
                &&& final(self).selected is None
                &&& {
                    let s1 = if p < old(self).humans && placed > 0 {
                        old(self).snd@.push(Snd::Reinforce)
                    } else {
                        old(self).snd@
                    };
                    final(self).snd@ == if final(self).current < final(self).humans {
                        s1.push(Snd::Turn)
                    } else {
                        s1
                    }
                }
                // computer players on Normal and Hard only put dice inland once every border land is full
                &&& (p >= old(self).humans && old(self).difficulty != Difficulty::Easy && exists|i: int|
                    0 <= i < placed && !is_front(old(self).board.adj(), old(self).owners(), p, #[trigger] r.lands@[i] as int))
                    ==> forall|t: int|
                    0 <= t < n && old(self).owners()[t] == p && is_front(old(self).board.adj(), old(self).owners(), p, t)
                        ==> #[trigger] final(self).dice()[t] == MAX_DICE
                // ... and at each step, a die goes to a border land while one has room
                &&& (p >= old(self).humans && old(self).difficulty != Difficulty::Easy) ==> forall|i: int|
                    0 <= i < placed && border_room_at(old(self).board.adj(), old(self).owners(), old(self).dice(), p, n, r.lands@, i)
                        ==> is_front(old(self).board.adj(), old(self).owners(), p, #[trigger] r.lands@[i] as int)
            }),
    {
        let ghost adj = self.board.adj();
        let ghost own = self.owners();
        let ghost dice0 = self.dice();
        let ghost n = self.n() as int;
        let p = self.current;
        let lr = self.largest_region(p);
        let due: u32 = lr + self.reserve[p];
        let ghost cap = room(own, dice0, p, n);
        let bot = self.difficulty != Difficulty::Easy && p >= self.humans;
        let mut reinforced: Vec<usize> = Vec::new();
        let mut k: u32 = 0;
        let mut stop = false;
        while k < due && !stop
            invariant
                self.wf(),
                self.same_setup(old(self)),
                self.owners() == own,
                own == old(self).owners(),
                dice0 == old(self).dice(),
                adj == self.board.adj(),
                adj == old(self).board.adj(),
                n == self.n(),
                p == old(self).current,
                self.current == old(self).current,
                self.reserve == old(self).reserve,
                self.over == old(self).over,
                self.battle == old(self).battle,
                self.events == old(self).events,
                self.snd == old(self).snd,
                self.selected == old(self).selected,
                bot == (self.difficulty != Difficulty::Easy && p >= self.humans),
                k <= due,
                reinforced@.len() == k,
                k + room(own, self.dice(), p, n) == cap,
                stop ==> room(own, self.dice(), p, n) == 0,
                forall|i: int|
                    0 <= i < reinforced@.len() ==> (#[trigger] reinforced@[i] as int) < n && own[reinforced@[i] as int] == p,
                forall|t: int| 0 <= t < n ==> #[trigger] self.dice()[t] == dice0[t] + occurrences(reinforced@, t as usize),
                (bot && exists|i: int| 0 <= i < reinforced@.len() && !is_front(adj, own, p, #[trigger] reinforced@[i] as int))
                    ==> forall|t: int| 0 <= t < n && own[t] == p && is_front(adj, own, p, t) ==> #[trigger] self.dice()[t] == MAX_DICE,
                bot ==> forall|i: int|
                    0 <= i < reinforced@.len() && border_room_at(adj, own, dice0, p, n, reinforced@, i) ==> is_front(
                        adj,
                        own,
                        p,
                        #[trigger] reinforced@[i] as int,
                    ),
            decreases due - k, if stop { 0int } else { 1int },
        {
            let cand = self.open_lands(p);
            if cand.len() == 0 {
                stop = true;
            } else {
                let mut pool = cand;
                let mut from_front = false;
                if bot {
                    let front = self.front_lands(&pool, p);
                    if front.len() > 0 {
                        pool = front;
                        from_front = true;
                    }
                }
                let t = pool[rand_index(pool.len())];
                let ghost d_before = self.dice();
                let ghost r_before = reinforced@;
                proof {
                    assert(pool@.contains(t));
                    assert(cand@.contains(t));
                    lemma_room_inc(own, d_before, p, t as int, n);
                }
                self.board.dice[t] = self.board.dice[t] + 1;
                reinforced.push(t);
                k = k + 1;
                proof {
                    assert forall|x: int| 0 <= x < n implies #[trigger] self.dice()[x] == dice0[x] + occurrences(
                        reinforced@,
                        x as usize,
                    ) by {
                        lemma_occurrences_push(r_before, t, x as usize);
                    }
                    assert forall|x: int| 0 <= x < self.n() implies #[trigger] self.owners()[x] < self.players by {
                        assert(old(self).owners()[x] < old(self).players);
                    }
                    assert forall|x: int| 0 <= x < self.n() implies #[trigger] self.dice()[x] <= MAX_DICE by {
                        assert(d_before[x] <= MAX_DICE);
                    }
                    if bot {
                        if from_front {
                            assert(is_front(adj, own, p, t as int));
                            // an earlier inland die would mean every border land was already full
                            assert forall|i: int| 0 <= i < r_before.len() implies is_front(adj, own, p, #[trigger] r_before[i] as int) by {
                                if !is_front(adj, own, p, r_before[i] as int) {
                                    assert(d_before[t as int] == MAX_DICE);
                                }
                            }
                            assert forall|i: int| 0 <= i < reinforced@.len() implies is_front(adj, own, p, #[trigger] reinforced@[i] as int) by {
                                if i < r_before.len() {
                                    assert(reinforced@[i] == r_before[i]);
                                }
                            }
                        } else {
                            assert forall|x: int| 0 <= x < n && own[x] == p && is_front(adj, own, p, x) implies #[trigger] self.dice()[x]
                                == MAX_DICE by {
                                if d_before[x] < MAX_DICE {
                                    assert(cand@.contains(x as usize));
                                    let j = choose|j: int| 0 <= j < cand@.len() && cand@[j] == x as usize;
                                    assert(!is_front(adj, own, p, cand@[j] as int));
                                }
                                assert(x != t as int);
                            }
                        }
                        assert forall|i: int|
                            0 <= i < reinforced@.len() && border_room_at(adj, own, dice0, p, n, reinforced@, i) implies is_front(
                            adj,
                            own,
                            p,
                            #[trigger] reinforced@[i] as int,
                        ) by {
                            if i < r_before.len() {
                                assert(reinforced@.take(i) =~= r_before.take(i));
                                assert(reinforced@[i] == r_before[i]);
                                assert(border_room_at(adj, own, dice0, p, n, r_before, i));
                            } else {
                                assert(reinforced@.take(i) =~= r_before);
                                if !from_front {
                                    let x = choose|x: int|
                                        0 <= x < n && own[x] == p && #[trigger] is_front(adj, own, p, x) && dice0[x]
                                            + occurrences(reinforced@.take(i), x as usize) < MAX_DICE;
                                    assert(d_before[x] < MAX_DICE);
                                    assert(cand@.contains(x as usize));
                                    let j = choose|j: int| 0 <= j < cand@.len() && cand@[j] == x as usize;
                                    assert(!is_front(adj, own, p, cand@[j] as int));
                                }
                            }
                        }
                    }
                }
            }
        }
        let placed = reinforced.len() as u32;
        let left: u32 = due - placed;
        let stored: u32 = if left < MAX_RESERVE {
            left
        } else {
            MAX_RESERVE
        };
        self.reserve[p] = stored;
        let lands = reinforced.clone();
        proof {
            assert(lands@ =~= reinforced@);
        }
        let ghost ev0 = self.events@;
        if self.recording {
            self.events.push(RepEvent::Reinforce { player: p, lands: lands });
            proof {
                assert(self.events@.drop_last() =~= ev0);
            }
        }
        if p < self.humans && placed > 0 {
            self.snd.push(Snd::Reinforce);
        }
        proof {
            assert forall|q: int| 0 <= q < self.players implies #[trigger] self.reserve@[q] <= MAX_RESERVE by {
                assert(old(self).reserve@[q] <= MAX_RESERVE);
            }
        }
        self.advance_turn();
        Reinforcement { player: p, lands: reinforced, stored }
    }
}

/// Total dice on the first `k` lands.
pub open spec fn dice_total(dice: Seq<u32>, k: int) -> nat
    decreases k,
{
    if k <= 0 {
        0
    } else {
        dice_total(dice, k - 1) + dice[k - 1] as nat
    }
}

proof fn lemma_dice_total_inc(dice: Seq<u32>, t: int, k: int)
    requires
        0 <= t < dice.len(),
        0 <= k <= dice.len(),
        dice[t] < u32::MAX,
    ensures
        dice_total(dice.update(t, (dice[t] + 1) as u32), k) == dice_total(dice, k) + if t < k {
            1nat
        } else {
            0nat
        },
    decreases k,
{
    if k > 0 {
        lemma_dice_total_inc(dice, t, k - 1);
    }
}

proof fn lemma_dice_total_bound(dice: Seq<u32>, k: int)
    requires
        0 <= k <= dice.len(),
        forall|t: int| 0 <= t < k ==> #[trigger] dice[t] <= MAX_DICE,
    ensures
        dice_total(dice, k) <= MAX_DICE * k,
    decreases k,
{
    if k > 0 {
        lemma_dice_total_bound(dice, k - 1);
    }
}

proof fn lemma_occurrences_take(s: Seq<usize>, i: int, t: usize)
    requires
        0 <= i < s.len(),
    ensures
        occurrences(s.take(i + 1), t) == occurrences(s.take(i), t) + if s[i] == t {
            1nat
        } else {
            0nat
        },
{
    assert(s.take(i + 1).drop_last() =~= s.take(i));
}

/// Dice after piling one die per listed land, skipping lands already full.
pub open spec fn capped_add(old: u32, extra: nat) -> u32 {
    if old + extra >= MAX_DICE {
        MAX_DICE
    } else {
        (old + extra) as u32
    }
}

/// Why a click on the map did nothing useful.
#[derive(Clone, Copy, PartialEq, Eq, Structural, Debug)]
pub enum Hint {
    /// the target is not a direct neighbor of the selected land
    TooFar,
    /// the land has only one die and cannot attack
    OneDie,
    /// the player clicked an enemy land with nothing selected
    EnemyFirst,
}

/// What a click on the map did.
#[derive(Clone, Copy, PartialEq, Eq, Structural, Debug)]
pub enum ClickOutcome {
    /// the click missed every land: selection cleared
    Cleared,
    /// the selected land was clicked again: selection cleared
    Deselected,
    Selected(usize),
    /// attack from the first land on the second
    Attack(usize, usize),
    Refused(Hint),
}

/// An attack a computer player may make, with what its scoring looks at.
#[derive(Clone, Copy, Debug)]
pub struct AttackOption {
    pub a: usize,
    pub d: usize,
    /// position of `d` in the neighbor list of `a`
    pub slot: usize,
    /// attacker's dice minus defender's dice
    pub adv: i32,
    pub a_dice: u32,
    /// owner of the target land
    pub target: usize,
    /// neighbors of `a` that the attacker owns
    pub backup: usize,
    /// neighbors of `d` that the attacker owns
    pub friends: usize,
}

/// Number of entries among the first `k` neighbors of `t` owned by `p`.
pub open spec fn nb_owned(adj: Seq<Seq<usize>>, owner: Seq<usize>, p: usize, t: int, k: int) -> nat
    decreases k,
{
    if k <= 0 {
        0
    } else {
        nb_owned(adj, owner, p, t, k - 1) + if owner[adj[t][k - 1] as int] == p {
            1nat
        } else {
            0nat
        }
    }
}

/// Least dice advantage a computer player with this personality attacks with.
pub open spec fn spec_min_adv(persona: Persona, difficulty: Difficulty) -> int {
    (match persona {
        Persona::Aggressive => 0int,
        Persona::Defensive => 2int,
        _ => 1int,
    }) + if difficulty == Difficulty::Easy {
        2int
    } else {
        0int
    }
}

impl Match {
    /// Piles one die on each listed land that exists and still has room, in
    /// list order; returns the lands that got one.
    fn add_dice(&mut self, lands: &Vec<usize>) -> (placed: Vec<usize>)
        requires
            old(self).wf(),
        ensures
            final(self).wf(),
            final(self).same_setup(old(self)),
            final(self).owners() == old(self).owners(),
            final(self).current == old(self).current,
            final(self).reserve == old(self).reserve,
            final(self).over == old(self).over,
            final(self).battle == old(self).battle,
            final(self).events == old(self).events,
            final(self).selected == old(self).selected,
            final(self).snd == old(self).snd,
            forall|t: int|
                0 <= t < old(self).n() ==> #[trigger] final(self).dice()[t] == capped_add(
                    old(self).dice()[t],
                    occurrences(lands@, t as usize),
                ),
            forall|t: int| 0 <= t < old(self).n() ==> #[trigger] occurrences(placed@, t as usize) == final(self).dice()[t] - old(self).dice()[t],
            forall|i: int| 0 <= i < placed@.len() ==> (#[trigger] placed@[i] as int) < old(self).n(),
            placed@.len() <= MAX_DICE * old(self).n(),
    {
        let ghost dice0 = self.dice();
        let ghost n = self.n() as int;
        let mut placed: Vec<usize> = Vec::new();
        let mut i: usize = 0;
        while i < lands.len()
            invariant
                self.wf(),
                self.same_setup(old(self)),
                self.owners() == old(self).owners(),
                self.current == old(self).current,
                self.reserve == old(self).reserve,
                self.over == old(self).over,
                self.battle == old(self).battle,
                self.events == old(self).events,
                self.selected == old(self).selected,
                self.snd == old(self).snd,
                dice0 == old(self).dice(),
                n == self.n(),
                i <= lands@.len(),
                forall|t: int|
                    0 <= t < n ==> #[trigger] self.dice()[t] == capped_add(dice0[t], occurrences(lands@.take(i as int), t as usize)),
                forall|t: int| 0 <= t < n ==> #[trigger] occurrences(placed@, t as usize) == self.dice()[t] - dice0[t],
                forall|k: int| 0 <= k < placed@.len() ==> (#[trigger] placed@[k] as int) < n,
                dice_total(self.dice(), n) == dice_total(dice0, n) + placed@.len(),
            decreases lands@.len() - i,
        {
            let t = lands[i];
            let ghost d_before = self.dice();
            let ghost p_before = placed@;
            proof {
                assert forall|x: int| 0 <= x < n implies #[trigger] occurrences(lands@.take(i + 1), x as usize)
                    == occurrences(lands@.take(i as int), x as usize) + if lands@[i as int] == x as usize {
                    1nat
                } else {
                    0nat
                } by {
                    lemma_occurrences_take(lands@, i as int, x as usize);
                }
            }
            if t < self.board.dice.len() && self.board.dice[t] < MAX_DICE {
                proof {
                    lemma_dice_total_inc(d_before, t as int, n);
                    lemma_dice_total_bound(d_before.update(t as int, (d_before[t as int] + 1) as u32), n);
                }
                self.board.dice[t] = self.board.dice[t] + 1;
                placed.push(t);
                proof {
                    assert forall|x: int| 0 <= x < n implies #[trigger] occurrences(placed@, x as usize) == self.dice()[x]
                        - dice0[x] by {
                        lemma_occurrences_push(p_before, t, x as usize);
                    }
                    assert forall|x: int| 0 <= x < self.n() implies #[trigger] self.owners()[x] < self.players by {
                        assert(old(self).owners()[x] < old(self).players);
                    }
                    assert forall|x: int| 0 <= x < self.n() implies #[trigger] self.dice()[x] <= MAX_DICE by {
                        assert(d_before[x] <= MAX_DICE);
                    }
                }
            } else {
                proof {
                    assert forall|x: int| 0 <= x < n implies #[trigger] self.dice()[x] == capped_add(
                        dice0[x],
                        occurrences(lands@.take(i + 1), x as usize),
                    ) by {
                        if x == t as int {
                            assert(d_before[x] >= MAX_DICE);
                        }
                    }
                }
            }
            i = i + 1;
        }
        proof {
            assert(lands@.take(lands@.len() as int) =~= lands@);
            lemma_dice_total_bound(self.dice(), n);
        }
        placed
    }

    /// Guest side: starts the battle the host announced, with plausible
    /// single dice behind the announced totals. Ignored if either land is
    /// not on the map.
    pub fn net_apply_attack(&mut self, a: usize, d: usize, ra: u32, rd: u32, captured: bool)
        requires
            old(self).wf(),
        ensures
            final(self).wf(),
            a >= old(self).n() || d >= old(self).n() ==> *final(self) == *old(self),
            a < old(self).n() && d < old(self).n() ==> {
                &&& final(self).same_setup(old(self))
                &&& final(self).board == old(self).board
                &&& final(self).current == old(self).current
                &&& final(self).reserve == old(self).reserve
                &&& final(self).over == old(self).over
                &&& final(self).selected is None
                &&& final(self).snd@ == old(self).snd@.push(Snd::Roll)
                &&& final(self).events@ == if old(self).recording {
                    old(self).events@.push(RepEvent::Attack { a, d, ra, rd, captured })
                } else {
                    old(self).events@
                }
                &&& final(self).battle matches Some(b) && {
                    &&& b.a == a && b.d == d && b.ra == ra && b.rd == rd && b.captured == captured
                    &&& b.ad@.len() == crate::dice::at_least_one(old(self).dice()[a as int])
                    &&& b.dd@.len() == crate::dice::at_least_one(old(self).dice()[d as int])
                    &&& forall|i: int| 0 <= i < b.ad@.len() ==> 1 <= #[trigger] b.ad@[i] <= 6
                    &&& forall|i: int| 0 <= i < b.dd@.len() ==> 1 <= #[trigger] b.dd@[i] <= 6
                    &&& seq_sum(b.ad@) == crate::dice::clamp_total(ra as int, b.ad@.len() as int)
                    &&& seq_sum(b.dd@) == crate::dice::clamp_total(rd as int, b.dd@.len() as int)
                }
            },
    {
        if a >= self.board.owner.len() || d >= self.board.owner.len() {
            return;
        }
        let ad = split_sum(ra, self.board.dice[a]);
        let dd = split_sum(rd, self.board.dice[d]);
        if self.recording {
            self.events.push(RepEvent::Attack { a, d, ra, rd, captured });
        }
        self.battle = Some(Battle { a, d, ra, rd, ad, dd, captured });
        self.selected = None;
        self.snd.push(Snd::Roll);
        proof {
            assert forall|t: int| 0 <= t < self.n() implies #[trigger] self.owners()[t] < self.players by {
                assert(old(self).owners()[t] < old(self).players);
            }
        }
    }

    /// Guest side, catching up after a reconnect: applies an announced battle
    /// at once. A capture hands the land over with all but one of the
    /// attacker's dice (at least one); the attacking land keeps one die.
    pub fn net_apply_attack_fast(&mut self, a: usize, d: usize, ra: u32, rd: u32, captured: bool)
        requires
            old(self).wf(),
        ensures
            final(self).wf(),
            a >= old(self).n() || d >= old(self).n() ==> *final(self) == *old(self),
            a < old(self).n() && d < old(self).n() ==> {
                &&& final(self).same_setup(old(self))
                &&& final(self).current == old(self).current
                &&& final(self).reserve == old(self).reserve
                &&& final(self).over == old(self).over
                &&& final(self).battle == old(self).battle
                &&& final(self).selected == old(self).selected
                &&& final(self).snd == old(self).snd
                &&& final(self).events@ == if old(self).recording {
                    old(self).events@.push(RepEvent::Attack { a, d, ra, rd, captured })
                } else {
                    old(self).events@
                }
                &&& final(self).owners() == battle_owners(old(self).owners(), a as int, d as int, captured)
                &&& final(self).dice() == caught_up_dice(old(self).dice(), a as int, d as int, captured)
            },
    {
        if a >= self.board.owner.len() || d >= self.board.owner.len() {
            return;
        }
        if self.recording {
            self.events.push(RepEvent::Attack { a, d, ra, rd, captured });
        }
        proof {
            assert(old(self).owners()[a as int] < old(self).players);
            assert(old(self).dice()[a as int] <= MAX_DICE);
        }
        if captured {
            let left: u32 = if self.board.dice[a] <= 1 {
                1
            } else {
                self.board.dice[a] - 1
            };
            self.board.owner[d] = self.board.owner[a];
            self.board.dice[d] = left;
        }
        self.board.dice[a] = 1;
        proof {
            assert forall|t: int| 0 <= t < self.n() implies #[trigger] self.owners()[t] < self.players by {
                assert(old(self).owners()[t] < old(self).players);
            }
            assert forall|t: int| 0 <= t < self.n() implies #[trigger] self.dice()[t] <= MAX_DICE by {
                assert(old(self).dice()[t] <= MAX_DICE);
            }
        }
    }

    /// Guest side: applies the host's reinforcement of `player` onto the
    /// listed lands (skipping lands that do not exist or are full), keeps the
    /// stored-dice count in step with the host's arithmetic, and passes the
    /// turn. Returns how many dice were placed.
    pub fn net_apply_reinforce(&mut self, player: usize, lands: Vec<usize>) -> (placed: u32)
        requires
            old(self).wf(),
            player < old(self).players,
        ensures
            final(self).wf(),
            final(self).same_setup(old(self)),
            final(self).owners() == old(self).owners(),
            final(self).over == old(self).over,
            final(self).battle == old(self).battle,
            forall|t: int|
                0 <= t < old(self).n() ==> #[trigger] final(self).dice()[t] == capped_add(
                    old(self).dice()[t],
                    occurrences(lands@, t as usize),
                ),
            ({
                let due = largest_region_spec(old(self).board.adj(), old(self).owners(), player)
                    + old(self).reserve@[player as int];
                let left = if due >= placed { due - placed } else { 0 };
                final(self).reserve@ == old(self).reserve@.update(
                    player as int,
                    if left < MAX_RESERVE { left as u32 } else { MAX_RESERVE },
                )
            }),
            placed == dice_total(final(self).dice(), old(self).n() as int) - dice_total(old(self).dice(), old(self).n() as int),
            final(self).current == next_turn(old(self).owners(), old(self).n() as int, old(self).players as int, old(self).current as int),
            final(self).selected is None,
            if old(self).recording {
                &&& final(self).events@.len() == old(self).events@.len() + 1
                &&& final(self).events@.drop_last() == old(self).events@
                &&& final(self).events@.last() matches RepEvent::Reinforce { player: pl, lands: l } && pl == player && l@.len() == placed
                    && forall|t: int| 0 <= t < old(self).n() ==> #[trigger] occurrences(l@, t as usize) == final(self).dice()[t] - old(self).dice()[t]
            } else {
                final(self).events@ == old(self).events@
            },
            ({
                let s1 = if player < old(self).humans && placed > 0 {
                    old(self).snd@.push(Snd::Reinforce)
                } else {
                    old(self).snd@
                };
                final(self).snd@ == if final(self).current < final(self).humans {
                    s1.push(Snd::Turn)
                } else {
                    s1
                }
            }),
    {
        let lr = self.largest_region(player);
        let due: u32 = lr + self.reserve[player];
        let placed_list = self.add_dice(&lands);
        let placed = placed_list.len() as u32;
        proof {
            lemma_occ_total_len(placed_list@, old(self).n() as int);
            lemma_dice_growth(old(self).dice(), self.dice(), placed_list@, old(self).n() as int);
        }
        let ghost ev0 = self.events@;
        let ghost dice_now = self.dice();
        if self.recording {
            self.events.push(RepEvent::Reinforce { player, lands: placed_list });
            proof {
                assert(self.events@.drop_last() =~= ev0);
            }
        }
        let left: u32 = if due >= placed {
            due - placed
        } else {
            0
        };
        self.reserve[player] = if left < MAX_RESERVE {
            left
        } else {
            MAX_RESERVE
        };
        if player < self.humans && placed > 0 {
            self.snd.push(Snd::Reinforce);
        }
        proof {
            assert forall|q: int| 0 <= q < self.players implies #[trigger] self.reserve@[q] <= MAX_RESERVE by {
                assert(old(self).reserve@[q] <= MAX_RESERVE);
            }
        }
        self.advance_turn();
        placed
    }

    /// Replay, gif mode: applies a recorded event at once. An attack moves
    /// ownership and dice as a battle does; a reinforcement piles one die per
    /// listed land that has room.
    pub fn replay_instant(&mut self, ev: &RepEvent)
        requires
            old(self).wf(),
            match *ev {
                RepEvent::Attack { a, d, captured, .. } => a < old(self).n() && d < old(self).n() && (captured
                    ==> old(self).dice()[a as int] >= 1),
                RepEvent::Reinforce { lands, .. } => forall|i: int|
                    0 <= i < lands@.len() ==> (#[trigger] lands@[i] as int) < old(self).n(),
            },
        ensures
            final(self).wf(),
            final(self).same_setup(old(self)),
            final(self).current == old(self).current,
            final(self).reserve == old(self).reserve,
            final(self).events == old(self).events,
            final(self).over == old(self).over,
            final(self).battle == old(self).battle,
            match *ev {
                RepEvent::Attack { a, d, captured, .. } => {
                    &&& final(self).owners() == battle_owners(old(self).owners(), a as int, d as int, captured)
                    &&& final(self).dice() == battle_dice(old(self).dice(), a as int, d as int, captured)
                },
                RepEvent::Reinforce { lands, .. } => {
                    &&& final(self).owners() == old(self).owners()
                    &&& forall|t: int|
                        0 <= t < old(self).n() ==> #[trigger] final(self).dice()[t] == capped_add(
                            old(self).dice()[t],
                            occurrences(lands@, t as usize),
                        )
                },
            },
    {
        match ev {
            RepEvent::Attack { a, d, captured, .. } => {
                let a = *a;
                let d = *d;
                proof {
                    assert(old(self).owners()[a as int] < old(self).players);
                    assert(old(self).dice()[a as int] <= MAX_DICE);
                }
                if *captured {
                    self.board.owner[d] = self.board.owner[a];
                    self.board.dice[d] = self.board.dice[a] - 1;
                }
                self.board.dice[a] = 1;
                proof {
                    assert forall|t: int| 0 <= t < self.n() implies #[trigger] self.owners()[t] < self.players by {
                        assert(old(self).owners()[t] < old(self).players);
                    }
                    assert forall|t: int| 0 <= t < self.n() implies #[trigger] self.dice()[t] <= MAX_DICE by {
                        assert(old(self).dice()[t] <= MAX_DICE);
                    }
                }
            },
            RepEvent::Reinforce { lands, .. } => {
                let _ = self.add_dice(lands);
            },
        }
    }

    /// Replay, watch mode: an attack starts its battle animation (plausible
    /// single dice behind the recorded totals); a reinforcement is applied at
    /// once as in `replay_instant`.
    pub fn replay_step(&mut self, ev: &RepEvent)
        requires
            old(self).wf(),
            match *ev {
                RepEvent::Attack { a, d, .. } => a < old(self).n() && d < old(self).n(),
                RepEvent::Reinforce { lands, .. } => forall|i: int|
                    0 <= i < lands@.len() ==> (#[trigger] lands@[i] as int) < old(self).n(),
            },
        ensures
            final(self).wf(),
            final(self).same_setup(old(self)),
            final(self).current == old(self).current,
            final(self).reserve == old(self).reserve,
            final(self).events == old(self).events,
            final(self).over == old(self).over,
            final(self).selected == old(self).selected,
            final(self).owners() == old(self).owners(),
            match *ev {
                RepEvent::Attack { a, d, ra, rd, captured } => {
                    &&& final(self).board == old(self).board
                    &&& final(self).snd@ == old(self).snd@.push(Snd::Roll)
                    &&& final(self).battle matches Some(b) && b.a == a && b.d == d && b.ra == ra && b.rd == rd
                        && b.captured == captured && b.ad@.len() == crate::dice::at_least_one(old(self).dice()[a as int])
                        && b.dd@.len() == crate::dice::at_least_one(old(self).dice()[d as int])
                        && seq_sum(b.ad@) == crate::dice::clamp_total(ra as int, b.ad@.len() as int)
                        && seq_sum(b.dd@) == crate::dice::clamp_total(rd as int, b.dd@.len() as int)
                        && (forall|i: int| 0 <= i < b.ad@.len() ==> 1 <= #[trigger] b.ad@[i] <= 6)
                        && (forall|i: int| 0 <= i < b.dd@.len() ==> 1 <= #[trigger] b.dd@[i] <= 6)
                },
                RepEvent::Reinforce { lands, .. } => {
                    &&& final(self).battle == old(self).battle
                    &&& final(self).snd == old(self).snd
                    &&& forall|t: int|
                        0 <= t < old(self).n() ==> #[trigger] final(self).dice()[t] == capped_add(
                            old(self).dice()[t],
                            occurrences(lands@, t as usize),
                        )
                },
            },
    {
        match ev {
            RepEvent::Attack { a, d, ra, rd, captured } => {
                let ad = split_sum(*ra, self.board.dice[*a]);
                let dd = split_sum(*rd, self.board.dice[*d]);
                self.battle = Some(Battle { a: *a, d: *d, ra: *ra, rd: *rd, ad, dd, captured: *captured });
                self.snd.push(Snd::Roll);
                proof {
                    assert forall|t: int| 0 <= t < self.n() implies #[trigger] self.owners()[t] < self.players by {
                        assert(old(self).owners()[t] < old(self).players);
                    }
                }
            },
            RepEvent::Reinforce { lands, .. } => {
                let _ = self.add_dice(lands);
            },
        }
    }
}


/// A guest catching up after a reconnect (`net_apply_attack_fast`) leaves
/// the dice the battle itself leaves (`apply_battle`, `replay_instant`)
/// whenever the attacking land had more than one die, as in every attack
/// the rules allow.
pub proof fn lemma_caught_up_matches_battle(dice: Seq<u32>, a: int, d: int, captured: bool)
    requires
        0 <= a < dice.len(),
        0 <= d < dice.len(),
        dice[a] > 1,
    ensures
        caught_up_dice(dice, a, d, captured) == battle_dice(dice, a, d, captured),
{
}

/// A recorded reinforcement replays exactly: adding the recorded lands to
/// the dice the turn ended on, with the cap that replays and guests apply
/// (`replay_instant`, `net_apply_reinforce`), gives the dice the live turn
/// (`end_turn`) left, since a live turn never fills a land past the cap.
pub proof fn lemma_reinforcement_replays(before: Match, after: Match, lands: Seq<usize>)
    requires
        before.wf(),
        after.wf(),
        after.n() == before.n(),
        forall|t: int|
            0 <= t < before.n() ==> #[trigger] after.dice()[t] == before.dice()[t] + occurrences(lands, t as usize),
    ensures
        forall|t: int|
            0 <= t < before.n() ==> #[trigger] capped_add(before.dice()[t], occurrences(lands, t as usize))
                == after.dice()[t],
{
    assert forall|t: int| 0 <= t < before.n() implies #[trigger] capped_add(
        before.dice()[t],
        occurrences(lands, t as usize),
    ) == after.dice()[t] by {
        assert(after.board.dice@[t] <= MAX_DICE);
    }
}

/// A guest applying the host's reinforcement (`net_apply_reinforce` on the
/// lands the host's `end_turn` placed) ends with the host's dice and the
/// host's stored dice, when both matches agreed before.
pub proof fn lemma_guest_follows_reinforcement(
    host0: Match,
    host1: Match,
    guest0: Match,
    guest1: Match,
    p: usize,
    lands: Seq<usize>,
    placed: u32,
    stored: u32,
)
    requires
        host0.wf(),
        host1.wf(),
        guest0.wf(),
        guest1.wf(),
        guest0.board == host0.board,
        guest0.reserve@ == host0.reserve@,
        p < host0.players,
        host1.n() == host0.n(),
        guest1.n() == host0.n(),
        ({
            let due = largest_region_spec(host0.board.adj(), host0.owners(), p) + host0.reserve@[p as int];
            let n = host0.n() as int;
            // the host's turn
            &&& lands.len() <= due
            &&& forall|i: int| 0 <= i < lands.len() ==> (#[trigger] lands[i] as int) < n
            &&& forall|t: int| 0 <= t < n ==> #[trigger] host1.dice()[t] == host0.dice()[t] + occurrences(lands, t as usize)
            &&& stored == if due - lands.len() < MAX_RESERVE { (due - lands.len()) as u32 } else { MAX_RESERVE }
            &&& host1.reserve@ == host0.reserve@.update(p as int, stored)
            // the guest's copy of it
            &&& forall|t: int| 0 <= t < n ==> #[trigger] guest1.dice()[t] == capped_add(guest0.dice()[t], occurrences(lands, t as usize))
            &&& placed == dice_total(guest1.dice(), n) - dice_total(guest0.dice(), n)
            &&& {
                let left = if due >= placed { due - placed } else { 0 };
                guest1.reserve@ == guest0.reserve@.update(p as int, if left < MAX_RESERVE { left as u32 } else { MAX_RESERVE })
            }
        }),
    ensures
        guest1.dice() == host1.dice(),
        guest1.reserve@ == host1.reserve@,
{
    let n = host0.n() as int;
    lemma_reinforcement_replays(host0, host1, lands);
    assert(guest1.dice() =~= host1.dice()) by {
        assert forall|t: int| 0 <= t < n implies guest1.dice()[t] == host1.dice()[t] by {
            assert(guest0.dice()[t] == host0.dice()[t]);
            assert(capped_add(host0.dice()[t], occurrences(lands, t as usize)) == host1.dice()[t]);
        }
    }
    assert forall|t: int| 0 <= t < n implies #[trigger] host1.dice()[t] - host0.dice()[t] == occurrences(lands, t as usize) by {
        assert(host1.dice()[t] == host0.dice()[t] + occurrences(lands, t as usize));
    }
    lemma_dice_growth(host0.dice(), host1.dice(), lands, n);
    lemma_occ_total_len(lands, n);
    assert(guest0.dice() == host0.dice());
    assert(placed == lands.len());
}

/// A defensive computer player only attacks with a clear advantage: every
/// option it considers has at least two dice more than the target (four on
/// Easy).
pub proof fn lemma_defensive_needs_advantage(m: Match, a: int, j: int)
    requires
        m.wf(),
        0 <= a < m.n(),
        0 <= j < m.board.adj()[a].len(),
        m.personas@[m.current as int] == Persona::Defensive,
        option_eligible(m, a, j),
    ensures
        option_at(m, a, j).adv >= if m.difficulty == Difficulty::Easy { 4int } else { 2int },
{
    let d = m.board.adj()[a][j];
    assert(m.board.adj()[a].contains(d));
    assert(m.dice()[a] <= MAX_DICE && m.dice()[d as int] <= MAX_DICE);
}

/// Every option in a list of eligible options comes from a land among the
/// first `k` and one of its neighbors, and is that option's record.
proof fn lemma_options_from(m: Match, k: int, i: int)
    requires
        m.wf(),
        0 <= k <= m.n(),
        0 <= i < options_upto(m, k).len(),
    ensures
        exists|a: int, j: int|
            0 <= a < k && 0 <= j < m.board.adj()[a].len() && #[trigger] option_eligible(m, a, j)
                && options_upto(m, k)[i] == option_at(m, a, j),
    decreases k,
{
    let prev = options_upto(m, k - 1);
    let a = k - 1;
    if i < prev.len() {
        lemma_options_from(m, k - 1, i);
        let (a0, j0) = choose|a0: int, j0: int|
            0 <= a0 < k - 1 && 0 <= j0 < m.board.adj()[a0].len() && #[trigger] option_eligible(m, a0, j0)
                && prev[i] == option_at(m, a0, j0);
        assert(options_upto(m, k)[i] == prev[i]);
        assert(option_eligible(m, a0, j0));
    } else {
        lemma_options_of_from(m, a, m.board.adj()[a].len() as int, i - prev.len());
        let j = choose|j: int|
            0 <= j < m.board.adj()[a].len() && #[trigger] option_eligible(m, a, j)
                && options_of(m, a, m.board.adj()[a].len() as int)[i - prev.len()] == option_at(m, a, j);
        assert(options_upto(m, k)[i] == options_of(m, a, m.board.adj()[a].len() as int)[i - prev.len()]);
        assert(option_eligible(m, a, j));
    }
}

proof fn lemma_options_of_from(m: Match, a: int, j: int, i: int)
    requires
        0 <= j <= m.board.adj()[a].len(),
        0 <= i < options_of(m, a, j).len(),
    ensures
        exists|jj: int|
            0 <= jj < m.board.adj()[a].len() && #[trigger] option_eligible(m, a, jj)
                && options_of(m, a, j)[i] == option_at(m, a, jj),
    decreases j,
{
    let prev = options_of(m, a, j - 1);
    if i < prev.len() {
        lemma_options_of_from(m, a, j - 1, i);
        let jj = choose|jj: int|
            0 <= jj < m.board.adj()[a].len() && #[trigger] option_eligible(m, a, jj)
                && prev[i] == option_at(m, a, jj);
        assert(options_of(m, a, j)[i] == prev[i]);
        assert(option_eligible(m, a, jj));
    } else {
        assert(option_eligible(m, a, j - 1));
        assert(options_of(m, a, j)[i] == option_at(m, a, j - 1));
    }
}

/// While the leader holds more than 45% of the map (and not on Easy), the
/// computer players stop wearing each other down and turn on the leader:
/// every option considered at an advantage below two is an attack on a land
/// of the leader.
pub proof fn lemma_runaway_leader_targeted(m: Match, i: int)
    requires
        m.wf(),
        m.difficulty != Difficulty::Easy,
        leader_share_above(m, 9, 20),
        0 <= i < options_upto(m, m.n() as int).len(),
        options_upto(m, m.n() as int)[i].adv < 2,
    ensures
        Some(options_upto(m, m.n() as int)[i].target) == leader_upto(m.owners(), m.n() as int, m.current, m.players as int),
{
    lemma_options_from(m, m.n() as int, i);
    let (a, j) = choose|a: int, j: int|
        0 <= a < m.n() && 0 <= j < m.board.adj()[a].len() && #[trigger] option_eligible(m, a, j)
            && options_upto(m, m.n() as int)[i] == option_at(m, a, j);
    let d = m.board.adj()[a][j];
    assert(m.board.adj()[a].contains(d));
    assert(m.dice()[a] <= MAX_DICE && m.dice()[d as int] <= MAX_DICE);
}

/// An attack on a land of the runaway leader is never dropped on its
/// account: if the current player's land `a` may attack the leader's
/// neighbor at the advantage its personality asks for, the computer logic
/// considers it, however large the leader's share.
pub proof fn lemma_leader_never_spared(m: Match, a: int, j: int)
    requires
        m.wf(),
        0 <= a < m.n(),
        0 <= j < m.board.adj()[a].len(),
        m.owners()[a] == m.current,
        m.dice()[a] >= 2,
        Some(m.owners()[m.board.adj()[a][j] as int]) == leader_upto(m.owners(), m.n() as int, m.current, m.players as int),
        m.dice()[a] - m.dice()[m.board.adj()[a][j] as int] >= spec_min_adv(m.personas@[m.current as int], m.difficulty),
    ensures
        option_eligible(m, a, j),
{
    lemma_leader_not_current(m.owners(), m.n() as int, m.current, m.players as int);
}

proof fn lemma_leader_not_current(owner: Seq<usize>, n: int, cur: usize, k: int)
    ensures
        leader_upto(owner, n, cur, k) != Some(cur),
    decreases k,
{
    if k > 0 {
        lemma_leader_not_current(owner, n, cur, k - 1);
    }
}

/// A click only ever attacks from the selected land a bordering land of
/// someone else; clicking another own land with more than one die while a
/// land is selected moves the selection there.
pub proof fn lemma_click_attacks_only_enemies(m: Match, t: Option<usize>)
    requires
        m.wf(),
        t matches Some(x) ==> x < m.n(),
    ensures
        click_result(m, t) matches ClickOutcome::Attack(a, d) ==> {
            &&& m.selected == Some(a)
            &&& t == Some(d)
            &&& m.owners()[d as int] != m.current
            &&& m.board.adj()[a as int].contains(d)
        },
        (t matches Some(x) && m.owners()[x as int] == m.current) ==> !(click_result(m, t) is Attack),
        (t matches Some(x) && m.selected matches Some(s) && s != x && m.owners()[x as int] == m.current
            && m.dice()[x as int] > 1) ==> click_result(m, t) == ClickOutcome::Selected(t->0),
{
}

/// A click on no land clears the selection; a click on the selected land
/// deselects it; with a land selected, a click on a land of someone else
/// attacks it if it borders the selection and is refused as too far
/// otherwise; with nothing selected, a click on a land of someone else asks
/// to pick an own land first; a click on another own land selects it if it
/// has more than one die and is refused otherwise.
pub proof fn lemma_click_cases(m: Match, t: Option<usize>)
    requires
        m.wf(),
        t matches Some(x) ==> x < m.n(),
    ensures
        t is None ==> click_result(m, t) == ClickOutcome::Cleared,
        (t is Some && m.selected == t) ==> click_result(m, t) == ClickOutcome::Deselected,
        (t matches Some(x) && m.selected matches Some(s) && s != x && m.owners()[x as int] != m.current
            && m.board.adj()[s as int].contains(x)) ==> click_result(m, t) == ClickOutcome::Attack(m.selected->0, t->0),
        (t matches Some(x) && m.selected matches Some(s) && s != x && m.owners()[x as int] != m.current
            && !m.board.adj()[s as int].contains(x)) ==> click_result(m, t) == ClickOutcome::Refused(Hint::TooFar),
        (t matches Some(x) && m.selected is None && m.owners()[x as int] != m.current) ==> click_result(m, t)
            == ClickOutcome::Refused(Hint::EnemyFirst),
        (t matches Some(x) && m.selected != t && m.owners()[x as int] == m.current && m.dice()[x as int] > 1)
            ==> click_result(m, t) == ClickOutcome::Selected(t->0),
        (t matches Some(x) && m.selected != t && m.owners()[x as int] == m.current && m.dice()[x as int] <= 1)
            ==> click_result(m, t) == ClickOutcome::Refused(Hint::OneDie),
{
}

/// While a battle is under way, after the game, or out of turn, the host
/// ignores every request; an attack it grants is a legal one of the seat
/// whose turn it is.
pub proof fn lemma_requests_wait_for_battle(m: Match, seat: usize, i: Intent)
    requires
        m.wf(),
    ensures
        m.battle is Some ==> intent_ruling(m, seat, i) == IntentAction::Ignore,
        m.over is Some ==> intent_ruling(m, seat, i) == IntentAction::Ignore,
        seat != m.current ==> intent_ruling(m, seat, i) == IntentAction::Ignore,
        (m.battle is None && m.over is None && seat == m.current && i == Intent::EndTurn) ==> intent_ruling(m, seat, i)
            == IntentAction::EndTurn,
        (i matches Intent::Attack(Some(a), Some(d)) && m.battle is None && m.over is None && seat == m.current
            && a < m.n() && d < m.n() && m.owners()[a as int] == seat && m.dice()[a as int] > 1 && m.owners()[d as int]
            != seat && m.board.adj()[a as int].contains(d)) ==> intent_ruling(m, seat, i) == IntentAction::Attack(
            i->Attack_0->0,
            i->Attack_1->0,
        ),
        intent_ruling(m, seat, i) == IntentAction::EndTurn ==> i == Intent::EndTurn,
        intent_ruling(m, seat, i) matches IntentAction::Attack(a, d) ==> {
            &&& i == Intent::Attack(Some(a), Some(d))
            &&& a < m.n() && d < m.n()
            &&& m.owners()[a as int] == seat
            &&& m.dice()[a as int] > 1
            &&& m.owners()[d as int] != seat
            &&& m.board.adj()[a as int].contains(d)
        },
{
}

/// Every option the computer logic considers is a real attack of the current
/// player, recorded with its true numbers: from a land of theirs with two
/// dice or more on a bordering land of someone else, never at a loss. The
/// margin it needs: on Easy two dice for an aggressive player, four for a
/// defensive one and three for the others; otherwise none for an aggressive
/// player, two for a defensive one and one for the others, who only risk an
/// even fight on Hard from a land of six dice or more.
pub proof fn lemma_options_exact(m: Match, i: int)
    requires
        m.wf(),
        0 <= i < options_upto(m, m.n() as int).len(),
    ensures
        ({
            let o = options_upto(m, m.n() as int)[i];
            let persona = m.personas@[m.current as int];
            &&& o.a < m.n() && o.d < m.n()
            &&& m.board.adj()[o.a as int].contains(o.d)
            &&& m.owners()[o.a as int] == m.current
            &&& m.dice()[o.a as int] >= 2
            &&& o.a_dice == m.dice()[o.a as int]
            &&& o.target == m.owners()[o.d as int]
            &&& o.target != m.current
            &&& o.adv == m.dice()[o.a as int] - m.dice()[o.d as int]
            &&& o.adv >= 0
            &&& m.difficulty == Difficulty::Easy ==> o.adv >= (match persona {
                Persona::Aggressive => 2int,
                Persona::Defensive => 4int,
                _ => 3int,
            })
            &&& m.difficulty != Difficulty::Easy ==> o.adv >= (match persona {
                Persona::Aggressive => 0int,
                Persona::Defensive => 2int,
                _ => 1int,
            }) || (o.adv == 0 && persona != Persona::Defensive && (o.a_dice == MAX_DICE || (m.difficulty
                == Difficulty::Hard && o.a_dice >= 6)) && (persona == Persona::Aggressive || m.difficulty
                == Difficulty::Hard))
        }),
{
    lemma_options_from(m, m.n() as int, i);
    let (a, j) = choose|a: int, j: int|
        0 <= a < m.n() && 0 <= j < m.board.adj()[a].len() && #[trigger] option_eligible(m, a, j)
            && options_upto(m, m.n() as int)[i] == option_at(m, a, j);
    let d = m.board.adj()[a][j];
    assert(m.board.adj()[a].contains(d));
    assert(crate::graph::graph_wf(m.board.adj()));
    assert(d < m.n());
    assert(m.dice()[a] <= MAX_DICE && m.dice()[d as int] <= MAX_DICE);
}

proof fn lemma_options_of_has(m: Match, a: int, j: int, jj: int)
    requires
        0 <= jj < j <= m.board.adj()[a].len(),
        option_eligible(m, a, jj),
    ensures
        options_of(m, a, j).contains(option_at(m, a, jj)),
    decreases j,
{
    if jj < j - 1 {
        lemma_options_of_has(m, a, j - 1, jj);
        let prev = options_of(m, a, j - 1);
        let k = choose|k: int| 0 <= k < prev.len() && prev[k] == option_at(m, a, jj);
        assert(options_of(m, a, j)[k] == prev[k]);
    } else {
        let prev = options_of(m, a, j - 1);
        assert(options_of(m, a, j)[prev.len() as int] == option_at(m, a, jj));
    }
}

proof fn lemma_options_upto_has(m: Match, k: int, a: int, jj: int)
    requires
        0 <= a < k <= m.n(),
        0 <= jj < m.board.adj()[a].len(),
        option_eligible(m, a, jj),
    ensures
        options_upto(m, k).contains(option_at(m, a, jj)),
    decreases k,
{
    let prev = options_upto(m, k - 1);
    if a < k - 1 {
        lemma_options_upto_has(m, k - 1, a, jj);
        let x = choose|x: int| 0 <= x < prev.len() && prev[x] == option_at(m, a, jj);
        assert(options_upto(m, k)[x] == prev[x]);
    } else {
        lemma_options_of_has(m, a, m.board.adj()[a].len() as int, jj);
        let ofs = options_of(m, a, m.board.adj()[a].len() as int);
        let x = choose|x: int| 0 <= x < ofs.len() && ofs[x] == option_at(m, a, jj);
        assert(options_upto(m, k)[prev.len() + x] == ofs[x]);
    }
}

/// No attack the rules leave open to the computer player is missed: from a
/// land of the current player with two dice or more on a bordering land of
/// someone else, at the margin its personality asks for, the attack is
/// among the options, unless the leader holds more than 45% of the map (not
/// on Easy), the margin is below two and the target is not the leader's.
pub proof fn lemma_options_complete(m: Match, a: int, j: int)
    requires
        m.wf(),
        0 <= a < m.n(),
        0 <= j < m.board.adj()[a].len(),
        m.owners()[a] == m.current,
        m.dice()[a] >= 2,
        m.owners()[m.board.adj()[a][j] as int] != m.current,
        m.dice()[a] - m.dice()[m.board.adj()[a][j] as int] >= spec_min_adv(m.personas@[m.current as int], m.difficulty),
        m.difficulty == Difficulty::Easy || !leader_share_above(m, 9, 20) || m.dice()[a] - m.dice()[m.board.adj()[a][j] as int]
            >= 2 || Some(m.owners()[m.board.adj()[a][j] as int]) == leader_upto(m.owners(), m.n() as int, m.current, m.players as int),
    ensures
        options_upto(m, m.n() as int).contains(option_at(m, a, j)),
        option_at(m, a, j).a == a && option_at(m, a, j).d == m.board.adj()[a][j],
{
    assert(option_eligible(m, a, j));
    lemma_options_upto_has(m, m.n() as int, a, j);
}

/// Only the selection and the sound queue changed.
pub open spec fn only_selection(before: Match, after: Match, sel: Option<usize>, snd: Seq<Snd>) -> bool {
    &&& after.same_setup(&before)
    &&& after.board == before.board
    &&& after.current == before.current
    &&& after.reserve == before.reserve
    &&& after.over == before.over
    &&& after.battle == before.battle
    &&& after.events == before.events
    &&& after.selected == sel
    &&& after.snd@ == snd
}

/// What a click on land `t` (or on no land) means in this state.
pub open spec fn click_result(m: Match, t: Option<usize>) -> ClickOutcome {
    match t {
        None => ClickOutcome::Cleared,
        Some(x) => {
            let mine = m.owners()[x as int] == m.current;
            let can_attack = m.dice()[x as int] > 1;
            match m.selected {
                Some(s) => if s == x {
                    ClickOutcome::Deselected
                } else if !mine {
                    if m.board.adj()[s as int].contains(x) {
                        ClickOutcome::Attack(s, x)
                    } else {
                        ClickOutcome::Refused(Hint::TooFar)
                    }
                } else if can_attack {
                    ClickOutcome::Selected(x)
                } else {
                    ClickOutcome::Refused(Hint::OneDie)
                },
                None => if !mine {
                    ClickOutcome::Refused(Hint::EnemyFirst)
                } else if can_attack {
                    ClickOutcome::Selected(x)
                } else {
                    ClickOutcome::Refused(Hint::OneDie)
                },
            }
        },
    }
}

/// A guest's request, as read off the wire.
#[derive(Clone, Copy, PartialEq, Eq, Structural, Debug)]
pub enum Intent {
    /// attack from the first land on the second; a field that did not parse is `None`
    Attack(Option<usize>, Option<usize>),
    EndTurn,
    Unknown,
}

/// What the host does with a guest's request.
#[derive(Clone, Copy, PartialEq, Eq, Structural, Debug)]
pub enum IntentAction {
    Ignore,
    Attack(usize, usize),
    EndTurn,
}

/// Seat `seat` may attack `d` from `a`: both lands exist, `a` is theirs with
/// more than one die, `d` is not theirs and borders `a`.
pub open spec fn attack_legal(m: Match, seat: usize, a: usize, d: usize) -> bool {
    &&& a < m.n()
    &&& d < m.n()
    &&& m.owners()[a as int] == seat
    &&& m.dice()[a as int] > 1
    &&& m.owners()[d as int] != seat
    &&& m.board.adj()[a as int].contains(d)
}

/// The host's ruling on a request from `seat`: nothing happens during a
/// battle, after the game, or out of turn.
pub open spec fn intent_ruling(m: Match, seat: usize, i: Intent) -> IntentAction {
    if m.battle is Some || m.over is Some || m.current != seat {
        IntentAction::Ignore
    } else {
        match i {
            Intent::Attack(Some(a), Some(d)) => if attack_legal(m, seat, a, d) {
                IntentAction::Attack(a, d)
            } else {
                IntentAction::Ignore
            },
            Intent::EndTurn => IntentAction::EndTurn,
            _ => IntentAction::Ignore,
        }
    }
}

/// The strongest other player still on the map: the one owning most lands,
/// the later seat on a tie; `None` if nobody else is left.
pub open spec fn leader_upto(owner: Seq<usize>, n: int, cur: usize, k: int) -> Option<usize>
    decreases k,
{
    if k <= 0 {
        None
    } else {
        let prev = leader_upto(owner, n, cur, k - 1);
        let p = (k - 1) as usize;
        let c = count_owned(owner, p, n);
        if p != cur && c > 0 {
            match prev {
                None => Some(p),
                Some(q) => if c >= count_owned(owner, q, n) {
                    Some(p)
                } else {
                    prev
                },
            }
        } else {
            prev
        }
    }
}

/// The leader owns strictly more than `num / den` of the map.
pub open spec fn leader_share_above(m: Match, num: int, den: int) -> bool {
    match leader_upto(m.owners(), m.n() as int, m.current, m.players as int) {
        Some(q) => count_owned(m.owners(), q, m.n() as int) * den > num * m.n(),
        None => false,
    }
}

/// A computer player with these dice may gamble on an even fight; a
/// defensive one never does (it only attacks with a clear advantage).
pub open spec fn may_risk_even(persona: Persona, difficulty: Difficulty, a_dice: u32) -> bool {
    &&& difficulty != Difficulty::Easy
    &&& persona != Persona::Defensive
    &&& (a_dice == MAX_DICE || (difficulty == Difficulty::Hard && a_dice >= 6))
    &&& (persona == Persona::Aggressive || difficulty == Difficulty::Hard)
}

/// Whether the current player's computer logic considers attacking from `a`
/// on its `j`-th neighbor: `a` is theirs with two dice or more, the target is
/// an enemy, the dice advantage is enough for the personality (or an even
/// fight it may gamble on), and, while the leader holds more than 45% of the
/// map, only the leader is attacked at an advantage below two (except on Easy).
pub open spec fn option_eligible(m: Match, a: int, j: int) -> bool {
    let cur = m.current;
    let adj = m.board.adj();
    let d = adj[a][j];
    let adv = m.dice()[a] - m.dice()[d as int];
    let persona = m.personas@[cur as int];
    let leader = leader_upto(m.owners(), m.n() as int, cur, m.players as int);
    &&& m.owners()[a] == cur
    &&& m.dice()[a] >= 2
    &&& m.owners()[d as int] != cur
    &&& (adv >= spec_min_adv(persona, m.difficulty) || (adv == 0 && may_risk_even(persona, m.difficulty, m.dice()[a])))
    &&& !(leader_share_above(m, 9, 20) && Some(m.owners()[d as int]) != leader && adv < 2 && m.difficulty != Difficulty::Easy)
}

/// The option record for the `j`-th neighbor of `a`.
pub open spec fn option_at(m: Match, a: int, j: int) -> AttackOption {
    let adj = m.board.adj();
    let d = adj[a][j];
    AttackOption {
        a: a as usize,
        d,
        slot: j as usize,
        adv: (m.dice()[a] - m.dice()[d as int]) as i32,
        a_dice: m.dice()[a],
        target: m.owners()[d as int],
        backup: nb_owned(adj, m.owners(), m.current, a, adj[a].len() as int) as usize,
        friends: nb_owned(adj, m.owners(), m.current, d as int, adj[d as int].len() as int) as usize,
    }
}

/// Eligible options from `a`, over its first `j` neighbors.
pub open spec fn options_of(m: Match, a: int, j: int) -> Seq<AttackOption>
    decreases j,
{
    if j <= 0 {
        Seq::empty()
    } else {
        options_of(m, a, j - 1) + if option_eligible(m, a, j - 1) {
            seq![option_at(m, a, j - 1)]
        } else {
            Seq::empty()
        }
    }
}

/// Eligible options from the first `k` lands, land by land.
pub open spec fn options_upto(m: Match, k: int) -> Seq<AttackOption>
    decreases k,
{
    if k <= 0 {
        Seq::empty()
    } else {
        options_upto(m, k - 1) + options_of(m, k - 1, m.board.adj()[k - 1].len() as int)
    }
}

/// A match stays well formed when only its selection (kept on the map) or
/// its sound queue changed.
proof fn lemma_wf_kept(a: &Match, b: &Match)
    requires
        a.wf(),
        b.board == a.board,
        b.players == a.players,
        b.humans == a.humans,
        b.personas == a.personas,
        b.reserve == a.reserve,
        b.current == a.current,
        b.battle == a.battle,
        b.selected matches Some(s) ==> s < a.n(),
    ensures
        b.wf(),
{
    assert forall|t: int| 0 <= t < b.n() implies #[trigger] b.owners()[t] < b.players by {
        assert(a.owners()[t] < a.players);
    }
    assert forall|p: int| 0 <= p < b.players implies #[trigger] b.reserve@[p] <= MAX_RESERVE by {
        assert(a.reserve@[p] <= MAX_RESERVE);
    }
}

impl Match {
    /// Whether land `t` is among the neighbors of land `a`.
    fn borders(&self, a: usize, t: usize) -> (b: bool)
        requires
            self.wf(),
            a < self.n(),
        ensures
            b == self.board.adj()[a as int].contains(t),
    {
        let row = &self.board.neighbors[a];
        let mut j: usize = 0;
        while j < row.len()
            invariant
                self.wf(),
                a < self.n(),
                row@ == self.board.adj()[a as int],
                j <= row@.len(),
                forall|i: int| 0 <= i < j ==> row@[i] != t,
            decreases row@.len() - j,
        {
            if row[j] == t {
                return true;
            }
            j = j + 1;
        }
        false
    }

    /// A click on the map during the player's own turn: `t` is the land under
    /// the pointer, if any. Clicking nothing clears the selection, clicking
    /// the selected land deselects it, clicking an enemy neighbor of the
    /// selected land attacks it (a guest only clears the selection and sends
    /// the request), clicking an own land with more than one die selects it;
    /// anything else is refused with a hint and the selection stays.
    pub fn click_land(&mut self, t: Option<usize>) -> (r: ClickOutcome)
        requires
            old(self).wf(),
            t matches Some(x) ==> x < old(self).n(),
        ensures
            final(self).wf(),
            r == click_result(*old(self), t),
            match r {
                ClickOutcome::Cleared => only_selection(*old(self), *final(self), None, old(self).snd@),
                ClickOutcome::Deselected => only_selection(*old(self), *final(self), None, old(self).snd@.push(Snd::Click)),
                ClickOutcome::Selected(x) => only_selection(*old(self), *final(self), Some(x), old(self).snd@.push(Snd::Select)),
                ClickOutcome::Refused(_) => only_selection(
                    *old(self),
                    *final(self),
                    old(self).selected,
                    old(self).snd@.push(Snd::Invalid),
                ),
                ClickOutcome::Attack(a, d) => if old(self).net_guest {
                    only_selection(*old(self), *final(self), None, old(self).snd@)
                } else {
                    attack_begun(*old(self), *final(self), a, d)
                },
            },
    {
        let x = match t {
            None => {
                self.selected = None;
                proof {
                    lemma_wf_kept(&*old(self), &*self);
                }
                return ClickOutcome::Cleared;
            },
            Some(x) => x,
        };
        let mine = self.board.owner[x] == self.current;
        let can_attack = self.board.dice[x] > 1;
        let r = match self.selected {
            Some(s) => {
                if s == x {
                    self.selected = None;
                    self.snd.push(Snd::Click);
                    ClickOutcome::Deselected
                } else if !mine {
                    if self.borders(s, x) {
                        if self.net_guest {
                            self.selected = None;
                        } else {
                            self.begin_attack(s, x);
                        }
                        ClickOutcome::Attack(s, x)
                    } else {
                        self.snd.push(Snd::Invalid);
                        ClickOutcome::Refused(Hint::TooFar)
                    }
                } else if can_attack {
                    self.selected = Some(x);
                    self.snd.push(Snd::Select);
                    ClickOutcome::Selected(x)
                } else {
                    self.snd.push(Snd::Invalid);
                    ClickOutcome::Refused(Hint::OneDie)
                }
            },
            None => {
                if !mine {
                    self.snd.push(Snd::Invalid);
                    ClickOutcome::Refused(Hint::EnemyFirst)
                } else if can_attack {
                    self.selected = Some(x);
                    self.snd.push(Snd::Select);
                    ClickOutcome::Selected(x)
                } else {
                    self.snd.push(Snd::Invalid);
                    ClickOutcome::Refused(Hint::OneDie)
                }
            },
        };
        proof {
            if !(r matches ClickOutcome::Attack(_, _)) || old(self).net_guest {
                lemma_wf_kept(&*old(self), &*self);
            }
        }
        r
    }

    /// The host's ruling on a request that arrived from seat `seat`.
    pub fn judge_intent(&self, seat: usize, i: Intent) -> (act: IntentAction)
        requires
            self.wf(),
        ensures
            act == intent_ruling(*self, seat, i),
    {
        if self.battle.is_some() || self.over.is_some() || self.current != seat {
            return IntentAction::Ignore;
        }
        match i {
            Intent::Attack(Some(a), Some(d)) => {
                if a < self.board.owner.len() && d < self.board.owner.len() && self.board.owner[a] == seat
                    && self.board.dice[a] > 1 && self.board.owner[d] != seat && self.borders(a, d) {
                    IntentAction::Attack(a, d)
                } else {
                    IntentAction::Ignore
                }
            },
            Intent::EndTurn => IntentAction::EndTurn,
            _ => IntentAction::Ignore,
        }
    }

    /// The other player, still on the map, who owns most lands (the later
    /// seat on a tie), seen from the current player.
    pub fn leader(&self) -> (l: Option<usize>)
        requires
            self.wf(),
        ensures
            l == leader_upto(self.owners(), self.n() as int, self.current, self.players as int),
            l matches Some(q) ==> q < self.players && q != self.current,
    {
        let n = self.board.owner.len();
        let mut best: Option<usize> = None;
        let mut best_c: usize = 0;
        let mut p: usize = 0;
        while p < self.players
            invariant
                self.wf(),
                n == self.n(),
                p <= self.players,
                best == leader_upto(self.owners(), n as int, self.current, p as int),
                best matches Some(q) ==> q < p && q != self.current && best_c == count_owned(self.owners(), q, n as int),
            decreases self.players - p,
        {
            let c = self.count(p);
            if p != self.current && c > 0 {
                match best {
                    None => {
                        best = Some(p);
                        best_c = c;
                    },
                    Some(q) => {
                        if c >= best_c {
                            best = Some(p);
                            best_c = c;
                        }
                    },
                }
            }
            p = p + 1;
        }
        best
    }

    /// Number of neighbors of `t` owned by `p`.
    fn owned_neighbors(&self, t: usize, p: usize) -> (c: usize)
        requires
            self.wf(),
            t < self.n(),
        ensures
            c == nb_owned(self.board.adj(), self.owners(), p, t as int, self.board.adj()[t as int].len() as int),
            c <= self.board.adj()[t as int].len(),
    {
        let row = &self.board.neighbors[t];
        let mut c: usize = 0;
        let mut j: usize = 0;
        while j < row.len()
            invariant
                self.wf(),
                t < self.n(),
                row@ == self.board.adj()[t as int],
                j <= row@.len(),
                c <= j,
                c == nb_owned(self.board.adj(), self.owners(), p, t as int, j as int),
            decreases row@.len() - j,
        {
            let u = row[j];
            proof {
                assert(self.board.adj()[t as int][j as int] == u);
            }
            if self.board.owner[u] == p {
                c = c + 1;
            }
            j = j + 1;
        }
        c
    }
}


impl Match {
    /// Least dice advantage the current player's personality attacks with.
    fn min_advantage(&self) -> (m: i32)
        requires
            self.wf(),
        ensures
            m == spec_min_adv(self.personas@[self.current as int], self.difficulty),
    {
        let base: i32 = match self.personas[self.current] {
            Persona::Aggressive => 0,
            Persona::Defensive => 2,
            _ => 1,
        };
        if self.difficulty == Difficulty::Easy {
            base + 2
        } else {
            base
        }
    }

    /// Every attack the current player's computer logic considers, land by
    /// land and neighbor by neighbor, with the numbers its scoring reads.
    pub fn attack_options(&self) -> (v: Vec<AttackOption>)
        requires
            self.wf(),
        ensures
            v@ == options_upto(*self, self.n() as int),
    {
        let n = self.board.owner.len();
        let cur = self.current;
        let persona = self.personas[cur];
        let min_adv = self.min_advantage();
        let leader = self.leader();
        let share_high = match leader {
            Some(q) => self.count(q) * 20 > 9 * n,
            None => false,
        };
        let hard = self.difficulty == Difficulty::Hard;
        let easy = self.difficulty == Difficulty::Easy;
        let mut v: Vec<AttackOption> = Vec::new();
        let mut a: usize = 0;
        while a < n
            invariant
                self.wf(),
                n == self.n(),
                cur == self.current,
                persona == self.personas@[cur as int],
                min_adv == spec_min_adv(persona, self.difficulty),
                leader == leader_upto(self.owners(), n as int, cur, self.players as int),
                share_high == leader_share_above(*self, 9, 20),
                hard == (self.difficulty == Difficulty::Hard),
                easy == (self.difficulty == Difficulty::Easy),
                a <= n,
                v@ == options_upto(*self, a as int),
            decreases n - a,
        {
            let row = &self.board.neighbors[a];
            let mut j: usize = 0;
            while j < row.len()
                invariant
                    self.wf(),
                    n == self.n(),
                    a < n,
                    cur == self.current,
                    persona == self.personas@[cur as int],
                    min_adv == spec_min_adv(persona, self.difficulty),
                    leader == leader_upto(self.owners(), n as int, cur, self.players as int),
                    share_high == leader_share_above(*self, 9, 20),
                    hard == (self.difficulty == Difficulty::Hard),
                    easy == (self.difficulty == Difficulty::Easy),
                    row@ == self.board.adj()[a as int],
                    j <= row@.len(),
                    v@ == options_upto(*self, a as int) + options_of(*self, a as int, j as int),
                decreases row@.len() - j,
            {
                let d = row[j];
                proof {
                    assert(self.board.adj()[a as int][j as int] == d);
                    assert(self.dice()[a as int] <= MAX_DICE);
                    assert(self.dice()[d as int] <= MAX_DICE);
                }
                let a_dice = self.board.dice[a];
                let adv: i32 = a_dice as i32 - self.board.dice[d] as i32;
                let risk_even = !easy && persona != Persona::Defensive && (a_dice == MAX_DICE || (hard && a_dice
                    >= 6)) && (persona == Persona::Aggressive || hard);
                let keep_off = share_high && Some(self.board.owner[d]) != leader && adv < 2 && !easy;
                let eligible = self.board.owner[a] == cur && a_dice >= 2 && self.board.owner[d] != cur && (adv
                    >= min_adv || (adv == 0 && risk_even)) && !keep_off;
                let ghost before = v@;
                if eligible {
                    let backup = self.owned_neighbors(a, cur);
                    let friends = self.owned_neighbors(d, cur);
                    let opt = AttackOption {
                        a,
                        d,
                        slot: j,
                        adv,
                        a_dice,
                        target: self.board.owner[d],
                        backup,
                        friends,
                    };
                    v.push(opt);
                    proof {
                        assert(option_eligible(*self, a as int, j as int));
                        assert(opt == option_at(*self, a as int, j as int));
                        assert(v@ =~= options_upto(*self, a as int) + options_of(*self, a as int, j + 1));
                    }
                } else {
                    proof {
                        assert(!option_eligible(*self, a as int, j as int));
                        assert(v@ =~= options_upto(*self, a as int) + options_of(*self, a as int, j + 1));
                    }
                }
                j = j + 1;
            }
            proof {
                assert(options_upto(*self, a + 1) == options_upto(*self, a as int) + options_of(
                    *self,
                    a as int,
                    self.board.adj()[a as int].len() as int,
                ));
                assert(v@ =~= options_upto(*self, a + 1));
            }
            a = a + 1;
        }
        v
    }
}

} // verus!
