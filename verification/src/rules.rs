//! Constants and small vocabularies shared by the map generator and the game.
use vstd::prelude::*;

verus! {

pub const MAX_PLAYERS: usize = 8;

/// Regions grown on the grid before holes are cut.
pub const N_SEEDS: usize = 60;

/// Regions removed for lakes and ragged coasts (at least).
pub const N_HOLES: usize = 9;

/// Most dice a land can hold.
pub const MAX_DICE: u32 = 8;

/// Player 0, the local human.
pub const HUMAN: usize = 0;

/// Cap on the reinforcements a player can keep in store.
pub const MAX_RESERVE: u32 = 64;

/// Seeds are 8 decimal digits.
pub const SEED_MOD: u64 = 100_000_000;

#[derive(Clone, Copy, PartialEq, Eq, Structural, Debug)]
pub enum Difficulty {
    Easy,
    Normal,
    Hard,
}

#[derive(Clone, Copy, PartialEq, Eq, Structural, Debug)]
pub enum Persona {
    /// attacks on any non-losing odds
    Aggressive,
    /// only attacks with a clear advantage
    Defensive,
    /// loves conquests that consolidate its own region
    Greedy,
    /// schemes against whoever is winning
    Balancer,
    /// unpredictable
    Chaotic,
}

/// Sound events, queued by the rules and played by the front end.
#[derive(Clone, Copy, PartialEq, Eq, Structural, Debug)]
pub enum Snd {
    Click,
    Select,
    Invalid,
    Roll,
    Capture,
    Repel,
    Reinforce,
    Turn,
    Eliminated,
    Win,
    Lose,
}

pub open spec fn spec_diff_idx(d: Difficulty) -> usize {
    match d {
        Difficulty::Easy => 0,
        Difficulty::Normal => 1,
        Difficulty::Hard => 2,
    }
}

/// Wire number of a difficulty.
pub fn diff_idx(d: Difficulty) -> (i: usize)
    ensures
        i == spec_diff_idx(d),
{
    match d {
        Difficulty::Easy => 0,
        Difficulty::Normal => 1,
        Difficulty::Hard => 2,
    }
}

pub open spec fn spec_idx_diff(i: usize) -> Difficulty {
    if i == 0 {
        Difficulty::Easy
    } else if i == 2 {
        Difficulty::Hard
    } else {
        Difficulty::Normal
    }
}

/// Difficulty for a wire number; unknown numbers mean Normal.
pub fn idx_diff(i: usize) -> (d: Difficulty)
    ensures
        d == spec_idx_diff(i),
{
    match i {
        0 => Difficulty::Easy,
        2 => Difficulty::Hard,
        _ => Difficulty::Normal,
    }
}

/// Decoding the wire number of a difficulty gives it back.
pub proof fn lemma_diff_round_trip(d: Difficulty)
    ensures
        spec_idx_diff(spec_diff_idx(d)) == d,
{
}

pub open spec fn spec_color_map(human_color: usize, p: usize) -> usize {
    if p == HUMAN {
        human_color
    } else if p == human_color {
        0
    } else {
        p
    }
}

/// Palette slot of player `p` when the human picked slot `human_color`: the
/// human and the owner of that slot trade places. The map is dealt with the
/// same trade of lands (`board::take_color`), so each land keeps its slot
/// and the human plays the lands of the color picked.
pub fn color_map(human_color: usize, p: usize) -> (c: usize)
    ensures
        c == spec_color_map(human_color, p),
{
    if p == HUMAN {
        human_color
    } else if p == human_color {
        0
    } else {
        p
    }
}

/// The color swap is its own inverse, so no two players share a slot.
pub proof fn lemma_color_map_involution(human_color: usize, p: usize)
    ensures
        spec_color_map(human_color, spec_color_map(human_color, p)) == p,
{
}

/// How a player is named on screen.
#[derive(Clone, Copy, PartialEq, Eq, Structural, Debug)]
pub enum PlayerName {
    /// the single local human
    You,
    /// hotseat/network human number k (P1, P2, ...)
    Label(usize),
    /// a computer player, named after its palette color
    Color(usize),
}

pub open spec fn spec_player_name(human_color: usize, humans: usize, p: usize) -> PlayerName {
    if p < humans {
        if humans == 1 {
            PlayerName::You
        } else {
            PlayerName::Label(p)
        }
    } else {
        PlayerName::Color(spec_color_map(human_color, p))
    }
}

/// Name of player `p`, given the human's color slot and how many humans play.
pub fn player_name(human_color: usize, humans: usize, p: usize) -> (n: PlayerName)
    ensures
        n == spec_player_name(human_color, humans, p),
{
    if p < humans {
        if humans == 1 {
            PlayerName::You
        } else {
            PlayerName::Label(p)
        }
    } else {
        PlayerName::Color(color_map(human_color, p))
    }
}

} // verus!
