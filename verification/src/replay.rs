//! Replaying a finished game: the map is generated again from its seed and
//! the recorded events are applied one by one.
use vstd::prelude::*;
use crate::game::{Match, RepEvent};
use crate::rules::MAX_DICE;

verus! {

/// Whether `ev` can be applied to `m`: its lands are on the map, and a
/// capturing attack comes from a land with a die to move.
pub open spec fn event_fits(m: Match, ev: RepEvent) -> bool {
    match ev {
        RepEvent::Attack { a, d, captured, .. } => a < m.n() && d < m.n() && (captured ==> m.dice()[a as int] >= 1),
        RepEvent::Reinforce { lands, .. } => forall|i: int| 0 <= i < lands@.len() ==> (#[trigger] lands@[i] as int) < m.n(),
    }
}

/// A replay in progress.
pub struct Replay {
    pub g: Match,
    pub events: Vec<RepEvent>,
    /// the next event to apply
    pub idx: usize,
}

impl Replay {
    pub open spec fn wf(&self) -> bool {
        &&& self.g.wf()
        &&& self.idx <= self.events@.len()
    }

    /// A replay of `events` on `g`, the match regenerated from the seed
    /// (which then records nothing itself).
    pub fn new(g: Match, events: Vec<RepEvent>) -> (r: Replay)
        requires
            g.wf(),
        ensures
            r.wf(),
            r.idx == 0,
            r.events@ == events@,
            r.g == (Match { recording: false, ..g }),
    {
        let ghost g0 = g;
        let mut g = g;
        g.recording = false;
        proof {
            assert forall|t: int| 0 <= t < g.n() implies #[trigger] g.owners()[t] < g.players by {
                assert(g0.owners()[t] < g0.players);
            }
            assert forall|p: int| 0 <= p < g.players implies #[trigger] g.reserve@[p] <= crate::rules::MAX_RESERVE by {
                assert(g0.reserve@[p] <= crate::rules::MAX_RESERVE);
            }
        }
        Replay { g, events, idx: 0 }
    }

    /// Every event applied and no battle left on screen.
    pub fn finished(&self) -> (b: bool)
        ensures
            b == (self.idx >= self.events@.len() && self.g.battle is None),
    {
        self.idx >= self.events.len() && self.g.battle.is_none()
    }

    /// Nothing to start now: a battle is on screen or no event is left.
    pub fn waiting(&self) -> (b: bool)
        ensures
            b == (self.g.battle is Some || self.idx >= self.events@.len()),
    {
        self.g.battle.is_some() || self.idx >= self.events.len()
    }

    /// Whether the next event, if any, can be applied to the map as it is.
    pub fn next_fits(&self) -> (b: bool)
        requires
            self.wf(),
        ensures
            b == (self.idx < self.events@.len() ==> event_fits(self.g, self.events@[self.idx as int])),
    {
        if self.idx >= self.events.len() {
            return true;
        }
        let ev = &self.events[self.idx];
        match ev {
            RepEvent::Attack { a, d, captured, .. } => {
                *a < self.g.board.owner.len() && *d < self.g.board.owner.len() && (!*captured || self.g.board.dice[*a]
                    >= 1)
            },
            RepEvent::Reinforce { lands, .. } => {
                let mut i: usize = 0;
                while i < lands.len()
                    invariant
                        self.wf(),
                        self.idx < self.events@.len(),
                        *ev == self.events@[self.idx as int],
                        *ev matches RepEvent::Reinforce { lands: l, .. } && l@ == lands@,
                        i <= lands@.len(),
                        forall|k: int| 0 <= k < i ==> (#[trigger] lands@[k] as int) < self.g.n(),
                    decreases lands@.len() - i,
                {
                    if lands[i] >= self.g.board.owner.len() {
                        proof {
                            assert(lands@[i as int] as int >= self.g.n());
                        }
                        return false;
                    }
                    i = i + 1;
                }
                true
            },
        }
    }

    /// Gif mode: applies the next event at once (nothing when none is left).
    pub fn apply_instant(&mut self)
        requires
            old(self).wf(),
            old(self).idx < old(self).events@.len() ==> event_fits(old(self).g, old(self).events@[old(self).idx as int]),
        ensures
            final(self).wf(),
            final(self).events == old(self).events,
            old(self).idx >= old(self).events@.len() ==> *final(self) == *old(self),
            old(self).idx < old(self).events@.len() ==> (final(self).g.owners(), final(self).g.dice()) == replay_effect(
                old(self).g.owners(),
                old(self).g.dice(),
                old(self).events@[old(self).idx as int],
            ),
            old(self).idx < old(self).events@.len() ==> {
                &&& final(self).idx == old(self).idx + 1
                &&& final(self).g.owners() == match old(self).events@[old(self).idx as int] {
                    RepEvent::Attack { a, d, captured, .. } => crate::game::battle_owners(
                        old(self).g.owners(),
                        a as int,
                        d as int,
                        captured,
                    ),
                    RepEvent::Reinforce { .. } => old(self).g.owners(),
                }
                &&& match old(self).events@[old(self).idx as int] {
                    RepEvent::Attack { a, d, captured, .. } => final(self).g.dice() == crate::game::battle_dice(
                        old(self).g.dice(),
                        a as int,
                        d as int,
                        captured,
                    ),
                    RepEvent::Reinforce { lands, .. } => forall|t: int|
                        0 <= t < old(self).g.n() ==> #[trigger] final(self).g.dice()[t]
                            == crate::game::capped_add(
                            old(self).g.dice()[t],
                            crate::game::occurrences(lands@, t as usize),
                        ),
                }
            },
    {
        if self.idx >= self.events.len() {
            return;
        }
        let i = self.idx;
        self.g.replay_instant(&self.events[i]);
        self.idx = i + 1;
        proof {
            let ev = old(self).events@[i as int];
            let eff = replay_effect(old(self).g.owners(), old(self).g.dice(), ev);
            if let RepEvent::Reinforce { .. } = ev {
                assert(eff.1 =~= self.g.dice());
            }
        }
    }

    /// Watch mode, when it is time for the next event: an attack starts its
    /// battle animation, a reinforcement is applied at once. Nothing happens
    /// while a battle is on screen or when no event is left.
    pub fn step_watch(&mut self)
        requires
            old(self).wf(),
            old(self).idx < old(self).events@.len() ==> event_fits(old(self).g, old(self).events@[old(self).idx as int]),
        ensures
            final(self).wf(),
            final(self).events == old(self).events,
            (old(self).g.battle is Some || old(self).idx >= old(self).events@.len()) ==> *final(self) == *old(self),
            (old(self).g.battle is None && old(self).idx < old(self).events@.len()) ==> {
                &&& final(self).idx == old(self).idx + 1
                &&& final(self).g.owners() == old(self).g.owners()
                &&& match old(self).events@[old(self).idx as int] {
                    RepEvent::Attack { a, d, ra, rd, captured } => {
                        &&& final(self).g.board == old(self).g.board
                        &&& final(self).g.battle matches Some(b) && b.a == a && b.d == d && b.ra == ra && b.rd == rd
                            && b.captured == captured
                    },
                    RepEvent::Reinforce { lands, .. } => forall|t: int|
                        0 <= t < old(self).g.n() ==> #[trigger] final(self).g.dice()[t]
                            == crate::game::capped_add(
                            old(self).g.dice()[t],
                            crate::game::occurrences(lands@, t as usize),
                        ),
                }
            },
    {
        if self.g.battle.is_some() || self.idx >= self.events.len() {
            return;
        }
        let i = self.idx;
        self.g.replay_step(&self.events[i]);
        self.idx = i + 1;
    }
}


/// The owners and dice after an event is replayed (`apply_instant`).
pub open spec fn replay_effect(owners: Seq<usize>, dice: Seq<u32>, ev: RepEvent) -> (Seq<usize>, Seq<u32>) {
    match ev {
        RepEvent::Attack { a, d, captured, .. } => (
            crate::game::battle_owners(owners, a as int, d as int, captured),
            crate::game::battle_dice(dice, a as int, d as int, captured),
        ),
        RepEvent::Reinforce { lands, .. } => (
            owners,
            Seq::new(dice.len(), |t: int| crate::game::capped_add(dice[t], crate::game::occurrences(lands@, t as usize))),
        ),
    }
}

/// The owners and dice after replaying `evs` in order.
pub open spec fn replayed(owners: Seq<usize>, dice: Seq<u32>, evs: Seq<RepEvent>) -> (Seq<usize>, Seq<u32>)
    decreases evs.len(),
{
    if evs.len() == 0 {
        (owners, dice)
    } else {
        let before = replayed(owners, dice, evs.drop_last());
        replay_effect(before.0, before.1, evs.last())
    }
}

/// One step of a live match recorded as `ev`: a battle (`apply_battle`)
/// or a reinforcement (`end_turn`) onto lands of the map.
pub open spec fn live_step(m0: Match, m1: Match, ev: RepEvent) -> bool {
    &&& m1.n() == m0.n()
    &&& match ev {
        RepEvent::Attack { a, d, captured, .. } => {
            &&& m1.owners() == crate::game::battle_owners(m0.owners(), a as int, d as int, captured)
            &&& m1.dice() == crate::game::battle_dice(m0.dice(), a as int, d as int, captured)
        },
        RepEvent::Reinforce { lands, .. } => {
            &&& m1.owners() == m0.owners()
            &&& forall|t: int|
                0 <= t < m0.n() ==> #[trigger] m1.dice()[t] == m0.dice()[t] + crate::game::occurrences(lands@, t as usize)
        },
    }
}

/// Replaying a recorded match reproduces its map: when each recorded
/// event is the live step from one state of the match to the next, the
/// events replayed in order onto the first state's owners and dice give
/// the last state's owners and dice.
pub proof fn lemma_replay_reproduces(states: Seq<Match>, evs: Seq<RepEvent>)
    requires
        states.len() == evs.len() + 1,
        forall|i: int| 0 <= i < states.len() ==> (#[trigger] states[i]).wf(),
        forall|i: int| 0 <= i < evs.len() ==> live_step(states[i], states[i + 1], #[trigger] evs[i]),
    ensures
        replayed(states[0].owners(), states[0].dice(), evs) == (states.last().owners(), states.last().dice()),
    decreases evs.len(),
{
    if evs.len() > 0 {
        let k = evs.len() - 1;
        let s0 = states.drop_last();
        let e0 = evs.drop_last();
        assert forall|i: int| 0 <= i < s0.len() implies (#[trigger] s0[i]).wf() by {
            assert(s0[i] == states[i]);
        }
        assert forall|i: int| 0 <= i < e0.len() implies live_step(s0[i], s0[i + 1], #[trigger] e0[i]) by {
            assert(e0[i] == evs[i]);
            assert(s0[i] == states[i] && s0[i + 1] == states[i + 1]);
        }
        lemma_replay_reproduces(s0, e0);
        assert(s0.last() == states[k]);
        let m0 = states[k];
        let m1 = states[k + 1];
        assert(live_step(m0, m1, evs[k]));
        assert(states.last() == m1);
        assert(evs.last() == evs[k]);
        match evs[k] {
            RepEvent::Attack { .. } => {},
            RepEvent::Reinforce { lands, .. } => {
                crate::game::lemma_reinforcement_replays(m0, m1, lands@);
                let after = replay_effect(m0.owners(), m0.dice(), evs[k]);
                assert(after.1 =~= m1.dice());
            },
        }
    }
}

} // verus!
