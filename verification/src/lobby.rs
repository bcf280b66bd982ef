//! The host's lobby: which guest seats are taken, the reconnect tokens
//! handed out, and what becomes of a guest's first line.
use vstd::prelude::*;
use crate::proto::Hello;

verus! {

/// Wrong codes or unknown tokens from one address before it is banned.
pub const STRIKES_BAN: u32 = 5;

/// The seats of a lobby (guest seat `k` is entry `k - 1`), with a count
/// per seat of how often a guest took it (so that a stale disconnect is told
/// apart from the current one), the reconnect tokens issued, and whether
/// the match has started.
pub struct Lobby {
    pub seats: Vec<bool>,
    pub gens: Vec<u64>,
    pub tokens: Vec<(Vec<char>, usize)>,
    pub started: bool,
}

/// What the host does with a guest's first line.
#[derive(Clone, Copy, PartialEq, Eq, Structural, Debug)]
pub enum Admission {
    /// a wrong code or an unknown token: the address's strike count after
    /// it, and whether the address is banned now
    Refused { strikes: u32, banned: bool },
    /// the right code, another protocol version
    OldVersion,
    /// the guest sits at lobby seat `seat`: a new guest (`fresh`) or one
    /// reclaiming its seat with its token
    Seated { seat: usize, fresh: bool },
    /// no seat: the match has started or every seat is taken
    Full,
}

/// A seat's count after one more guest took it.
pub open spec fn bumped(g: u64) -> u64 {
    if g == u64::MAX {
        0
    } else {
        (g + 1) as u64
    }
}

/// Entry `i` is the latest token issued as `tok`.
pub open spec fn token_at(tokens: Seq<(Vec<char>, usize)>, tok: Seq<char>, i: int) -> bool {
    &&& 0 <= i < tokens.len()
    &&& tokens[i].0@ == tok
    &&& forall|j: int| i < j < tokens.len() ==> (#[trigger] tokens[j]).0@ != tok
}

/// Seat index `f` is the first free one.
pub open spec fn first_free(seats: Seq<bool>, f: int) -> bool {
    &&& 0 <= f < seats.len()
    &&& !seats[f]
    &&& forall|j: int| 0 <= j < f ==> #[trigger] seats[j]
}

/// The strike that a refused line costs.
pub open spec fn strike(strikes: u32) -> Admission {
    Admission::Refused { strikes: (strikes + 1) as u32, banned: strikes + 1 >= STRIKES_BAN }
}

/// Seat index `k` taken by a guest, nothing else changed.
pub open spec fn seated_at(before: Lobby, after: Lobby, k: int) -> bool {
    &&& after.seats@ == before.seats@.update(k, true)
    &&& after.gens@ == before.gens@.update(k, bumped(before.gens@[k]))
    &&& after.tokens@ == before.tokens@
    &&& after.started == before.started
}

/// Nothing changed.
pub open spec fn unchanged(before: Lobby, after: Lobby) -> bool {
    &&& after.seats@ == before.seats@
    &&& after.gens@ == before.gens@
    &&& after.tokens@ == before.tokens@
    &&& after.started == before.started
}

fn same_chars(a: &Vec<char>, b: &Vec<char>) -> (r: bool)
    ensures
        r == (a@ == b@),
{
    if a.len() != b.len() {
        return false;
    }
    let mut i: usize = 0;
    while i < a.len()
        invariant
            a@.len() == b@.len(),
            i <= a@.len(),
            forall|k: int| 0 <= k < i ==> a@[k] == b@[k],
        decreases a@.len() - i,
    {
        if a[i] != b[i] {
            return false;
        }
        i = i + 1;
    }
    proof {
        assert(a@ =~= b@);
    }
    true
}

impl Lobby {
    /// Lengths agree and every token names a seat.
    pub open spec fn wf(&self) -> bool {
        &&& self.gens@.len() == self.seats@.len()
        &&& forall|i: int| 0 <= i < self.tokens@.len() ==> 1 <= (#[trigger] self.tokens@[i]).1 <= self.seats@.len()
    }

    /// An empty lobby with `guests` seats.
    pub fn new(guests: usize) -> (l: Lobby)
        ensures
            l.wf(),
            l.seats@ == Seq::new(guests as nat, |i: int| false),
            l.gens@ == Seq::new(guests as nat, |i: int| 0u64),
            l.tokens@.len() == 0,
            !l.started,
    {
        let mut seats: Vec<bool> = Vec::new();
        let mut gens: Vec<u64> = Vec::new();
        let mut i: usize = 0;
        while i < guests
            invariant
                i <= guests,
                seats@ == Seq::new(i as nat, |k: int| false),
                gens@ == Seq::new(i as nat, |k: int| 0u64),
            decreases guests - i,
        {
            seats.push(false);
            gens.push(0);
            i = i + 1;
            proof {
                assert(seats@ =~= Seq::new(i as nat, |k: int| false));
                assert(gens@ =~= Seq::new(i as nat, |k: int| 0u64));
            }
        }
        Lobby { seats, gens, tokens: Vec::new(), started: false }
    }

    /// Where token `tok` was issued last, if it was.
    fn find_token(&self, tok: &Vec<char>) -> (r: Option<usize>)
        ensures
            match r {
                Some(i) => token_at(self.tokens@, tok@, i as int),
                None => forall|i: int| 0 <= i < self.tokens@.len() ==> (#[trigger] self.tokens@[i]).0@ != tok@,
            },
    {
        let mut i: usize = self.tokens.len();
        while i > 0
            invariant
                i <= self.tokens@.len(),
                forall|j: int| i <= j < self.tokens@.len() ==> (#[trigger] self.tokens@[j]).0@ != tok@,
            decreases i,
        {
            i = i - 1;
            if same_chars(&self.tokens[i].0, tok) {
                return Some(i);
            }
        }
        None
    }

    /// Records that token `tok` reclaims lobby seat `seat`.
    pub fn add_token(&mut self, tok: Vec<char>, seat: usize)
        requires
            old(self).wf(),
            1 <= seat <= old(self).seats@.len(),
        ensures
            final(self).wf(),
            final(self).tokens@ == old(self).tokens@.push((tok, seat)),
            final(self).seats == old(self).seats,
            final(self).gens == old(self).gens,
            final(self).started == old(self).started,
    {
        self.tokens.push((tok, seat));
    }

    /// A guest's first line, read as `hello`, from an address with
    /// `strikes` strikes so far: a new guest gets the first free seat while
    /// the match has not started, a returning guest its token's seat; a
    /// wrong code or an unknown token costs a strike.
    pub fn let_in(&mut self, hello: Hello, strikes: u32) -> (r: Admission)
        requires
            old(self).wf(),
            strikes < u32::MAX,
        ensures
            final(self).wf(),
            match hello {
                Hello::OldVersion => r == Admission::OldVersion && unchanged(*old(self), *final(self)),
                Hello::Refused => r == strike(strikes) && unchanged(*old(self), *final(self)),
                Hello::Rejoin(tok) => if exists|i: int| token_at(old(self).tokens@, tok@, i) {
                    let i = choose|i: int| token_at(old(self).tokens@, tok@, i);
                    let s = old(self).tokens@[i].1;
                    &&& r == Admission::Seated { seat: s, fresh: false }
                    &&& seated_at(*old(self), *final(self), s - 1)
                } else {
                    r == strike(strikes) && unchanged(*old(self), *final(self))
                },
                Hello::Join => if !old(self).started && exists|f: int| first_free(old(self).seats@, f) {
                    let f = choose|f: int| first_free(old(self).seats@, f);
                    &&& r == Admission::Seated { seat: (f + 1) as usize, fresh: true }
                    &&& seated_at(*old(self), *final(self), f)
                } else {
                    r == Admission::Full && unchanged(*old(self), *final(self))
                },
            },
    {
        match hello {
            Hello::OldVersion => Admission::OldVersion,
            Hello::Refused => Admission::Refused { strikes: strikes + 1, banned: strikes + 1 >= STRIKES_BAN },
            Hello::Rejoin(tok) => {
                match self.find_token(&tok) {
                    Some(i) => {
                        let s = self.tokens[i].1;
                        proof {
                            assert(1 <= self.tokens@[i as int].1 <= self.seats@.len());
                            assert forall|j: int| token_at(old(self).tokens@, tok@, j) implies j == i by {
                                assert(token_at(old(self).tokens@, tok@, i as int));
                                if j < i {
                                    assert(self.tokens@[i as int].0@ != tok@);
                                } else if j > i {
                                    assert(self.tokens@[j].0@ != tok@);
                                }
                            }
                        }
                        self.seats.set(s - 1, true);
                        let g = self.gens[s - 1];
                        self.gens.set(s - 1, g.wrapping_add(1));
                        Admission::Seated { seat: s, fresh: false }
                    },
                    None => Admission::Refused { strikes: strikes + 1, banned: strikes + 1 >= STRIKES_BAN },
                }
            },
            Hello::Join => {
                if self.started {
                    return Admission::Full;
                }
                let mut f: usize = 0;
                while f < self.seats.len()
                    invariant
                        self.wf(),
                        *self == *old(self),
                        hello is Join,
                        !self.started,
                        f <= self.seats@.len(),
                        forall|j: int| 0 <= j < f ==> #[trigger] self.seats@[j],
                    decreases self.seats@.len() - f,
                {
                    if !self.seats[f] {
                        proof {
                            assert(first_free(old(self).seats@, f as int));
                            assert forall|j: int| first_free(old(self).seats@, j) implies j == f by {
                                if j < f {
                                    assert(self.seats@[j]);
                                } else if j > f {
                                    assert(self.seats@[f as int]);
                                }
                            }
                        }
                        self.seats.set(f, true);
                        let g = self.gens[f];
                        self.gens.set(f, g.wrapping_add(1));
                        return Admission::Seated { seat: f + 1, fresh: true };
                    }
                    f = f + 1;
                }
                Admission::Full
            },
        }
    }

    /// A guest's connection on lobby seat `seat` ended; `gen` is the seat's
    /// count when that guest took it. The seat is freed only if nobody took
    /// it again since (a reconnect keeps it).
    pub fn release_seat(&mut self, seat: usize, gen: u64) -> (left: bool)
        requires
            old(self).wf(),
            1 <= seat <= old(self).seats@.len(),
        ensures
            final(self).wf(),
            left == (old(self).gens@[seat - 1] == gen),
            left ==> final(self).seats@ == old(self).seats@.update(seat - 1, false),
            !left ==> final(self).seats@ == old(self).seats@,
            final(self).gens@ == old(self).gens@,
            final(self).tokens@ == old(self).tokens@,
            final(self).started == old(self).started,
    {
        if self.gens[seat - 1] != gen {
            return false;
        }
        self.seats.set(seat - 1, false);
        true
    }
}

} // verus!
