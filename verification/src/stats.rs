//! Per-position playout statistics and the deltas that playouts emit.

use vstd::prelude::*;

verus! {

/// Aggregate outcome counts of the playouts that passed through one position,
/// seen from the side that is about to move there.
#[derive(Clone, Copy, Debug, PartialEq, Eq, Hash, Structural)]
pub struct Stats {
    pub wins: usize,
    pub losses: usize,
    pub visits: usize,
}

impl Stats {
    /// Every decided playout is also a visit.
    pub open spec fn wf(self) -> bool {
        self.wins + self.losses <= self.visits
    }

    /// Elementwise sum over the mathematical integers.
    pub open spec fn plus(self, rhs: Stats) -> (int, int, int) {
        (self.wins + rhs.wins, self.losses + rhs.losses, self.visits + rhs.visits)
    }

    /// The three counters as unbounded integers.
    pub open spec fn counts(self) -> (int, int, int) {
        (self.wins as int, self.losses as int, self.visits as int)
    }

    /// Componentwise order: no counter of `self` exceeds that of `later`.
    pub open spec fn le(self, later: Stats) -> bool {
        self.wins <= later.wins && self.losses <= later.losses && self.visits <= later.visits
    }

    pub open spec fn spec_zero() -> Stats {
        Stats { wins: 0, losses: 0, visits: 0 }
    }

    pub open spec fn spec_win() -> Stats {
        Stats { wins: 1, losses: 0, visits: 1 }
    }

    pub open spec fn spec_loss() -> Stats {
        Stats { wins: 0, losses: 1, visits: 1 }
    }

    pub open spec fn spec_tie() -> Stats {
        Stats { wins: 0, losses: 0, visits: 1 }
    }

    /// The delta of one playout: `None` for a draw, otherwise whether the
    /// side to move at the position won.
    pub open spec fn spec_delta(maybe_won: Option<bool>) -> Stats {
        match maybe_won {
            None => Self::spec_tie(),
            Some(true) => Self::spec_win(),
            Some(false) => Self::spec_loss(),
        }
    }

    /// The identity of addition.
    #[verifier::when_used_as_spec(spec_zero)]
    pub fn zero() -> (s: Stats)
        ensures
            s == Self::spec_zero(),
    {
        Stats { wins: 0, losses: 0, visits: 0 }
    }

    #[verifier::when_used_as_spec(spec_win)]
    pub fn win() -> (s: Stats)
        ensures
            s == Self::spec_win(),
    {
        Stats { wins: 1, losses: 0, visits: 1 }
    }

    #[verifier::when_used_as_spec(spec_loss)]
    pub fn loss() -> (s: Stats)
        ensures
            s == Self::spec_loss(),
    {
        Stats { wins: 0, losses: 1, visits: 1 }
    }

    #[verifier::when_used_as_spec(spec_tie)]
    pub fn tie() -> (s: Stats)
        ensures
            s == Self::spec_tie(),
    {
        Stats { wins: 0, losses: 0, visits: 1 }
    }

    #[verifier::when_used_as_spec(spec_delta)]
    pub fn delta(maybe_won: Option<bool>) -> (s: Stats)
        ensures
            s == Self::spec_delta(maybe_won),
            s.wf(),
            s.visits == 1,
    {
        match maybe_won {
            None => Self::tie(),
            Some(won) => if won {
                Self::win()
            } else {
                Self::loss()
            },
        }
    }

    /// Elementwise sum. The counters are machine words, so the sum of the
    /// visits has to fit; for well-formed operands the other two then fit too.
    pub fn add(self, rhs: Stats) -> (sum: Stats)
        requires
            self.wf(),
            rhs.wf(),
            self.visits + rhs.visits <= usize::MAX,
        ensures
            sum.counts() == self.plus(rhs),
            sum.wf(),
    {
        Stats {
            wins: self.wins + rhs.wins,
            losses: self.losses + rhs.losses,
            visits: self.visits + rhs.visits,
        }
    }

    /// Elementwise sum that reports overflow of the visit counter instead of
    /// demanding its absence.
    pub fn checked_add(self, rhs: Stats) -> (sum: Option<Stats>)
        requires
            self.wf(),
            rhs.wf(),
        ensures
            sum is Some <==> self.visits + rhs.visits <= usize::MAX,
            sum matches Some(s) ==> s.counts() == self.plus(rhs) && s.wf(),
    {
        if self.visits <= usize::MAX - rhs.visits {
            Some(self.add(rhs))
        } else {
            None
        }
    }
}

/// Adding the zero record changes nothing, on either side.
pub proof fn lemma_zero_is_identity(s: Stats)
    ensures
        s.plus(Stats::spec_zero()) == s.counts(),
        Stats::spec_zero().plus(s) == s.counts(),
        Stats::spec_zero().wf(),
{
}

/// Addition of records is commutative and associative.
pub proof fn lemma_add_monoid(a: Stats, b: Stats, c: Stats)
    ensures
        a.plus(b) == b.plus(a),
        ({
            let ab = a.plus(b);
            let bc = b.plus(c);
            (ab.0 + c.wins, ab.1 + c.losses, ab.2 + c.visits) == (
                a.wins + bc.0,
                a.losses + bc.1,
                a.visits + bc.2,
            )
        }),
{
}

/// Well-formedness survives addition, and no counter ever shrinks by it.
pub proof fn lemma_add_preserves(a: Stats, b: Stats, sum: Stats)
    requires
        a.wf(),
        b.wf(),
        sum.counts() == a.plus(b),
    ensures
        sum.wf(),
        a.le(sum),
        b.le(sum),
{
}

} // verus!
