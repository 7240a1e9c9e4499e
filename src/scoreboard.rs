//! Per-team scores and the teams still alive in the current round.

use vstd::prelude::*;
use crate::tank::Team;

verus! {

pub struct Scoreboard {
    scores: Vec<u32>,
    alive: Vec<bool>,
}

impl Scoreboard {
    /// One score and one alive flag per team.
    pub closed spec fn wf(&self) -> bool {
        self.scores@.len() == 2 && self.alive@.len() == 2
    }

    pub closed spec fn score(&self, t: Team) -> u32 {
        self.scores@[t.index()]
    }

    /// The team has not lost a tank this round.
    pub closed spec fn is_alive(&self, t: Team) -> bool {
        self.alive@[t.index()]
    }

    /// Every score is zero and every team alive.
    pub fn new() -> (s: Scoreboard)
        ensures
            s.wf(),
            forall|t: Team| #[trigger] s.score(t) == 0 && s.is_alive(t),
    {
        Scoreboard { scores: vec![0, 0], alive: vec![true, true] }
    }

    /// Records that the team lost its tank this round.
    pub fn report_destroyed(&mut self, team: Team)
        requires
            old(self).wf(),
        ensures
            final(self).wf(),
            forall|t: Team| #[trigger] final(self).score(t) == old(self).score(t),
            forall|t: Team| #[trigger] final(self).is_alive(t) == (old(self).is_alive(t) && t != team),
    {
        self.alive.set(team.slot(), false);
    }

    /// Ends the round: every team still alive scores a point (scores stop at
    /// `u32::MAX`), and every team is alive again for the next round.
    pub fn update_winners(&mut self)
        requires
            old(self).wf(),
        ensures
            final(self).wf(),
            forall|t: Team| #[trigger] final(self).score(t) == if old(self).is_alive(t) {
                if old(self).score(t) == u32::MAX {
                    u32::MAX
                } else {
                    (old(self).score(t) + 1) as u32
                }
            } else {
                old(self).score(t)
            },
            forall|t: Team| #[trigger] final(self).is_alive(t),
    {
        let mut i: usize = 0;
        while i < 2
            invariant
                0 <= i <= 2,
                self.scores@.len() == 2,
                self.alive@ == old(self).alive@,
                self.alive@.len() == 2,
                forall|k: int| 0 <= k < i ==> #[trigger] self.scores@[k] == if old(self).alive@[k] {
                    if old(self).scores@[k] == u32::MAX {
                        u32::MAX
                    } else {
                        (old(self).scores@[k] + 1) as u32
                    }
                } else {
                    old(self).scores@[k]
                },
                forall|k: int| i <= k < 2 ==> #[trigger] self.scores@[k] == old(self).scores@[k],
            decreases 2 - i,
        {
            if self.alive[i] {
                let s = self.scores[i].saturating_add(1);
                self.scores.set(i, s);
            }
            i = i + 1;
        }
        self.alive = vec![true, true];
        assert forall|t: Team| #[trigger] self.score(t) == if old(self).is_alive(t) {
            if old(self).score(t) == u32::MAX {
                u32::MAX
            } else {
                (old(self).score(t) + 1) as u32
            }
        } else {
            old(self).score(t)
        } by {
            assert(self.scores@[t.index()] == self.scores@[t.index()]);
        }
    }

    /// Reads a team's score.
    pub fn get_score(&self, team: Team) -> (r: u32)
        requires
            self.wf(),
        ensures
            r == self.score(team),
    {
        self.scores[team.slot()]
    }
}

} // verus!
