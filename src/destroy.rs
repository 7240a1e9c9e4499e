//! Destruction of tanks touched by deadly colliders, and the timed round reset.

use vstd::prelude::*;
use crate::tank::{Tank, Team, TankState};
use crate::physics::Handle;
use crate::scoreboard::Scoreboard;
use crate::weapon::{Weapon, countdown};

verus! {

/// Some tank of `tanks` is in state `Hit`.
pub open spec fn any_hit(tanks: Seq<Tank>) -> bool {
    exists|i: int| 0 <= i < tanks.len() && (#[trigger] tanks[i]).state == TankState::Hit
}

/// Some tank of team `t` is in state `Hit`.
pub open spec fn team_hit(tanks: Seq<Tank>, t: Team) -> bool {
    exists|i: int| 0 <= i < tanks.len() && (#[trigger] tanks[i]).state == TankState::Hit && tanks[i].team == t
}

/// A tank after a touch by deadly colliders: a living tank whose collider was
/// touched is hit.
pub open spec fn after_touch(t: Tank, collider: Handle, touched: Seq<Handle>) -> Tank {
    if t.state == TankState::Alive && touched.contains(collider) {
        Tank { state: TankState::Hit, ..t }
    } else {
        t
    }
}

/// A tank after the destruction pass: a hit tank is destroyed.
pub open spec fn after_destroy(t: Tank) -> Tank {
    if t.state == TankState::Hit {
        Tank { state: TankState::Destroyed, ..t }
    } else {
        t
    }
}

/// A tank re-armed for a new round.
pub open spec fn rearmed(t: Tank) -> Tank {
    Tank { weapon: Weapon::Cannon { shooting_timer: None }, state: TankState::Alive, ..t }
}

fn contains_handle(hs: &Vec<Handle>, h: Handle) -> (r: bool)
    ensures
        r == hs@.contains(h),
{
    let mut k: usize = 0;
    while k < hs.len()
        invariant
            k <= hs@.len(),
            forall|j: int| 0 <= j < k ==> hs@[j] != h,
        decreases hs@.len() - k,
    {
        if hs[k] == h {
            assert(hs@[k as int] == h);
            return true;
        }
        k = k + 1;
    }
    false
}

/// Turns deadly contacts into destroyed tanks.
pub struct DestroySystem;

impl DestroySystem {
    /// `colliders[i]` is the collider of `tanks[i]`; `touched` lists the
    /// colliders that deadly colliders touch this tick. Each living tank whose
    /// collider was touched is hit.
    pub fn mark_hit(tanks: &mut Vec<Tank>, colliders: &Vec<Handle>, touched: &Vec<Handle>)
        requires
            old(tanks)@.len() == colliders@.len(),
        ensures
            final(tanks)@.len() == old(tanks)@.len(),
            forall|i: int|
                0 <= i < old(tanks)@.len() ==> #[trigger] final(tanks)@[i] == after_touch(
                    old(tanks)@[i],
                    colliders@[i],
                    touched@,
                ),
    {
        let mut i: usize = 0;
        while i < tanks.len()
            invariant
                i <= tanks@.len(),
                tanks@.len() == old(tanks)@.len(),
                old(tanks)@.len() == colliders@.len(),
                forall|k: int| 0 <= k < i ==> #[trigger] tanks@[k] == after_touch(old(tanks)@[k], colliders@[k], touched@),
                forall|k: int| i <= k < tanks@.len() ==> #[trigger] tanks@[k] == old(tanks)@[k],
            decreases tanks@.len() - i,
        {
            if tanks[i].state == TankState::Alive && contains_handle(touched, colliders[i]) {
                tanks[i].state = TankState::Hit;
            }
            i = i + 1;
        }
    }

    /// Destroys every hit tank: its loss goes to the scoreboard, it becomes
    /// `Destroyed`, and the level reset countdown is armed with `delay`.
    /// Returns the positions of the destroyed tanks, in order, so that their
    /// bodies can be disabled and their visuals hidden.
    pub fn destroy_hit(
        tanks: &mut Vec<Tank>,
        scoreboard: &mut Scoreboard,
        reset_timer: &mut Option<u64>,
        delay: u64,
    ) -> (destroyed: Vec<usize>)
        requires
            old(scoreboard).wf(),
        ensures
            final(scoreboard).wf(),
            final(tanks)@.len() == old(tanks)@.len(),
            forall|i: int| 0 <= i < old(tanks)@.len() ==> #[trigger] final(tanks)@[i] == after_destroy(old(tanks)@[i]),
            forall|t: Team| #[trigger] final(scoreboard).score(t) == old(scoreboard).score(t),
            forall|t: Team| #[trigger] final(scoreboard).is_alive(t) == (old(scoreboard).is_alive(t) && !team_hit(old(tanks)@, t)),
            *final(reset_timer) == if any_hit(old(tanks)@) {
                Some(delay)
            } else {
                *old(reset_timer)
            },
            forall|k: int| 0 <= k < destroyed@.len() ==> #[trigger] destroyed@[k] < old(tanks)@.len()
                && old(tanks)@[destroyed@[k] as int].state == TankState::Hit,
            forall|k: int, l: int| 0 <= k < l < destroyed@.len() ==> destroyed@[k] < destroyed@[l],
            forall|i: int| 0 <= i < old(tanks)@.len() && (#[trigger] old(tanks)@[i]).state == TankState::Hit
                ==> destroyed@.contains(i as usize),
    {
        let ghost t0 = tanks@;
        let mut destroyed: Vec<usize> = Vec::new();
        let mut i: usize = 0;
        while i < tanks.len()
            invariant
                i <= tanks@.len(),
                tanks@.len() == t0.len(),
                scoreboard.wf(),
                forall|k: int| 0 <= k < i ==> #[trigger] tanks@[k] == after_destroy(t0[k]),
                forall|k: int| i <= k < tanks@.len() ==> #[trigger] tanks@[k] == t0[k],
                forall|t: Team| #[trigger] scoreboard.score(t) == old(scoreboard).score(t),
                forall|t: Team| #[trigger] scoreboard.is_alive(t) == (old(scoreboard).is_alive(t) && !team_hit(t0.subrange(0, i as int), t)),
                *reset_timer == if any_hit(t0.subrange(0, i as int)) {
                    Some(delay)
                } else {
                    *old(reset_timer)
                },
                forall|k: int| 0 <= k < destroyed@.len() ==> #[trigger] destroyed@[k] < i
                    && t0[destroyed@[k] as int].state == TankState::Hit,
                forall|k: int, l: int| 0 <= k < l < destroyed@.len() ==> destroyed@[k] < destroyed@[l],
                forall|j: int| 0 <= j < i && (#[trigger] t0[j]).state == TankState::Hit ==> destroyed@.contains(j as usize),
            decreases tanks@.len() - i,
        {
            let ghost before = t0.subrange(0, i as int);
            let ghost after = t0.subrange(0, i + 1);
            assert(after.drop_last() =~= before);
            if tanks[i].state == TankState::Hit {
                scoreboard.report_destroyed(tanks[i].team);
                tanks[i].state = TankState::Destroyed;
                *reset_timer = Some(delay);
                let ghost d0 = destroyed@;
                destroyed.push(i);
                proof {
                    assert(after[i as int] == t0[i as int]);
                    assert(any_hit(after));
                    assert forall|t: Team| #[trigger] scoreboard.is_alive(t) == (old(scoreboard).is_alive(t) && !team_hit(after, t)) by {
                        if team_hit(before, t) {
                            let j = choose|j: int| 0 <= j < before.len() && (#[trigger] before[j]).state == TankState::Hit && before[j].team == t;
                            assert(after[j] == before[j]);
                        }
                        if t == t0[i as int].team {
                            assert(team_hit(after, t));
                        } else if team_hit(after, t) {
                            let j = choose|j: int| 0 <= j < after.len() && (#[trigger] after[j]).state == TankState::Hit && after[j].team == t;
                            assert(before[j] == after[j]);
                        }
                    }
                    assert forall|j: int| 0 <= j < i + 1 && (#[trigger] t0[j]).state == TankState::Hit implies destroyed@.contains(j as usize) by {
                        if j < i {
                            let k = choose|k: int| 0 <= k < d0.len() && d0[k] == j as usize;
                            assert(destroyed@[k] == j as usize);
                        } else {
                            assert(destroyed@[d0.len() as int] == j as usize);
                        }
                    }
                }
            } else {
                proof {
                    assert forall|t: Team| #[trigger] scoreboard.is_alive(t) == (old(scoreboard).is_alive(t) && !team_hit(after, t)) by {
                        if team_hit(before, t) {
                            let j = choose|j: int| 0 <= j < before.len() && (#[trigger] before[j]).state == TankState::Hit && before[j].team == t;
                            assert(after[j] == before[j]);
                        }
                        if team_hit(after, t) {
                            let j = choose|j: int| 0 <= j < after.len() && (#[trigger] after[j]).state == TankState::Hit && after[j].team == t;
                            assert(before[j] == after[j]);
                        }
                    }
                    if any_hit(before) {
                        let j = choose|j: int| 0 <= j < before.len() && (#[trigger] before[j]).state == TankState::Hit;
                        assert(after[j] == before[j]);
                    }
                    if any_hit(after) {
                        let j = choose|j: int| 0 <= j < after.len() && (#[trigger] after[j]).state == TankState::Hit;
                        assert(before[j] == after[j]);
                    }
                }
            }
            i = i + 1;
        }
        assert(t0.subrange(0, t0.len() as int) =~= t0);
        destroyed
    }
}

/// Counts down the level reset and starts new rounds.
pub struct LevelSystem;

impl LevelSystem {
    /// Runs the reset countdown down by `dt`; `true` when it runs out now, the
    /// moment to call `reset_round` and rebuild the level.
    pub fn tick_reset(reset_timer: &mut Option<u64>, dt: u64) -> (due: bool)
        ensures
            due == (*old(reset_timer) matches Some(t) && t <= dt),
            *final(reset_timer) == countdown(*old(reset_timer), dt),
    {
        match *reset_timer {
            Some(t) => if t <= dt {
                *reset_timer = None;
                true
            } else {
                *reset_timer = Some(t - dt);
                false
            },
            None => false,
        }
    }

    /// Starts a new round: every team that kept its tank scores, and every
    /// tank is alive again with a reloaded default weapon.
    pub fn reset_round(tanks: &mut Vec<Tank>, scoreboard: &mut Scoreboard)
        requires
            old(scoreboard).wf(),
        ensures
            final(scoreboard).wf(),
            forall|t: Team| #[trigger] final(scoreboard).score(t) == if old(scoreboard).is_alive(t) {
                if old(scoreboard).score(t) == u32::MAX {
                    u32::MAX
                } else {
                    (old(scoreboard).score(t) + 1) as u32
                }
            } else {
                old(scoreboard).score(t)
            },
            forall|t: Team| #[trigger] final(scoreboard).is_alive(t),
            final(tanks)@.len() == old(tanks)@.len(),
            forall|i: int| 0 <= i < old(tanks)@.len() ==> #[trigger] final(tanks)@[i] == rearmed(old(tanks)@[i]),
    {
        scoreboard.update_winners();
        let mut i: usize = 0;
        while i < tanks.len()
            invariant
                i <= tanks@.len(),
                tanks@.len() == old(tanks)@.len(),
                forall|k: int| 0 <= k < i ==> #[trigger] tanks@[k] == rearmed(old(tanks)@[k]),
                forall|k: int| i <= k < tanks@.len() ==> #[trigger] tanks@[k] == old(tanks)@[k],
            decreases tanks@.len() - i,
        {
            tanks[i].weapon = Weapon::default();
            tanks[i].state = TankState::Alive;
            i = i + 1;
        }
    }
}

} // verus!
