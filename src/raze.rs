//! The Raze class: its ability fires homing rockets.

use vstd::prelude::*;
use crate::tank::{Tank, Team, TankState, Class};
use crate::markers::RocketMarker;
use crate::weapon::{ShotOutcome, shot_next, fire_with_cooldown};

verus! {

/// Fewer colliders than this on the ray from a rocket to its target: the
/// target is in sight (the rocket and the target count as two).
pub const SIGHT_HITS: usize = 3;

/// Timing and reach of the rockets. Durations in microseconds, distances in
/// the units the caller measures them in.
#[derive(Clone, Copy, Debug)]
pub struct RazeConfig {
    pub rocket_shoot_time: u64,
    pub rocket_radius: u64,
}

/// A tank as seen from a rocket: its team, its state and its distance.
#[derive(Clone, Copy, Debug)]
pub struct HomingCandidate {
    pub team: Team,
    pub state: TankState,
    pub distance: u64,
}

/// A rocket fired by `shooter` may home in on `c`: an enemy, alive or stunned,
/// closer than `radius`.
pub open spec fn homing_eligible(shooter: Team, c: HomingCandidate, radius: u64) -> bool {
    c.team != shooter && (c.state == TankState::Alive || c.state == TankState::Stunned) && c.distance < radius
}

/// Per-tick update of the Raze ability and of its rockets' homing.
pub struct RazeSystem;

impl RazeSystem {
    /// A living Raze tank holding its ability button with the ability ready
    /// fires a rocket, unless the self-safety check finds an obstacle at the
    /// muzzle (`ray_hits`, as for the cannon), in which case the tank is hit.
    /// The ability's refresh timer then runs down by `dt`. Other classes are
    /// left alone.
    pub fn update(tank: &mut Tank, ray_hits: Option<usize>, dt: u64, cfg: &RazeConfig) -> (r: ShotOutcome)
        ensures
            final(tank).team == old(tank).team,
            final(tank).weapon == old(tank).weapon,
            final(tank).class == old(tank).class,
            final(tank).is_shooting == old(tank).is_shooting,
            final(tank).is_using_ability == old(tank).is_using_ability,
            old(tank).class == Class::Raze ==> {
                let n = shot_next(
                    old(tank).is_using_ability,
                    old(tank).state,
                    old(tank).ability_refresh,
                    ray_hits,
                    dt,
                    cfg.rocket_shoot_time,
                );
                final(tank).ability_refresh == n.0 && final(tank).state == n.1 && r == n.2
            },
            old(tank).class != Class::Raze ==> final(tank).ability_refresh == old(tank).ability_refresh
                && final(tank).state == old(tank).state && r == ShotOutcome::Idle,
    {
        if tank.class != Class::Raze {
            return ShotOutcome::Idle;
        }
        fire_with_cooldown(
            tank.is_using_ability,
            &mut tank.state,
            &mut tank.ability_refresh,
            ray_hits,
            dt,
            cfg.rocket_shoot_time,
        )
    }

    /// The tank a rocket steers toward: the nearest eligible one (the first of
    /// equally near ones), or `None` when no tank is eligible.
    pub fn homing_target(rocket: &RocketMarker, tanks: &Vec<HomingCandidate>, radius: u64) -> (r: Option<usize>)
        ensures
            r is None ==> forall|j: int| 0 <= j < tanks@.len() ==> !homing_eligible(rocket.0, #[trigger] tanks@[j], radius),
            r matches Some(i) ==> {
                &&& i < tanks@.len()
                &&& homing_eligible(rocket.0, tanks@[i as int], radius)
                &&& forall|j: int| 0 <= j < tanks@.len() && homing_eligible(rocket.0, #[trigger] tanks@[j], radius)
                    ==> tanks@[i as int].distance <= tanks@[j].distance
                &&& forall|j: int| 0 <= j < i && homing_eligible(rocket.0, #[trigger] tanks@[j], radius)
                    ==> tanks@[i as int].distance < tanks@[j].distance
            },
    {
        let mut best: Option<usize> = None;
        let mut k: usize = 0;
        while k < tanks.len()
            invariant
                k <= tanks@.len(),
                best is None ==> forall|j: int| 0 <= j < k ==> !homing_eligible(rocket.0, #[trigger] tanks@[j], radius),
                best matches Some(i) ==> {
                    &&& i < k
                    &&& homing_eligible(rocket.0, tanks@[i as int], radius)
                    &&& forall|j: int| 0 <= j < k && homing_eligible(rocket.0, #[trigger] tanks@[j], radius)
                        ==> tanks@[i as int].distance <= tanks@[j].distance
                    &&& forall|j: int| 0 <= j < i && homing_eligible(rocket.0, #[trigger] tanks@[j], radius)
                        ==> tanks@[i as int].distance < tanks@[j].distance
                },
            decreases tanks@.len() - k,
        {
            let c = tanks[k];
            let eligible = c.team != rocket.0 && (c.state == TankState::Alive || c.state == TankState::Stunned)
                && c.distance < radius;
            if eligible {
                match best {
                    None => {
                        best = Some(k);
                    },
                    Some(i) => {
                        if c.distance < tanks[i].distance {
                            best = Some(k);
                        }
                    },
                }
            }
            k = k + 1;
        }
        best
    }

    /// A rocket steers toward its target only when the ray to it meets fewer
    /// than `SIGHT_HITS` colliders.
    pub fn in_sight(ray_hits: usize) -> (r: bool)
        ensures
            r == (ray_hits < SIGHT_HITS),
    {
        ray_hits < SIGHT_HITS
    }
}

} // verus!
