//! Tanks: their team, class, life state and the weapon they carry.

use vstd::prelude::*;
use crate::weapon::{Weapon, BeamerConfig, MoveLocks, beamer_locks};
use crate::input::PlayerId;

verus! {

/// The side a tank plays for.
#[derive(PartialEq, Eq, Structural, Debug, Copy, Clone)]
pub enum Team {
    P1,
    P2,
}

impl Team {
    /// The input player that steers this team's tank.
    pub fn player_id(self) -> (r: PlayerId)
        ensures
            self == Team::P1 ==> r == 0,
            self == Team::P2 ==> r == 1,
    {
        match self {
            Team::P1 => 0,
            Team::P2 => 1,
        }
    }

    /// Position of the team in per-team tables.
    pub open spec fn index(self) -> int {
        match self {
            Team::P1 => 0,
            Team::P2 => 1,
        }
    }

    pub fn slot(self) -> (r: usize)
        ensures
            r == self.index(),
    {
        match self {
            Team::P1 => 0,
            Team::P2 => 1,
        }
    }
}

#[derive(PartialEq, Eq, Structural, Debug, Copy, Clone)]
pub enum Class {
    Breach,
    Trophy,
    Snipe,
    Sombra,
    Raze,
}

/// The state of a tank.
#[derive(PartialEq, Eq, Structural, Debug, Copy, Clone)]
pub enum TankState {
    /// Can be controlled by a player and can shoot.
    Alive,
    /// Has just been hit and is to be exploded in this tick.
    Hit,
    /// Not visible, cannot move and cannot shoot.
    Destroyed,
    /// Cannot move or shoot for a while.
    Stunned,
}

/// A player's tank. Durations are in microseconds.
#[derive(Clone, Copy, Debug)]
pub struct Tank {
    pub team: Team,
    pub weapon: Weapon,
    pub class: Class,
    pub ability_refresh: Option<u64>,
    pub is_shooting: bool,
    pub is_using_ability: bool,
    pub state: TankState,
}

impl Tank {
    pub fn new(team: Team, weapon: Weapon, class: Class) -> (t: Tank)
        ensures
            t.team == team,
            t.weapon == weapon,
            t.class == class,
            t.ability_refresh is None,
            !t.is_shooting,
            !t.is_using_ability,
            t.state == TankState::Alive,
    {
        Tank {
            team,
            weapon,
            class,
            ability_refresh: None,
            is_shooting: false,
            is_using_ability: false,
            state: TankState::Alive,
        }
    }
}

/// Applies the players' input to the tanks.
pub struct TankSystem;

impl TankSystem {
    /// Samples the trigger and ability buttons into a living tank and returns
    /// which of steering and throttle it must ignore this tick: a beam emitter
    /// may lock them while heating or shooting. A tank that is not alive keeps
    /// its flags and ignores both.
    pub fn apply_input(tank: &mut Tank, fire: bool, ability: bool, cfg: &BeamerConfig) -> (r: MoveLocks)
        ensures
            final(tank).team == old(tank).team,
            final(tank).weapon == old(tank).weapon,
            final(tank).class == old(tank).class,
            final(tank).ability_refresh == old(tank).ability_refresh,
            final(tank).state == old(tank).state,
            old(tank).state == TankState::Alive ==> {
                &&& final(tank).is_shooting == fire
                &&& final(tank).is_using_ability == ability
                &&& r == match old(tank).weapon {
                    Weapon::Beamer(b) => beamer_locks(b, fire, *cfg),
                    _ => MoveLocks { rotation: false, movement: false },
                }
            },
            old(tank).state != TankState::Alive ==> {
                &&& final(tank).is_shooting == old(tank).is_shooting
                &&& final(tank).is_using_ability == old(tank).is_using_ability
                &&& r == (MoveLocks { rotation: true, movement: true })
            },
    {
        if tank.state != TankState::Alive {
            return MoveLocks { rotation: true, movement: true };
        }
        tank.is_shooting = fire;
        tank.is_using_ability = ability;
        match tank.weapon {
            Weapon::Beamer(b) => {
                if fire && b.overheat_timer.is_none() && b.shooting_timer.is_none() {
                    MoveLocks { rotation: cfg.lock_rotation_when_heating, movement: cfg.lock_movement_when_heating }
                } else if b.shooting_timer.is_some() {
                    MoveLocks { rotation: cfg.lock_rotation_when_shooting, movement: cfg.lock_movement_when_shooting }
                } else {
                    MoveLocks { rotation: false, movement: false }
                }
            },
            _ => MoveLocks { rotation: false, movement: false },
        }
    }
}

} // verus!
