//! Role markers attached to entities.

use vstd::prelude::*;
use crate::tank::Team;

verus! {

/// Marks a temporary entity, removed on level transitions. The optional
/// timer (microseconds) removes it earlier, once it runs out.
#[derive(Clone, Copy, Debug)]
pub struct TempMarker(pub Option<u64>);

impl TempMarker {
    /// Runs the removal timer down by `dt`; `true` when the entity is due for
    /// removal now (its timer has reached zero).
    pub fn tick(&mut self, dt: u64) -> (expired: bool)
        ensures
            expired == (old(self).0 matches Some(t) && t <= dt),
            expired ==> final(self).0 == Some(0u64),
            !expired ==> final(self).0 == (match old(self).0 {
                Some(t) => Some((t - dt) as u64),
                None => None,
            }),
    {
        match self.0 {
            Some(t) => if t <= dt {
                self.0 = Some(0);
                true
            } else {
                self.0 = Some(t - dt);
                false
            },
            None => false,
        }
    }
}

/// Marks an entity whose collider destroys the tanks it touches.
#[derive(Clone, Copy, Debug, Default)]
pub struct DeadlyMarker;

/// The colours of a colour scheme.
#[derive(Clone, Copy, PartialEq, Eq, Structural, Debug)]
pub enum ColorKey {
    Background,
    Text,
    Walls,
    P1,
    P2,
    P3,
    P4,
}

impl ColorKey {
    /// The colour of a team.
    pub fn from_team(t: Team) -> (k: ColorKey)
        ensures
            t == Team::P1 ==> k == ColorKey::P1,
            t == Team::P2 ==> k == ColorKey::P2,
    {
        match t {
            Team::P1 => ColorKey::P1,
            Team::P2 => ColorKey::P2,
        }
    }
}

/// Marks an entity whose colour follows the current colour scheme.
#[derive(Clone, Copy, Debug)]
pub struct DynamicColorMarker(pub ColorKey);

/// Marks a homing rocket with the team that fired it.
#[derive(Clone, Copy, Debug)]
pub struct RocketMarker(pub Team);

} // verus!
