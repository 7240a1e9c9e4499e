//! Input bindings: each player has two axes and two actions.

use vstd::prelude::*;

verus! {

pub type PlayerId = u8;

#[derive(Clone, Copy, Debug, Hash, PartialEq, Eq, Structural)]
pub enum AxisBinding {
    Throttle(PlayerId),
    Steering(PlayerId),
}

#[derive(Clone, Copy, Debug, Hash, PartialEq, Eq, Structural)]
pub enum ActionBinding {
    Shoot(PlayerId),
    Ability(PlayerId),
}

} // verus!
