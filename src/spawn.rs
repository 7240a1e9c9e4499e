//! Weapon pickups: when and where they appear, what they carry, and what
//! happens when a tank touches one.

use vstd::prelude::*;
use rand::rngs::StdRng;
use crate::maze::Cell;
use crate::rng::gen_index;
use crate::weapon::{Weapon, BeamerState, Pickup, kind, owned_entities, pickup_next};

verus! {

/// Pickup timing: a new pickup every `spawn_time` microseconds while fewer
/// than `max_spawns` are out.
#[derive(Clone, Copy, Debug)]
pub struct SpawnConfig {
    pub spawn_time: u64,
    pub max_spawns: u16,
}

/// What a pickup carries.
#[derive(Clone, Copy, Debug)]
pub enum SpawnType {
    Weapon(Weapon),
}

/// A pickup lying in the arena.
#[derive(Clone, Copy, Debug)]
pub struct Spawn {
    pub s_type: SpawnType,
}

/// Pickup bookkeeping.
pub struct SpawnSystem {
    /// Time left before the next pickup appears.
    pub spawn_timer: u64,
    /// Pickups out in the arena.
    pub spawns_alive: u16,
    /// Cells where pickups never appear: the two spawn corners.
    pub taken_spawnpoints: Vec<Cell>,
}

/// `c` is a cell of a `width` by `height` maze that no entry of `taken` names.
pub open spec fn free_cell(c: Cell, width: usize, height: usize, taken: Seq<Cell>) -> bool {
    c.col < width && c.row < height && !taken.contains(c)
}

impl SpawnSystem {
    /// No pickup out yet, the first one due at once; the corners of a `width` by
    /// `height` maze are kept free.
    pub fn new(width: usize, height: usize) -> (s: SpawnSystem)
        requires
            width >= 1,
            height >= 1,
        ensures
            s.spawn_timer == 0,
            s.spawns_alive == 0,
            s.taken_spawnpoints@ == seq![
                Cell { col: 0, row: 0 },
                Cell { col: (width - 1) as usize, row: (height - 1) as usize },
            ],
    {
        let mut taken: Vec<Cell> = Vec::new();
        taken.push(Cell::from(0, 0));
        taken.push(Cell::from(width - 1, height - 1));
        SpawnSystem { spawn_timer: 0, spawns_alive: 0, taken_spawnpoints: taken }
    }

    /// Advances the pickup timer by `dt`; `true` when a pickup is to appear now.
    /// While a round reset is under way (`resetting`) the pickups are cleared
    /// and the timer restarts. The timer runs only while fewer than
    /// `max_spawns` pickups are out.
    pub fn tick(&mut self, resetting: bool, dt: u64, cfg: &SpawnConfig) -> (spawn: bool)
        ensures
            final(self).taken_spawnpoints == old(self).taken_spawnpoints,
            ({
                let t0 = if resetting { cfg.spawn_time } else { old(self).spawn_timer };
                let a0 = if resetting { 0u16 } else { old(self).spawns_alive };
                let t1 = if a0 < cfg.max_spawns { if t0 <= dt { 0u64 } else { (t0 - dt) as u64 } } else { t0 };
                &&& spawn == (t1 == 0)
                &&& spawn ==> final(self).spawn_timer == cfg.spawn_time
                    && final(self).spawns_alive == if a0 == u16::MAX { a0 } else { (a0 + 1) as u16 }
                &&& !spawn ==> final(self).spawn_timer == t1 && final(self).spawns_alive == a0
            }),
    {
        if resetting {
            self.spawn_timer = cfg.spawn_time;
            self.spawns_alive = 0;
        }
        if self.spawns_alive < cfg.max_spawns {
            self.spawn_timer = self.spawn_timer.saturating_sub(dt);
        }
        if self.spawn_timer == 0 {
            self.spawns_alive = self.spawns_alive.saturating_add(1);
            self.spawn_timer = cfg.spawn_time;
            true
        } else {
            false
        }
    }

    /// A random free cell of a `width` by `height` maze for the next pickup,
    /// each free cell as likely as any other; `None` when no cell is free.
    pub fn pick_cell(&self, width: usize, height: usize, rng: &mut StdRng) -> (r: Option<Cell>)
        ensures
            r matches Some(c) ==> free_cell(c, width, height, self.taken_spawnpoints@),
            r is None ==> forall|c: Cell| !free_cell(c, width, height, self.taken_spawnpoints@),
    {
        let mut free: Vec<Cell> = Vec::new();
        let mut col: usize = 0;
        while col < width
            invariant
                col <= width,
                forall|k: int| 0 <= k < free@.len() ==> free_cell(#[trigger] free@[k], width, height, self.taken_spawnpoints@),
                forall|c: Cell| c.col < col && #[trigger] free_cell(c, width, height, self.taken_spawnpoints@) ==> free@.contains(c),
            decreases width - col,
        {
            let mut row: usize = 0;
            while row < height
                invariant
                    col < width,
                    row <= height,
                    forall|k: int| 0 <= k < free@.len() ==> free_cell(#[trigger] free@[k], width, height, self.taken_spawnpoints@),
                    forall|c: Cell| (c.col < col || (c.col == col && c.row < row)) && #[trigger] free_cell(c, width, height, self.taken_spawnpoints@)
                        ==> free@.contains(c),
                decreases height - row,
            {
                let c = Cell::from(col, row);
                if !self.is_taken(&c) {
                    let ghost f0 = free@;
                    free.push(c);
                    proof {
                        assert(free@[f0.len() as int] == c);
                        assert forall|d: Cell| (d.col < col || (d.col == col && d.row < row + 1)) && #[trigger] free_cell(d, width, height, self.taken_spawnpoints@)
                            implies free@.contains(d) by {
                            if d != c {
                                let k = choose|k: int| 0 <= k < f0.len() && f0[k] == d;
                                assert(free@[k] == d);
                            }
                        }
                    }
                }
                row = row + 1;
            }
            col = col + 1;
        }
        if free.len() == 0 {
            proof {
                assert forall|c: Cell| !free_cell(c, width, height, self.taken_spawnpoints@) by {
                    if free_cell(c, width, height, self.taken_spawnpoints@) {
                        assert(free@.contains(c));
                    }
                }
            }
            None
        } else {
            let k = gen_index(rng, 0, free.len());
            Some(free[k])
        }
    }

    fn is_taken(&self, c: &Cell) -> (r: bool)
        ensures
            r == self.taken_spawnpoints@.contains(*c),
    {
        let mut k: usize = 0;
        while k < self.taken_spawnpoints.len()
            invariant
                k <= self.taken_spawnpoints@.len(),
                forall|j: int| 0 <= j < k ==> self.taken_spawnpoints@[j] != *c,
            decreases self.taken_spawnpoints@.len() - k,
        {
            if self.taken_spawnpoints[k] == *c {
                assert(self.taken_spawnpoints@[k as int] == *c);
                return true;
            }
            k = k + 1;
        }
        false
    }

    /// The weapon a new pickup carries: a cannon eight times in ten, else a
    /// beam emitter.
    pub fn random_weapon(rng: &mut StdRng) -> (w: Weapon)
        ensures
            w == (Weapon::Cannon { shooting_timer: None }) || w == Weapon::Beamer(
                BeamerState {
                    heating_progress: 0,
                    shooting_timer: None,
                    overheat_timer: None,
                    heating_square: None,
                    beam: None,
                },
            ),
    {
        let num = gen_index(rng, 0, 10);
        SpawnSystem::weapon_for_draw(num)
    }

    /// The weapon for a draw in `0 .. 10`: a cannon for 0 to 7, else a beam
    /// emitter.
    pub fn weapon_for_draw(num: usize) -> (w: Weapon)
        ensures
            num <= 7 ==> w == (Weapon::Cannon { shooting_timer: None }),
            num > 7 ==> w == Weapon::Beamer(
                BeamerState {
                    heating_progress: 0,
                    shooting_timer: None,
                    overheat_timer: None,
                    heating_square: None,
                    beam: None,
                },
            ),
    {
        if num <= 7 {
            Weapon::Cannon { shooting_timer: None }
        } else {
            Weapon::Beamer(BeamerState::new())
        }
    }

    /// The sprite of a pickup carrying `w`.
    pub fn sprite_number(w: &Weapon) -> (r: usize)
        ensures
            r == match *w {
                Weapon::Cannon { .. } => 0usize,
                Weapon::Beamer(_) => 1usize,
                Weapon::Rocket { .. } => 2usize,
            },
    {
        match w {
            Weapon::Cannon { .. } => 0,
            Weapon::Beamer(_) => 1,
            Weapon::Rocket { .. } => 2,
        }
    }

    /// A tank touches a pickup carrying `payload`. A weapon of another variant is
    /// torn down (its entities are handed back for deletion) and replaced, and the
    /// pickup is consumed; a weapon of the same variant is kept as it is and the
    /// pickup stays.
    pub fn pick_up(&mut self, weapon: &mut Weapon, payload: &Weapon) -> (r: Pickup)
        ensures
            *final(weapon) == pickup_next(*old(weapon), *payload),
            r.consumed == (kind(*old(weapon)) != kind(*payload)),
            r.consumed ==> (r.despawn_heating, r.despawn_beam) == owned_entities(*old(weapon)),
            !r.consumed ==> r.despawn_heating is None && r.despawn_beam is None,
            final(self).spawns_alive == if r.consumed && old(self).spawns_alive > 0 {
                (old(self).spawns_alive - 1) as u16
            } else {
                old(self).spawns_alive
            },
            final(self).spawn_timer == old(self).spawn_timer,
            final(self).taken_spawnpoints == old(self).taken_spawnpoints,
    {
        if weapon.same_kind(payload) {
            Pickup { consumed: false, despawn_heating: None, despawn_beam: None }
        } else {
            let (h, b) = weapon.owned();
            *weapon = *payload;
            self.spawns_alive = self.spawns_alive.saturating_sub(1);
            Pickup { consumed: true, despawn_heating: h, despawn_beam: b }
        }
    }
}

} // verus!
