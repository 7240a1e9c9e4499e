//! Weapons and their per-tick state machines. Durations are in microseconds.

use vstd::prelude::*;
use crate::tank::{Tank, TankState};

verus! {

/// An entity of the engine (a heating visual, a beam), known by its number.
#[derive(Clone, Copy, PartialEq, Eq, Structural, Debug)]
pub struct EntityId(pub u64);

/// State of a beam emitter. `heating_progress` counts the heating time so far:
/// the beam fires once it reaches the configured heat time.
#[derive(Clone, Copy, Debug)]
pub struct BeamerState {
    pub heating_progress: u64,
    pub shooting_timer: Option<u64>,
    pub overheat_timer: Option<u64>,
    pub heating_square: Option<EntityId>,
    pub beam: Option<EntityId>,
}

/// The weapon a tank carries: exactly one variant at a time.
#[derive(Clone, Copy, Debug)]
pub enum Weapon {
    Beamer(BeamerState),
    Cannon { shooting_timer: Option<u64> },
    Rocket { shooting_timer: Option<u64> },
}

/// Timing and movement locks of the beam emitter.
#[derive(Clone, Copy, Debug)]
pub struct BeamerConfig {
    pub heat_time: u64,
    pub shoot_time: u64,
    pub overheat_time: u64,
    pub lock_rotation_when_heating: bool,
    pub lock_movement_when_heating: bool,
    pub lock_rotation_when_shooting: bool,
    pub lock_movement_when_shooting: bool,
}

/// Reload time of a projectile weapon.
#[derive(Clone, Copy, Debug)]
pub struct CannonConfig {
    pub shoot_time: u64,
}

/// What the engine has to do after a beam emitter's tick.
#[derive(Clone, Copy, Debug)]
pub struct BeamerActions {
    /// Create the heating visual and attach it with `attach_heating`.
    pub spawn_heating: bool,
    /// Create the beam sensor and attach it with `attach_beam`.
    pub spawn_beam: bool,
    /// Delete these entities: the shot is over.
    pub despawn_heating: Option<EntityId>,
    pub despawn_beam: Option<EntityId>,
}

/// Outcome of a tick of a forward-firing weapon.
#[derive(Clone, Copy, PartialEq, Eq, Structural, Debug)]
pub enum ShotOutcome {
    /// Nothing fired.
    Idle,
    /// Spawn a projectile at the muzzle.
    Fired,
    /// The muzzle is against an obstacle: the tank is hit by its own shot.
    SelfHit,
}

/// A timer after `dt` more time: it is cleared once it reaches zero.
pub open spec fn countdown(t: Option<u64>, dt: u64) -> Option<u64> {
    match t {
        Some(x) => if x <= dt {
            None
        } else {
            Some((x - dt) as u64)
        },
        None => None,
    }
}

pub open spec fn sat_add(a: u64, b: u64) -> u64 {
    if a + b > u64::MAX {
        u64::MAX
    } else {
        (a + b) as u64
    }
}

pub open spec fn sat_sub(a: u64, b: u64) -> u64 {
    if a <= b {
        0
    } else {
        (a - b) as u64
    }
}

fn tick_timer(t: Option<u64>, dt: u64) -> (r: Option<u64>)
    ensures
        r == countdown(t, dt),
{
    match t {
        Some(x) => if x <= dt {
            None
        } else {
            Some(x - dt)
        },
        None => None,
    }
}

/// The beam emitter heats this tick.
pub open spec fn beamer_heats(s: BeamerState, firing: bool, alive: bool, cfg: BeamerConfig) -> bool {
    firing && alive && s.heating_progress < cfg.heat_time && s.shooting_timer is None
        && s.overheat_timer is None
}

/// Heating reaches the heat time this tick: the beam fires.
pub open spec fn beamer_fires(s: BeamerState, firing: bool, alive: bool, dt: u64, cfg: BeamerConfig) -> bool {
    beamer_heats(s, firing, alive, cfg) && sat_add(s.heating_progress, dt) >= cfg.heat_time
}

/// The shooting timer runs out this tick: the shot ends and overheating starts.
pub open spec fn beamer_expires(s: BeamerState, firing: bool, alive: bool, dt: u64, cfg: BeamerConfig) -> bool {
    if beamer_fires(s, firing, alive, dt, cfg) {
        cfg.shoot_time <= dt
    } else {
        s.shooting_timer matches Some(t) && t <= dt
    }
}

/// The beam emitter after one tick of `dt`, in this order: heating while the
/// trigger is held (firing when the heat time is reached), the shooting timer
/// (ending the shot and starting the overheat timer), the overheat timer, and
/// cooling while the trigger is released and no shot is under way.
pub open spec fn beamer_next(s: BeamerState, firing: bool, alive: bool, dt: u64, cfg: BeamerConfig) -> BeamerState {
    let heats = beamer_heats(s, firing, alive, cfg);
    let fires = beamer_fires(s, firing, alive, dt, cfg);
    let expires = beamer_expires(s, firing, alive, dt, cfg);
    let heat1 = if heats {
        sat_add(s.heating_progress, dt)
    } else {
        s.heating_progress
    };
    let st1 = if fires {
        Some(cfg.shoot_time)
    } else {
        s.shooting_timer
    };
    let heat2 = if expires {
        0
    } else {
        heat1
    };
    let st2 = countdown(st1, dt);
    let ot2 = if expires {
        Some(cfg.overheat_time)
    } else {
        s.overheat_timer
    };
    let heat3 = if heat2 > 0 && !firing && st2 is None {
        sat_sub(heat2, dt)
    } else {
        heat2
    };
    BeamerState {
        heating_progress: heat3,
        shooting_timer: st2,
        overheat_timer: countdown(ot2, dt),
        heating_square: if expires {
            None
        } else {
            s.heating_square
        },
        beam: if expires {
            None
        } else {
            s.beam
        },
    }
}

impl BeamerState {
    /// A cold beam emitter.
    pub fn new() -> (s: BeamerState)
        ensures
            s.heating_progress == 0,
            s.shooting_timer is None,
            s.overheat_timer is None,
            s.heating_square is None,
            s.beam is None,
    {
        BeamerState {
            heating_progress: 0,
            shooting_timer: None,
            overheat_timer: None,
            heating_square: None,
            beam: None,
        }
    }

    /// Records the heating visual created on request.
    pub fn attach_heating(&mut self, id: EntityId)
        requires
            old(self).heating_square is None,
        ensures
            *final(self) == (BeamerState { heating_square: Some(id), ..*old(self) }),
    {
        self.heating_square = Some(id);
    }

    /// Records the beam sensor created on request.
    pub fn attach_beam(&mut self, id: EntityId)
        requires
            old(self).beam is None,
        ensures
            *final(self) == (BeamerState { beam: Some(id), ..*old(self) }),
    {
        self.beam = Some(id);
    }
}

impl Default for Weapon {
    /// A reloaded cannon.
    fn default() -> (w: Weapon)
        ensures
            w == (Weapon::Cannon { shooting_timer: None }),
    {
        Weapon::Cannon { shooting_timer: None }
    }
}

/// Which variant a weapon is.
pub open spec fn kind(w: Weapon) -> int {
    match w {
        Weapon::Beamer(_) => 0,
        Weapon::Cannon { .. } => 1,
        Weapon::Rocket { .. } => 2,
    }
}

/// The entities a weapon owns: its heating visual and its beam.
pub open spec fn owned_entities(w: Weapon) -> (Option<EntityId>, Option<EntityId>) {
    match w {
        Weapon::Beamer(b) => (b.heating_square, b.beam),
        _ => (None, None),
    }
}

impl Weapon {
    /// Both weapons are the same variant, whatever their timers.
    pub fn same_kind(&self, other: &Weapon) -> (r: bool)
        ensures
            r == (kind(*self) == kind(*other)),
    {
        match (self, other) {
            (Weapon::Beamer(_), Weapon::Beamer(_)) => true,
            (Weapon::Cannon { .. }, Weapon::Cannon { .. }) => true,
            (Weapon::Rocket { .. }, Weapon::Rocket { .. }) => true,
            _ => false,
        }
    }

    /// The entities this weapon owns, to be deleted before it is replaced.
    pub fn owned(&self) -> (r: (Option<EntityId>, Option<EntityId>))
        ensures
            r == owned_entities(*self),
    {
        match self {
            Weapon::Beamer(b) => (b.heating_square, b.beam),
            _ => (None, None),
        }
    }
}

/// What a tank's weapon becomes when it touches a pickup carrying `payload`:
/// the payload when it is another variant, else the weapon is kept.
pub open spec fn pickup_next(w: Weapon, payload: Weapon) -> Weapon {
    if kind(w) == kind(payload) {
        w
    } else {
        payload
    }
}

/// What came of a pickup touched by a tank.
#[derive(Clone, Copy, Debug)]
pub struct Pickup {
    /// The pickup is used up and must be removed.
    pub consumed: bool,
    /// Entities of the replaced weapon, to be deleted.
    pub despawn_heating: Option<EntityId>,
    pub despawn_beam: Option<EntityId>,
}

/// Picking up a weapon of the variant already carried changes nothing, and a
/// second pickup of the same payload changes nothing more than the first.
pub proof fn lemma_pickup_idempotent(w: Weapon, payload: Weapon)
    ensures
        kind(w) == kind(payload) ==> pickup_next(w, payload) == w,
        pickup_next(pickup_next(w, payload), payload) == pickup_next(w, payload),
{
}

/// Whether steering and throttle are ignored this tick.
#[derive(Clone, Copy, PartialEq, Eq, Structural, Debug)]
pub struct MoveLocks {
    pub rotation: bool,
    pub movement: bool,
}

/// Locks that a beam emitter puts on its tank: those for heating while the
/// trigger is held and no shot or overheat is under way, those for shooting
/// while a shot is under way.
pub open spec fn beamer_locks(s: BeamerState, firing: bool, cfg: BeamerConfig) -> MoveLocks {
    if firing && s.overheat_timer is None && s.shooting_timer is None {
        MoveLocks { rotation: cfg.lock_rotation_when_heating, movement: cfg.lock_movement_when_heating }
    } else if s.shooting_timer is Some {
        MoveLocks { rotation: cfg.lock_rotation_when_shooting, movement: cfg.lock_movement_when_shooting }
    } else {
        MoveLocks { rotation: false, movement: false }
    }
}

/// The beam emitter of a living tank after `n` ticks of `dt`, with the trigger
/// held (`firing`) or released throughout.
pub open spec fn beamer_run(s: BeamerState, firing: bool, dt: u64, cfg: BeamerConfig, n: nat) -> BeamerState
    decreases n,
{
    if n == 0 {
        s
    } else {
        beamer_next(beamer_run(s, firing, dt, cfg, (n - 1) as nat), firing, true, dt, cfg)
    }
}

/// A cold beam emitter whose heating has reached `heat`.
pub open spec fn cold_beamer(heat: u64) -> BeamerState {
    BeamerState {
        heating_progress: heat,
        shooting_timer: None,
        overheat_timer: None,
        heating_square: None,
        beam: None,
    }
}

proof fn lemma_mul_succ(i: int, dt: int)
    ensures
        (i + 1) * dt == i * dt + dt,
{
    assert((i + 1) * dt == i * dt + dt) by (nonlinear_arith);
}

proof fn lemma_mul_lt(i: int, a: int, dt: int)
    requires
        0 <= i < a,
        dt > 0,
    ensures
        i * dt < a * dt,
        i * dt + dt <= a * dt,
{
    assert(i * dt < a * dt) by (nonlinear_arith)
        requires
            i < a,
            dt > 0,
    ;
    assert(i * dt + dt <= a * dt) by (nonlinear_arith)
        requires
            i + 1 <= a,
            dt > 0,
    ;
}

proof fn lemma_heating_phase(dt: u64, cfg: BeamerConfig, a: nat, i: nat)
    requires
        dt > 0,
        cfg.heat_time == a * dt,
        i < a,
    ensures
        beamer_run(cold_beamer(0), true, dt, cfg, i) == cold_beamer((i * dt) as u64),
    decreases i,
{
    if i > 0 {
        let j = (i - 1) as nat;
        lemma_heating_phase(dt, cfg, a, j);
        lemma_mul_succ(j as int, dt as int);
        lemma_mul_lt(j as int, a as int, dt as int);
        lemma_mul_lt(i as int, a as int, dt as int);
        let prev = cold_beamer((j * dt) as u64);
        assert(beamer_run(cold_beamer(0), true, dt, cfg, i) == beamer_next(prev, true, true, dt, cfg));
        assert(beamer_heats(prev, true, true, cfg));
        assert(sat_add(prev.heating_progress, dt) == i * dt);
        assert(!beamer_fires(prev, true, true, dt, cfg));
        assert(!beamer_expires(prev, true, true, dt, cfg));
    } else {
        assert(i * dt == 0) by (nonlinear_arith)
            requires
                i == 0,
        ;
    }
}

proof fn lemma_mul_le(x: int, y: int, dt: int)
    requires
        0 <= x <= y,
        dt >= 0,
    ensures
        0 <= x * dt <= y * dt,
{
    assert(0 <= x * dt <= y * dt) by (nonlinear_arith)
        requires
            0 <= x <= y,
            dt >= 0,
    ;
}

proof fn lemma_shooting_phase(dt: u64, cfg: BeamerConfig, a: nat, b: nat, j: nat)
    requires
        dt > 0,
        a >= 1,
        b >= 2,
        cfg.heat_time == a * dt,
        cfg.shoot_time == b * dt,
        j <= b - 2,
    ensures
        beamer_run(cold_beamer(0), true, dt, cfg, a + j) == (BeamerState {
            shooting_timer: Some(((b - 1 - j) * dt) as u64),
            ..cold_beamer(cfg.heat_time)
        }),
    decreases j,
{
    lemma_mul_succ((b - 1 - j) as int, dt as int);
    lemma_mul_le((b - 1 - j) as int, b as int, dt as int);
    lemma_mul_le((b - j) as int, b as int, dt as int);
    if j == 0 {
        lemma_heating_phase(dt, cfg, a, (a - 1) as nat);
        lemma_mul_succ((a - 1) as int, dt as int);
        lemma_mul_succ((b - 1) as int, dt as int);
        assert(a + j == ((a - 1) as nat) + 1);
        assert((b - 1) * dt >= dt) by (nonlinear_arith)
            requires
                b >= 2,
        ;
        let prev = cold_beamer(((a - 1) * dt) as u64);
        lemma_mul_lt((a - 1) as int, a as int, dt as int);
        assert(beamer_run(cold_beamer(0), true, dt, cfg, a + j) == beamer_next(prev, true, true, dt, cfg));
        assert(beamer_fires(prev, true, true, dt, cfg));
    } else {
        lemma_shooting_phase(dt, cfg, a, b, (j - 1) as nat);
        assert(a + j == (a + (j - 1) as nat) + 1);
        assert((b - 1 - j) * dt >= dt) by (nonlinear_arith)
            requires
                b - 1 - j >= 1,
        ;
        let prev = BeamerState { shooting_timer: Some(((b - 1 - (j - 1)) * dt) as u64), ..cold_beamer(cfg.heat_time) };
        assert(beamer_run(cold_beamer(0), true, dt, cfg, a + j) == beamer_next(prev, true, true, dt, cfg));
        assert(b - 1 - (j - 1) == (b - 1 - j) + 1);
    }
}

proof fn lemma_overheat_phase(dt: u64, cfg: BeamerConfig, a: nat, b: nat, c: nat, l: nat)
    requires
        dt > 0,
        a >= 1,
        b >= 1,
        c >= 1,
        cfg.heat_time == a * dt,
        cfg.shoot_time == b * dt,
        cfg.overheat_time == c * dt,
        l <= c - 1,
    ensures
        beamer_run(cold_beamer(0), true, dt, cfg, (a + b - 1 + l) as nat) == (BeamerState {
            overheat_timer: if l < c - 1 {
                Some(((c - 1 - l) * dt) as u64)
            } else {
                None
            },
            ..cold_beamer(0)
        }),
    decreases l,
{
    lemma_mul_succ((c - 1 - l) as int, dt as int);
    lemma_mul_le((c - 1 - l) as int, c as int, dt as int);
    lemma_mul_le((c - l) as int, c as int, dt as int);
    if l == 0 {
        lemma_mul_succ((c - 1) as int, dt as int);
        assert(c * dt > dt || c == 1) by (nonlinear_arith)
            requires
                c >= 1,
                dt > 0,
        ;
        assert(c * dt == dt || c > 1) by (nonlinear_arith)
            requires
                c >= 1,
        ;
        if b == 1 {
            lemma_heating_phase(dt, cfg, a, (a - 1) as nat);
            lemma_mul_succ((a - 1) as int, dt as int);
            assert(a + b - 1 + l == ((a - 1) as nat) + 1);
        } else {
            lemma_shooting_phase(dt, cfg, a, b, (b - 2) as nat);
            assert(a + b - 1 + l == (a + (b - 2) as nat) + 1);
            assert((b - 1 - (b - 2)) * dt == dt) by (nonlinear_arith)
                requires
                    b >= 2,
            ;
        }
    } else {
        lemma_overheat_phase(dt, cfg, a, b, c, (l - 1) as nat);
        assert(a + b - 1 + l == (a + b - 1 + (l - 1) as nat) + 1);
        assert((c - 1 - (l - 1)) * dt >= dt) by (nonlinear_arith)
            requires
                c - 1 - (l - 1) >= 1,
        ;
        assert((c - 1 - (l - 1)) * dt == dt <==> l == c - 1) by (nonlinear_arith)
            requires
                c - 1 - (l - 1) >= 1,
                dt > 0,
        ;
    }
}

/// The beam emitter's cycle with the trigger held, for a heat time of `a`
/// ticks, a shot of `b` ticks and an overheat of `c` ticks. From cold, the
/// heating grows by `dt` each tick for the first `a - 1` ticks; the beam fires
/// on tick `a` and stays up through tick `a + b - 1`, when the shot ends, the
/// heating drops to zero and the overheat timer starts; overheating then blocks
/// heating until tick `a + b + c - 2`, after which the emitter is cold again and
/// the cycle repeats.
pub proof fn lemma_beamer_cycle(dt: u64, cfg: BeamerConfig, a: nat, b: nat, c: nat)
    requires
        dt > 0,
        a >= 1,
        b >= 1,
        c >= 1,
        cfg.heat_time == a * dt,
        cfg.shoot_time == b * dt,
        cfg.overheat_time == c * dt,
    ensures
        forall|i: nat| i < a ==> #[trigger] beamer_run(cold_beamer(0), true, dt, cfg, i) == cold_beamer((i * dt) as u64),
        forall|j: nat|
            j + 1 < b ==> #[trigger] beamer_run(cold_beamer(0), true, dt, cfg, a + j) == (BeamerState {
                shooting_timer: Some(((b - 1 - j) * dt) as u64),
                ..cold_beamer(cfg.heat_time)
            }),
        forall|l: nat|
            l + 1 < c ==> #[trigger] beamer_run(cold_beamer(0), true, dt, cfg, (a + b - 1 + l) as nat) == (BeamerState {
                overheat_timer: Some(((c - 1 - l) * dt) as u64),
                ..cold_beamer(0)
            }),
        beamer_run(cold_beamer(0), true, dt, cfg, (a + b + c - 2) as nat) == cold_beamer(0),
{
    assert forall|i: nat| i < a implies #[trigger] beamer_run(cold_beamer(0), true, dt, cfg, i) == cold_beamer((i * dt) as u64) by {
        lemma_heating_phase(dt, cfg, a, i);
    }
    assert forall|j: nat|
        j + 1 < b implies #[trigger] beamer_run(cold_beamer(0), true, dt, cfg, a + j) == (BeamerState {
            shooting_timer: Some(((b - 1 - j) * dt) as u64),
            ..cold_beamer(cfg.heat_time)
        }) by {
        lemma_shooting_phase(dt, cfg, a, b, j);
    }
    assert forall|l: nat|
        l + 1 < c implies #[trigger] beamer_run(cold_beamer(0), true, dt, cfg, (a + b - 1 + l) as nat) == (BeamerState {
            overheat_timer: Some(((c - 1 - l) * dt) as u64),
            ..cold_beamer(0)
        }) by {
        lemma_overheat_phase(dt, cfg, a, b, c, l);
    }
    lemma_overheat_phase(dt, cfg, a, b, c, (c - 1) as nat);
    assert(a + b - 1 + (c - 1) as nat == (a + b + c - 2) as nat);
}

/// With the trigger released and no shot or overheat under way, the heating
/// falls by `dt` each tick until it reaches zero: the rate at which it rose.
pub proof fn lemma_beamer_cooling(dt: u64, cfg: BeamerConfig, heat: u64, n: nat)
    ensures
        beamer_run(cold_beamer(heat), false, dt, cfg, n) == cold_beamer(
            if heat >= n * dt {
                (heat - n * dt) as u64
            } else {
                0
            },
        ),
    decreases n,
{
    if n > 0 {
        let m = (n - 1) as nat;
        lemma_beamer_cooling(dt, cfg, heat, m);
        lemma_mul_succ(m as int, dt as int);
        assert(n == m + 1);
        let prev = cold_beamer(if heat >= m * dt { (heat - m * dt) as u64 } else { 0 });
        assert(beamer_run(cold_beamer(heat), false, dt, cfg, n) == beamer_next(prev, false, true, dt, cfg));
    } else {
        assert(n * dt == 0) by (nonlinear_arith)
            requires
                n == 0,
        ;
    }
}

/// Total length of a run of ticks.
pub open spec fn total(ds: Seq<u64>) -> int
    decreases ds.len(),
{
    if ds.len() == 0 {
        0
    } else {
        total(ds.drop_last()) + ds.last()
    }
}

/// The beam emitter of a living tank after ticks of lengths `ds`, with the
/// trigger held (`firing`) or released throughout.
pub open spec fn beamer_ticks(s: BeamerState, firing: bool, ds: Seq<u64>, cfg: BeamerConfig) -> BeamerState
    decreases ds.len(),
{
    if ds.len() == 0 {
        s
    } else {
        beamer_next(beamer_ticks(s, firing, ds.drop_last(), cfg), firing, true, ds.last(), cfg)
    }
}

proof fn lemma_total_prefix(ds: Seq<u64>)
    ensures
        0 <= total(ds.drop_last()) <= total(ds) || ds.len() == 0,
        total(ds) >= 0,
    decreases ds.len(),
{
    if ds.len() > 0 {
        lemma_total_prefix(ds.drop_last());
    }
}

/// Heating with ticks of any lengths: while the trigger is held and the heat
/// time is not reached, the heating grows by exactly the time that passed.
pub proof fn lemma_heating_ticks(cfg: BeamerConfig, h0: u64, ds: Seq<u64>)
    requires
        h0 + total(ds) < cfg.heat_time,
    ensures
        beamer_ticks(cold_beamer(h0), true, ds, cfg) == cold_beamer((h0 + total(ds)) as u64),
    decreases ds.len(),
{
    lemma_total_prefix(ds);
    if ds.len() > 0 {
        lemma_heating_ticks(cfg, h0, ds.drop_last());
    }
}

/// The tick on which the heating reaches the heat time fires the beam: the
/// shooting timer starts at the shot time, less the length of that tick.
pub proof fn lemma_fire_tick(cfg: BeamerConfig, heat: u64, d: u64)
    requires
        heat < cfg.heat_time <= heat + d,
        cfg.shoot_time > d,
    ensures
        beamer_next(cold_beamer(heat), true, true, d, cfg) == (BeamerState {
            heating_progress: sat_add(heat, d),
            shooting_timer: Some((cfg.shoot_time - d) as u64),
            ..cold_beamer(0)
        }),
{
}

/// While a shot is under way, whatever the trigger does, the shooting timer
/// runs down by exactly the time that passed, and nothing else changes, as
/// long as that time is less than what the timer held.
pub proof fn lemma_shooting_ticks(cfg: BeamerConfig, s: BeamerState, firing: bool, t: u64, ds: Seq<u64>)
    requires
        s.shooting_timer == Some(t),
        s.overheat_timer is None,
        total(ds) < t,
    ensures
        beamer_ticks(s, firing, ds, cfg) == (BeamerState { shooting_timer: Some((t - total(ds)) as u64), ..s }),
    decreases ds.len(),
{
    lemma_total_prefix(ds);
    if ds.len() > 0 {
        lemma_shooting_ticks(cfg, s, firing, t, ds.drop_last());
    }
}

/// The tick that uses up the shooting timer ends the shot: the heating drops
/// to zero, the beam and heating visual are released, and the overheat timer
/// starts at the overheat time, less what is left of that tick.
pub proof fn lemma_shot_ends(cfg: BeamerConfig, s: BeamerState, firing: bool, t: u64, d: u64)
    requires
        s.shooting_timer == Some(t),
        s.overheat_timer is None,
        t <= d,
    ensures
        beamer_next(s, firing, true, d, cfg) == (BeamerState {
            overheat_timer: countdown(Some(cfg.overheat_time), d),
            ..cold_beamer(0)
        }),
{
}

/// Overheating with ticks of any lengths: with the trigger held, the heating
/// stays at zero and the overheat timer runs down by the time that passed;
/// once that time reaches what the timer held, the emitter is cold again.
pub proof fn lemma_overheat_ticks(cfg: BeamerConfig, o: u64, ds: Seq<u64>)
    ensures
        total(ds) < o ==> beamer_ticks(BeamerState { overheat_timer: Some(o), ..cold_beamer(0) }, true, ds, cfg)
            == (BeamerState { overheat_timer: Some((o - total(ds)) as u64), ..cold_beamer(0) }),
        ds.len() > 0 && total(ds.drop_last()) < o <= total(ds) ==> beamer_ticks(
            BeamerState { overheat_timer: Some(o), ..cold_beamer(0) },
            true,
            ds,
            cfg,
        ) == cold_beamer(0),
    decreases ds.len(),
{
    lemma_total_prefix(ds);
    if ds.len() > 0 {
        lemma_overheat_ticks(cfg, o, ds.drop_last());
    }
}

/// Cooling with ticks of any lengths: with the trigger released and no shot
/// or overheat under way, the heating falls by the time that passed, down to zero.
pub proof fn lemma_cooling_ticks(cfg: BeamerConfig, heat: u64, ds: Seq<u64>)
    ensures
        beamer_ticks(cold_beamer(heat), false, ds, cfg) == cold_beamer(
            if heat >= total(ds) {
                (heat - total(ds)) as u64
            } else {
                0
            },
        ),
    decreases ds.len(),
{
    lemma_total_prefix(ds);
    if ds.len() > 0 {
        lemma_cooling_ticks(cfg, heat, ds.drop_last());
    }
}

/// The beam emitter's per-tick update.
pub struct BeamerSystem;

impl BeamerSystem {
    /// Advances the beam emitter by `dt`. `firing` is the trigger, `alive` whether
    /// the tank is alive: only a living tank heats, while timers run regardless.
    pub fn update(s: &mut BeamerState, firing: bool, alive: bool, dt: u64, cfg: &BeamerConfig) -> (r:
        BeamerActions)
        ensures
            *final(s) == beamer_next(*old(s), firing, alive, dt, *cfg),
            r.spawn_heating == (beamer_heats(*old(s), firing, alive, *cfg) && old(s).heating_square is None
                && !beamer_expires(*old(s), firing, alive, dt, *cfg)),
            r.spawn_beam == (beamer_fires(*old(s), firing, alive, dt, *cfg) && !beamer_expires(
                *old(s),
                firing,
                alive,
                dt,
                *cfg,
            )),
            r.despawn_heating == (if beamer_expires(*old(s), firing, alive, dt, *cfg) {
                old(s).heating_square
            } else {
                None
            }),
            r.despawn_beam == (if beamer_expires(*old(s), firing, alive, dt, *cfg) {
                old(s).beam
            } else {
                None
            }),
    {
        let mut actions = BeamerActions {
            spawn_heating: false,
            spawn_beam: false,
            despawn_heating: None,
            despawn_beam: None,
        };
        let mut fires = false;
        let heats = firing && alive && s.heating_progress < cfg.heat_time && s.shooting_timer.is_none()
            && s.overheat_timer.is_none();
        if heats {
            s.heating_progress = s.heating_progress.saturating_add(dt);
            if s.heating_square.is_none() {
                actions.spawn_heating = true;
            }
            if s.heating_progress >= cfg.heat_time {
                fires = true;
                actions.spawn_beam = true;
                s.shooting_timer = Some(cfg.shoot_time);
            }
        }
        if let Some(t) = s.shooting_timer {
            if t <= dt {
                s.heating_progress = 0;
                actions.despawn_heating = s.heating_square;
                actions.despawn_beam = s.beam;
                actions.spawn_heating = false;
                actions.spawn_beam = false;
                s.heating_square = None;
                s.beam = None;
                s.shooting_timer = None;
                s.overheat_timer = Some(cfg.overheat_time);
            } else {
                s.shooting_timer = Some(t - dt);
            }
        }
        s.overheat_timer = tick_timer(s.overheat_timer, dt);
        if s.heating_progress > 0 && !firing && s.shooting_timer.is_none() {
            s.heating_progress = s.heating_progress.saturating_sub(dt);
        }
        actions
    }
}

/// The self-safety check fails: besides the tank itself, the ray from its centre
/// through the muzzle meets another collider. `None` means the check is switched off.
pub open spec fn muzzle_blocked(ray_hits: Option<usize>) -> bool {
    ray_hits matches Some(n) && n > 1
}

/// Result of `fire_with_cooldown`: the new reload timer, the new life state and the outcome.
pub open spec fn shot_next(
    trigger: bool,
    state: TankState,
    timer: Option<u64>,
    ray_hits: Option<usize>,
    dt: u64,
    reload: u64,
) -> (Option<u64>, TankState, ShotOutcome) {
    if trigger && state == TankState::Alive && timer is None {
        if muzzle_blocked(ray_hits) {
            (timer, TankState::Hit, ShotOutcome::SelfHit)
        } else {
            (countdown(Some(reload), dt), state, ShotOutcome::Fired)
        }
    } else {
        (countdown(timer, dt), state, ShotOutcome::Idle)
    }
}

/// One tick of a forward-firing weapon with a reload timer: a living tank
/// holding the trigger with the weapon reloaded fires, unless the self-safety
/// check finds an obstacle at the muzzle, in which case the tank is hit
/// instead. The reload timer then runs down by `dt`.
pub fn fire_with_cooldown(
    trigger: bool,
    state: &mut TankState,
    timer: &mut Option<u64>,
    ray_hits: Option<usize>,
    dt: u64,
    reload: u64,
) -> (r: ShotOutcome)
    ensures
        (*final(timer), *final(state), r) == shot_next(trigger, *old(state), *old(timer), ray_hits, dt, reload),
{
    if trigger && *state == TankState::Alive && timer.is_none() {
        let blocked = match ray_hits {
            Some(n) => n > 1,
            None => false,
        };
        if blocked {
            *state = TankState::Hit;
            return ShotOutcome::SelfHit;
        }
        *timer = tick_timer(Some(reload), dt);
        ShotOutcome::Fired
    } else {
        *timer = tick_timer(*timer, dt);
        ShotOutcome::Idle
    }
}

/// Per-tick update of projectile weapons (cannon and rocket launcher).
pub struct CannonSystem;

impl CannonSystem {
    /// Advances the tank's projectile weapon by `dt`; `ray_hits` is the number
    /// of colliders on the self-safety ray (the tank counts as one), `None` when
    /// the check is off. A beam emitter is left alone.
    pub fn update(tank: &mut Tank, ray_hits: Option<usize>, dt: u64, cfg: &CannonConfig) -> (r: ShotOutcome)
        ensures
            final(tank).team == old(tank).team,
            final(tank).class == old(tank).class,
            final(tank).ability_refresh == old(tank).ability_refresh,
            final(tank).is_shooting == old(tank).is_shooting,
            final(tank).is_using_ability == old(tank).is_using_ability,
            match old(tank).weapon {
                Weapon::Cannon { shooting_timer } => {
                    let n = shot_next(old(tank).is_shooting, old(tank).state, shooting_timer, ray_hits, dt, cfg.shoot_time);
                    final(tank).weapon == (Weapon::Cannon { shooting_timer: n.0 }) && final(tank).state == n.1 && r == n.2
                },
                Weapon::Rocket { shooting_timer } => {
                    let n = shot_next(old(tank).is_shooting, old(tank).state, shooting_timer, ray_hits, dt, cfg.shoot_time);
                    final(tank).weapon == (Weapon::Rocket { shooting_timer: n.0 }) && final(tank).state == n.1 && r == n.2
                },
                Weapon::Beamer(_) => final(tank).weapon == old(tank).weapon && final(tank).state == old(tank).state
                    && r == ShotOutcome::Idle,
            },
    {
        match tank.weapon {
            Weapon::Cannon { shooting_timer } => {
                let mut timer = shooting_timer;
                let r = fire_with_cooldown(tank.is_shooting, &mut tank.state, &mut timer, ray_hits, dt, cfg.shoot_time);
                tank.weapon = Weapon::Cannon { shooting_timer: timer };
                r
            },
            Weapon::Rocket { shooting_timer } => {
                let mut timer = shooting_timer;
                let r = fire_with_cooldown(tank.is_shooting, &mut tank.state, &mut timer, ray_hits, dt, cfg.shoot_time);
                tank.weapon = Weapon::Rocket { shooting_timer: timer };
                r
            },
            Weapon::Beamer(_) => ShotOutcome::Idle,
        }
    }
}

} // verus!
