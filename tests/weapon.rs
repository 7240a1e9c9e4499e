use tanks::physics::Handle;
use tanks::tank::{Class, Tank, TankState, Team, TankSystem};
use tanks::weapon::{
    BeamerConfig, BeamerState, BeamerSystem, CannonConfig, CannonSystem, EntityId, MoveLocks, ShotOutcome,
    Weapon,
};
use tanks::spawn::SpawnSystem;

#[allow(dead_code)]
enum A {
    Variant { sth: f32 },
    Variant1,
}

#[test]
fn beamer_test_mut_enum() {
    let mut inst = A::Variant { sth: 0.2 };
    match inst {
        A::Variant { ref mut sth } => *sth += 1.0,
        _ => (),
    }
    if let A::Variant { sth } = inst {
        assert_eq!(sth, 1.2)
    }
}

#[test]
fn weapon_test_mut_enum() {
    let mut inst = A::Variant { sth: 0.2 };
    match inst {
        A::Variant { ref mut sth } => *sth += 1.0,
        _ => (),
    }
    if let A::Variant { sth } = inst {
        assert_eq!(sth, 1.2)
    }
}

#[test]
fn test_eq_enum_variant() {
    #[derive(Debug, PartialEq)]
    enum T {
        A { x: u32, y: u32 },
    }
    let val1 = T::A { x: 0, y: 1 };
    let val2 = T::A { x: 2, y: 3 };
    assert_eq!(std::mem::discriminant(&val1), std::mem::discriminant(&val2));
    let c1 = Weapon::Cannon { shooting_timer: None };
    let c2 = Weapon::Cannon { shooting_timer: Some(7) };
    assert!(c1.same_kind(&c2));
    assert!(!c1.same_kind(&Weapon::Beamer(BeamerState::new())));
}

fn beamer_cfg() -> BeamerConfig {
    BeamerConfig {
        heat_time: 500_000,
        shoot_time: 1_000_000,
        overheat_time: 2_000_000,
        lock_rotation_when_heating: true,
        lock_movement_when_heating: false,
        lock_rotation_when_shooting: false,
        lock_movement_when_shooting: true,
    }
}

#[test]
fn beamer_heats_fires_and_overheats() {
    let cfg = beamer_cfg();
    let dt = 100_000;
    let mut s = BeamerState::new();
    // five ticks of heating: the beam fires on the fifth
    for tick in 1..5u64 {
        let a = BeamerSystem::update(&mut s, true, true, dt, &cfg);
        assert_eq!(s.heating_progress, tick * dt);
        assert!(!a.spawn_beam);
        assert_eq!(a.spawn_heating, tick == 1);
        if tick == 1 {
            s.attach_heating(EntityId(10));
        }
    }
    let a = BeamerSystem::update(&mut s, true, true, dt, &cfg);
    assert!(a.spawn_beam);
    assert!(!a.spawn_heating);
    assert_eq!(s.shooting_timer, Some(900_000));
    s.attach_beam(EntityId(11));
    // the beam stays up for ten ticks in all, counting the one it fired on
    for _ in 0..8 {
        let a = BeamerSystem::update(&mut s, true, true, dt, &cfg);
        assert!(s.shooting_timer.is_some());
        assert!(a.despawn_beam.is_none());
    }
    let a = BeamerSystem::update(&mut s, true, true, dt, &cfg);
    assert_eq!(a.despawn_beam, Some(EntityId(11)));
    assert_eq!(a.despawn_heating, Some(EntityId(10)));
    assert_eq!(s.shooting_timer, None);
    assert_eq!(s.heating_progress, 0);
    assert_eq!(s.overheat_timer, Some(1_900_000));
    // overheating blocks heating for the rest of the overheat time
    for _ in 0..19 {
        BeamerSystem::update(&mut s, true, true, dt, &cfg);
        assert_eq!(s.heating_progress, 0);
    }
    assert_eq!(s.overheat_timer, None);
    BeamerSystem::update(&mut s, true, true, dt, &cfg);
    assert_eq!(s.heating_progress, dt);
}

#[test]
fn beamer_cools_when_released() {
    let cfg = beamer_cfg();
    let dt = 100_000;
    let mut s = BeamerState::new();
    for _ in 0..3 {
        BeamerSystem::update(&mut s, true, true, dt, &cfg);
    }
    assert_eq!(s.heating_progress, 300_000);
    BeamerSystem::update(&mut s, false, true, dt, &cfg);
    assert_eq!(s.heating_progress, 200_000);
    BeamerSystem::update(&mut s, false, true, 150_000, &cfg);
    assert_eq!(s.heating_progress, 50_000);
    BeamerSystem::update(&mut s, false, true, dt, &cfg);
    assert_eq!(s.heating_progress, 0);
}

#[test]
fn dead_tank_does_not_heat() {
    let cfg = beamer_cfg();
    let mut s = BeamerState::new();
    let a = BeamerSystem::update(&mut s, true, false, 100_000, &cfg);
    assert_eq!(s.heating_progress, 0);
    assert!(!a.spawn_heating);
}

fn cannon_tank() -> Tank {
    Tank::new(Team::P1, Weapon::default(), Class::Breach)
}

#[test]
fn cannon_fires_and_reloads() {
    let cfg = CannonConfig { shoot_time: 300_000 };
    let mut tank = cannon_tank();
    tank.is_shooting = true;
    assert_eq!(CannonSystem::update(&mut tank, Some(1), 100_000, &cfg), ShotOutcome::Fired);
    assert!(matches!(tank.weapon, Weapon::Cannon { shooting_timer: Some(200_000) }));
    assert_eq!(CannonSystem::update(&mut tank, Some(1), 100_000, &cfg), ShotOutcome::Idle);
    assert_eq!(CannonSystem::update(&mut tank, Some(1), 100_000, &cfg), ShotOutcome::Idle);
    assert!(matches!(tank.weapon, Weapon::Cannon { shooting_timer: None }));
    assert_eq!(CannonSystem::update(&mut tank, None, 100_000, &cfg), ShotOutcome::Fired);
    assert_eq!(tank.state, TankState::Alive);
}

#[test]
fn firing_into_a_wall_hits_the_shooter() {
    let cfg = CannonConfig { shoot_time: 300_000 };
    let mut tank = cannon_tank();
    tank.is_shooting = true;
    assert_eq!(CannonSystem::update(&mut tank, Some(2), 100_000, &cfg), ShotOutcome::SelfHit);
    assert_eq!(tank.state, TankState::Hit);
    assert!(matches!(tank.weapon, Weapon::Cannon { shooting_timer: None }));
}

#[test]
fn released_trigger_does_not_fire() {
    let cfg = CannonConfig { shoot_time: 300_000 };
    let mut tank = cannon_tank();
    assert_eq!(CannonSystem::update(&mut tank, Some(1), 100_000, &cfg), ShotOutcome::Idle);
}

#[test]
fn same_pickup_changes_nothing() {
    let mut spawns = SpawnSystem::new(4, 4);
    spawns.spawns_alive = 1;
    let mut w = Weapon::Cannon { shooting_timer: Some(5) };
    let p = spawns.pick_up(&mut w, &Weapon::default());
    assert!(!p.consumed);
    assert_eq!(spawns.spawns_alive, 1);
    assert!(matches!(w, Weapon::Cannon { shooting_timer: Some(5) }));
}

#[test]
fn other_pickup_replaces_and_tears_down() {
    let mut b = BeamerState::new();
    b.attach_heating(EntityId(3));
    let mut w = Weapon::Beamer(b);
    let mut spawns = SpawnSystem::new(4, 4);
    spawns.spawns_alive = 1;
    let p = spawns.pick_up(&mut w, &Weapon::Rocket { shooting_timer: None });
    assert!(p.consumed);
    assert_eq!(spawns.spawns_alive, 0);
    assert_eq!(p.despawn_heating, Some(EntityId(3)));
    assert_eq!(p.despawn_beam, None);
    assert!(matches!(w, Weapon::Rocket { shooting_timer: None }));
}

#[test]
fn beamer_locks_movement() {
    let cfg = beamer_cfg();
    let mut tank = Tank::new(Team::P2, Weapon::Beamer(BeamerState::new()), Class::Snipe);
    let locks = TankSystem::apply_input(&mut tank, true, false, &cfg);
    assert!(tank.is_shooting);
    assert_eq!(locks, MoveLocks { rotation: true, movement: false });
    let locks = TankSystem::apply_input(&mut tank, false, true, &cfg);
    assert!(tank.is_using_ability);
    assert_eq!(locks, MoveLocks { rotation: false, movement: false });
    tank.state = TankState::Destroyed;
    let locks = TankSystem::apply_input(&mut tank, true, false, &cfg);
    assert!(!tank.is_shooting);
    assert_eq!(locks, MoveLocks { rotation: true, movement: true });
}

#[test]
fn handles_carry_over() {
    let h = Handle { index: 4, generation: 2 };
    assert_eq!(tanks::physics::Body::new(h).handle, h);
    assert_eq!(tanks::physics::Collider::new(h).handle, h);
}

#[test]
fn beamer_with_uneven_ticks() {
    let cfg = beamer_cfg();
    let mut s = BeamerState::new();
    for d in [120_000u64, 50_000, 200_000] {
        BeamerSystem::update(&mut s, true, true, d, &cfg);
    }
    assert_eq!(s.heating_progress, 370_000);
    assert!(s.shooting_timer.is_none());
    let a = BeamerSystem::update(&mut s, true, true, 180_000, &cfg);
    assert!(a.spawn_beam);
    assert_eq!(s.shooting_timer, Some(820_000));
    BeamerSystem::update(&mut s, false, true, 800_000, &cfg);
    assert_eq!(s.shooting_timer, Some(20_000));
    BeamerSystem::update(&mut s, true, true, 30_000, &cfg);
    assert_eq!(s.shooting_timer, None);
    assert_eq!(s.heating_progress, 0);
    assert_eq!(s.overheat_timer, Some(1_970_000));
    BeamerSystem::update(&mut s, true, true, 1_970_000, &cfg);
    assert_eq!(s.overheat_timer, None);
    BeamerSystem::update(&mut s, true, true, 10_000, &cfg);
    assert_eq!(s.heating_progress, 10_000);
}
