use rand::rngs::StdRng;
use rand::SeedableRng;
use tanks::maze::Cell;
use tanks::spawn::{SpawnConfig, SpawnSystem};
use tanks::weapon::{BeamerState, Weapon};

#[test]
fn first_pickup_is_due_at_once_then_every_spawn_time() {
    let cfg = SpawnConfig { spawn_time: 1_000, max_spawns: 2 };
    let mut s = SpawnSystem::new(5, 5);
    assert!(s.tick(false, 10, &cfg));
    assert_eq!(s.spawns_alive, 1);
    assert_eq!(s.spawn_timer, 1_000);
    assert!(!s.tick(false, 600, &cfg));
    assert!(s.tick(false, 400, &cfg));
    assert_eq!(s.spawns_alive, 2);
    // at the limit the timer stands still
    assert!(!s.tick(false, 5_000, &cfg));
    assert_eq!(s.spawn_timer, 1_000);
    // a round reset clears the pickups and restarts the timer
    assert!(!s.tick(true, 100, &cfg));
    assert_eq!(s.spawns_alive, 0);
    assert_eq!(s.spawn_timer, 900);
}

#[test]
fn pickups_avoid_the_spawn_corners() {
    let s = SpawnSystem::new(2, 2);
    let mut rng = StdRng::seed_from_u64(5);
    for _ in 0..50 {
        let c = s.pick_cell(2, 2, &mut rng).unwrap();
        assert!(c != Cell::from(0, 0) && c != Cell::from(1, 1));
    }
    let one = SpawnSystem::new(1, 1);
    assert_eq!(one.pick_cell(1, 1, &mut rng), None);
}

#[test]
fn pickups_carry_cannons_or_beamers() {
    let mut rng = StdRng::seed_from_u64(9);
    let mut cannons = 0;
    for _ in 0..200 {
        match SpawnSystem::random_weapon(&mut rng) {
            Weapon::Cannon { shooting_timer: None } => cannons += 1,
            Weapon::Beamer(b) => assert_eq!(b.heating_progress, 0),
            _ => panic!("unexpected pickup"),
        }
    }
    assert!(cannons > 100 && cannons < 200);
    assert_eq!(SpawnSystem::sprite_number(&Weapon::default()), 0);
    assert_eq!(SpawnSystem::sprite_number(&Weapon::Beamer(BeamerState::new())), 1);
    assert_eq!(SpawnSystem::sprite_number(&Weapon::Rocket { shooting_timer: None }), 2);
}

#[test]
fn draw_decides_the_pickup_weapon() {
    assert!(matches!(SpawnSystem::weapon_for_draw(0), Weapon::Cannon { shooting_timer: None }));
    assert!(matches!(SpawnSystem::weapon_for_draw(7), Weapon::Cannon { shooting_timer: None }));
    assert!(matches!(SpawnSystem::weapon_for_draw(8), Weapon::Beamer(_)));
    assert!(matches!(SpawnSystem::weapon_for_draw(9), Weapon::Beamer(_)));
}
