use rand::rngs::StdRng;
use rand::SeedableRng;
use tanks::destroy::{DestroySystem, LevelSystem};
use tanks::level::{LevelError, MazeLevel, SpawnPoint};
use tanks::markers::{ColorKey, RocketMarker, TempMarker};
use tanks::maze::Cell;
use tanks::physics::Handle;
use tanks::raze::{HomingCandidate, RazeConfig, RazeSystem};
use tanks::scoreboard::Scoreboard;
use tanks::tank::{Class, Tank, TankState, Team};
use tanks::weapon::{ShotOutcome, Weapon};

fn h(i: usize) -> Handle {
    Handle { index: i, generation: 0 }
}

#[test]
fn round_reset_example() {
    let mut rng = StdRng::seed_from_u64(7);
    let mut level = MazeLevel::new(6, 4, &mut rng).unwrap();
    let mut scoreboard = Scoreboard::new();
    let mut tanks = vec![
        Tank::new(Team::P1, Weapon::Rocket { shooting_timer: Some(9) }, Class::Breach),
        Tank::new(Team::P2, Weapon::default(), Class::Breach),
    ];
    let colliders = vec![h(1), h(2)];
    let delay = 2_000_000;
    // a deadly collider touches tank A
    DestroySystem::mark_hit(&mut tanks, &colliders, &vec![h(9), h(1)]);
    assert_eq!(tanks[0].state, TankState::Hit);
    assert_eq!(tanks[1].state, TankState::Alive);
    let destroyed = DestroySystem::destroy_hit(&mut tanks, &mut scoreboard, &mut level.reset_timer, delay);
    assert_eq!(destroyed, vec![0]);
    assert_eq!(tanks[0].state, TankState::Destroyed);
    assert_eq!(level.reset_timer, Some(delay));
    // the countdown runs out after the delay
    assert!(!LevelSystem::tick_reset(&mut level.reset_timer, 1_500_000));
    assert!(LevelSystem::tick_reset(&mut level.reset_timer, 500_000));
    assert_eq!(level.reset_timer, None);
    LevelSystem::reset_round(&mut tanks, &mut scoreboard);
    let pieces = level.rebuild(&mut rng, false);
    assert!(!pieces.is_empty());
    assert_eq!(scoreboard.get_score(Team::P1), 0);
    assert_eq!(scoreboard.get_score(Team::P2), 1);
    assert!(tanks.iter().all(|t| t.state == TankState::Alive));
    assert!(matches!(tanks[0].weapon, Weapon::Cannon { shooting_timer: None }));
    let spawns = level.starting_positions();
    assert_eq!(spawns[0], SpawnPoint { cell: Cell::from(0, 0), angle_degrees: 0 });
    assert_eq!(spawns[1], SpawnPoint { cell: Cell::from(5, 3), angle_degrees: 180 });
}

#[test]
fn destroyed_tank_is_not_hit_again() {
    let mut tanks = vec![Tank::new(Team::P1, Weapon::default(), Class::Breach)];
    tanks[0].state = TankState::Destroyed;
    DestroySystem::mark_hit(&mut tanks, &vec![h(1)], &vec![h(1)]);
    assert_eq!(tanks[0].state, TankState::Destroyed);
}

#[test]
fn no_hit_leaves_timer() {
    let mut tanks = vec![Tank::new(Team::P1, Weapon::default(), Class::Breach)];
    let mut scoreboard = Scoreboard::new();
    let mut timer = None;
    let destroyed = DestroySystem::destroy_hit(&mut tanks, &mut scoreboard, &mut timer, 5);
    assert!(destroyed.is_empty());
    assert_eq!(timer, None);
}

#[test]
fn both_alive_both_score() {
    let mut scoreboard = Scoreboard::new();
    scoreboard.update_winners();
    scoreboard.update_winners();
    assert_eq!(scoreboard.get_score(Team::P1), 2);
    assert_eq!(scoreboard.get_score(Team::P2), 2);
    scoreboard.report_destroyed(Team::P1);
    scoreboard.update_winners();
    assert_eq!(scoreboard.get_score(Team::P1), 2);
    assert_eq!(scoreboard.get_score(Team::P2), 3);
}

#[test]
fn level_rejects_small_sizes() {
    let mut rng = StdRng::seed_from_u64(1);
    assert_eq!(MazeLevel::new(1, 5, &mut rng).err(), Some(LevelError::TooSmall));
    assert_eq!(MazeLevel::new(5, 0, &mut rng).err(), Some(LevelError::TooSmall));
    assert_eq!(MazeLevel::new(usize::MAX / 2, 3, &mut rng).err(), Some(LevelError::TooLarge));
    assert!(MazeLevel::new(2, 2, &mut rng).is_ok());
}

#[test]
fn wall_layout_lists_standing_walls() {
    let mut rng = StdRng::seed_from_u64(11);
    let level = MazeLevel::new(5, 4, &mut rng).unwrap();
    let m = &level.maze;
    let standing = m.walls_h.iter().flatten().filter(|w| **w).count() + m.walls_v.iter().flatten().filter(|w| **w).count();
    let layout = level.wall_layout(true);
    assert_eq!(layout.len(), standing);
    let borders = layout.iter().filter(|p| p.border).count();
    assert_eq!(borders, 2 * 5 + 2 * 4);
    assert!(layout.iter().all(|p| p.dynamic == !p.border));
    assert!(level.wall_layout(false).iter().all(|p| !p.dynamic));
}

#[test]
fn raze_fires_rockets_and_homes() {
    let cfg = RazeConfig { rocket_shoot_time: 1_000, rocket_radius: 100 };
    let mut tank = Tank::new(Team::P1, Weapon::default(), Class::Raze);
    tank.is_using_ability = true;
    assert_eq!(RazeSystem::update(&mut tank, Some(1), 10, &cfg), ShotOutcome::Fired);
    assert_eq!(tank.ability_refresh, Some(990));
    assert_eq!(RazeSystem::update(&mut tank, Some(1), 10, &cfg), ShotOutcome::Idle);
    let mut other = Tank::new(Team::P1, Weapon::default(), Class::Breach);
    other.is_using_ability = true;
    assert_eq!(RazeSystem::update(&mut other, Some(1), 10, &cfg), ShotOutcome::Idle);

    let rocket = RocketMarker(Team::P1);
    let candidates = vec![
        HomingCandidate { team: Team::P1, state: TankState::Alive, distance: 5 },
        HomingCandidate { team: Team::P2, state: TankState::Destroyed, distance: 10 },
        HomingCandidate { team: Team::P2, state: TankState::Stunned, distance: 40 },
        HomingCandidate { team: Team::P2, state: TankState::Alive, distance: 30 },
        HomingCandidate { team: Team::P2, state: TankState::Alive, distance: 300 },
    ];
    assert_eq!(RazeSystem::homing_target(&rocket, &candidates, cfg.rocket_radius), Some(3));
    assert_eq!(RazeSystem::homing_target(&rocket, &candidates[..2].to_vec(), cfg.rocket_radius), None);
    assert!(RazeSystem::in_sight(2));
    assert!(!RazeSystem::in_sight(3));
}

#[test]
fn temp_marker_expires() {
    let mut m = TempMarker(Some(250));
    assert!(!m.tick(100));
    assert!(!m.tick(100));
    assert!(m.tick(100));
    let mut forever = TempMarker(None);
    assert!(!forever.tick(1_000_000));
    assert_eq!(ColorKey::from_team(Team::P2), ColorKey::P2);
    assert_eq!(Team::P2.player_id(), 1);
}

#[test]
fn rebuild_returns_the_new_layout() {
    let mut rng = StdRng::seed_from_u64(21);
    let mut level = MazeLevel::new(4, 4, &mut rng).unwrap();
    let pieces = level.rebuild(&mut rng, false);
    let m = &level.maze;
    let standing = m.walls_h.iter().flatten().filter(|w| **w).count() + m.walls_v.iter().flatten().filter(|w| **w).count();
    assert_eq!(pieces.len(), standing);
    assert_eq!(pieces, level.wall_layout(false));
}
