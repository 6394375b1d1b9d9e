use grynthar::structs::{invert_team, Hex, Offset, Team, UnitType, SECOND};
use grynthar::unit::{Unit, READY};

fn hex(x: i32, y: i32) -> Hex {
    Hex { x, y }
}

const ALL: [UnitType; 6] = [
    UnitType::Engineer,
    UnitType::Infantry,
    UnitType::Turret,
    UnitType::Scout,
    UnitType::Medic,
    UnitType::Sniper,
];

#[test]
fn teams_oppose_each_other() {
    assert_eq!(invert_team(&Team::Player), Team::Computer);
    assert_eq!(invert_team(&Team::Computer), Team::Player);
    assert_eq!(invert_team(&invert_team(&Team::Player)), Team::Player);
}

#[test]
fn capability_table_holds_the_published_values() {
    let health = [120, 100, 50, 75, 90, 80];
    let cooldown = [1_200_000, 1_000_000, 900_000, 900_000, 1_500_000, 3_000_000];
    let damage = [10, 15, 8, 12, 8, 50];
    let pace = [100_000, 100_000, 100_000, 83_334, 100_000, 100_000];
    let reach = [15, 15, 15, 15, 15, 30];
    for (i, kind) in ALL.iter().enumerate() {
        assert_eq!(kind.max_health(), health[i]);
        assert_eq!(kind.cooldown(), cooldown[i]);
        assert_eq!(kind.damage(), damage[i]);
        assert_eq!(kind.pace(), pace[i]);
        assert_eq!(kind.reach(), reach[i]);
    }
}

#[test]
fn a_new_unit_rests_in_full_health_and_is_ready() {
    let u = Unit::new(&UnitType::Medic, hex(3, -4), 100_000);
    assert_eq!(u.kind, UnitType::Medic);
    assert_eq!(u.start_pos, hex(3, -4));
    assert_eq!(u.end_pos, hex(3, -4));
    assert_eq!(u.health, 90);
    assert_eq!(u.max_health, 90);
    assert_eq!(u.elapsed, 0);
    assert_eq!(u.speed, 100_000);
    assert_eq!(u.aim, None);
    assert_eq!(u.timer, READY);
    assert_eq!(READY, 5 * SECOND);
}

#[test]
fn healing_adds_half_and_stops_at_the_ceiling() {
    let mut u = Unit::new(&UnitType::Infantry, hex(0, 0), 100_000);
    u.health = 40;
    u.heal();
    assert_eq!(u.health, 60);
    u.heal();
    assert_eq!(u.health, 90);
    u.heal();
    assert_eq!(u.health, 100);
    u.heal();
    assert_eq!(u.health, 100);
    u.health = 67;
    u.heal();
    assert_eq!(u.health, 100);
    u.health = 1;
    u.heal();
    assert_eq!(u.health, 1);
    u.health = 3;
    u.heal();
    assert_eq!(u.health, 4);
}

#[test]
fn healing_leaves_a_unit_without_health_alone() {
    for kind in ALL.iter() {
        let mut u = Unit::new(kind, hex(0, 0), 100_000);
        u.health = 0;
        u.heal();
        assert_eq!(u.health, 0);
    }
}

#[test]
fn healing_never_passes_the_ceiling() {
    for kind in ALL.iter() {
        for health in 0..=kind.max_health() {
            let mut u = Unit::new(kind, hex(0, 0), 100_000);
            u.health = health;
            u.heal();
            assert!(u.health <= kind.max_health());
            assert!(u.health >= health);
        }
    }
}

#[test]
fn a_fresh_unit_fires_at_once_but_an_engineer_never() {
    for kind in ALL.iter() {
        let mut u = Unit::new(kind, hex(0, 0), 100_000);
        let ready = u.fire(Some(hex(2, 3)), 10);
        assert_eq!(ready, *kind != UnitType::Engineer);
    }
    let mut e = Unit::new(&UnitType::Engineer, hex(0, 0), 100_000);
    for _ in 0..100 {
        assert!(!e.fire(Some(hex(1, 1)), 1_000_000));
    }
    assert_eq!(e.aim, None);
    assert_eq!(e.timer, READY);
}

#[test]
fn the_cooldown_runs_until_it_is_over_and_then_waits() {
    let mut u = Unit::new(&UnitType::Sniper, hex(0, 0), 100_000);
    assert!(u.fire(None, 500_000));
    assert_eq!(u.timer, READY);
    u.zero_timer();
    assert_eq!(u.timer, 0);
    assert!(!u.fire(None, 1_000_000));
    assert_eq!(u.timer, 1_000_000);
    assert!(!u.fire(None, 1_000_000));
    assert!(!u.fire(None, 999_999));
    assert_eq!(u.timer, 2_999_999);
    assert!(!u.fire(None, 1));
    assert_eq!(u.timer, 3_000_000);
    // ready now, and the timer is left alone until the shot is confirmed
    assert!(u.fire(None, 700));
    assert!(u.fire(None, 700));
    assert_eq!(u.timer, 3_000_000);
}

#[test]
fn every_type_waits_its_own_cooldown() {
    for kind in ALL.iter() {
        if *kind == UnitType::Engineer {
            continue;
        }
        let mut u = Unit::new(kind, hex(0, 0), 100_000);
        u.zero_timer();
        let mut waited: u64 = 0;
        while !u.fire(None, 100_000) {
            waited += 100_000;
        }
        assert_eq!(waited, kind.cooldown());
    }
}

#[test]
fn firing_turns_the_unit_to_its_target() {
    let mut u = Unit::new(&UnitType::Infantry, hex(2, 5), 100_000);
    u.fire(Some(hex(-1, 9)), 0);
    assert_eq!(u.aim, Some(Offset { dx: -3, dy: 4 }));
    u.fire(None, 0);
    assert_eq!(u.aim, Some(Offset { dx: -3, dy: 4 }));
    let mut far = Unit::new(&UnitType::Infantry, hex(i32::MIN, i32::MAX), 100_000);
    far.fire(Some(hex(i32::MAX, i32::MIN)), 0);
    assert_eq!(far.aim, Some(Offset { dx: 4294967295, dy: -4294967295 }));
}

#[test]
fn a_unit_arrives_when_its_time_is_walked() {
    let mut u = Unit::new(&UnitType::Infantry, hex(0, 0), 100_000);
    u.end_pos = hex(1, 0);
    assert!(!u.update(60_000));
    assert_eq!(u.start_pos, hex(0, 0));
    assert_eq!(u.elapsed, 60_000);
    assert!(!u.update(39_999));
    assert_eq!(u.elapsed, 99_999);
    assert!(u.update(1));
    assert_eq!(u.start_pos, hex(1, 0));
    assert_eq!(u.end_pos, hex(1, 0));
    assert_eq!(u.elapsed, 0);
}

#[test]
fn a_scout_is_faster() {
    let mut s = Unit::new(&UnitType::Scout, hex(0, 0), UnitType::Scout.pace());
    s.end_pos = hex(0, 1);
    assert!(!s.update(83_333));
    assert!(s.update(1));
    assert_eq!(s.start_pos, hex(0, 1));
}

#[test]
fn a_unit_without_pace_is_there_at_once() {
    let mut t = Unit::new(&UnitType::Turret, hex(4, 4), 0);
    assert!(t.update(0));
    assert_eq!(t.start_pos, hex(4, 4));
}
