use grynthar::army::{order, prune, strike};
use grynthar::level::Level;
use grynthar::terrain::CELLS;
use grynthar::squad::{engage, locate, nearest, Action, Cue, Squad};
use grynthar::structs::{Hex, Offset, Team, UnitType, SECOND};
use grynthar::unit::Unit;

fn hex(x: i32, y: i32) -> Hex {
    Hex { x, y }
}

fn plain() -> Level {
    let mut seed = 0;
    loop {
        if let Ok(level) = Level::new(seed, &vec![0; CELLS]) {
            return level;
        }
        seed += 1;
    }
}

const TENTH: u32 = 100_000;
const HALF: u32 = 500_000;
const ONE: u32 = 1_000_000;

#[test]
fn a_new_squad_stands_in_a_row_and_its_last_member_leads() {
    let s = Squad::new(
        hex(3, -2),
        vec![UnitType::Infantry, UnitType::Scout, UnitType::Sniper],
        Team::Computer,
    );
    let units = s.units();
    assert_eq!(units.len(), 3);
    assert_eq!(units[0], Unit::new(&UnitType::Sniper, hex(5, -2), 100_000));
    assert_eq!(units[1], Unit::new(&UnitType::Scout, hex(4, -2), 83_334));
    assert_eq!(units[2], Unit::new(&UnitType::Infantry, hex(3, -2), 100_000));
    assert_eq!(s.start_pos(), hex(5, -2));
    assert_eq!(s.team(), Team::Computer);
    assert_eq!(s.goal(), None);
    assert!(s.busy());
    assert_eq!(s.action(), Action::Go);
    assert!(!s.engineer());
    assert!(!s.empty());
    assert!(s.any(UnitType::Scout));
    assert!(!s.any(UnitType::Medic));
}

#[test]
fn a_squad_with_an_engineer_waits_for_its_order() {
    let mut s = Squad::new(hex(0, 0), vec![UnitType::Engineer, UnitType::Infantry], Team::Player);
    assert!(s.engineer());
    assert!(!s.busy());
    assert_eq!(s.action(), Action::Go);
    s.set_action(Action::Wall);
    assert!(s.busy());
    assert_eq!(s.action(), Action::Wall);
    s.set_action(Action::Go);
    assert!(s.busy());
    assert_eq!(s.action(), Action::Go);
    let none = Squad::new(hex(0, 0), vec![], Team::Player);
    assert!(none.empty());
    assert!(none.busy());
}

#[test]
fn goals_are_set_and_given_up() {
    let mut s = Squad::new(hex(0, 1), vec![UnitType::Infantry], Team::Player);
    s.set_goal(Some(hex(4, 4)));
    assert_eq!(s.goal(), Some(hex(4, 4)));
    s.set_goal(None);
    assert_eq!(s.goal(), None);
}

#[test]
fn turning_round_lets_the_last_lead() {
    let mut s = Squad::new(
        hex(0, 0),
        vec![UnitType::Infantry, UnitType::Scout, UnitType::Sniper],
        Team::Player,
    );
    s.rev();
    let kinds: Vec<UnitType> = s.units().iter().map(|u| u.kind).collect();
    assert_eq!(kinds, vec![UnitType::Infantry, UnitType::Scout, UnitType::Sniper]);
    assert_eq!(s.start_pos(), hex(0, 0));
    s.rev();
    assert_eq!(s.start_pos(), hex(2, 0));
}

#[test]
fn positions_leave_out_turrets_on_demand() {
    let s = Squad::new(
        hex(1, 1),
        vec![UnitType::Turret, UnitType::Infantry, UnitType::Turret, UnitType::Medic],
        Team::Player,
    );
    assert_eq!(s.positions(true), vec![hex(4, 1), hex(3, 1), hex(2, 1), hex(1, 1)]);
    assert_eq!(s.positions(false), vec![hex(4, 1), hex(2, 1)]);
}

#[test]
fn a_path_is_taken_without_its_first_hex() {
    let mut s = Squad::new(hex(1, 1), vec![UnitType::Infantry, UnitType::Infantry], Team::Player);
    s.set_goal(Some(hex(4, 1)));
    let started = s.set_path(vec![hex(2, 1), hex(3, 1), hex(4, 1)]);
    assert!(started);
    assert_eq!(s.units()[0].end_pos, hex(3, 1));
    assert_eq!(s.units()[1].end_pos, hex(1, 1));
    assert_eq!(s.goal(), Some(hex(4, 1)));
    // setting out is announced once for each goal
    assert!(!s.set_path(vec![hex(2, 1), hex(3, 1), hex(4, 1)]));
    s.set_goal(Some(hex(5, 1)));
    assert!(s.set_path(vec![hex(2, 1), hex(3, 1)]));
    // a path of the standing place alone leaves the leader as it is
    assert!(!s.set_path(vec![hex(2, 1)]));
    assert_eq!(s.units()[0].end_pos, hex(3, 1));
    assert_eq!(s.goal(), Some(hex(5, 1)));
    // no path: the goal is given up
    assert!(!s.set_path(vec![]));
    assert_eq!(s.goal(), None);
}

#[test]
fn the_opponent_sets_out_in_silence() {
    let mut s = Squad::new(hex(1, 1), vec![UnitType::Infantry], Team::Computer);
    s.set_goal(Some(hex(4, 1)));
    assert!(!s.set_path(vec![hex(1, 1), hex(2, 1)]));
    assert_eq!(s.units()[0].end_pos, hex(2, 1));
}

#[test]
fn the_nearest_position_is_the_first_of_the_nearest() {
    let at = hex(0, 0);
    assert_eq!(nearest(&[hex(5, 5)], &at), 0);
    assert_eq!(nearest(&[hex(5, 5), hex(1, 2), hex(3, 0), hex(0, -3)], &at), 1);
    assert_eq!(nearest(&[hex(5, 5), hex(2, 2), hex(4, 0), hex(0, -4)], &at), 1);
    assert_eq!(nearest(&[hex(3, 3), hex(0, 0), hex(0, 0)], &at), 1);
}

#[test]
fn units_are_found_where_they_stand() {
    let s = Squad::new(hex(0, 0), vec![UnitType::Infantry, UnitType::Infantry], Team::Player);
    assert_eq!(locate(s.units(), hex(1, 0)), Some(0));
    assert_eq!(locate(s.units(), hex(0, 0)), Some(1));
    assert_eq!(locate(s.units(), hex(2, 0)), None);
    let twice = vec![s.units()[1], s.units()[0], s.units()[1]];
    assert_eq!(locate(&twice, hex(0, 0)), Some(0));
}

#[test]
fn a_hit_takes_health_from_the_first_unit_on_its_hex() {
    let mut s = Squad::new(hex(0, 0), vec![UnitType::Infantry, UnitType::Sniper], Team::Player);
    assert_eq!(s.wound(hex(0, 0), 15), Some((UnitType::Infantry, false)));
    assert_eq!(s.units()[1].health, 85);
    assert_eq!(s.units()[0].health, 80);
    assert_eq!(s.wound(hex(0, 0), 84), Some((UnitType::Infantry, false)));
    assert_eq!(s.units()[1].health, 1);
    assert_eq!(s.wound(hex(0, 0), 50), Some((UnitType::Infantry, true)));
    assert_eq!(s.units()[1].health, 0);
    assert_eq!(s.wound(hex(1, 0), 80), Some((UnitType::Sniper, true)));
    assert_eq!(s.wound(hex(5, 5), 80), None);
    // health never passes the ceiling
    let mut t = Squad::new(hex(0, 0), vec![UnitType::Scout], Team::Player);
    assert_eq!(t.wound(hex(0, 0), -10), Some((UnitType::Scout, false)));
    assert_eq!(t.units()[0].health, 75);
}

#[test]
fn the_fallen_are_removed_by_the_next_update() {
    let mut level = plain();
    let mut s = Squad::new(
        hex(2, 2),
        vec![UnitType::Infantry, UnitType::Scout, UnitType::Sniper],
        Team::Computer,
    );
    let out = s.update(&[hex(3, 2), hex(9, 9)], &[], &mut level, TENTH);
    assert_eq!(out.0, vec![]);
    assert_eq!((out.1, out.2), (0, 0));
    let kinds: Vec<UnitType> = s.units().iter().map(|u| u.kind).collect();
    assert_eq!(kinds, vec![UnitType::Sniper, UnitType::Infantry]);
    s.update(&[hex(4, 2), hex(2, 2), hex(2, 2)], &[], &mut level, TENTH);
    assert!(s.empty());
}

#[test]
fn a_squad_next_to_a_free_control_point_takes_it_after_five_seconds_once() {
    let mut level = plain();
    let mut s = Squad::new(hex(1, 0), vec![UnitType::Infantry], Team::Player);
    assert_eq!(s.action(), Action::Go);
    let mut heard = Vec::new();
    for tick in 1..=4 {
        let out = s.update(&[], &[], &mut level, ONE);
        heard.extend(out.3);
        assert!(level.is_capturable(&hex(0, 0), &Team::Player), "after {} s", tick);
    }
    let out = s.update(&[], &[], &mut level, ONE);
    heard.extend(out.3);
    assert!(!level.is_capturable(&hex(0, 0), &Team::Player));
    assert!(level.is_capturable(&hex(0, 0), &Team::Computer));
    assert_eq!(heard, vec![Cue::Controlled]);
    for _ in 0..20 {
        let out = s.update(&[], &[], &mut level, ONE);
        assert!(out.3.is_empty());
        assert!(!level.is_capturable(&hex(0, 0), &Team::Player));
    }
    assert_eq!(level.control_player(), 10);
}

#[test]
fn a_control_point_is_taken_back_from_the_other_side() {
    let mut level = plain();
    level.capture(&hex(0, 0), &Team::Player);
    let mut s = Squad::new(hex(-1, 1), vec![UnitType::Infantry, UnitType::Infantry], Team::Computer);
    assert_eq!(s.positions(true), vec![hex(0, 1), hex(-1, 1)]);
    // both units stand next to the control point; its time runs no faster for that
    for _ in 0..4 {
        s.update(&[], &[], &mut level, ONE);
        assert!(level.is_capturable(&hex(0, 0), &Team::Computer));
    }
    let out = s.update(&[], &[], &mut level, ONE);
    assert!(!level.is_capturable(&hex(0, 0), &Team::Computer));
    assert!(level.is_capturable(&hex(0, 0), &Team::Player));
    assert!(out.3.is_empty());
    assert!(!level.is_visible(&hex(0, 0)));
}

#[test]
fn a_wall_is_built_in_a_second_and_torn_down_in_another() {
    let mut level = plain();
    let mut s = Squad::new(hex(3, 3), vec![UnitType::Engineer], Team::Player);
    let site = hex(4, 3);
    s.set_action(Action::Wall);
    s.set_goal(Some(site));
    assert_eq!(s.site(), None);
    let out = s.update(&[], &[], &mut level, HALF);
    assert_eq!((out.1, out.2), (0, 0));
    assert_eq!(s.goal(), None);
    assert_eq!(s.site(), Some((site, 500_000)));
    assert!(!level.get(&site));
    let out = s.update(&[], &[], &mut level, HALF);
    assert_eq!((out.1, out.2), (1, 0));
    assert_eq!(s.site(), None);
    assert!(level.wall(&site));
    assert!(level.is_solid(&site));
    // nothing more is built without a new goal
    for _ in 0..5 {
        let out = s.update(&[], &[], &mut level, HALF);
        assert_eq!((out.1, out.2), (0, 0));
    }
    s.set_action(Action::Destroy);
    s.set_goal(Some(site));
    let out = s.update(&[], &[], &mut level, HALF);
    assert_eq!((out.1, out.2), (0, 0));
    assert!(level.wall(&site));
    let out = s.update(&[], &[], &mut level, HALF);
    assert_eq!((out.1, out.2), (-1, 0));
    assert!(!level.get(&site));
    assert!(!level.is_solid(&site));
    assert_eq!(level.tile(&site), None);
}

#[test]
fn a_turret_joins_the_squad_where_it_was_built() {
    let mut level = plain();
    let mut s = Squad::new(hex(3, 3), vec![UnitType::Engineer], Team::Player);
    let site = hex(3, 4);
    s.set_action(Action::Turret);
    s.set_goal(Some(site));
    s.update(&[], &[], &mut level, HALF);
    let out = s.update(&[], &[], &mut level, HALF);
    assert_eq!((out.1, out.2), (0, 1));
    assert_eq!(s.units().len(), 2);
    assert_eq!(s.units()[1], Unit::new(&UnitType::Turret, site, 0));
    assert!(!level.get(&site));
    assert_eq!(s.positions(false), vec![hex(3, 3)]);
}

#[test]
fn nothing_is_torn_down_where_no_wall_stands() {
    let mut level = plain();
    let mut s = Squad::new(hex(3, 3), vec![UnitType::Engineer], Team::Player);
    s.set_action(Action::Destroy);
    s.set_goal(Some(hex(4, 3)));
    for _ in 0..4 {
        let out = s.update(&[], &[], &mut level, HALF);
        assert_eq!((out.1, out.2), (0, 0));
    }
    assert_eq!(s.goal(), Some(hex(4, 3)));
}

#[test]
fn a_medic_heals_the_squad_every_second_but_no_turret() {
    let mut level = plain();
    let mut s = Squad::new(
        hex(3, 3),
        vec![UnitType::Turret, UnitType::Infantry, UnitType::Medic],
        Team::Computer,
    );
    s.wound(hex(4, 3), 60);
    s.wound(hex(3, 3), 30);
    s.update(&[], &[], &mut level, HALF);
    assert_eq!(s.units()[1].health, 40);
    s.update(&[], &[], &mut level, HALF);
    assert_eq!(s.units()[1].health, 60);
    assert_eq!(s.units()[2].health, 20);
    assert_eq!(s.units()[0].health, 90);
    s.update(&[], &[], &mut level, ONE);
    assert_eq!(s.units()[1].health, 90);
    s.update(&[], &[], &mut level, ONE);
    assert_eq!(s.units()[1].health, 100);
    let mut alone = Squad::new(hex(6, 6), vec![UnitType::Infantry], Team::Computer);
    alone.wound(hex(6, 6), 60);
    alone.update(&[], &[], &mut level, ONE);
    assert_eq!(alone.units()[0].health, 40);
}

#[test]
fn a_unit_shoots_the_nearest_enemy_it_sees() {
    let mut level = plain();
    let mut s = Squad::new(hex(5, 5), vec![UnitType::Infantry], Team::Computer);
    let enemies = [hex(5, 9), hex(5, 8), hex(8, 5)];
    // the target is hidden: no shot, but the cooldown is not reset either
    let out = s.update(&[], &enemies, &mut level, TENTH);
    assert!(out.0.is_empty());
    assert_eq!(s.units()[0].aim, None);
    level.visible(hex(5, 8), 0, true);
    let out = s.update(&[], &enemies, &mut level, TENTH);
    assert_eq!(out.0, vec![(hex(5, 8), 15)]);
    assert_eq!(out.3, vec![Cue::Fire { turret: false }]);
    assert_eq!(s.units()[0].aim, Some(Offset { dx: 0, dy: 3 }));
    assert_eq!(s.units()[0].timer, 0);
    // the next shot comes when the cooldown of a second is over
    let mut waited = 0;
    loop {
        let out = s.update(&[], &enemies, &mut level, TENTH);
        if !out.0.is_empty() {
            break;
        }
        waited += TENTH;
    }
    assert_eq!(waited as u64, SECOND);
}

#[test]
fn every_type_deals_its_own_damage() {
    let kinds = [UnitType::Infantry, UnitType::Scout, UnitType::Medic, UnitType::Turret, UnitType::Sniper];
    let damage = [15, 12, 8, 8, 50];
    for (kind, points) in kinds.iter().zip(damage.iter()) {
        let mut level = plain();
        level.visible(hex(5, 8), 0, true);
        let mut s = Squad::new(hex(5, 5), vec![*kind], Team::Computer);
        let out = s.update(&[], &[hex(5, 8)], &mut level, TENTH);
        assert_eq!(out.0, vec![(hex(5, 8), *points)]);
        assert_eq!(out.3, vec![Cue::Fire { turret: *kind == UnitType::Turret }]);
    }
    let mut level = plain();
    level.visible(hex(5, 8), 0, true);
    let mut e = Squad::new(hex(5, 5), vec![UnitType::Engineer], Team::Computer);
    e.set_action(Action::Go);
    assert!(e.update(&[], &[hex(5, 8)], &mut level, TENTH).0.is_empty());
}

#[test]
fn shots_reach_less_than_fifteen_steps_and_a_sniper_twice_as_far() {
    let mut level = plain();
    for x in -9..9 {
        for y in -9..9 {
            level.visible(hex(x, y), 0, true);
        }
    }
    let from = hex(-7, -7);
    let mut unit = Unit::new(&UnitType::Infantry, from, 100_000);
    assert_eq!(engage(&mut unit, &level, &[hex(7, -7)], 0), Some((hex(7, -7), 15)));
    let mut unit = Unit::new(&UnitType::Infantry, from, 100_000);
    assert_eq!(engage(&mut unit, &level, &[hex(8, -7)], 0), None);
    assert_eq!(unit.timer, 5_000_000);
    let mut unit = Unit::new(&UnitType::Infantry, from, 100_000);
    assert_eq!(engage(&mut unit, &level, &[hex(0, 0 + 1)], 0), None);
    let mut sniper = Unit::new(&UnitType::Sniper, hex(-9, -9), 100_000);
    assert_eq!(engage(&mut sniper, &level, &[hex(8, 3)], 0), Some((hex(8, 3), 50)));
    let mut sniper = Unit::new(&UnitType::Sniper, hex(-9, -9), 100_000);
    assert_eq!(engage(&mut sniper, &level, &[hex(8, 4)], 0), None);
    let mut idle = Unit::new(&UnitType::Sniper, hex(-9, -9), 100_000);
    assert_eq!(engage(&mut idle, &level, &[], 77), None);
    assert_eq!(idle, Unit::new(&UnitType::Sniper, hex(-9, -9), 100_000));
}

#[test]
fn a_sniper_shoots_what_it_does_not_see_but_not_through_walls() {
    let mut level = plain();
    let mut s = Squad::new(hex(5, 5), vec![UnitType::Sniper], Team::Computer);
    level.set(&hex(5, 7));
    let out = s.update(&[], &[hex(5, 9)], &mut level, TENTH);
    assert!(out.0.is_empty());
    assert_eq!(s.units()[0].aim, Some(Offset { dx: 0, dy: 4 }));
    level.delete(&hex(5, 7));
    let out = s.update(&[], &[hex(5, 9)], &mut level, TENTH);
    assert_eq!(out.0, vec![(hex(5, 9), 50)]);
}

#[test]
fn the_player_sees_round_its_units_and_further_round_scouts() {
    let mut level = plain();
    let mut s = Squad::new(hex(3, 3), vec![UnitType::Infantry], Team::Player);
    s.update(&[], &[], &mut level, TENTH);
    assert_eq!(level.visible_hexes().len(), 19);
    assert!(level.is_visible(&hex(5, 3)));
    assert!(!level.is_visible(&hex(6, 3)));
    assert_eq!(s.visible_units(&level).len(), 1);
    let mut level = plain();
    let mut scouts =
        Squad::new(hex(3, 3), vec![UnitType::Scout, UnitType::Infantry, UnitType::Infantry], Team::Player);
    scouts.update(&[], &[], &mut level, TENTH);
    // the scout stands on (3, 3) and sees six steps far
    assert!(level.is_visible(&hex(9, 3)));
    assert!(level.is_visible(&hex(-3, 3)));
    assert!(!level.is_visible(&hex(10, 3)));
    let mut level = plain();
    let mut foe = Squad::new(hex(3, 3), vec![UnitType::Scout], Team::Computer);
    foe.update(&[], &[], &mut level, TENTH);
    assert!(level.visible_hexes().is_empty());
    assert!(foe.visible_units(&level).is_empty());
}

fn walk(s: &mut Squad, level: &mut Level, ticks: usize) {
    for _ in 0..ticks {
        let obstacles = s.positions(true);
        order(s, level, &obstacles, true);
        s.update(&[], &[], level, TENTH);
    }
}

#[test]
fn a_squad_walks_to_its_goal_in_single_file() {
    let mut level = plain();
    let mut s = Squad::new(hex(2, 2), vec![UnitType::Infantry, UnitType::Infantry, UnitType::Infantry], Team::Computer);
    assert_eq!(s.positions(true), vec![hex(4, 2), hex(3, 2), hex(2, 2)]);
    s.set_goal(Some(hex(8, 2)));
    // the leader sets out first; each other unit follows to where the
    // unit before it stood when it last arrived
    walk(&mut s, &mut level, 1);
    assert_eq!(s.positions(true), vec![hex(5, 2), hex(3, 2), hex(2, 2)]);
    walk(&mut s, &mut level, 1);
    assert_eq!(s.positions(true), vec![hex(6, 2), hex(5, 2), hex(3, 2)]);
    walk(&mut s, &mut level, 1);
    assert_eq!(s.positions(true), vec![hex(7, 2), hex(6, 2), hex(5, 2)]);
    walk(&mut s, &mut level, 1);
    assert_eq!(s.positions(true), vec![hex(8, 2), hex(7, 2), hex(6, 2)]);
    walk(&mut s, &mut level, 5);
    assert_eq!(s.positions(true), vec![hex(8, 2), hex(7, 2), hex(6, 2)]);
    assert_eq!(s.goal(), Some(hex(8, 2)));
}

#[test]
fn a_squad_that_finds_no_way_turns_round_or_gives_up() {
    let mut level = plain();
    for n in Level::neighbours(&hex(5, 5)) {
        level.set(&n);
    }
    let mut s = Squad::new(hex(1, 1), vec![UnitType::Infantry, UnitType::Scout], Team::Player);
    s.set_goal(Some(hex(5, 5)));
    assert!(!order(&mut s, &level, &[], true));
    assert_eq!(s.goal(), None);
    assert_eq!(s.units()[0].kind, UnitType::Infantry);
    let mut t = Squad::new(hex(1, 1), vec![UnitType::Infantry, UnitType::Scout], Team::Computer);
    t.set_goal(Some(hex(5, 5)));
    assert!(!order(&mut t, &level, &[], false));
    assert_eq!(t.goal(), None);
    assert_eq!(t.units()[0].kind, UnitType::Scout);
    // the leader is hemmed in by its own file; the last unit is not
    let mut level = plain();
    for h in [hex(3, 0), hex(3, 1), hex(2, 2), hex(1, 2), hex(2, 0)] {
        level.set(&h);
    }
    let mut u = Squad::new(hex(1, 1), vec![UnitType::Infantry, UnitType::Infantry], Team::Player);
    u.set_goal(Some(hex(-4, 1)));
    let obstacles = u.positions(true);
    assert!(order(&mut u, &level, &obstacles, true));
    assert_eq!(u.start_pos(), hex(1, 1));
    assert_eq!(u.goal(), Some(hex(-4, 1)));
}

#[test]
fn hits_go_to_the_first_squad_with_a_unit_on_the_hex() {
    let mut squads = vec![
        Squad::new(hex(0, 0), vec![UnitType::Infantry, UnitType::Infantry], Team::Player),
        Squad::new(hex(1, 0), vec![UnitType::Engineer], Team::Player),
        Squad::new(hex(0, 5), vec![UnitType::Scout], Team::Player),
    ];
    let fallen = strike(
        &mut squads,
        &[(hex(1, 0), 30), (hex(0, 5), 75), (hex(9, 9), 100), (hex(1, 0), 70), (hex(1, 0), 1)],
    );
    assert_eq!(
        fallen,
        vec![(hex(0, 5), UnitType::Scout), (hex(1, 0), UnitType::Infantry), (hex(1, 0), UnitType::Infantry)]
    );
    assert_eq!(squads[0].units()[0].health, 0);
    assert_eq!(squads[0].units()[1].health, 100);
    assert_eq!(squads[1].units()[0].health, 120);
    assert_eq!(squads[2].units()[0].health, 0);
}

#[test]
fn a_hit_reduces_the_health_of_its_target_alone() {
    let mut squads = vec![
        Squad::new(hex(0, 0), vec![UnitType::Infantry, UnitType::Sniper], Team::Computer),
        Squad::new(hex(0, 1), vec![UnitType::Medic], Team::Computer),
    ];
    let fallen = strike(&mut squads, &[(hex(0, 0), 15)]);
    assert!(fallen.is_empty());
    assert_eq!(squads[0].units()[1].health, 85);
    assert_eq!(squads[0].units()[0].health, 80);
    assert_eq!(squads[1].units()[0].health, 90);
    let fallen = strike(&mut squads, &[(hex(0, 0), 85)]);
    assert_eq!(fallen, vec![(hex(0, 0), UnitType::Infantry)]);
    let mut level = plain();
    squads[0].update(&[hex(0, 0)], &[], &mut level, TENTH);
    assert_eq!(squads[0].units().len(), 1);
    assert_eq!(squads[0].units()[0].kind, UnitType::Sniper);
    assert_eq!(squads[0].units()[0].health, 80);
}

#[test]
fn squads_without_units_are_dropped() {
    let mut squads = vec![
        Squad::new(hex(0, 0), vec![], Team::Player),
        Squad::new(hex(1, 0), vec![UnitType::Engineer], Team::Player),
        Squad::new(hex(0, 5), vec![], Team::Player),
        Squad::new(hex(0, 6), vec![], Team::Player),
        Squad::new(hex(0, 7), vec![UnitType::Scout], Team::Player),
    ];
    prune(&mut squads);
    assert_eq!(squads.len(), 2);
    assert_eq!(squads[0].start_pos(), hex(1, 0));
    assert_eq!(squads[1].start_pos(), hex(0, 7));
    prune(&mut squads);
    assert_eq!(squads.len(), 2);
}

#[test]
fn the_time_held_runs_once_for_the_squad_however_many_units_hold() {
    let mut level = plain();
    let mut s = Squad::new(hex(0, -1), vec![UnitType::Infantry, UnitType::Infantry], Team::Player);
    assert_eq!(s.positions(true), vec![hex(1, -1), hex(0, -1)]);
    let out = s.update(&[], &[], &mut level, 2_500_000);
    assert_eq!((out.0, out.1, out.2), (vec![], 0, 0));
    assert!(out.3.is_empty());
    assert!(level.is_capturable(&hex(0, 0), &Team::Player));
    assert_eq!(level.control_player(), 0);
    let out = s.update(&[], &[], &mut level, 2_499_999);
    assert!(out.3.is_empty());
    assert!(level.is_capturable(&hex(0, 0), &Team::Player));
    let out = s.update(&[], &[], &mut level, 1);
    assert_eq!(out.3, vec![Cue::Controlled]);
    assert!(!level.is_capturable(&hex(0, 0), &Team::Player));
    assert_eq!(level.control_player(), 10);
}
