use grynthar::bot::{Attempt, Bot};
use grynthar::terrain::ATTEMPTS;
use grynthar::game::{seed, Game, GameResult};
use grynthar::level::Level;
use grynthar::terrain::{GenerationError, CELLS, CONTROLS};
use grynthar::player::{clamp, flatten, Orders, Player};
use grynthar::squad::{Action, Cue};
use grynthar::structs::{Difficulty, Hex, Team, TileType, UnitType};

fn hex(x: i32, y: i32) -> Hex {
    Hex { x, y }
}

fn flat() -> Vec<i32> {
    vec![0; CELLS]
}

fn plain() -> Level {
    let mut seed = 0;
    loop {
        if let Ok(level) = Level::new(seed, &flat()) {
            return level;
        }
        seed += 1;
    }
}

/// A game in the world of the first seed that leaves room for all control
/// points.
fn game(units: Vec<Vec<UnitType>>, difficulty: Difficulty) -> Game {
    let mut seed = seed();
    loop {
        if let Ok(game) = Game::new(units.clone(), difficulty, seed, &flat()) {
            return game;
        }
        seed += 1;
    }
}

const TENTH: u32 = 100_000;
const HALF: u32 = 500_000;
const ONE: u32 = 1_000_000;

fn idle() -> Orders {
    Orders { goal: hex(50, 50), clicked: false, go: false, wall: false, turret: false, destroy: false }
}

fn click(at: Hex) -> Orders {
    Orders { goal: at, clicked: true, ..idle() }
}

fn far_point(level: &Level) -> Hex {
    *level.find_captures().iter().find(|p| **p != hex(0, 0)).unwrap()
}

#[test]
fn the_opponent_raises_two_squads_for_each_control_point_and_three_when_hard() {
    let mut level = plain();
    let goals = level.find_captures();
    let base = far_point(&level);
    let bot = Bot::spawn(&mut level, Difficulty::Normal, &goals, base);
    assert_eq!(bot.squads().len(), 2 * CONTROLS);
    assert!(!bot.lose());
    let mut level = plain();
    let bot = Bot::spawn(&mut level, Difficulty::Hard, &goals, base);
    assert_eq!(bot.squads().len(), 3 * CONTROLS);
    // with fewer control points there are fewer squads
    let mut level = plain();
    let few = vec![goals[0], goals[1], goals[2]];
    assert_eq!(Bot::spawn(&mut level, Difficulty::Normal, &few, few[1]).squads().len(), 6);
    assert_eq!(Bot::spawn(&mut level, Difficulty::Hard, &few, few[1]).squads().len(), 9);
}

#[test]
fn the_squads_of_the_opponent_start_in_a_column_and_share_the_goals() {
    let mut level = plain();
    let all = level.find_captures();
    let goals = vec![all[0], all[1], all[2]];
    let base = *goals.iter().find(|g| **g != hex(0, 0)).unwrap();
    let bot = Bot::spawn(&mut level, Difficulty::Normal, &goals, base);
    assert_eq!(level.tile(&base).unwrap().kind, TileType::Control(Some(Team::Computer)));
    assert!(level.is_capturable(&base, &Team::Player));
    assert!(!level.is_capturable(&base, &Team::Computer));
    for (i, squad) in bot.squads().iter().enumerate() {
        let kinds: Vec<UnitType> = squad.units().iter().map(|u| u.kind).collect();
        assert_eq!(
            kinds,
            vec![
                UnitType::Infantry,
                UnitType::Infantry,
                UnitType::Infantry,
                UnitType::Sniper,
                UnitType::Sniper
            ]
        );
        let y = base.y + i as i32;
        let x = base.x;
        assert_eq!(
            squad.positions(true),
            vec![hex(x + 4, y), hex(x + 3, y), hex(x + 2, y), hex(x + 1, y), hex(x, y)]
        );
        assert_eq!(squad.goal(), Some(goals[i % 3]));
        assert_eq!(squad.team(), Team::Computer);
        assert_eq!(squad.action(), Action::Go);
    }
    let hard = Bot::spawn(&mut level, Difficulty::Hard, &goals, base);
    let sent: Vec<Hex> = hard.squads().iter().map(|s| s.goal().unwrap()).collect();
    assert_eq!(
        sent,
        vec![
            goals[0], goals[0], goals[1], goals[1], goals[2], goals[2], goals[0], goals[0],
            goals[1]
        ]
    );
    assert_eq!(hard.positions().len(), 9);
    assert_eq!(
        hard.positions()[2],
        vec![
            hex(base.x + 4, base.y + 2),
            hex(base.x + 3, base.y + 2),
            hex(base.x + 2, base.y + 2),
            hex(base.x + 1, base.y + 2),
            hex(base.x, base.y + 2)
        ]
    );
    // a base that is no control point is given to nobody
    let mut level = plain();
    Bot::spawn(&mut level, Difficulty::Normal, &goals, hex(5, 5));
    assert_eq!(level.tile(&hex(5, 5)), None);
}

#[test]
fn the_opponent_arrives_at_a_control_point_away_from_the_origin() {
    let mut level = plain();
    let bot = Bot::new(&mut level, Difficulty::Normal).unwrap();
    assert_eq!(bot.squads().len(), 2 * CONTROLS);
    let held: Vec<Hex> = level
        .find_captures()
        .into_iter()
        .filter(|p| level.tile(p).unwrap().kind == TileType::Control(Some(Team::Computer)))
        .collect();
    assert_eq!(held.len(), 1);
    assert!(held[0] != hex(0, 0));
    assert_eq!(bot.squads()[0].units()[4].start_pos, held[0]);
    let goals = level.find_captures();
    for squad in bot.squads() {
        assert!(goals.contains(&squad.goal().unwrap()));
    }
}

#[test]
fn without_a_control_point_away_from_the_origin_no_opponent_arrives() {
    let mut level = plain();
    for p in level.find_captures() {
        if p != hex(0, 0) {
            level.delete(&p);
        }
    }
    assert!(Bot::new(&mut level, Difficulty::Hard).is_none());
    level.delete(&hex(0, 0));
    assert!(Bot::new(&mut level, Difficulty::Normal).is_none());
    assert!(level.find_captures().is_empty());
}

#[test]
fn the_opponent_takes_hits_and_loses_when_its_last_squad_falls() {
    let mut level = plain();
    let goals = vec![hex(30, 30)];
    level.set(&goals[0]);
    let mut bot = Bot::spawn(&mut level, Difficulty::Normal, &goals, goals[0]);
    assert_eq!(bot.squads().len(), 2);
    let hits = vec![(hex(34, 30), 100), (hex(33, 30), 99), (hex(31, 31), 80), (hex(0, 0), 100)];
    let out = bot.update((vec![], vec![], hits), &mut level, TENTH);
    assert!(out.0.is_empty());
    assert_eq!(bot.squads()[0].units().len(), 4);
    assert_eq!(bot.squads()[0].units()[0].health, 1);
    assert_eq!(bot.squads()[1].units().len(), 4);
    assert!(!bot.lose());
    let mut all = Vec::new();
    for squad in bot.squads() {
        for unit in squad.units() {
            all.push((unit.start_pos, 120));
        }
    }
    assert_eq!(all.len(), 8);
    bot.update((vec![], vec![], all), &mut level, 1);
    assert!(bot.lose());
    assert!(bot.squads().is_empty());
}

#[test]
fn the_squads_of_the_opponent_walk_and_shoot() {
    let mut level = plain();
    let goals = vec![hex(0, 0)];
    let base = hex(6, -4);
    level.set(&base);
    let mut bot = Bot::spawn(&mut level, Difficulty::Normal, &goals, base);
    let target = hex(6, 3);
    level.visible(target, 0, true);
    let obstacles: Vec<Hex> = bot.positions().concat();
    let out = bot.update((obstacles, vec![target], vec![]), &mut level, TENTH);
    assert!(!out.0.is_empty());
    assert!(out.0.iter().all(|(at, _)| *at == target));
    assert_eq!(out.0.len(), out.1.len());
    assert!(out.1.iter().all(|c| *c == Cue::Fire { turret: false }));
    // the leaders have somewhere to go
    assert!(bot.squads().iter().all(|s| s.goal() == Some(hex(0, 0))));
    let before = bot.squads()[1].start_pos();
    let obstacles: Vec<Hex> = bot.positions().concat();
    bot.update((obstacles, vec![], vec![]), &mut level, TENTH);
    assert!(bot.squads()[1].start_pos() != before || bot.squads()[0].start_pos() != hex(10, -4));
}

#[test]
fn a_new_player_has_one_squad_for_each_description() {
    let mut p = Player::new(vec![
        vec![UnitType::Engineer, UnitType::Infantry],
        vec![UnitType::Scout],
        vec![UnitType::Sniper, UnitType::Medic, UnitType::Infantry],
    ]);
    assert_eq!(p.squads().len(), 3);
    assert_eq!(p.squads()[0].positions(true), vec![hex(1, 1), hex(0, 1)]);
    assert_eq!(p.squads()[0].units()[0].kind, UnitType::Engineer);
    assert_eq!(p.squads()[1].positions(true), vec![hex(0, -1)]);
    assert_eq!(p.squads()[2].positions(true), vec![hex(2, -2), hex(1, -2), hex(0, -2)]);
    assert_eq!(p.squads()[2].units()[0].kind, UnitType::Sniper);
    assert!(p.squads().iter().all(|s| s.team() == Team::Player));
    assert_eq!((p.fine(), p.walls(), p.turrets(), p.current()), (0, 0, 0, None));
    assert_eq!(p.fine, 0);
    assert!(!p.lose());
    assert!(Player::new(vec![]).lose());
}

#[test]
fn groups_are_joined_and_counters_kept_in_their_bounds() {
    assert_eq!(
        flatten(&vec![vec![hex(1, 1)], vec![], vec![hex(2, 2), hex(3, 3)]]),
        vec![hex(1, 1), hex(2, 2), hex(3, 3)]
    );
    assert!(flatten(&vec![]).is_empty());
    assert_eq!(clamp(5), 5);
    assert_eq!(clamp(-7), -7);
    assert_eq!(clamp(i32::MAX as i128 + 1), i32::MAX);
    assert_eq!(clamp(i32::MIN as i128 - 1), i32::MIN);
}

#[test]
fn a_click_selects_a_squad_and_the_next_sends_it() {
    let mut level = plain();
    let mut p = Player::new(vec![vec![UnitType::Infantry], vec![UnitType::Scout]]);
    let out = p.update(&vec![], vec![vec![hex(9, 9)]], &mut level, click(hex(0, -1)), TENTH);
    assert_eq!(out.0, vec![hex(9, 9), hex(0, 1), hex(0, -1)]);
    assert_eq!(out.1, vec![hex(0, 1), hex(0, -1)]);
    assert_eq!(p.current(), Some(1));
    assert_eq!(p.squads()[1].goal(), None);
    let out = p.update(&vec![], vec![], &mut level, click(hex(0, -4)), TENTH);
    assert_eq!(out.3, vec![Cue::StartGo]);
    assert_eq!(p.squads()[1].goal(), Some(hex(0, -4)));
    assert_eq!(p.squads()[0].goal(), None);
    for _ in 0..3 {
        p.update(&vec![], vec![], &mut level, idle(), TENTH);
    }
    assert_eq!(p.squads()[1].start_pos(), hex(0, -4));
    assert_eq!(p.squads()[0].start_pos(), hex(0, 1));
    // a click on the selected squad lets it go
    p.update(&vec![], vec![], &mut level, click(hex(0, -4)), TENTH);
    assert_eq!(p.current(), None);
    p.update(&vec![], vec![], &mut level, click(hex(5, 5)), TENTH);
    assert_eq!(p.squads()[0].goal(), None);
}

#[test]
fn an_engineer_builds_on_order_until_the_most_walls_stand() {
    let mut level = plain();
    let mut p = Player::new(vec![vec![UnitType::Engineer]]);
    p.update(&vec![], vec![], &mut level, click(hex(0, 1)), TENTH);
    assert_eq!(p.current(), Some(0));
    for built in 1..=10 {
        if built > 1 {
            // walk on, to stand next to the next site
            p.update(&vec![], vec![], &mut level, Orders { go: true, ..idle() }, TENTH);
            p.update(&vec![], vec![], &mut level, click(hex(1 - built, 1)), TENTH);
            for _ in 0..3 {
                p.update(&vec![], vec![], &mut level, idle(), TENTH);
            }
            assert_eq!(p.squads()[0].start_pos(), hex(1 - built, 1));
        }
        let site = hex(1 - built, 2);
        let before = p.squads()[0].goal();
        // the button takes the click; the next click names the site
        p.update(&vec![], vec![], &mut level, Orders { wall: true, ..click(site) }, TENTH);
        assert_eq!(p.squads()[0].action(), Action::Wall);
        assert_eq!(p.squads()[0].goal(), before);
        p.update(&vec![], vec![], &mut level, click(site), HALF);
        p.update(&vec![], vec![], &mut level, idle(), HALF);
        assert!(level.wall(&site));
        assert_eq!(p.walls(), built);
    }
    p.update(&vec![], vec![], &mut level, Orders { wall: true, ..idle() }, TENTH);
    assert_eq!(p.squads()[0].action(), Action::Go);
    // tearing down is always on offer, and makes room for a new wall
    p.update(&vec![], vec![], &mut level, Orders { destroy: true, ..idle() }, TENTH);
    assert_eq!(p.squads()[0].action(), Action::Destroy);
    p.update(&vec![], vec![], &mut level, click(hex(-9, 2)), HALF);
    p.update(&vec![], vec![], &mut level, idle(), HALF);
    assert!(!level.get(&hex(-9, 2)));
    assert_eq!(p.walls(), 9);
    p.update(&vec![], vec![], &mut level, Orders { wall: true, ..idle() }, TENTH);
    assert_eq!(p.squads()[0].action(), Action::Wall);
}

#[test]
fn orders_to_build_need_an_open_hex_and_orders_to_tear_down_a_wall() {
    let mut level = plain();
    let mut p = Player::new(vec![vec![UnitType::Engineer]]);
    p.update(&vec![], vec![], &mut level, click(hex(0, 1)), TENTH);
    p.update(&vec![], vec![], &mut level, Orders { turret: true, ..idle() }, TENTH);
    assert_eq!(p.squads()[0].action(), Action::Turret);
    p.update(&vec![], vec![], &mut level, click(hex(0, 0)), TENTH);
    assert_eq!(p.squads()[0].goal(), None);
    p.update(&vec![], vec![], &mut level, Orders { destroy: true, ..idle() }, TENTH);
    p.update(&vec![], vec![], &mut level, click(hex(1, 1)), TENTH);
    assert_eq!(p.squads()[0].goal(), None);
    p.update(&vec![], vec![], &mut level, click(hex(0, 0)), TENTH);
    assert_eq!(p.squads()[0].goal(), None);
    p.update(&vec![], vec![], &mut level, Orders { turret: true, ..idle() }, TENTH);
    p.update(&vec![], vec![], &mut level, click(hex(1, 1)), HALF);
    p.update(&vec![], vec![], &mut level, idle(), HALF);
    assert_eq!(p.turrets(), 1);
    assert_eq!(p.squads()[0].units().len(), 2);
    // the turret falls: the count goes down, and nothing is fined
    p.update(&vec![(hex(1, 1), 50)], vec![], &mut level, idle(), TENTH);
    assert_eq!(p.turrets(), 0);
    assert_eq!(p.fine(), 0);
    assert_eq!(p.squads()[0].units().len(), 1);
}

#[test]
fn the_loss_of_an_engineer_is_fined() {
    let mut level = plain();
    let mut p = Player::new(vec![vec![UnitType::Engineer], vec![UnitType::Infantry], vec![UnitType::Engineer]]);
    p.update(&vec![(hex(0, -1), 100)], vec![], &mut level, idle(), TENTH);
    assert_eq!(p.fine(), 0);
    assert_eq!(p.squads().len(), 2);
    p.update(&vec![(hex(0, 1), 119)], vec![], &mut level, idle(), TENTH);
    assert_eq!(p.fine(), 0);
    p.update(&vec![(hex(0, 1), 1)], vec![], &mut level, idle(), TENTH);
    assert_eq!(p.fine(), 5);
    assert_eq!(p.squads().len(), 1);
    p.update(&vec![(hex(0, -2), 120)], vec![], &mut level, idle(), TENTH);
    assert_eq!(p.fine(), 10);
    assert!(p.lose());
}

#[test]
fn the_selection_ends_with_the_selected_squad() {
    let mut level = plain();
    let mut p = Player::new(vec![vec![UnitType::Infantry], vec![UnitType::Scout]]);
    p.update(&vec![], vec![], &mut level, click(hex(0, -1)), TENTH);
    assert_eq!(p.current(), Some(1));
    p.update(&vec![(hex(0, -1), 75)], vec![], &mut level, idle(), TENTH);
    assert_eq!(p.current(), None);
    assert_eq!(p.squads().len(), 1);
}

#[test]
fn the_player_shoots_at_the_units_of_the_opponent() {
    let mut level = plain();
    let mut p = Player::new(vec![vec![UnitType::Infantry]]);
    let out = p.update(&vec![], vec![vec![hex(0, 9)], vec![hex(0, 4), hex(9, 9)]], &mut level, idle(), TENTH);
    // its own units let the player see two steps far: the target is hidden
    assert!(out.2.is_empty());
    assert!(level.is_visible(&hex(0, 3)));
    assert!(!level.is_visible(&hex(0, 4)));
    let out = p.update(&vec![], vec![vec![hex(0, 9)], vec![hex(0, 3), hex(9, 9)]], &mut level, idle(), TENTH);
    assert_eq!(out.2, vec![(hex(0, 3), 15)]);
    assert_eq!(out.3, vec![Cue::Fire { turret: false }]);
    assert_eq!(out.0, vec![hex(0, 9), hex(0, 3), hex(9, 9), hex(0, 1)]);
}

#[test]
fn the_seed_is_fixed() {
    assert_eq!(seed(), 0);
}

#[test]
fn a_new_game_gives_the_origin_to_the_player() {
    let game = game(vec![vec![UnitType::Infantry]], Difficulty::Normal);
    assert_eq!(game.level().control_player(), 10);
    assert!(!game.level().is_capturable(&hex(0, 0), &Team::Player));
    assert!(game.level().is_visible(&hex(0, 15)));
    assert!(game.bot().is_none());
    assert_eq!(game.player().squads().len(), 1);
    assert_eq!(game.enemy_in(), 40_000_000);
    assert_eq!(game.win_in(), 30_000_000);
    let hard = self::game(vec![], Difficulty::Hard);
    assert_eq!(hard.enemy_in(), 20_000_000);
    assert_eq!(hard.win_in(), 60_000_000);
    assert!(matches!(
        Game::new(vec![], Difficulty::Hard, 1, &[0, 0]),
        Err(GenerationError::HeightField)
    ));
}

#[test]
fn a_game_without_squads_is_lost() {
    let mut game = game(vec![], Difficulty::Normal);
    let (result, cues) = game.update(idle(), TENTH);
    assert_eq!(result, Some(GameResult::Lose(0)));
    assert!(cues.is_empty());
}

#[test]
fn the_opponent_arrives_when_its_time_has_come() {
    let mut game = game(vec![vec![UnitType::Infantry]], Difficulty::Hard);
    for second in 1..20 {
        let (result, _) = game.update(idle(), ONE);
        assert_eq!(result, None);
        assert!(game.bot().is_none());
        assert_eq!(game.enemy_in(), 20_000_000 - second * 1_000_000);
    }
    let (result, _) = game.update(idle(), ONE);
    assert_eq!(result, None);
    let bot = game.bot().as_ref().unwrap();
    assert_eq!(bot.squads().len(), 3 * CONTROLS);
    assert_eq!(game.enemy_in(), 20_000_000);
    assert_eq!(game.level().control_player(), 10);
    // from now on the opponent moves
    let before = game.bot().as_ref().unwrap().positions();
    for _ in 0..3 {
        game.update(idle(), TENTH);
    }
    assert!(game.bot().as_ref().unwrap().positions() != before);
}

#[test]
fn the_hits_of_the_opponent_are_taken_one_update_later() {
    let mut game = game(vec![vec![UnitType::Sniper]], Difficulty::Hard);
    for _ in 0..20 {
        game.update(idle(), ONE);
    }
    assert!(game.bot().is_some());
    // the opponent's snipers need no sight; sooner or later the player's unit is hit
    let mut health = game.player().squads()[0].units()[0].health;
    let mut ended = None;
    for _ in 0..3000 {
        let (result, _) = game.update(idle(), TENTH);
        if let Some(r) = result {
            ended = Some(r);
            break;
        }
        let now = game.player().squads()[0].units()[0].health;
        assert!(now <= health);
        assert!(now == health || (health - now) % 5 == 0 || now == 0);
        health = now;
    }
    assert_eq!(ended, Some(GameResult::Lose(0)));
}

#[test]
fn a_draw_names_a_control_point_unless_it_is_the_origin() {
    let goals = vec![hex(0, 0), hex(40, 0), hex(0, 40)];
    assert_eq!(Bot::camp(&goals, 0), None);
    assert_eq!(Bot::camp(&goals, 1), Some(hex(40, 0)));
    assert_eq!(Bot::camp(&goals, 2), Some(hex(0, 40)));
    assert_eq!(Bot::camp(&goals, 3), None);
    assert_eq!(Bot::camp(&goals, -1), None);
    assert_eq!(Bot::camp(&vec![], 0), None);
}

#[test]
fn squads_are_raised_where_there_is_room_for_them() {
    let mut level = plain();
    let base = far_point(&level);
    let goals = vec![hex(0, 0), base];
    let bot = Bot::raise(&mut level, Difficulty::Normal, &goals, base).unwrap();
    assert_eq!(bot.squads().len(), 4);
    assert!(level.is_capturable(&base, &Team::Player));
    // a column of six squads from the last row but four has no room
    let rim = hex(7, i32::MAX - 4);
    assert!(Bot::raise(&mut level, Difficulty::Hard, &goals, rim).is_none());
    let bot = Bot::raise(&mut level, Difficulty::Normal, &goals, rim).unwrap();
    assert_eq!(bot.squads()[3].start_pos(), hex(11, i32::MAX - 1));
    // nor is there room for a row of five units from the last column but three
    let edge = hex(i32::MAX - 3, 0);
    assert!(Bot::raise(&mut level, Difficulty::Normal, &goals, edge).is_none());
}

#[test]
fn the_opponent_arrives_for_certain_where_every_control_point_welcomes_it() {
    // one control point, away from the origin
    let mut level = plain();
    let base = far_point(&level);
    for p in level.find_captures() {
        if p != base {
            level.delete(&p);
        }
    }
    let bot = Bot::new(&mut level, Difficulty::Hard).unwrap();
    assert_eq!(bot.squads().len(), 3);
    assert_eq!(bot.squads()[0].units()[4].start_pos, base);
    assert_eq!(level.tile(&base).unwrap().kind, TileType::Control(Some(Team::Computer)));
    // several, none of them the origin
    for seed in 0..40u64 {
        let mut level = match Level::new(seed, &flat()) {
            Ok(level) => level,
            Err(_) => continue,
        };
        level.delete(&hex(0, 0));
        let bot = Bot::new(&mut level, Difficulty::Normal).unwrap();
        assert_eq!(bot.squads().len(), 2 * (CONTROLS - 1));
    }
}

#[test]
fn the_opponent_may_arrive_at_any_control_point_but_the_origin() {
    // two control points: the origin and one other, whichever is listed first
    for _ in 0..5 {
        let mut level = plain();
        let base = far_point(&level);
        for p in level.find_captures() {
            if p != base && p != hex(0, 0) {
                level.delete(&p);
            }
        }
        let bot = Bot::new(&mut level, Difficulty::Normal).unwrap();
        assert_eq!(bot.squads().len(), 4);
        assert_eq!(level.tile(&base).unwrap().kind, TileType::Control(Some(Team::Computer)));
    }
}

fn press(p: &mut Player, level: &mut Level, orders: Orders) {
    p.update(&vec![], vec![], level, orders, 1);
}

#[test]
fn the_most_walls_bind_every_squad_of_the_side() {
    let mut level = plain();
    let mut p = Player::new(vec![vec![UnitType::Engineer], vec![UnitType::Engineer]]);
    assert_eq!(p.squads()[0].start_pos(), hex(0, 1));
    assert_eq!(p.squads()[1].start_pos(), hex(0, -1));
    // the first squad builds nine walls, walking on after each
    press(&mut p, &mut level, click(hex(0, 1)));
    for built in 1..=9 {
        if built > 1 {
            press(&mut p, &mut level, Orders { go: true, ..idle() });
            press(&mut p, &mut level, click(hex(1 - built, 1)));
            for _ in 0..3 {
                p.update(&vec![], vec![], &mut level, idle(), TENTH);
            }
        }
        press(&mut p, &mut level, Orders { wall: true, ..idle() });
        p.update(&vec![], vec![], &mut level, click(hex(1 - built, 2)), HALF);
        p.update(&vec![], vec![], &mut level, idle(), HALF);
        assert_eq!(p.walls(), built);
    }
    // both squads begin a wall
    press(&mut p, &mut level, Orders { go: true, ..idle() });
    press(&mut p, &mut level, click(hex(-9, 1)));
    for _ in 0..3 {
        p.update(&vec![], vec![], &mut level, idle(), TENTH);
    }
    press(&mut p, &mut level, Orders { wall: true, ..idle() });
    press(&mut p, &mut level, click(hex(-9, 2)));
    assert!(p.squads()[0].site().is_some());
    press(&mut p, &mut level, click(hex(0, -1)));
    assert_eq!(p.current(), Some(1));
    press(&mut p, &mut level, Orders { wall: true, ..idle() });
    press(&mut p, &mut level, click(hex(1, -1)));
    assert_eq!(p.squads()[1].site().map(|w| w.0), Some(hex(1, -1)));
    assert_eq!(p.walls(), 9);
    // the first squad finishes the tenth; the second is told to go
    p.update(&vec![], vec![], &mut level, idle(), ONE);
    assert_eq!(p.walls(), 10);
    assert!(level.wall(&hex(-9, 2)));
    assert!(!level.get(&hex(1, -1)));
    assert_eq!(p.squads()[1].action(), Action::Go);
    for _ in 0..5 {
        p.update(&vec![], vec![], &mut level, idle(), ONE);
    }
    assert_eq!(p.walls(), 10);
    assert!(!level.get(&hex(1, -1)));
}

#[test]
fn the_draw_of_the_base_spans_the_whole_list() {
    assert_eq!(Bot::span(0), 0);
    assert_eq!(Bot::span(1), 1);
    assert_eq!(Bot::span(10), 10);
    assert_eq!(Bot::span(65_536), 65_536);
    assert_eq!(Bot::span(65_537), 65_536);
    assert_eq!(Bot::span(usize::MAX), 65_536);
}

#[test]
fn a_base_is_named_or_another_drawn_until_the_tries_run_out() {
    let goals = vec![hex(0, 0), hex(40, 0), hex(0, 40)];
    assert_eq!(Bot::attempt(&goals, 0, 1), Attempt::Base(hex(40, 0)));
    assert_eq!(Bot::attempt(&goals, ATTEMPTS - 1, 2), Attempt::Base(hex(0, 40)));
    assert_eq!(Bot::attempt(&goals, 0, 0), Attempt::Again);
    assert_eq!(Bot::attempt(&goals, ATTEMPTS - 2, 0), Attempt::Again);
    assert_eq!(Bot::attempt(&goals, ATTEMPTS - 1, 0), Attempt::GiveUp);
    assert_eq!(Bot::attempt(&goals, 5, 3), Attempt::Again);
    assert_eq!(Bot::attempt(&goals, u32::MAX, -1), Attempt::GiveUp);
}
