//! One game: the world, the player's side, the opponent that arrives
//! after a while, and the clocks that decide when the game is won.

use vstd::prelude::*;
use crate::army::{fit, marching};
use crate::bot::{enlisted, Bot};
use crate::level::{Level, LevelView};
use crate::terrain::{GenerationError, CELLS};
use crate::player::{Orders, Player, PlayerView, Turn};
use crate::squad::{Cue, SquadView};
use crate::structs::{Difficulty, Hex, Team, UnitType, SECOND};

verus! {

/// How a game ended, with the fine the player has run up.
#[derive(Clone, Copy, Debug, PartialEq, Eq, Structural)]
pub enum GameResult {
    Lose(u32),
    Win(u32),
}

/// A game in progress.
pub struct Game {
    player_attacked: Vec<(Hex, i16)>,
    difficulty: Difficulty,
    bot: Option<Bot>,
    timer_enemy: u64,
    enemy_time: u64,
    player: Player,
    timer_win: u64,
    win_time: u64,
    level: Level,
}

/// A game as the rules see it.
#[verifier::ext_equal]
pub struct GameView {
    /// The hits the opponent dealt in the last update, which the player's
    /// units take in the next.
    pub player_attacked: Seq<(Hex, i16)>,
    pub difficulty: Difficulty,
    /// The opponent's squads, once it has arrived.
    pub bot: Option<Seq<SquadView>>,
    /// Time waited for the opponent.
    pub timer_enemy: int,
    /// Time after which the opponent arrives.
    pub enemy_time: int,
    pub player: PlayerView,
    /// Time for which the player has held every control point.
    pub timer_win: int,
    /// Time for which the player must hold them to win.
    pub win_time: int,
    pub level: LevelView,
}

/// What one update of a game gives back.
#[verifier::ext_equal]
pub struct Frame {
    pub game: GameView,
    pub result: Option<GameResult>,
    pub cues: Seq<Cue>,
}

/// The seed the world of a game is generated from.
pub fn seed() -> (seed: u64)
    ensures
        seed == 0,
{
    0
}

/// Time the player must hold every control point to win.
pub open spec fn spec_win_time(difficulty: Difficulty) -> u64 {
    match difficulty {
        Difficulty::Normal => 30_000_000,
        Difficulty::Hard => 60_000_000,
    }
}

/// Time after which the opponent arrives.
pub open spec fn spec_enemy_time(difficulty: Difficulty) -> u64 {
    match difficulty {
        Difficulty::Normal => 40_000_000,
        Difficulty::Hard => 20_000_000,
    }
}

/// The hexes the units of each squad stand on.
pub open spec fn camps(squads: Seq<SquadView>) -> Seq<Seq<Hex>> {
    squads.map_values(|s: SquadView| s.stands(true))
}

impl GameView {
    /// Both sides and the world are well formed, and the clocks are in the
    /// range the updates keep them in.
    pub open spec fn wf(self) -> bool {
        &&& self.player.wf()
        &&& self.level.wf()
        &&& self.bot matches Some(squads) ==> fit(squads) && marching(squads)
        &&& 0 <= self.timer_enemy < self.enemy_time <= 3600 * SECOND
        &&& 0 <= self.win_time <= 3600 * SECOND
        &&& 0 <= self.timer_win <= self.win_time + u32::MAX
    }

    /// The opponent is not there yet and arrives with this update.
    pub open spec fn arrival(self, delta: u32) -> bool {
        self.bot is None && self.timer_enemy + delta >= self.enemy_time
    }

    /// The player's part of the update.
    pub open spec fn turn(self, o: Orders, delta: u32) -> Turn {
        self.player.updated(
            self.level,
            self.player_attacked,
            match self.bot {
                Some(squads) => camps(squads),
                None => Seq::empty(),
            },
            o,
            delta,
        )
    }

    /// One update of the game. The player's side has its update, taking
    /// the hits the opponent dealt in the last one. Then the opponent has
    /// its own, taking the hits the player just dealt; or, while it is not
    /// there, the time to its arrival runs, and when it is over the
    /// opponent is raised: `raised` and `world` are what raising it gave.
    /// While the player holds every control point and the opponent is
    /// there, the time to victory runs, and the game is won when it is
    /// over. Else an opponent without squads leaves, and the game is lost
    /// when the player has no squad.
    pub open spec fn updated(
        self,
        o: Orders,
        delta: u32,
        raised: Option<Seq<SquadView>>,
        world: LevelView,
    ) -> Frame {
        let turn = self.turn(o, delta);
        let after = match self.bot {
            Some(squads) => {
                let m = Bot::updated(
                    squads,
                    turn.level,
                    turn.positions,
                    turn.player_units,
                    turn.attacked,
                    delta,
                );
                GameView {
                    bot: Some(m.squads),
                    level: m.level,
                    player_attacked: m.attacked,
                    player: turn.player,
                    ..self
                }
            },
            None => if self.arrival(delta) {
                GameView { bot: raised, level: world, timer_enemy: 0, player: turn.player, ..self }
            } else {
                GameView {
                    level: turn.level,
                    timer_enemy: self.timer_enemy + delta,
                    player: turn.player,
                    ..self
                }
            },
        };
        let cues = match self.bot {
            Some(squads) => turn.cues + Bot::updated(
                squads,
                turn.level,
                turn.positions,
                turn.player_units,
                turn.attacked,
                delta,
            ).cues,
            None => turn.cues,
        };
        let full = after.level.share(Team::Player) >= 100 && after.bot is Some;
        let timer_win = if full {
            if self.timer_win >= self.win_time {
                self.timer_win
            } else {
                self.timer_win + delta
            }
        } else {
            0
        };
        if full && timer_win >= self.win_time {
            Frame {
                game: GameView { timer_win, ..after },
                result: Some(GameResult::Win(turn.player.fine)),
                cues,
            }
        } else {
            Frame {
                game: GameView {
                    timer_win,
                    bot: match after.bot {
                        Some(squads) => if squads.len() == 0 {
                            None
                        } else {
                            after.bot
                        },
                        None => None,
                    },
                    ..after
                },
                result: if turn.player.squads.len() == 0 {
                    Some(GameResult::Lose(turn.player.fine))
                } else {
                    None
                },
                cues,
            }
        }
    }
}

impl Game {
    /// The game as the rules see it.
    pub closed spec fn view(&self) -> GameView {
        GameView {
            player_attacked: self.player_attacked@,
            difficulty: self.difficulty,
            bot: match self.bot {
                Some(bot) => Some(bot@),
                None => None,
            },
            timer_enemy: self.timer_enemy as int,
            enemy_time: self.enemy_time as int,
            player: self.player@,
            timer_win: self.timer_win as int,
            win_time: self.win_time as int,
            level: self.level@,
        }
    }

    /// The game is well formed as the rules see it.
    pub open spec fn wf(&self) -> bool {
        self@.wf()
    }

    /// A new game in a world generated from `seed` and `heights`, with
    /// the control point on the origin in the player's hands and one
    /// squad of the player for each description in `units`. The opponent
    /// is still to arrive.
    pub fn new(
        units: Vec<Vec<UnitType>>,
        difficulty: Difficulty,
        seed: u64,
        heights: &[i32],
    ) -> (made: Result<Game, GenerationError>)
        requires
            units@.len() <= i32::MAX,
            forall|i: int| 0 <= i < units@.len() ==> (#[trigger] units@[i])@.len() <= i32::MAX,
        ensures
            match made {
                Ok(game) => {
                    &&& game.wf()
                    &&& heights@.len() == CELLS
                    &&& exists|world: LevelView|
                        #![trigger world.generated(heights@)]
                        world.generated(heights@) && game@.level == world.captured(
                            Hex { x: 0, y: 0 },
                            Team::Player,
                        )
                    &&& game@.player == (PlayerView {
                        fine: 0,
                        walls: 0,
                        turrets: 0,
                        squads: crate::player::mustered(units@),
                        current: None,
                    })
                    &&& game@.bot is None
                    &&& game@.player_attacked == Seq::<(Hex, i16)>::empty()
                    &&& game@.difficulty == difficulty
                    &&& game@.timer_enemy == 0
                    &&& game@.timer_win == 0
                    &&& game@.enemy_time == spec_enemy_time(difficulty)
                    &&& game@.win_time == spec_win_time(difficulty)
                },
                Err(GenerationError::HeightField) => heights@.len() != CELLS,
                Err(GenerationError::Placement) => heights@.len() == CELLS,
            },
    {
        let mut level = match Level::new(seed, heights) {
            Ok(level) => level,
            Err(e) => {
                return Err(e);
            },
        };
        level.capture(&Hex { x: 0, y: 0 }, &Team::Player);
        let game = Game {
            win_time: match difficulty {
                Difficulty::Normal => 30_000_000,
                Difficulty::Hard => 60_000_000,
            },
            enemy_time: match difficulty {
                Difficulty::Normal => 40_000_000,
                Difficulty::Hard => 20_000_000,
            },
            player_attacked: Vec::new(),
            player: Player::new(units),
            timer_enemy: 0,
            timer_win: 0,
            difficulty,
            bot: None,
            level,
        };
        Ok(game)
    }

    /// The world.
    pub fn level(&self) -> (level: &Level)
        ensures
            level@ == self@.level,
    {
        &self.level
    }

    /// The player's side.
    pub fn player(&self) -> (player: &Player)
        ensures
            player@ == self@.player,
    {
        &self.player
    }

    /// The opponent, once it has arrived.
    pub fn bot(&self) -> (bot: &Option<Bot>)
        ensures
            match *bot {
                Some(b) => self@.bot == Some(b@),
                None => self@.bot is None,
            },
    {
        &self.bot
    }

    /// Time left until the opponent arrives.
    pub fn enemy_in(&self) -> (left: u64)
        requires
            self.wf(),
        ensures
            left == self@.enemy_time - self@.timer_enemy,
    {
        self.enemy_time - self.timer_enemy
    }

    /// Time left until the player wins by holding every control point.
    pub fn win_in(&self) -> (left: u64)
        ensures
            left == (if self@.timer_win >= self@.win_time {
                0
            } else {
                self@.win_time - self@.timer_win
            }),
    {
        if self.timer_win >= self.win_time {
            0
        } else {
            self.win_time - self.timer_win
        }
    }

    /// Advances the game by `delta` microseconds, with `orders` what the
    /// player did. Returns how the game ended, if it did, and what there
    /// is to hear.
    pub fn update(&mut self, orders: Orders, delta: u32) -> (out: (Option<GameResult>, Vec<Cue>))
        requires
            old(self).wf(),
        ensures
            final(self).wf(),
            ({
                let frame = old(self)@.updated(
                    orders,
                    delta,
                    final(self)@.bot,
                    final(self)@.level,
                );
                &&& final(self)@ == frame.game
                &&& out.0 == frame.result
                &&& out.1@ == frame.cues
            }),
            old(self)@.arrival(delta) ==> enlisted(
                old(self)@.turn(orders, delta).level,
                old(self)@.difficulty,
                final(self)@.bot,
                final(self)@.level,
            ),
    {
        let enemies = match &self.bot {
            Some(bot) => bot.positions(),
            None => Vec::new(),
        };
        proof {
            let want = match self@.bot {
                Some(squads) => camps(squads),
                None => Seq::empty(),
            };
            assert(enemies@.map_values(|g: Vec<Hex>| g@) =~= want);
        }
        let (positions, player_units, attacked, mut cues) = self.player.update(
            &self.player_attacked,
            enemies,
            &mut self.level,
            orders,
            delta,
        );
        match &mut self.bot {
            Some(bot) => {
                let (hits, mut heard) = bot.update(
                    (positions, player_units, attacked),
                    &mut self.level,
                    delta,
                );
                self.player_attacked = hits;
                cues.append(&mut heard);
            },
            None => {
                self.timer_enemy += delta as u64;
                if self.timer_enemy >= self.enemy_time {
                    self.timer_enemy = 0;
                    self.bot = Bot::new(&mut self.level, self.difficulty);
                }
            },
        }
        let control = self.level.control_player();
        if control >= 100 && self.bot.is_some() {
            if self.timer_win < self.win_time {
                self.timer_win += delta as u64;
            }
            if self.timer_win >= self.win_time {
                return (Some(GameResult::Win(self.player.fine())), cues);
            }
        } else {
            self.timer_win = 0;
        }
        let gone = match &self.bot {
            Some(bot) => bot.lose(),
            None => false,
        };
        if gone {
            self.bot = None;
        }
        if self.player.lose() {
            (Some(GameResult::Lose(self.player.fine())), cues)
        } else {
            (None, cues)
        }
    }
}

} // verus!
