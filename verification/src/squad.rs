//! A squad: units that share one order, walk in single file, fire at the
//! nearest enemy, hold control points and build.

use vstd::prelude::*;
use crate::grid::{adjacent, distance, lemma_neighbours_adjacent, neighbours};
use crate::level::{control_tile, holds, Level, LevelView};
use crate::structs::{opponent, Hex, Team, UnitType};
use crate::unit::Unit;

verus! {

/// How far a unit sees, in steps; a scout sees this far for every member
/// of its squad.
pub const VISIBLE_DISTANCE: i32 = 2;

/// Time a squad must stand next to a control point to take it.
pub const CAPTURE_TIME: u64 = 5_000_000;

/// Time it takes to build or tear down.
pub const BUILD_TIME: u64 = 1_000_000;

/// Time between two rounds of healing.
pub const HEAL_TIME: u64 = 1_000_000;

/// What a squad is ordered to do at its goal.
#[derive(Clone, Copy, Debug, PartialEq, Eq, Structural)]
pub enum Action {
    Destroy,
    Turret,
    Wall,
    Go,
}

/// Something worth a sound that happened during an update.
#[derive(Clone, Copy, Debug, PartialEq, Eq, Structural)]
pub enum Cue {
    /// A squad of the player set out for a new goal.
    StartGo,
    /// A unit shot; `turret` tells whether a turret did.
    Fire { turret: bool },
    /// A unit of the player that is no turret took a control point.
    Controlled,
}

/// A squad of one side.
pub struct Squad {
    action: Option<Action>,
    soldiers: Vec<Unit>,
    goal: Option<Hex>,
    orig: Option<Hex>,
    timer_capture: u64,
    path: Vec<Hex>,
    timer_build: u64,
    timer_heal: u64,
    sound: bool,
    team: Team,
}

/// A squad as the rules see it.
#[verifier::ext_equal]
pub struct SquadView {
    /// The order in progress; `None` while a squad with an engineer waits
    /// for one.
    pub action: Option<Action>,
    /// The units, the leader first.
    pub soldiers: Seq<Unit>,
    /// Where the squad is sent.
    pub goal: Option<Hex>,
    /// The hex that is built on or torn down, once the leader stands next
    /// to it.
    pub orig: Option<Hex>,
    pub timer_capture: int,
    /// The hexes still to walk, the next one first.
    pub path: Seq<Hex>,
    pub timer_build: int,
    pub timer_heal: int,
    /// Whether setting out is still to be announced.
    pub sound: bool,
    pub team: Team,
}

/// The first of the first `n` soldiers that stands on `pos`.
pub open spec fn first_at(soldiers: Seq<Unit>, pos: Hex, n: nat) -> Option<int>
    decreases n,
{
    if n == 0 || n > soldiers.len() {
        None
    } else {
        match first_at(soldiers, pos, (n - 1) as nat) {
            Some(i) => Some(i),
            None => if soldiers[n - 1].start_pos == pos {
                Some(n - 1)
            } else {
                None
            },
        }
    }
}

/// Where the `i`-th of `len` members described by `body` starts next to
/// `start`, and as what: the members stand in a row from `start` on, and
/// the last one described leads.
pub open spec fn recruit(start: Hex, body: Seq<UnitType>, i: int) -> Unit {
    let from = body.len() - 1 - i;
    Unit::spec_new(
        body[from],
        Hex { x: (start.x + from) as i32, y: start.y },
        body[from].spec_pace(),
    )
}

impl SquadView {
    /// Every unit is well formed, the timers are in the range the updates
    /// keep them in, and work in progress has a hex it is done on.
    pub open spec fn wf(self) -> bool {
        &&& forall|i: int| 0 <= i < self.soldiers.len() ==> (#[trigger] self.soldiers[i]).wf()
        &&& 0 <= self.timer_heal < HEAL_TIME
        &&& 0 <= self.timer_capture < CAPTURE_TIME
        &&& 0 <= self.timer_build <= BUILD_TIME + u32::MAX
        &&& self.timer_build > 0 ==> self.orig is Some
    }

    /// A fresh squad.
    pub open spec fn fresh(start: Hex, body: Seq<UnitType>, team: Team) -> SquadView {
        SquadView {
            action: if body.contains(UnitType::Engineer) {
                None
            } else {
                Some(Action::Go)
            },
            soldiers: Seq::new(body.len(), |i: int| recruit(start, body, i)),
            goal: None,
            orig: None,
            timer_capture: 0,
            path: Seq::empty(),
            timer_build: 0,
            timer_heal: 0,
            sound: true,
            team,
        }
    }

    /// One of the units is of type `kind`.
    pub open spec fn has(self, kind: UnitType) -> bool {
        exists|i: int| 0 <= i < self.soldiers.len() && (#[trigger] self.soldiers[i]).kind == kind
    }

    /// The squad sent to `goal`.
    pub open spec fn sent(self, goal: Option<Hex>) -> SquadView {
        SquadView { timer_build: 0, sound: true, goal, ..self }
    }

    /// The squad told to do `action`.
    pub open spec fn told(self, action: Action) -> SquadView {
        SquadView { timer_build: 0, action: Some(action), ..self }
    }

    /// Whether a squad that is given the way `path` announces that it sets
    /// out.
    pub open spec fn sets_out(self, path: Seq<Hex>) -> bool {
        path.len() > 0 && self.sound && self.team == Team::Player
    }

    /// The squad given the way `path`, which begins with the hex the
    /// leader stands on. Without a way the goal is given up.
    pub open spec fn routed(self, path: Seq<Hex>) -> SquadView {
        if path.len() == 0 {
            SquadView { path, goal: None, ..self }
        } else {
            SquadView {
                path: path.drop_first(),
                sound: self.sound && self.team != Team::Player,
                soldiers: if path.len() > 1 && self.soldiers.len() > 0 {
                    self.soldiers.update(0, Unit { end_pos: path[1], ..self.soldiers[0] })
                } else {
                    self.soldiers
                },
                ..self
            }
        }
    }

    /// The hexes the units stand on, turrets among them or not.
    pub open spec fn stands(self, turret: bool) -> Seq<Hex> {
        self.soldiers.filter(|u: Unit| turret || u.kind != UnitType::Turret).map_values(
            |u: Unit| u.start_pos,
        )
    }

    /// The squad after the first of its units on `pos`, if there is one,
    /// was hit for `amount`.
    pub open spec fn wounded(self, pos: Hex, amount: i16) -> SquadView {
        match first_at(self.soldiers, pos, self.soldiers.len()) {
            Some(i) => SquadView {
                soldiers: self.soldiers.update(
                    i,
                    Unit { health: self.soldiers[i].hurt(amount), ..self.soldiers[i] },
                ),
                ..self
            },
            None => self,
        }
    }
}

/// What one update of a squad works on and gives back.
#[verifier::ext_equal]
pub struct Tick {
    pub squad: SquadView,
    pub level: LevelView,
    /// The hits dealt, each with the hex it goes to.
    pub attacked: Seq<(Hex, i16)>,
    /// Walls built, less walls torn down.
    pub walls: int,
    /// Turrets built.
    pub turrets: int,
    pub cues: Seq<Cue>,
    /// The hex the next unit of the file turns to when it has arrived: the
    /// next hex of the way for the leader, and for each other unit the
    /// hex of the unit before it.
    pub ahead: Option<Hex>,
}

/// The soldiers left when, for each of the first `n` hexes of `deleted` in
/// turn, the first soldier that stands on it is removed.
pub open spec fn buried(soldiers: Seq<Unit>, deleted: Seq<Hex>, n: nat) -> Seq<Unit>
    decreases n,
{
    if n == 0 || n > deleted.len() {
        soldiers
    } else {
        let rest = buried(soldiers, deleted, (n - 1) as nat);
        match first_at(rest, deleted[n - 1], rest.len()) {
            Some(i) => rest.remove(i),
            None => rest,
        }
    }
}

/// The place of the nearest to `from` among the first `n` of `positions`,
/// and of the first of them where several are equally near.
pub open spec fn closest(positions: Seq<Hex>, from: Hex, n: nat) -> int
    decreases n,
{
    if n <= 1 {
        0
    } else {
        let best = closest(positions, from, (n - 1) as nat);
        if distance(positions[n - 1], from) < distance(positions[best], from) {
            n - 1
        } else {
            best
        }
    }
}

/// How far a unit of type `kind` in a squad of `members` lets the player
/// see.
pub open spec fn sight(kind: UnitType, members: nat) -> int {
    if kind == UnitType::Scout {
        if members * VISIBLE_DISTANCE <= i32::MAX {
            members * VISIBLE_DISTANCE
        } else {
            i32::MAX as int
        }
    } else {
        VISIBLE_DISTANCE as int
    }
}

/// The unit after it looked for a target among `positions`, and the hit it
/// dealt, if it shot. It turns to the nearest position if that one is
/// seen, or if the unit is a sniper, and lets its cooldown run. It shoots
/// if it was ready, the target is seen, nearer than its reach and not
/// behind anything solid.
pub open spec fn aimed(u: Unit, lv: LevelView, positions: Seq<Hex>, delta: u32) -> (
    Unit,
    Option<(Hex, i16)>,
) {
    if positions.len() == 0 {
        (u, None)
    } else {
        let target = positions[closest(positions, u.start_pos, positions.len())];
        let seen = lv.visible.contains(target) || u.kind == UnitType::Sniper;
        let turned = u.fired(
            if seen {
                Some(target)
            } else {
                None
            },
            delta,
        );
        if u.ready() && seen && distance(target, u.start_pos) < u.kind.spec_reach()
            && lv.clear_shot(u.start_pos, target) {
            (Unit { timer: 0, ..turned }, Some((target, u.kind.spec_damage())))
        } else {
            (turned, None)
        }
    }
}

/// The first of the first `n` of `around` that is a control point `team`
/// does not hold yet.
pub open spec fn first_free(lv: LevelView, team: Team, around: Seq<Hex>, n: nat) -> Option<Hex>
    decreases n,
{
    if n == 0 || n > around.len() {
        None
    } else {
        match first_free(lv, team, around, (n - 1) as nat) {
            Some(h) => Some(h),
            None => if lv.capturable(around[n - 1], team) {
                Some(around[n - 1])
            } else {
                None
            },
        }
    }
}

/// The control point a squad of `team` holds on to: the first that the
/// team does not hold yet and that lies next to one of the first `n` of
/// `soldiers`, the units and the hexes round each taken in order. With it
/// comes whether taking it is announced, as it is when the unit next to
/// it is the player's and no turret.
pub open spec fn prize(lv: LevelView, team: Team, soldiers: Seq<Unit>, n: nat) -> Option<
    (Hex, bool),
>
    decreases n,
{
    if n == 0 || n > soldiers.len() {
        None
    } else {
        match prize(lv, team, soldiers, (n - 1) as nat) {
            Some(p) => Some(p),
            None => {
                let u = soldiers[n - 1];
                let around = neighbours(u.start_pos);
                match first_free(lv, team, around, around.len()) {
                    Some(h) => Some((h, u.kind != UnitType::Turret && team == Team::Player)),
                    None => None,
                }
            },
        }
    }
}

/// The unit after its part of the march. A unit that is no turret walks
/// while the squad has a way; when it arrives it turns to `ahead`.
pub open spec fn marched(u: Unit, ahead: Option<Hex>, walking: bool, delta: u32) -> Unit {
    match ahead {
        Some(next) => if u.kind != UnitType::Turret && walking {
            if u.arrives(delta) {
                Unit { end_pos: next, ..u.moved(delta) }
            } else {
                u.moved(delta)
            }
        } else {
            u
        },
        None => u,
    }
}

impl SquadView {
    /// The order in progress is one to build or tear down, and there is
    /// something to do for it: to tear down, the goal must be a wall.
    pub open spec fn builds(self, lv: LevelView) -> bool {
        ||| self.action == Some(Action::Wall)
        ||| self.action == Some(Action::Turret)
        ||| (self.action == Some(Action::Destroy) && match self.goal {
            Some(goal) => lv.wall(goal),
            None => true,
        })
    }

    /// The leader stands next to the goal.
    pub open spec fn reaches(self) -> bool {
        match self.goal {
            Some(goal) => self.soldiers.len() > 0 && adjacent(self.soldiers[0].start_pos, goal),
            None => false,
        }
    }

    /// A round of healing is due after `delta` more time.
    pub open spec fn heal_due(self, delta: u32) -> bool {
        self.timer_heal + delta >= HEAL_TIME
    }

    /// A round of healing comes with the next update of `delta`: one is
    /// due, and the squad has a medic.
    pub open spec fn heals(self, delta: u32) -> bool {
        self.heal_due(delta) && self.has(UnitType::Medic)
    }
}

impl Tick {
    /// The work on `orig` goes on for `delta`, and is done once it has
    /// taken `BUILD_TIME`: the wall stands, or the tile is gone, or a
    /// turret that never walks has joined the squad.
    pub open spec fn worked(self, delta: u32) -> Tick {
        let s = self.squad;
        if s.timer_build > 0 {
            let timer = s.timer_build + delta;
            match s.orig {
                Some(orig) => if timer >= BUILD_TIME {
                    let done = SquadView { timer_build: 0, orig: None, ..s };
                    if s.action == Some(Action::Wall) {
                        Tick {
                            squad: done,
                            level: self.level.walled(orig),
                            walls: self.walls + 1,
                            ..self
                        }
                    } else if s.action == Some(Action::Destroy) {
                        Tick {
                            squad: done,
                            level: self.level.cleared(orig),
                            walls: self.walls - 1,
                            ..self
                        }
                    } else if s.action == Some(Action::Turret) {
                        Tick {
                            squad: SquadView {
                                soldiers: s.soldiers.push(
                                    Unit::spec_new(UnitType::Turret, orig, 0),
                                ),
                                ..done
                            },
                            turrets: self.turrets + 1,
                            ..self
                        }
                    } else {
                        Tick { squad: done, ..self }
                    }
                } else {
                    Tick { squad: SquadView { timer_build: timer, ..s }, ..self }
                },
                None => Tick { squad: SquadView { timer_build: timer, ..s }, ..self },
            }
        } else {
            self
        }
    }

    /// Where the leader stands next to the goal, the squad stops there and
    /// begins to work on the goal.
    pub open spec fn begun(self, delta: u32) -> Tick {
        let s = self.squad;
        if s.reaches() {
            Tick {
                squad: SquadView {
                    path: Seq::empty(),
                    orig: s.goal,
                    goal: None,
                    timer_build: s.timer_build + delta,
                    ..s
                },
                ..self
            }
        } else {
            self
        }
    }

    /// The part of the update that builds and tears down.
    pub open spec fn constructed(self, delta: u32) -> Tick {
        if self.squad.builds(self.level) {
            self.worked(delta).begun(delta)
        } else {
            self
        }
    }

    /// The squad holds on to a control point. Where one that its team does
    /// not hold yet lies next to one of its units, `delta` is added to the
    /// time held, once, however many units and control points there are;
    /// once that reaches `CAPTURE_TIME`, the first such control point, the
    /// units and the hexes round each taken in order, is taken and the time
    /// starts again.
    pub open spec fn held(self, delta: u32) -> Tick {
        let s = self.squad;
        match prize(self.level, s.team, s.soldiers, s.soldiers.len()) {
            Some((hex, loud)) => {
                let timer = s.timer_capture + delta;
                if timer >= CAPTURE_TIME {
                    Tick {
                        level: self.level.captured(hex, s.team),
                        squad: SquadView { timer_capture: 0, ..s },
                        cues: if loud {
                            self.cues.push(Cue::Controlled)
                        } else {
                            self.cues
                        },
                        ..self
                    }
                } else {
                    Tick { squad: SquadView { timer_capture: timer, ..s }, ..self }
                }
            },
            None => self,
        }
    }

    /// The turn of the `i`-th unit: it lets the player see if it is the
    /// player's, is healed if a round of healing is on and it is no
    /// turret, looks for a target, and marches.
    pub open spec fn stepped(
        self,
        i: int,
        positions: Seq<Hex>,
        heal: bool,
        members: nat,
        delta: u32,
    ) -> Tick {
        let s = self.squad;
        let u = s.soldiers[i];
        let level = if s.team == Team::Player {
            self.level.revealed(u.start_pos, sight(u.kind, members), true)
        } else {
            self.level
        };
        let mended = if heal && u.kind != UnitType::Turret {
            Unit { health: u.healed(), ..u }
        } else {
            u
        };
        let (turned, shot) = aimed(mended, level, positions, delta);
        let walking = s.path.len() > 0;
        let walks = u.kind != UnitType::Turret && self.ahead is Some;
        let there = marched(turned, self.ahead, walking, delta);
        Tick {
            squad: SquadView {
                soldiers: s.soldiers.update(i, there),
                goal: if walks && !walking {
                    None
                } else {
                    s.goal
                },
                ..s
            },
            level,
            attacked: match shot {
                Some(hit) => self.attacked.push(hit),
                None => self.attacked,
            },
            cues: match shot {
                Some(hit) => self.cues.push(Cue::Fire { turret: u.kind == UnitType::Turret }),
                None => self.cues,
            },
            ahead: if walks {
                Some(there.start_pos)
            } else {
                self.ahead
            },
            ..self
        }
    }

    /// The turns of the first `n` units, one after the other.
    pub open spec fn swept(
        self,
        n: nat,
        positions: Seq<Hex>,
        heal: bool,
        members: nat,
        delta: u32,
    ) -> Tick
        decreases n,
    {
        if n == 0 {
            self
        } else {
            self.swept((n - 1) as nat, positions, heal, members, delta).stepped(
                n - 1,
                positions,
                heal,
                members,
                delta,
            )
        }
    }

    /// One update of `squad` in the world `level`: the units that stand on
    /// the hexes of `deleted` are removed; building goes on; healing comes
    /// round; every unit has its turn, with `positions` the hexes the enemy
    /// stands on; and the squad holds on to a control point next to it.
    pub open spec fn updated(
        squad: SquadView,
        level: LevelView,
        deleted: Seq<Hex>,
        positions: Seq<Hex>,
        delta: u32,
    ) -> Tick {
        let ahead = if squad.path.len() > 0 {
            Some(squad.path[0])
        } else {
            None
        };
        let left = SquadView { soldiers: buried(squad.soldiers, deleted, deleted.len()), ..squad };
        let built = (Tick {
            squad: left,
            level,
            attacked: Seq::empty(),
            walls: 0,
            turrets: 0,
            cues: Seq::empty(),
            ahead,
        }).constructed(delta);
        let heal = built.squad.heal_due(delta) && built.squad.has(UnitType::Medic);
        let tended = Tick {
            squad: SquadView {
                timer_heal: if built.squad.heal_due(delta) {
                    0
                } else {
                    built.squad.timer_heal + delta
                },
                ..built.squad
            },
            ..built
        };
        tended.swept(
            tended.squad.soldiers.len(),
            positions,
            heal,
            tended.squad.soldiers.len(),
            delta,
        ).held(delta)
    }
}

impl Squad {
    /// The squad as the rules see it.
    pub closed spec fn view(&self) -> SquadView {
        SquadView {
            action: self.action,
            soldiers: self.soldiers@,
            goal: self.goal,
            orig: self.orig,
            timer_capture: self.timer_capture as int,
            path: self.path@,
            timer_build: self.timer_build as int,
            timer_heal: self.timer_heal as int,
            sound: self.sound,
            team: self.team,
        }
    }

    /// The squad is well formed as the rules see it.
    pub open spec fn wf(&self) -> bool {
        self@.wf()
    }

    /// A squad of the units that `body` describes, which stand in a row
    /// from `start` on. The last one described leads.
    pub fn new(start: Hex, body: Vec<UnitType>, team: Team) -> (squad: Squad)
        requires
            start.x + body@.len() <= i32::MAX + 1,
        ensures
            squad@ == SquadView::fresh(start, body@, team),
            squad.wf(),
    {
        let n = body.len();
        let mut soldiers: Vec<Unit> = Vec::new();
        let mut engineer = false;
        let mut i: usize = 0;
        while i < n
            invariant
                n == body@.len(),
                start.x + n <= i32::MAX + 1,
                i <= n,
                soldiers@.len() == i,
                forall|j: int| 0 <= j < i ==> #[trigger] soldiers@[j] == recruit(start, body@, j),
                engineer <==> exists|j: int|
                    n - i <= j < n && #[trigger] body@[j] == UnitType::Engineer,
            decreases n - i,
        {
            let from: usize = n - 1 - i;
            let kind = body[from];
            let pos = Hex { x: (start.x as i64 + from as i64) as i32, y: start.y };
            soldiers.push(Unit::new(&kind, pos, kind.pace()));
            if kind == UnitType::Engineer {
                engineer = true;
            }
            i += 1;
        }
        let squad = Squad {
            action: if engineer {
                None
            } else {
                Some(Action::Go)
            },
            soldiers,
            goal: None,
            orig: None,
            timer_capture: 0,
            path: Vec::new(),
            timer_build: 0,
            timer_heal: 0,
            sound: true,
            team,
        };
        proof {
            assert(squad@.soldiers =~= SquadView::fresh(start, body@, team).soldiers);
        }
        squad
    }

    /// Whether the squad has an engineer.
    pub fn engineer(&self) -> (found: bool)
        ensures
            found == self@.has(UnitType::Engineer),
    {
        self.any(UnitType::Engineer)
    }

    /// Whether one of the units is of type `kind`.
    pub fn any(&self, kind: UnitType) -> (found: bool)
        ensures
            found == self@.has(kind),
    {
        let mut i: usize = 0;
        while i < self.soldiers.len()
            invariant
                i <= self.soldiers.len(),
                forall|j: int| 0 <= j < i ==> (#[trigger] self.soldiers@[j]).kind != kind,
            decreases self.soldiers.len() - i,
        {
            if self.soldiers[i].kind == kind {
                return true;
            }
            i += 1;
        }
        false
    }

    /// The units, the leader first.
    pub fn units(&self) -> (units: &Vec<Unit>)
        ensures
            units@ == self@.soldiers,
    {
        &self.soldiers
    }

    /// The hex that is built on or torn down, and the time the work has
    /// taken so far, while there is such work.
    pub fn site(&self) -> (work: Option<(Hex, u64)>)
        ensures
            work == (match self@.orig {
                Some(orig) => if self@.timer_build > 0 {
                    Some((orig, self@.timer_build as u64))
                } else {
                    None
                },
                None => None,
            }),
    {
        match self.orig {
            Some(orig) => if self.timer_build > 0 {
                Some((orig, self.timer_build))
            } else {
                None
            },
            None => None,
        }
    }

    /// The side the squad fights for.
    pub fn team(&self) -> (team: Team)
        ensures
            team == self@.team,
    {
        self.team
    }

    /// Sends the squad to `goal`, or nowhere. Work in progress starts over,
    /// and setting out will be announced again.
    pub fn set_goal(&mut self, goal: Option<Hex>)
        ensures
            final(self)@ == old(self)@.sent(goal),
            old(self).wf() ==> final(self).wf(),
    {
        self.timer_build = 0;
        self.sound = true;
        self.goal = goal;
    }

    /// Tells the squad what to do at its goal. Work in progress starts
    /// over.
    pub fn set_action(&mut self, action: Action)
        ensures
            final(self)@ == old(self)@.told(action),
            old(self).wf() ==> final(self).wf(),
    {
        self.timer_build = 0;
        self.action = Some(action);
    }

    /// The order in progress; going, while the squad waits for one.
    pub fn action(&self) -> (action: Action)
        ensures
            action == (match self@.action {
                Some(a) => a,
                None => Action::Go,
            }),
    {
        if let Some(action) = self.action {
            action
        } else {
            Action::Go
        }
    }

    /// Whether the squad has an order.
    pub fn busy(&self) -> (busy: bool)
        ensures
            busy == self@.action is Some,
    {
        self.action.is_some()
    }

    /// Where the squad is sent.
    pub fn goal(&self) -> (goal: Option<Hex>)
        ensures
            goal == self@.goal,
    {
        self.goal
    }

    /// Turns the file round: the last unit leads.
    pub fn rev(&mut self)
        ensures
            final(self)@ == (SquadView { soldiers: old(self)@.soldiers.reverse(), ..old(self)@ }),
            old(self).wf() ==> final(self).wf(),
    {
        let n = self.soldiers.len();
        let mut turned: Vec<Unit> = Vec::new();
        let mut i: usize = 0;
        while i < n
            invariant
                n == self.soldiers@.len(),
                i <= n,
                turned@.len() == i,
                forall|j: int| 0 <= j < i ==> turned@[j] == self.soldiers@[n - 1 - j],
                *self == *old(self),
            decreases n - i,
        {
            turned.push(self.soldiers[n - 1 - i]);
            i += 1;
        }
        self.soldiers = turned;
    }

    /// Gives the squad the way `path`, which begins with the hex its leader
    /// stands on, and turns the leader to the next hex. An empty way gives
    /// up the goal. Returns whether the squad announces that it sets out.
    pub fn set_path(&mut self, path: Vec<Hex>) -> (started: bool)
        ensures
            final(self)@ == old(self)@.routed(path@),
            started == old(self)@.sets_out(path@),
            old(self).wf() ==> final(self).wf(),
    {
        self.path = path;
        let mut started = false;
        if self.path.len() > 0 {
            self.path.remove(0);
            if self.sound && self.team == Team::Player {
                started = true;
                self.sound = false;
            }
            if self.path.len() > 0 && self.soldiers.len() > 0 {
                self.soldiers[0].end_pos = self.path[0];
            }
            proof {
                assert(self@.soldiers =~= old(self)@.routed(path@).soldiers);
            }
        } else {
            self.goal = None;
        }
        started
    }

    /// Whether the squad has lost its last unit.
    pub fn empty(&self) -> (none: bool)
        ensures
            none == (self@.soldiers.len() == 0),
    {
        self.soldiers.len() == 0
    }

    /// The hex the leader stands on.
    pub fn start_pos(&self) -> (pos: Hex)
        requires
            self@.soldiers.len() > 0,
        ensures
            pos == self@.soldiers[0].start_pos,
    {
        self.soldiers[0].start_pos
    }

    /// The hexes the units stand on, turrets among them or not.
    pub fn positions(&self, turret: bool) -> (held: Vec<Hex>)
        ensures
            held@ == self@.stands(turret),
    {
        let ghost keep = |u: Unit| turret || u.kind != UnitType::Turret;
        let ghost place = |u: Unit| u.start_pos;
        let mut held: Vec<Hex> = Vec::new();
        let mut i: usize = 0;
        while i < self.soldiers.len()
            invariant
                i <= self.soldiers.len(),
                keep == (|u: Unit| turret || u.kind != UnitType::Turret),
                place == (|u: Unit| u.start_pos),
                held@ == self.soldiers@.take(i as int).filter(keep).map_values(place),
            decreases self.soldiers.len() - i,
        {
            let u = self.soldiers[i];
            proof {
                assert(self.soldiers@.take(i + 1) =~= self.soldiers@.take(i as int).push(u));
                self.soldiers@.take(i as int).lemma_filter_push(u, keep);
                let kept = self.soldiers@.take(i as int).filter(keep);
                assert(kept.push(u).map_values(place) =~= kept.map_values(place).push(u.start_pos));
            }
            if turret || u.kind != UnitType::Turret {
                held.push(u.start_pos);
            }
            i += 1;
        }
        proof {
            assert(self.soldiers@.take(i as int) =~= self.soldiers@);
        }
        held
    }

    /// The units the player sees: those that stand on a visible hex.
    pub fn visible_units(&self, level: &Level) -> (shown: Vec<Unit>)
        ensures
            shown@ == self@.soldiers.filter(|u: Unit| level@.visible.contains(u.start_pos)),
    {
        let ghost seen = |u: Unit| level@.visible.contains(u.start_pos);
        let mut shown: Vec<Unit> = Vec::new();
        let mut i: usize = 0;
        while i < self.soldiers.len()
            invariant
                i <= self.soldiers.len(),
                seen == (|u: Unit| level@.visible.contains(u.start_pos)),
                shown@ == self.soldiers@.take(i as int).filter(seen),
            decreases self.soldiers.len() - i,
        {
            let u = self.soldiers[i];
            proof {
                assert(self.soldiers@.take(i + 1) =~= self.soldiers@.take(i as int).push(u));
                self.soldiers@.take(i as int).lemma_filter_push(u, seen);
            }
            if level.is_visible(&u.start_pos) {
                shown.push(u);
            }
            i += 1;
        }
        proof {
            assert(self.soldiers@.take(i as int) =~= self.soldiers@);
        }
        shown
    }

    /// Removes, for each hex of `deleted` in turn, the first unit that
    /// stands on it.
    fn bury(&mut self, deleted: &[Hex])
        requires
            old(self).wf(),
        ensures
            final(self)@ == (SquadView {
                soldiers: buried(old(self)@.soldiers, deleted@, deleted@.len()),
                ..old(self)@
            }),
            final(self).wf(),
    {
        let mut j: usize = 0;
        while j < deleted.len()
            invariant
                j <= deleted.len(),
                self.wf(),
                self@ == (SquadView {
                    soldiers: buried(old(self)@.soldiers, deleted@, j as nat),
                    ..old(self)@
                }),
            decreases deleted.len() - j,
        {
            let ghost before = self@;
            if let Some(i) = locate(&self.soldiers, deleted[j]) {
                self.soldiers.remove(i);
                proof {
                    assert forall|k: int| 0 <= k < self@.soldiers.len() implies (
                    #[trigger] self@.soldiers[k]).wf() by {
                        if k < i {
                            assert(before.soldiers[k].wf());
                        } else {
                            assert(before.soldiers[k + 1].wf());
                        }
                    }
                }
            }
            j += 1;
        }
    }

    /// The part of the update that builds and tears down. Returns the
    /// walls and turrets it made.
    fn construct(&mut self, level: &mut Level, delta: u32, Ghost(base): Ghost<Tick>) -> (made: (
        i32,
        i32,
    ))
        requires
            old(self).wf(),
            old(level).wf(),
            base.squad == old(self)@,
            base.level == old(level)@,
            base.walls == 0,
            base.turrets == 0,
        ensures
            (Tick {
                squad: final(self)@,
                level: final(level)@,
                walls: made.0 as int,
                turrets: made.1 as int,
                ..base
            }) == base.constructed(delta),
            final(self).wf(),
            final(level).wf(),
            made.0 > 0 ==> old(self)@.action == Some(Action::Wall),
            made.1 > 0 ==> old(self)@.action == Some(Action::Turret),
    {
        let mut walls: i32 = 0;
        let mut turrets: i32 = 0;
        let wall = self.action == Some(Action::Wall);
        let turret = self.action == Some(Action::Turret);
        let destroy = self.action == Some(Action::Destroy);
        let due = wall || turret || (destroy && match self.goal {
            Some(goal) => level.wall(&goal),
            None => true,
        });
        if due {
            if self.timer_build > 0 {
                self.timer_build += delta as u64;
                if let Some(orig) = self.orig {
                    if self.timer_build >= BUILD_TIME {
                        if wall {
                            walls += 1;
                            level.set(&orig);
                        } else if destroy {
                            walls -= 1;
                            level.delete(&orig);
                        } else if turret {
                            turrets += 1;
                            self.soldiers.push(Unit::new(&UnitType::Turret, orig, 0));
                        }
                        self.timer_build = 0;
                        self.orig = None;
                    }
                }
            }
            if let Some(goal) = self.goal {
                if self.soldiers.len() > 0 {
                    let around = Level::neighbours(&self.soldiers[0].start_pos);
                    proof {
                        lemma_neighbours_adjacent(self.soldiers@[0].start_pos, goal);
                    }
                    if holds(around.as_slice(), &goal) {
                        self.path.clear();
                        self.orig = self.goal;
                        self.goal = None;
                        self.timer_build += delta as u64;
                    }
                }
            }
        }
        (walls, turrets)
    }

    /// Holds on to a control point next to one of the units.
    fn hold(&mut self, level: &mut Level, delta: u32, cues: &mut Vec<Cue>, Ghost(base): Ghost<Tick>)
        requires
            old(self).wf(),
            old(level).wf(),
            base.squad == old(self)@,
            base.level == old(level)@,
            base.cues == old(cues)@,
        ensures
            (Tick { squad: final(self)@, level: final(level)@, cues: final(cues)@, ..base })
                == base.held(delta),
            final(self).wf(),
            final(level).wf(),
    {
        let mut found: Option<(Hex, bool)> = None;
        let mut n: usize = 0;
        while n < self.soldiers.len() && found.is_none()
            invariant
                n <= self.soldiers.len(),
                *self == *old(self),
                *level == *old(level),
                found == prize(level@, self.team, self.soldiers@, n as nat),
                found is Some ==> found == prize(
                    level@,
                    self.team,
                    self.soldiers@,
                    self.soldiers@.len(),
                ),
            decreases self.soldiers.len() - n + (if found is None { 1int } else { 0int }),
        {
            let u = self.soldiers[n];
            let around = Level::neighbours(&u.start_pos);
            if let Some(h) = free_next(level, &self.team, &around) {
                found = Some((h, u.kind != UnitType::Turret && self.team == Team::Player));
                proof {
                    lemma_prize_stays(
                        level@,
                        self.team,
                        self.soldiers@,
                        (n + 1) as nat,
                        self.soldiers@.len(),
                    );
                }
            }
            n += 1;
        }
        if let Some((hex, loud)) = found {
            self.timer_capture += delta as u64;
            if self.timer_capture >= CAPTURE_TIME {
                level.capture(&hex, &self.team);
                if loud {
                    cues.push(Cue::Controlled);
                }
                self.timer_capture = 0;
            }
        }
    }

    /// The turn of the `i`-th unit.
    fn turn(
        &mut self,
        i: usize,
        level: &mut Level,
        positions: &[Hex],
        heal: bool,
        delta: u32,
        ahead: &mut Option<Hex>,
        attacked: &mut Vec<(Hex, i16)>,
        cues: &mut Vec<Cue>,
        Ghost(base): Ghost<Tick>,
        Ghost(members): Ghost<nat>,
    )
        requires
            old(self).wf(),
            old(level).wf(),
            i < old(self)@.soldiers.len(),
            members == old(self)@.soldiers.len(),
            base.squad == old(self)@,
            base.level == old(level)@,
            base.cues == old(cues)@,
            base.attacked == old(attacked)@,
            base.ahead == *old(ahead),
        ensures
            (Tick {
                squad: final(self)@,
                level: final(level)@,
                cues: final(cues)@,
                attacked: final(attacked)@,
                ahead: *final(ahead),
                ..base
            }) == base.stepped(i as int, positions@, heal, members, delta),
            final(self).wf(),
            final(level).wf(),
            final(self)@.soldiers.len() == old(self)@.soldiers.len(),
            final(self)@.path == old(self)@.path,
    {
        let mut u = self.soldiers[i];
        if self.team == Team::Player {
            let count = self.soldiers.len();
            let radius: i32 = if u.kind == UnitType::Scout {
                if count <= 0x3fff_ffff {
                    count as i32 * VISIBLE_DISTANCE
                } else {
                    i32::MAX
                }
            } else {
                VISIBLE_DISTANCE
            };
            level.visible(u.start_pos, radius, true);
        }
        if heal && u.kind != UnitType::Turret {
            u.heal();
        }
        let shot = engage(&mut u, level, positions, delta);
        if let Some(hit) = shot {
            attacked.push(hit);
            cues.push(Cue::Fire { turret: u.kind == UnitType::Turret });
        }
        if u.kind != UnitType::Turret {
            if let Some(next) = *ahead {
                if self.path.len() > 0 {
                    if u.update(delta) {
                        u.end_pos = next;
                    }
                } else {
                    self.goal = None;
                }
                *ahead = Some(u.start_pos);
            }
        }
        self.soldiers[i] = u;
        proof {
            assert(self@.soldiers =~= base.squad.soldiers.update(i as int, u));
            assert forall|k: int| 0 <= k < self@.soldiers.len() implies (
            #[trigger] self@.soldiers[k]).wf() by {
                if k != i {
                    assert(base.squad.soldiers[k].wf());
                }
            }
        }
    }

    /// Advances the squad by `delta` microseconds. `deleted` holds the
    /// hexes of the units that were left without health since the last
    /// update, `positions` the hexes the enemy stands on. Returns the hits
    /// dealt, each with the hex it goes to; the walls built, less those
    /// torn down; the turrets built; and what there is to hear.
    pub fn update(
        &mut self,
        deleted: &[Hex],
        positions: &[Hex],
        level: &mut Level,
        delta: u32,
    ) -> (out: (Vec<(Hex, i16)>, i32, i32, Vec<Cue>))
        requires
            old(self).wf(),
            old(level).wf(),
        ensures
            final(self).wf(),
            final(level).wf(),
            ({
                let tick = Tick::updated(old(self)@, old(level)@, deleted@, positions@, delta);
                &&& final(self)@ == tick.squad
                &&& final(level)@ == tick.level
                &&& out.0@ == tick.attacked
                &&& out.1 == tick.walls
                &&& out.2 == tick.turrets
                &&& out.3@ == tick.cues
            }),
            out.1 > 0 ==> old(self)@.action == Some(Action::Wall),
            out.2 > 0 ==> old(self)@.action == Some(Action::Turret),
    {
        let mut ahead: Option<Hex> = if self.path.len() > 0 {
            Some(self.path[0])
        } else {
            None
        };
        self.bury(deleted);
        let mut attacked: Vec<(Hex, i16)> = Vec::new();
        let mut cues: Vec<Cue> = Vec::new();
        let ghost start = Tick {
            squad: self@,
            level: level@,
            attacked: attacked@,
            walls: 0,
            turrets: 0,
            cues: cues@,
            ahead,
        };
        let (walls, turrets) = self.construct(level, delta, Ghost(start));
        self.timer_heal += delta as u64;
        let heal = if self.timer_heal >= HEAL_TIME {
            self.timer_heal = 0;
            self.any(UnitType::Medic)
        } else {
            false
        };
        let ghost tended = Tick {
            squad: self@,
            level: level@,
            attacked: attacked@,
            walls: walls as int,
            turrets: turrets as int,
            cues: cues@,
            ahead,
        };
        let count = self.soldiers.len();
        let mut i: usize = 0;
        while i < count
            invariant
                i <= count,
                count == self@.soldiers.len(),
                count == tended.squad.soldiers.len(),
                self.wf(),
                level.wf(),
                (Tick {
                    squad: self@,
                    level: level@,
                    attacked: attacked@,
                    walls: walls as int,
                    turrets: turrets as int,
                    cues: cues@,
                    ahead,
                }) == tended.swept(i as nat, positions@, heal, count as nat, delta),
            decreases count - i,
        {
            let ghost now = Tick {
                squad: self@,
                level: level@,
                attacked: attacked@,
                walls: walls as int,
                turrets: turrets as int,
                cues: cues@,
                ahead,
            };
            self.turn(
                i,
                level,
                positions,
                heal,
                delta,
                &mut ahead,
                &mut attacked,
                &mut cues,
                Ghost(now),
                Ghost(count as nat),
            );
            i += 1;
        }
        let ghost swept = Tick {
            squad: self@,
            level: level@,
            attacked: attacked@,
            walls: walls as int,
            turrets: turrets as int,
            cues: cues@,
            ahead,
        };
        self.hold(level, delta, &mut cues, Ghost(swept));
        (attacked, walls, turrets, cues)
    }

    /// Takes `amount` of health from the first unit that stands on `pos`,
    /// if one does, and tells of what type that unit is and whether it is
    /// left without health, to be removed by the next update.
    pub fn wound(&mut self, pos: Hex, amount: i16) -> (hit: Option<(UnitType, bool)>)
        ensures
            final(self)@ == old(self)@.wounded(pos, amount),
            final(self)@.soldiers.len() == old(self)@.soldiers.len(),
            old(self).wf() ==> final(self).wf(),
            match first_at(old(self)@.soldiers, pos, old(self)@.soldiers.len()) {
                Some(i) => hit == Some(
                    (old(self)@.soldiers[i].kind, old(self)@.soldiers[i].hurt(amount) <= 0),
                ),
                None => hit is None,
            },
    {
        match locate(&self.soldiers, pos) {
            Some(i) => {
                let u = self.soldiers[i];
                let left: i32 = u.health as i32 - amount as i32;
                let health: i16 = if left <= 0 {
                    0
                } else if left >= u.max_health as i32 {
                    u.max_health
                } else {
                    left as i16
                };
                self.soldiers[i].health = health;
                Some((u.kind, health <= 0))
            },
            None => None,
        }
    }
}

/// The first of `around` that is a control point `team` does not hold
/// yet.
pub fn free_next(level: &Level, team: &Team, around: &Vec<Hex>) -> (found: Option<Hex>)
    ensures
        found == first_free(level@, *team, around@, around@.len()),
{
    let mut n: usize = 0;
    while n < around.len()
        invariant
            n <= around.len(),
            first_free(level@, *team, around@, n as nat) is None,
        decreases around.len() - n,
    {
        if level.is_capturable(&around[n], team) {
            proof {
                lemma_first_free_stays(level@, *team, around@, (n + 1) as nat, around@.len());
            }
            return Some(around[n]);
        }
        n += 1;
    }
    None
}

/// The place of the position nearest to `from`, and of the first where
/// several are equally near.
pub fn nearest(positions: &[Hex], from: &Hex) -> (best: usize)
    requires
        positions@.len() > 0,
    ensures
        best == closest(positions@, *from, positions@.len()),
        best < positions@.len(),
        forall|j: int|
            0 <= j < positions@.len() ==> distance(positions@[best as int], *from) <= distance(
                #[trigger] positions@[j],
                *from,
            ),
        forall|j: int|
            0 <= j < best ==> distance(positions@[best as int], *from) < distance(
                #[trigger] positions@[j],
                *from,
            ),
{
    let mut best: usize = 0;
    let mut least: u64 = Level::distance(&positions[0], from);
    let mut n: usize = 1;
    while n < positions.len()
        invariant
            1 <= n <= positions.len(),
            best < n,
            best == closest(positions@, *from, n as nat),
            least == distance(positions@[best as int], *from),
            forall|j: int| 0 <= j < n ==> least <= distance(#[trigger] positions@[j], *from),
            forall|j: int| 0 <= j < best ==> least < distance(#[trigger] positions@[j], *from),
        decreases positions.len() - n,
    {
        let d = Level::distance(&positions[n], from);
        if d < least {
            best = n;
            least = d;
        }
        n += 1;
    }
    best
}

/// Lets `unit` look for a target among `positions` and shoot at it if it
/// can. Returns the hit dealt, with the hex it goes to.
pub fn engage(unit: &mut Unit, level: &Level, positions: &[Hex], delta: u32) -> (shot: Option<
    (Hex, i16),
>)
    requires
        old(unit).wf(),
    ensures
        (*final(unit), shot) == aimed(*old(unit), level@, positions@, delta),
        final(unit).wf(),
        final(unit).kind == old(unit).kind,
{
    if positions.len() == 0 {
        return None;
    }
    let target = positions[nearest(positions, &unit.start_pos)];
    let sniper = unit.kind == UnitType::Sniper;
    let seen = level.is_visible(&target) || sniper;
    let from = unit.start_pos;
    let ready = unit.fire(
        if seen {
            Some(target)
        } else {
            None
        },
        delta,
    );
    if ready && seen && Level::distance(&target, &from) < unit.kind.reach() && level.can_shot(
        &from,
        &target,
    ) {
        unit.zero_timer();
        Some((target, unit.kind.damage()))
    } else {
        None
    }
}

/// `after` are the units `before` as an update leaves them when nothing
/// but the update touches them: in the same order, each of the type and
/// with the ceiling it had, and with the health it had unless a round of
/// healing came (`healed`); at most one more unit has joined at the end.
pub open spec fn kept(before: Seq<Unit>, after: Seq<Unit>, healed: bool) -> bool {
    &&& before.len() <= after.len() <= before.len() + 1
    &&& forall|j: int|
        0 <= j < before.len() ==> {
            &&& (#[trigger] after[j]).kind == before[j].kind
            &&& after[j].max_health == before[j].max_health
            &&& !healed ==> after[j].health == before[j].health
            &&& after[j].health >= before[j].health || before[j].health > before[j].max_health
        }
}

/// The turns of the units leave every unit in its place in the squad, of
/// its type and with its ceiling, and with its health unless a round of
/// healing is on.
pub proof fn lemma_sweep_units(
    t: Tick,
    n: nat,
    positions: Seq<Hex>,
    heal: bool,
    members: nat,
    delta: u32,
)
    requires
        n <= t.squad.soldiers.len(),
    ensures
        ({
            let r = t.swept(n, positions, heal, members, delta);
            &&& r.squad.soldiers.len() == t.squad.soldiers.len()
            &&& r.squad.action == t.squad.action
            &&& r.squad.team == t.squad.team
            &&& r.squad.timer_heal == t.squad.timer_heal
            &&& forall|j: int|
                0 <= j < t.squad.soldiers.len() ==> {
                    &&& (#[trigger] r.squad.soldiers[j]).kind == t.squad.soldiers[j].kind
                    &&& r.squad.soldiers[j].max_health == t.squad.soldiers[j].max_health
                    &&& !heal ==> r.squad.soldiers[j].health == t.squad.soldiers[j].health
                    &&& r.squad.soldiers[j].health >= t.squad.soldiers[j].health
                        || t.squad.soldiers[j].health > t.squad.soldiers[j].max_health
                }
        }),
    decreases n,
{
    if n > 0 {
        lemma_sweep_units(t, (n - 1) as nat, positions, heal, members, delta);
    }
}

/// Every unit that is left when hexes are cleared was there before.
pub proof fn lemma_buried_from(soldiers: Seq<Unit>, deleted: Seq<Hex>, n: nat, j: int)
    requires
        0 <= j < buried(soldiers, deleted, n).len(),
    ensures
        exists|i: int|
            0 <= i < soldiers.len() && #[trigger] soldiers[i] == buried(soldiers, deleted, n)[j],
    decreases n,
{
    if n == 0 || n > deleted.len() {
        assert(soldiers[j] == buried(soldiers, deleted, n)[j]);
    } else {
        let rest = buried(soldiers, deleted, (n - 1) as nat);
        lemma_first_at_range(rest, deleted[n - 1], rest.len());
        match first_at(rest, deleted[n - 1], rest.len()) {
            Some(i) => {
                if j < i {
                    assert(rest.remove(i)[j] == rest[j]);
                    lemma_buried_from(soldiers, deleted, (n - 1) as nat, j);
                } else {
                    assert(rest.remove(i)[j] == rest[j + 1]);
                    lemma_buried_from(soldiers, deleted, (n - 1) as nat, j + 1);
                }
            },
            None => {
                lemma_buried_from(soldiers, deleted, (n - 1) as nat, j);
            },
        }
    }
}

/// An update of a squad removes the units that stand on the hexes of
/// `deleted`, the first on each, and leaves the others as `kept` says. No
/// unit joins unless the squad is told to build a turret.
pub proof fn lemma_update_units(
    squad: SquadView,
    level: LevelView,
    deleted: Seq<Hex>,
    positions: Seq<Hex>,
    delta: u32,
)
    ensures
        ({
            let tick = Tick::updated(squad, level, deleted, positions, delta);
            let left = buried(squad.soldiers, deleted, deleted.len());
            &&& kept(left, tick.squad.soldiers, squad.heals(delta))
            &&& squad.action != Some(Action::Turret) ==> tick.squad.soldiers.len() == left.len()
            &&& tick.squad.action == squad.action
            &&& tick.squad.team == squad.team
        }),
{
    let ahead = if squad.path.len() > 0 {
        Some(squad.path[0])
    } else {
        None
    };
    let left = SquadView { soldiers: buried(squad.soldiers, deleted, deleted.len()), ..squad };
    let built = (Tick {
        squad: left,
        level,
        attacked: Seq::empty(),
        walls: 0,
        turrets: 0,
        cues: Seq::empty(),
        ahead,
    }).constructed(delta);
    let heal = built.squad.heal_due(delta) && built.squad.has(UnitType::Medic);
    let tended = Tick {
        squad: SquadView {
            timer_heal: if built.squad.heal_due(delta) {
                0
            } else {
                built.squad.timer_heal + delta
            },
            ..built.squad
        },
        ..built
    };
    let count = tended.squad.soldiers.len();
    lemma_sweep_units(tended, count, positions, heal, count, delta);
    assert(built.squad.soldiers.len() >= left.soldiers.len());
    if heal {
        let j = choose|j: int|
            0 <= j < built.squad.soldiers.len() && (#[trigger] built.squad.soldiers[j]).kind
                == UnitType::Medic;
        assert(j < left.soldiers.len());
        assert(left.soldiers[j].kind == UnitType::Medic);
        lemma_buried_from(squad.soldiers, deleted, deleted.len(), j);
    }
    assert forall|j: int| 0 <= j < left.soldiers.len() implies built.squad.soldiers[j]
        == left.soldiers[j] by {}
}

/// Once a control point to hold on to is found next to one of the first
/// `n` units, the other units do not change it.
pub proof fn lemma_prize_stays(lv: LevelView, team: Team, soldiers: Seq<Unit>, n: nat, m: nat)
    requires
        n <= m <= soldiers.len(),
        prize(lv, team, soldiers, n) is Some,
    ensures
        prize(lv, team, soldiers, m) == prize(lv, team, soldiers, n),
    decreases m,
{
    if m > n {
        lemma_prize_stays(lv, team, soldiers, n, (m - 1) as nat);
    }
}

/// Once a control point that can be taken is found among the first `n`,
/// looking at more of the hexes finds the same one.
pub proof fn lemma_first_free_stays(lv: LevelView, team: Team, around: Seq<Hex>, n: nat, m: nat)
    requires
        n <= m <= around.len(),
        first_free(lv, team, around, n) is Some,
    ensures
        first_free(lv, team, around, m) == first_free(lv, team, around, n),
    decreases m,
{
    if m > n {
        lemma_first_free_stays(lv, team, around, n, (m - 1) as nat);
    }
}

/// Where `point` is the only one of the first `n` hexes that can be taken,
/// it is the one found, if it is among them; where none can, none is.
pub proof fn lemma_first_free_only(
    lv: LevelView,
    team: Team,
    around: Seq<Hex>,
    n: nat,
    point: Hex,
)
    requires
        n <= around.len(),
        forall|i: int| 0 <= i < n && around[i] != point ==> !lv.capturable(
            #[trigger] around[i],
            team,
        ),
    ensures
        first_free(lv, team, around, n) == (if lv.capturable(point, team) && around.take(
            n as int,
        ).contains(point) {
            Some(point)
        } else {
            None
        }),
    decreases n,
{
    if n > 0 {
        lemma_first_free_only(lv, team, around, (n - 1) as nat, point);
        let before = around.take(n - 1);
        let now = around.take(n as int);
        assert(now =~= before.push(around[n - 1]));
        assert(now[n - 1] == around[n - 1]);
        if before.contains(point) {
            let i = choose|i: int| 0 <= i < before.len() && before[i] == point;
            assert(now[i] == point);
        }
        if now.contains(point) && around[n - 1] != point {
            let i = choose|i: int| 0 <= i < now.len() && now[i] == point;
            assert(before[i] == point);
        }
    } else {
        assert(around.take(0).len() == 0);
    }
}

/// A squad of one unit that is told to go, stands still next to a control
/// point that its team can take, the only such one next to it, and has
/// held on for `CAPTURE_TIME` with this update, takes the point; and the
/// update after that leaves the point and the sounds alone, however long
/// it is.
pub proof fn lemma_capture_once(
    squad: SquadView,
    level: LevelView,
    point: Hex,
    delta: u32,
    later: u32,
)
    requires
        squad.soldiers.len() == 1,
        squad.action == Some(Action::Go),
        squad.path.len() == 0,
        adjacent(squad.soldiers[0].start_pos, point),
        level.capturable(point, squad.team),
        forall|h: Hex|
            adjacent(squad.soldiers[0].start_pos, h) && h != point ==> !#[trigger] level.capturable(
                h,
                squad.team,
            ),
        squad.timer_capture + delta >= CAPTURE_TIME,
    ensures
        ({
            let first = Tick::updated(squad, level, Seq::empty(), Seq::empty(), delta);
            let second = Tick::updated(first.squad, first.level, Seq::empty(), Seq::empty(), later);
            let loud = squad.soldiers[0].kind != UnitType::Turret && squad.team == Team::Player;
            &&& first.level.tiles == level.tiles.insert(point, control_tile(squad.team))
            &&& !first.level.capturable(point, squad.team)
            &&& first.level.capturable(point, opponent(squad.team))
            &&& first.squad.timer_capture == 0
            &&& first.cues == (if loud {
                seq![Cue::Controlled]
            } else {
                Seq::<Cue>::empty()
            })
            &&& second.level.tiles == first.level.tiles
            &&& second.cues == Seq::<Cue>::empty()
            &&& second.squad.timer_capture == 0
        }),
{
    reveal_with_fuel(Tick::swept, 2);
    reveal_with_fuel(buried, 1);
    reveal_with_fuel(prize, 2);
    let none = Seq::<Hex>::empty();
    let first = Tick::updated(squad, level, none, none, delta);
    let unit = squad.soldiers[0];
    let loud = unit.kind != UnitType::Turret && squad.team == Team::Player;
    let around = neighbours(unit.start_pos);
    lemma_neighbours_adjacent(unit.start_pos, point);
    assert(around.take(around.len() as int) =~= around);
    assert forall|i: int| 0 <= i < around.len() implies adjacent(
        unit.start_pos,
        #[trigger] around[i],
    ) by {
        lemma_neighbours_adjacent(unit.start_pos, around[i]);
    }
    // the first update, up to the squad's hold on the control point
    let lit = if squad.team == Team::Player {
        level.revealed(unit.start_pos, sight(unit.kind, 1), true)
    } else {
        level
    };
    let due = squad.heal_due(delta);
    let heal = due && squad.has(UnitType::Medic);
    let mended = if heal && unit.kind != UnitType::Turret {
        Unit { health: unit.healed(), ..unit }
    } else {
        unit
    };
    let tended = SquadView {
        timer_heal: if due {
            0
        } else {
            squad.timer_heal + delta
        },
        ..squad
    };
    let mid = Tick {
        squad: SquadView { soldiers: tended.soldiers.update(0, mended), ..tended },
        level: lit,
        attacked: Seq::empty(),
        walls: 0,
        turrets: 0,
        cues: Seq::empty(),
        ahead: None,
    };
    assert forall|i: int| 0 <= i < around.len() && around[i] != point implies !lit.capturable(
        #[trigger] around[i],
        squad.team,
    ) by {
        assert(!level.capturable(around[i], squad.team));
    }
    lemma_first_free_only(lit, squad.team, around, around.len(), point);
    assert(mid.squad.soldiers[0].start_pos == unit.start_pos);
    assert(prize(lit, squad.team, mid.squad.soldiers, 1) == Some((point, loud)));
    assert(first == mid.held(delta));
    assert(first.level.tiles =~= level.tiles.insert(point, control_tile(squad.team)));
    assert(first.cues =~= (if loud {
        seq![Cue::Controlled]
    } else {
        Seq::<Cue>::empty()
    }));
    // the second update
    let rested = first.squad.soldiers[0];
    let lit2 = if squad.team == Team::Player {
        first.level.revealed(rested.start_pos, sight(rested.kind, 1), true)
    } else {
        first.level
    };
    let due2 = first.squad.heal_due(later);
    let heal2 = due2 && first.squad.has(UnitType::Medic);
    let mended2 = if heal2 && rested.kind != UnitType::Turret {
        Unit { health: rested.healed(), ..rested }
    } else {
        rested
    };
    let tended2 = SquadView {
        timer_heal: if due2 {
            0
        } else {
            first.squad.timer_heal + later
        },
        ..first.squad
    };
    let mid2 = Tick {
        squad: SquadView { soldiers: tended2.soldiers.update(0, mended2), ..tended2 },
        level: lit2,
        attacked: Seq::empty(),
        walls: 0,
        turrets: 0,
        cues: Seq::empty(),
        ahead: None,
    };
    assert forall|i: int| 0 <= i < around.len() implies !lit2.capturable(
        #[trigger] around[i],
        squad.team,
    ) by {
        if around[i] != point {
            assert(!level.capturable(around[i], squad.team));
        }
    }
    lemma_first_free_only(lit2, squad.team, around, around.len(), point);
    assert(mid2.squad.soldiers[0].start_pos == unit.start_pos);
    assert(prize(lit2, squad.team, mid2.squad.soldiers, 1) is None);
    let second = Tick::updated(first.squad, first.level, none, none, later);
    assert(second == mid2.held(later));
}

/// A squad whose leader stands next to the open hex `site` builds a wall
/// there in two updates that together take `BUILD_TIME`, and, told to tear
/// it down, does so in two more: then the world is as it was before.
pub proof fn lemma_build_and_tear_down(t: Tick, site: Hex, d1: u32, d2: u32, d3: u32, d4: u32)
    requires
        t.level.wf(),
        t.level.open(site),
        t.squad.soldiers.len() > 0,
        adjacent(t.squad.soldiers[0].start_pos, site),
        0 < d1,
        d1 + d2 >= BUILD_TIME,
        0 < d3,
        d3 + d4 >= BUILD_TIME,
    ensures
        ({
            let begun = (Tick {
                squad: t.squad.told(Action::Wall).sent(Some(site)),
                ..t
            }).constructed(d1);
            let built = begun.constructed(d2);
            let back = (Tick {
                squad: built.squad.told(Action::Destroy).sent(Some(site)),
                ..built
            }).constructed(d3);
            let gone = back.constructed(d4);
            &&& begun.level == t.level
            &&& built.level == t.level.walled(site)
            &&& built.level.wall(site)
            &&& built.walls == t.walls + 1
            &&& back.level == built.level
            &&& gone.level == t.level
            &&& gone.level.open(site)
            &&& !gone.level.solid.contains(site)
            &&& gone.walls == t.walls
            &&& gone.turrets == t.turrets
        }),
{
    t.level.lemma_wall_round_trip(site);
}

/// The first of `soldiers` that stands on `pos`.
pub fn locate(soldiers: &Vec<Unit>, pos: Hex) -> (at: Option<usize>)
    ensures
        match at {
            Some(i) => {
                &&& first_at(soldiers@, pos, soldiers@.len()) == Some(i as int)
                &&& i < soldiers@.len()
                &&& soldiers@[i as int].start_pos == pos
                &&& forall|j: int| 0 <= j < i ==> (#[trigger] soldiers@[j]).start_pos != pos
            },
            None => {
                &&& first_at(soldiers@, pos, soldiers@.len()) is None
                &&& forall|j: int|
                    0 <= j < soldiers@.len() ==> (#[trigger] soldiers@[j]).start_pos != pos
            },
        },
{
    let mut i: usize = 0;
    while i < soldiers.len()
        invariant
            i <= soldiers.len(),
            first_at(soldiers@, pos, i as nat) is None,
            forall|j: int| 0 <= j < i ==> (#[trigger] soldiers@[j]).start_pos != pos,
        decreases soldiers.len() - i,
    {
        if soldiers[i].start_pos == pos {
            proof {
                lemma_first_at_stays(soldiers@, pos, (i + 1) as nat, soldiers@.len());
            }
            return Some(i);
        }
        i += 1;
    }
    None
}

/// The unit found is one of the first `n` and stands on `pos`.
pub proof fn lemma_first_at_range(soldiers: Seq<Unit>, pos: Hex, n: nat)
    requires
        n <= soldiers.len(),
    ensures
        first_at(soldiers, pos, n) matches Some(i) ==> 0 <= i < n && soldiers[i].start_pos == pos,
        first_at(soldiers, pos, n) is None ==> forall|j: int|
            0 <= j < n ==> (#[trigger] soldiers[j]).start_pos != pos,
    decreases n,
{
    if n > 0 {
        lemma_first_at_range(soldiers, pos, (n - 1) as nat);
    }
}

/// Once a unit on `pos` is found among the first `n`, looking at more of
/// them finds the same one.
pub proof fn lemma_first_at_stays(soldiers: Seq<Unit>, pos: Hex, n: nat, m: nat)
    requires
        n <= m <= soldiers.len(),
        first_at(soldiers, pos, n) is Some,
    ensures
        first_at(soldiers, pos, m) == first_at(soldiers, pos, n),
    decreases m,
{
    if m > n {
        lemma_first_at_stays(soldiers, pos, n, (m - 1) as nat);
    }
}

} // verus!
