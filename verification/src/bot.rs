//! The opponent: it raises squads at a control point of its own and sends
//! them against all control points, by the same rules as the player.

use vstd::prelude::*;
use crate::army::{
    advance, alive, first_with, fit, follows, graves, headcount, lemma_alive,
    lemma_campaign_follows, lemma_cleared_is_removed, lemma_cleared_nothing,
    lemma_fallen_removed, lemma_first_with_range, lemma_headcount, lemma_hit, lemma_sole,
    lemma_stays, lemma_struck_len, marching, prune, stays, strike, struck, views, March,
};
use crate::squad::{first_at, Action};
use crate::unit::Unit;
use crate::dice::roll;
use crate::level::{Level, LevelView};
use crate::terrain::ATTEMPTS;
use crate::squad::{Cue, Squad, SquadView};
use crate::structs::{Difficulty, Hex, Team, UnitType};

verus! {

/// The number of units in each squad of the opponent.
pub const RAIDERS: usize = 5;

/// The opponent's side: its squads.
pub struct Bot {
    squads: Vec<Squad>,
}

/// How many squads the opponent raises for each control point.
pub open spec fn coefficient(difficulty: Difficulty) -> nat {
    match difficulty {
        Difficulty::Normal => 2,
        Difficulty::Hard => 3,
    }
}

/// How many squads in a row are sent to the same control point.
pub open spec fn per_goal(difficulty: Difficulty) -> nat {
    match difficulty {
        Difficulty::Normal => 1,
        Difficulty::Hard => 2,
    }
}

/// The members of each squad of the opponent.
pub open spec fn raiders() -> Seq<UnitType> {
    seq![
        UnitType::Sniper,
        UnitType::Sniper,
        UnitType::Infantry,
        UnitType::Infantry,
        UnitType::Infantry,
    ]
}

/// There is room for `squads` squads in a column from `base` on.
pub open spec fn room(base: Hex, squads: nat) -> bool {
    base.x + RAIDERS <= i32::MAX + 1 && base.y + squads <= i32::MAX + 1
}

/// The `i`-th squad raised at `base`: it starts `i` hexes further along
/// the column, and is sent to the control points in turn, round and
/// round, each of them `per_goal` times in a row.
pub open spec fn raised(goals: Seq<Hex>, base: Hex, difficulty: Difficulty, i: int) -> SquadView {
    SquadView::fresh(Hex { x: base.x, y: (base.y + i) as i32 }, raiders(), Team::Computer).sent(
        Some(goals[(i / (per_goal(difficulty) as int)) % (goals.len() as int)]),
    )
}

/// The squads raised at `base` against the control points `goals`.
pub open spec fn spawned(goals: Seq<Hex>, base: Hex, difficulty: Difficulty) -> Seq<SquadView> {
    Seq::new(
        coefficient(difficulty) * goals.len(),
        |i: int| raised(goals, base, difficulty, i),
    )
}

/// Two squads are raised for each control point, and three where the
/// opponent plays hard.
pub proof fn lemma_spawned_count(goals: Seq<Hex>, base: Hex)
    ensures
        spawned(goals, base, Difficulty::Normal).len() == 2 * goals.len(),
        spawned(goals, base, Difficulty::Hard).len() == 3 * goals.len(),
{
}

/// The control point that the draw `drawn` names among `goals`, unless it
/// names none or names the origin.
pub open spec fn named(goals: Seq<Hex>, drawn: int) -> Option<Hex> {
    if 0 <= drawn < goals.len() && goals[drawn] != (Hex { x: 0, y: 0 }) {
        Some(goals[drawn])
    } else {
        None
    }
}

/// What a try for the place where the opponent arrives came to.
#[derive(Clone, Copy, Debug, PartialEq, Eq, Structural)]
pub enum Attempt {
    /// The draw names a control point that is not the origin.
    Base(Hex),
    /// It does not, and another place in the list is drawn.
    Again,
    /// It does not, and it was the last try.
    GiveUp,
}

/// The upper bound, not included, of the draw of a place in a list of `n`
/// control points; the lower one is none. The whole list can be drawn, as
/// far as the draw reaches.
pub open spec fn spec_span(n: usize) -> i32 {
    if n > 0x1_0000 {
        0x1_0000
    } else {
        n as i32
    }
}

/// What the try number `tries`, counted from none, comes to when the
/// place `drawn` in the list `goals` is drawn: the control point named is
/// the base, if one is named and it is not the origin; else another place
/// is drawn, unless this was the last of `ATTEMPTS` tries.
pub open spec fn spec_attempt(goals: Seq<Hex>, tries: u32, drawn: int) -> Attempt {
    match named(goals, drawn) {
        Some(base) => Attempt::Base(base),
        None => if tries + 1 < ATTEMPTS {
            Attempt::Again
        } else {
            Attempt::GiveUp
        },
    }
}

/// The world welcomes an opponent whatever is drawn: it has a control
/// point, none of its control points is the origin, and at each of them
/// there is room for the squads.
pub open spec fn welcomes(lv: LevelView, difficulty: Difficulty) -> bool {
    &&& lv.controls().len() > 0
    &&& forall|c: Hex| #[trigger]
        lv.control(c) ==> c != (Hex { x: 0, y: 0 }) && room(
            c,
            coefficient(difficulty) * lv.controls().len(),
        )
}

/// The world bars an opponent whatever is drawn: each of its control
/// points is the origin or has no room for the squads.
pub open spec fn bars(lv: LevelView, difficulty: Difficulty) -> bool {
    forall|c: Hex| #[trigger]
        lv.control(c) ==> c == (Hex { x: 0, y: 0 }) || !room(
            c,
            coefficient(difficulty) * lv.controls().len(),
        )
}

/// An update of the opponent makes of each squad what `follows` says,
/// from the squad as the hits left it and with the hexes of the fallen to
/// clear, before the squads without units are dropped. So a unit that a
/// hit leaves without health is removed in the same update, and a unit
/// that no hit goes to keeps its health unless a round of healing comes.
pub proof fn lemma_update_follows(
    squads: Seq<SquadView>,
    level: LevelView,
    obstacles: Seq<Hex>,
    targets: Seq<Hex>,
    events: Seq<(Hex, i16)>,
    delta: u32,
)
    ensures
        ({
            let (hurt, fallen) = struck(squads, events, events.len());
            let c = (March {
                squads: hurt,
                level,
                attacked: Seq::empty(),
                walls: 0,
                turrets: 0,
                cues: Seq::empty(),
            }).campaign(hurt.len(), graves(fallen), obstacles, targets, false, delta);
            &&& Bot::updated(squads, level, obstacles, targets, events, delta).squads == alive(
                c.squads,
            )
            &&& hurt.len() == squads.len()
            &&& c.squads.len() == squads.len()
            &&& forall|k: int|
                0 <= k < squads.len() ==> follows(
                    hurt[k],
                    #[trigger] c.squads[k],
                    graves(fallen),
                    delta,
                    false,
                )
        }),
{
    let (hurt, fallen) = struck(squads, events, events.len());
    lemma_struck_len(squads, events, events.len());
    let m = March {
        squads: hurt,
        level,
        attacked: Seq::empty(),
        walls: 0,
        turrets: 0,
        cues: Seq::empty(),
    };
    lemma_campaign_follows(m, hurt.len(), graves(fallen), obstacles, targets, false, delta);
}

/// An update of the opponent leaves every squad told to go, if every
/// squad was, and every squad well formed in its order.
pub proof fn lemma_update_marching(
    squads: Seq<SquadView>,
    level: LevelView,
    obstacles: Seq<Hex>,
    targets: Seq<Hex>,
    events: Seq<(Hex, i16)>,
    delta: u32,
)
    requires
        marching(squads),
    ensures
        marching(Bot::updated(squads, level, obstacles, targets, events, delta).squads),
{
    lemma_update_follows(squads, level, obstacles, targets, events, delta);
    let (hurt, fallen) = struck(squads, events, events.len());
    lemma_struck_len(squads, events, events.len());
    let c = (March {
        squads: hurt,
        level,
        attacked: Seq::empty(),
        walls: 0,
        turrets: 0,
        cues: Seq::empty(),
    }).campaign(hurt.len(), graves(fallen), obstacles, targets, false, delta);
    assert forall|k: int| 0 <= k < c.squads.len() implies (#[trigger] c.squads[k]).action == Some(
        Action::Go,
    ) by {
        assert(follows(hurt[k], c.squads[k], graves(fallen), delta, false));
        assert(hurt[k].action == squads[k].action);
    }
    lemma_alive(c.squads);
}

/// The squads of the opponent after the part of its update in which they
/// are updated, before those without units are dropped.
pub open spec fn marched(
    squads: Seq<SquadView>,
    level: LevelView,
    obstacles: Seq<Hex>,
    targets: Seq<Hex>,
    events: Seq<(Hex, i16)>,
    delta: u32,
) -> Seq<SquadView> {
    let (hurt, fallen) = struck(squads, events, events.len());
    (March {
        squads: hurt,
        level,
        attacked: Seq::empty(),
        walls: 0,
        turrets: 0,
        cues: Seq::empty(),
    }).campaign(hurt.len(), graves(fallen), obstacles, targets, false, delta).squads
}

/// One hit on the opponent in an update in which no round of healing
/// comes to any squad. Where no unit stands on the hex of the hit, every
/// unit stays as it was. Where one unit does and no other, it loses the
/// health the hit takes and stays if it has health left, and is removed
/// in the same update if it has none; every other unit stays as it was.
/// The squads are those of `marched`, of which the update drops the ones
/// without units.
pub proof fn lemma_hit_update(
    squads: Seq<SquadView>,
    level: LevelView,
    obstacles: Seq<Hex>,
    targets: Seq<Hex>,
    pos: Hex,
    amount: i16,
    delta: u32,
)
    requires
        fit(squads),
        amount > 0,
        forall|j: int| 0 <= j < squads.len() ==> !(#[trigger] squads[j]).heals(delta),
    ensures
        ({
            let each = marched(squads, level, obstacles, targets, seq![(pos, amount)], delta);
            &&& Bot::updated(squads, level, obstacles, targets, seq![(pos, amount)], delta).squads
                == alive(each)
            &&& each.len() == squads.len()
            &&& first_with(squads, pos, squads.len()) is None ==> forall|j: int|
                0 <= j < squads.len() ==> stays(squads[j].soldiers, (#[trigger] each[j]).soldiers)
            &&& forall|k: int, i: int|
                {
                    &&& 0 <= k < squads.len()
                    &&& 0 <= i < squads[k].soldiers.len()
                    &&& #[trigger] squads[k].soldiers[i].start_pos == pos
                    &&& forall|a: int, b: int|
                        0 <= a < squads.len() && 0 <= b < squads[a].soldiers.len() && (a != k || b
                            != i) ==> (#[trigger] squads[a].soldiers[b]).start_pos != pos
                } ==> {
                    let unit = squads[k].soldiers[i];
                    &&& unit.health > amount ==> stays(
                        squads[k].soldiers.update(
                            i,
                            Unit { health: (unit.health - amount) as i16, ..unit },
                        ),
                        each[k].soldiers,
                    )
                    &&& unit.health <= amount ==> stays(
                        squads[k].soldiers.remove(i),
                        each[k].soldiers,
                    )
                    &&& forall|j: int|
                        0 <= j < squads.len() && j != k ==> stays(
                            squads[j].soldiers,
                            (#[trigger] each[j]).soldiers,
                        )
                }
        }),
{
    let events = seq![(pos, amount)];
    let each = marched(squads, level, obstacles, targets, events, delta);
    lemma_update_follows(squads, level, obstacles, targets, events, delta);
    let (hurt, fallen) = struck(squads, events, 1);
    reveal_with_fuel(struck, 2);
    assert(events[0] == (pos, amount));
    lemma_first_with_range(squads, pos, squads.len());
    if first_with(squads, pos, squads.len()) is None {
        assert(hurt == squads);
        assert(graves(fallen) =~= Seq::<Hex>::empty());
        assert forall|j: int| 0 <= j < squads.len() implies stays(
            squads[j].soldiers,
            (#[trigger] each[j]).soldiers,
        ) by {
            assert(!squads[j].heals(delta));
            assert(follows(hurt[j], each[j], graves(fallen), delta, false));
            lemma_stays(squads[j].soldiers, each[j].soldiers, false);
        }
    }
    assert forall|k: int, i: int|
        {
            &&& 0 <= k < squads.len()
            &&& 0 <= i < squads[k].soldiers.len()
            &&& #[trigger] squads[k].soldiers[i].start_pos == pos
            &&& forall|a: int, b: int|
                0 <= a < squads.len() && 0 <= b < squads[a].soldiers.len() && (a != k || b != i)
                    ==> (#[trigger] squads[a].soldiers[b]).start_pos != pos
        } implies {
        let unit = squads[k].soldiers[i];
        &&& unit.health > amount ==> stays(
            squads[k].soldiers.update(i, Unit { health: (unit.health - amount) as i16, ..unit }),
            each[k].soldiers,
        )
        &&& unit.health <= amount ==> stays(squads[k].soldiers.remove(i), each[k].soldiers)
        &&& forall|j: int|
            0 <= j < squads.len() && j != k ==> stays(
                squads[j].soldiers,
                (#[trigger] each[j]).soldiers,
            )
    } by {
        lemma_sole(squads, pos, k, i);
        lemma_hit(squads, pos, amount, k, i);
        let unit = squads[k].soldiers[i];
        assert(squads[k].wf());
        assert(unit.wf());
        assert(hurt[k] == squads[k].wounded(pos, amount));
        assert(!squads[k].heals(delta));
        assert(!hurt[k].heals(delta)) by {
            if hurt[k].has(UnitType::Medic) {
                let x = choose|x: int|
                    0 <= x < hurt[k].soldiers.len() && (#[trigger] hurt[k].soldiers[x]).kind
                        == UnitType::Medic;
                assert(squads[k].soldiers[x].kind == UnitType::Medic);
            }
        }
        assert(follows(hurt[k], each[k], graves(fallen), delta, false));
        if unit.health > amount {
            assert(graves(fallen) =~= Seq::<Hex>::empty());
            lemma_stays(hurt[k].soldiers, each[k].soldiers, false);
            assert(hurt[k].soldiers =~= squads[k].soldiers.update(
                i,
                Unit { health: (unit.health - amount) as i16, ..unit },
            ));
        } else {
            assert(graves(fallen) =~= seq![pos]);
            assert forall|b: int| 0 <= b < hurt[k].soldiers.len() && b != i implies (
            #[trigger] hurt[k].soldiers[b]).start_pos != pos by {
                assert(squads[k].soldiers[b].start_pos != pos);
            }
            lemma_cleared_is_removed(hurt[k].soldiers, each[k].soldiers, pos, i, false, false);
            lemma_stays(hurt[k].soldiers.remove(i), each[k].soldiers, false);
            assert(hurt[k].soldiers.remove(i) =~= squads[k].soldiers.remove(i));
        }
        assert forall|j: int| 0 <= j < squads.len() && j != k implies stays(
            squads[j].soldiers,
            (#[trigger] each[j]).soldiers,
        ) by {
            assert(hurt[j] == squads[j]);
            assert(!squads[j].heals(delta));
            assert(follows(hurt[j], each[j], graves(fallen), delta, false));
            assert forall|b: int| 0 <= b < squads[j].soldiers.len() implies (
            #[trigger] squads[j].soldiers[b]).start_pos != pos by {}
            if unit.health > amount {
                assert(graves(fallen) =~= Seq::<Hex>::empty());
            } else {
                lemma_cleared_nothing(squads[j].soldiers, each[j].soldiers, pos, false, false);
            }
            lemma_stays(squads[j].soldiers, each[j].soldiers, false);
        }
    }
}

/// One hit that leaves a unit of the opponent without health, the only
/// unit on its hex: with the update that takes the hit, the opponent has
/// one unit less.
pub proof fn lemma_fallen_count(
    squads: Seq<SquadView>,
    level: LevelView,
    obstacles: Seq<Hex>,
    targets: Seq<Hex>,
    pos: Hex,
    amount: i16,
    delta: u32,
    k: int,
    i: int,
)
    requires
        fit(squads),
        marching(squads),
        first_with(squads, pos, squads.len()) == Some(k),
        first_at(squads[k].soldiers, pos, squads[k].soldiers.len()) == Some(i),
        0 <= k < squads.len(),
        0 <= i < squads[k].soldiers.len(),
        squads[k].soldiers[i].health - amount <= 0,
        forall|j: int|
            0 <= j < squads.len() && j != k ==> first_at(
                (#[trigger] squads[j]).soldiers,
                pos,
                squads[j].soldiers.len(),
            ) is None,
    ensures
        headcount(
            Bot::updated(squads, level, obstacles, targets, seq![(pos, amount)], delta).squads,
        ) == headcount(squads) - 1,
{
    let events = seq![(pos, amount)];
    let (hurt, fallen) = struck(squads, events, 1);
    let m = March {
        squads: hurt,
        level,
        attacked: Seq::empty(),
        walls: 0,
        turrets: 0,
        cues: Seq::empty(),
    };
    lemma_fallen_removed(squads, m, obstacles, targets, pos, amount, delta, k, i);
    let c = m.campaign(m.squads.len(), graves(fallen), obstacles, targets, false, delta);
    assert forall|j: int| 0 <= j < squads.len() && j != k implies (
    #[trigger] c.squads[j]).soldiers.len() == squads[j].soldiers.len() by {
        assert(first_at(squads[j].soldiers, pos, squads[j].soldiers.len()) is None);
        assert(squads[j].action == Some(Action::Go));
    }
    assert(squads[k].action == Some(Action::Go));
    lemma_headcount(squads, c.squads, k, -1);
    lemma_alive(c.squads);
}

/// `goals` lists the control points of `lv`, each once.
pub open spec fn lists(goals: Seq<Hex>, lv: LevelView) -> bool {
    goals.no_duplicates() && goals.to_set() == lv.controls()
}

/// What raising the opponent in the world `before` may give: squads and
/// the world `after`, or nothing. Squads are raised at a control point
/// other than the origin, which is the opponent's from then on, as many
/// for each control point as the difficulty asks for, against the control
/// points in some order, and there is room for them there. Where none are
/// raised the world is as it was.
pub open spec fn enlisted(
    before: LevelView,
    difficulty: Difficulty,
    made: Option<Seq<SquadView>>,
    after: LevelView,
) -> bool {
    match made {
        Some(squads) => {
            &&& squads.len() == coefficient(difficulty) * before.controls().len()
            &&& squads.len() > 0
            &&& fit(squads)
            &&& marching(squads)
            &&& exists|goals: Seq<Hex>, base: Hex|
                {
                    &&& lists(goals, before)
                    &&& goals.contains(base)
                    &&& base != (Hex { x: 0, y: 0 })
                    &&& room(base, coefficient(difficulty) * goals.len())
                    &&& after == before.captured(base, Team::Computer)
                    &&& squads == #[trigger] spawned(goals, base, difficulty)
                }
        },
        None => after == before,
    }
}

impl Bot {
    /// The squads as the rules see them.
    pub closed spec fn view(&self) -> Seq<SquadView> {
        views(self.squads@)
    }

    /// Every squad is well formed and told to go: the opponent does not
    /// build.
    pub open spec fn wf(&self) -> bool {
        fit(self@) && marching(self@)
    }

    /// One update of the opponent's squads: they take the hits `events`,
    /// then each of them is given its way round `obstacles` and updated
    /// with `targets` the hexes of the enemy, and those that have lost
    /// their last unit are dropped.
    pub open spec fn updated(
        squads: Seq<SquadView>,
        level: LevelView,
        obstacles: Seq<Hex>,
        targets: Seq<Hex>,
        events: Seq<(Hex, i16)>,
        delta: u32,
    ) -> March {
        let (hurt, fallen) = struck(squads, events, events.len());
        let m = (March {
            squads: hurt,
            level,
            attacked: Seq::empty(),
            walls: 0,
            turrets: 0,
            cues: Seq::empty(),
        }).campaign(hurt.len(), graves(fallen), obstacles, targets, false, delta);
        March { squads: alive(m.squads), ..m }
    }

    /// Raises the squads at `base` against the control points `goals`. If
    /// `base` is a control point, it becomes the opponent's.
    pub fn spawn(level: &mut Level, difficulty: Difficulty, goals: &Vec<Hex>, base: Hex) -> (bot:
        Bot)
        requires
            old(level).wf(),
            goals@.len() > 0,
            room(base, coefficient(difficulty) * goals@.len()),
        ensures
            final(level)@ == old(level)@.captured(base, Team::Computer),
            final(level).wf(),
            bot@ == spawned(goals@, base, difficulty),
            bot.wf(),
    {
        level.capture(&base, &Team::Computer);
        let coef: usize = match difficulty {
            Difficulty::Normal => 2,
            Difficulty::Hard => 3,
        };
        let per: usize = match difficulty {
            Difficulty::Normal => 1,
            Difficulty::Hard => 2,
        };
        let n = goals.len();
        let total: u64 = coef as u64 * n as u64;
        let mut squads: Vec<Squad> = Vec::new();
        let mut i: u64 = 0;
        while i < total
            invariant
                i <= total,
                n == goals@.len(),
                n > 0,
                per == per_goal(difficulty),
                total == coefficient(difficulty) * goals@.len(),
                base.x + RAIDERS <= i32::MAX + 1,
                base.y + total <= i32::MAX + 1,
                squads@.len() == i,
                forall|j: int|
                    0 <= j < i ==> (#[trigger] squads@[j])@ == raised(goals@, base, difficulty, j)
                        && squads@[j].wf(),
            decreases total - i,
        {
            let mut body: Vec<UnitType> = Vec::new();
            body.push(UnitType::Sniper);
            body.push(UnitType::Sniper);
            body.push(UnitType::Infantry);
            body.push(UnitType::Infantry);
            body.push(UnitType::Infantry);
            let start = Hex { x: base.x, y: (base.y as i64 + i as i64) as i32 };
            let mut squad = Squad::new(start, body, Team::Computer);
            squad.set_goal(Some(goals[((i / per as u64) % n as u64) as usize]));
            squads.push(squad);
            i += 1;
        }
        let bot = Bot { squads };
        bot
    }

    /// The control point that the draw `drawn` names among `goals`, if it
    /// names one and that one is not the origin.
    pub fn camp(goals: &Vec<Hex>, drawn: i32) -> (base: Option<Hex>)
        ensures
            base == named(goals@, drawn as int),
    {
        if 0 <= drawn && (drawn as usize) < goals.len() {
            let base = goals[drawn as usize];
            if base.x != 0 || base.y != 0 {
                return Some(base);
            }
        }
        None
    }

    /// Raises the squads at the control point `base` against the control
    /// points `goals`, if there is room for them there. Where there is
    /// none, there is no opponent, and the world is as it was.
    pub fn raise(level: &mut Level, difficulty: Difficulty, goals: &Vec<Hex>, base: Hex) -> (made:
        Option<Bot>)
        requires
            old(level).wf(),
            goals@.len() > 0,
        ensures
            final(level).wf(),
            match made {
                Some(bot) => {
                    &&& room(base, coefficient(difficulty) * goals@.len())
                    &&& final(level)@ == old(level)@.captured(base, Team::Computer)
                    &&& bot@ == spawned(goals@, base, difficulty)
                    &&& bot.wf()
                },
                None => {
                    &&& !room(base, coefficient(difficulty) * goals@.len())
                    &&& final(level)@ == old(level)@
                },
            },
    {
        let coef: u128 = match difficulty {
            Difficulty::Normal => 2,
            Difficulty::Hard => 3,
        };
        let n = goals.len();
        assert(coef * n == coefficient(difficulty) * goals@.len() && coef * n
            <= 3 * 0x1_0000_0000_0000_0000) by (nonlinear_arith)
            requires
                n == goals@.len(),
                coef == coefficient(difficulty),
                coef <= 3,
                n <= 0xffff_ffff_ffff_ffff,
        ;
        let total: u128 = coef * n as u128;
        if base.x as i128 + RAIDERS as i128 > i32::MAX as i128 + 1 || base.y as i128
            + total as i128 > i32::MAX as i128 + 1 {
            return None;
        }
        Some(Bot::spawn(level, difficulty, goals, base))
    }

    /// The upper bound, not included, of the draw of a place in a list of
    /// `n` control points.
    pub fn span(n: usize) -> (high: i32)
        ensures
            high == spec_span(n),
    {
        if n > 0x1_0000 {
            0x1_0000
        } else {
            n as i32
        }
    }

    /// What the try number `tries` comes to when the place `drawn` in the
    /// list `goals` is drawn.
    pub fn attempt(goals: &Vec<Hex>, tries: u32, drawn: i32) -> (a: Attempt)
        ensures
            a == spec_attempt(goals@, tries, drawn as int),
    {
        match Bot::camp(goals, drawn) {
            Some(base) => Attempt::Base(base),
            None => if tries < ATTEMPTS - 1 {
                Attempt::Again
            } else {
                Attempt::GiveUp
            },
        }
    }

    /// Raises the opponent's squads at a control point drawn at random
    /// that is not the origin, and gives that control point to the
    /// opponent. The control points are listed, and places in the list
    /// are drawn from none up to `span` of its length, one after the
    /// other, until `attempt` names a base or gives up; at the base the
    /// squads are raised as `raise` says. There is no opponent, and the
    /// world is as it was, where no draw names such a control point or
    /// there is no room for the squads at the one named. So an opponent
    /// arrives for certain in a world that welcomes one, and never in a
    /// world that bars it.
    pub fn new(level: &mut Level, difficulty: Difficulty) -> (made: Option<Bot>)
        requires
            old(level).wf(),
        ensures
            final(level).wf(),
            enlisted(
                old(level)@,
                difficulty,
                match made {
                    Some(bot) => Some(bot@),
                    None => None,
                },
                final(level)@,
            ),
            welcomes(old(level)@, difficulty) ==> made is Some,
            bars(old(level)@, difficulty) ==> made is None,
    {
        let goals = level.find_captures();
        let n = goals.len();
        proof {
            goals@.unique_seq_to_set();
            vstd::seq_lib::seq_to_set_is_finite(goals@);
        }
        if n == 0 {
            return None;
        }
        let high = Bot::span(n);
        let mut tries: u32 = 0;
        while tries < ATTEMPTS
            invariant
                tries <= ATTEMPTS,
                n == goals@.len(),
                n == level@.controls().len(),
                n > 0,
                high == spec_span(n),
                level.wf(),
                level@ == old(level)@,
                lists(goals@, level@),
                welcomes(level@, difficulty) ==> tries == 0,
            decreases ATTEMPTS - tries,
        {
            let drawn = roll(0, high);
            proof {
                // whatever is drawn names a control point of the list
                assert(0 <= drawn < n);
                assert(goals@.to_set().contains(goals@[drawn as int]));
            }
            match Bot::attempt(&goals, tries, drawn) {
                Attempt::Base(base) => {
                    let made = Bot::raise(level, difficulty, &goals, base);
                    proof {
                        if made is Some {
                            let squads = made->0@;
                            assert(goals@.contains(base));
                            assert(squads == spawned(goals@, base, difficulty));
                            assert(squads.len() == coefficient(difficulty) * n);
                            assert(squads.len() > 0) by (nonlinear_arith)
                                requires
                                    squads.len() == coefficient(difficulty) * n,
                                    n > 0,
                                    coefficient(difficulty) >= 2,
                            ;
                        }
                    }
                    return made;
                },
                Attempt::Again => {
                    tries += 1;
                },
                Attempt::GiveUp => {
                    return None;
                },
            }
        }
        None
    }

    /// The hexes the units of each squad stand on.
    pub fn positions(&self) -> (held: Vec<Vec<Hex>>)
        ensures
            held@.len() == self@.len(),
            forall|k: int| 0 <= k < held@.len() ==> (#[trigger] held@[k])@ == self@[k].stands(true),
    {
        let mut held: Vec<Vec<Hex>> = Vec::new();
        let mut k: usize = 0;
        while k < self.squads.len()
            invariant
                k <= self.squads.len(),
                held@.len() == k,
                forall|j: int| 0 <= j < k ==> (#[trigger] held@[j])@ == self@[j].stands(true),
            decreases self.squads.len() - k,
        {
            let stand = self.squads[k].positions(true);
            held.push(stand);
            k += 1;
        }
        held
    }

    /// The opponent has lost when it has no squad left.
    pub fn lose(&self) -> (lost: bool)
        ensures
            lost == (self@.len() == 0),
    {
        self.squads.len() == 0
    }

    /// The squads.
    pub fn squads(&self) -> (squads: &Vec<Squad>)
        ensures
            views(squads@) == self@,
    {
        &self.squads
    }

    /// Advances the opponent by `delta` microseconds. `positions` holds
    /// the hexes on which units of either side stand, the hexes on which
    /// the player's units stand, and the hits the player dealt in the
    /// last update. Returns the hits the opponent deals, each with the hex
    /// it goes to, and what there is to hear.
    pub fn update(
        &mut self,
        positions: (Vec<Hex>, Vec<Hex>, Vec<(Hex, i16)>),
        level: &mut Level,
        delta: u32,
    ) -> (out: (Vec<(Hex, i16)>, Vec<Cue>))
        requires
            old(self).wf(),
            old(level).wf(),
        ensures
            final(self).wf(),
            final(level).wf(),
            ({
                let m = Bot::updated(
                    old(self)@,
                    old(level)@,
                    positions.0@,
                    positions.1@,
                    positions.2@,
                    delta,
                );
                &&& final(self)@ == m.squads
                &&& final(level)@ == m.level
                &&& out.0@ == m.attacked
                &&& out.1@ == m.cues
            }),
    {
        let fallen = strike(&mut self.squads, positions.2.as_slice());
        let mut deleted: Vec<Hex> = Vec::new();
        let mut f: usize = 0;
        while f < fallen.len()
            invariant
                f <= fallen.len(),
                deleted@ == graves(fallen@.take(f as int)),
            decreases fallen.len() - f,
        {
            deleted.push(fallen[f].0);
            f += 1;
        }
        proof {
            assert(fallen@.take(f as int) =~= fallen@);
        }
        let mut attacked: Vec<(Hex, i16)> = Vec::new();
        let mut cues: Vec<Cue> = Vec::new();
        let ghost start = March {
            squads: views(self.squads@),
            level: level@,
            attacked: attacked@,
            walls: 0,
            turrets: 0,
            cues: cues@,
        };
        let ghost mut now = start;
        let count = self.squads.len();
        proof {
            assert forall|j: int| 0 <= j < self.squads@.len() implies (
            #[trigger] self.squads@[j]).wf() by {
                assert(views(self.squads@)[j].wf());
            }
        }
        let mut k: usize = 0;
        while k < count
            invariant
                k <= count,
                count == self.squads@.len(),
                forall|j: int| 0 <= j < self.squads@.len() ==> (#[trigger] self.squads@[j]).wf(),
                level.wf(),
                now == start.campaign(
                    k as nat,
                    deleted@,
                    positions.0@,
                    positions.1@,
                    false,
                    delta,
                ),
                now.squads == views(self.squads@),
                now.level == level@,
                now.attacked == attacked@,
                now.cues == cues@,
            decreases count - k,
        {
            let made = advance(
                &mut self.squads,
                k,
                level,
                deleted.as_slice(),
                positions.0.as_slice(),
                positions.1.as_slice(),
                false,
                delta,
                &mut attacked,
                &mut cues,
                Ghost(now),
            );
            proof {
                now = now.advanced(k as int, deleted@, positions.0@, positions.1@, false, delta);
            }
            k += 1;
        }
        prune(&mut self.squads);
        proof {
            lemma_update_marching(
                old(self)@,
                old(level)@,
                positions.0@,
                positions.1@,
                positions.2@,
                delta,
            );
        }
        (attacked, cues)
    }
}

} // verus!
