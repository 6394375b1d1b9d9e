//! The player's side: the squads that are commanded by hand, the one
//! that is selected, and the count of what they have built.

use vstd::prelude::*;
use crate::army::{
    advance, alive, first_with, fit, follows_units, graves, lemma_advanced_follows,
    lemma_cleared_is_removed, lemma_cleared_nothing, lemma_first_with_range, lemma_hit,
    lemma_sole, lemma_stays, lemma_struck_len, prune, stays, strike, struck, views, March,
};
use crate::squad::first_at;
use crate::unit::Unit;
use crate::level::{holds, Level, LevelView};
use crate::squad::{Action, Cue, Squad, SquadView};
use crate::structs::{Hex, Team, UnitType};

verus! {

/// With this many walls standing the player can build no more.
pub const MAX_WALLS: i32 = 10;

/// With this many turrets standing the player can build no more.
pub const MAX_TURRETS: i32 = 5;

/// What the loss of an engineer costs.
pub const ENGINEER_FINE: u32 = 5;

/// What the player did during one frame.
#[derive(Clone, Copy, Debug, PartialEq, Eq, Structural)]
pub struct Orders {
    /// The hex under the pointer.
    pub goal: Hex,
    /// Whether the pointer was clicked.
    pub clicked: bool,
    /// Which buttons of the order panel were pressed. The panel is shown
    /// while a squad with an engineer is selected.
    pub go: bool,
    pub wall: bool,
    pub turret: bool,
    pub destroy: bool,
}

/// The player's side.
pub struct Player {
    pub fine: u32,
    walls: i32,
    turrets: i32,
    squads: Vec<Squad>,
    current: Option<usize>,
}

/// The player's side as the rules see it.
#[verifier::ext_equal]
pub struct PlayerView {
    /// What the losses have cost so far.
    pub fine: u32,
    /// Walls built, less walls torn down.
    pub walls: i32,
    /// Turrets that stand.
    pub turrets: i32,
    pub squads: Seq<SquadView>,
    /// The place of the selected squad among the squads.
    pub current: Option<usize>,
}

/// What one update of the player's side gives back.
#[verifier::ext_equal]
pub struct Turn {
    pub player: PlayerView,
    pub level: LevelView,
    /// The hexes on which units of either side stood when the update
    /// began, the opponent's first.
    pub positions: Seq<Hex>,
    /// The hexes on which the player's units stood.
    pub player_units: Seq<Hex>,
    /// The hits dealt, each with the hex it goes to.
    pub attacked: Seq<(Hex, i16)>,
    pub cues: Seq<Cue>,
}

/// The first `n` of `groups`, one after the other.
pub open spec fn flat(groups: Seq<Seq<Hex>>, n: nat) -> Seq<Hex>
    decreases n,
{
    if n == 0 || n > groups.len() {
        Seq::empty()
    } else {
        flat(groups, (n - 1) as nat) + groups[n - 1]
    }
}

/// The hexes on which the units of the first `n` squads stand.
pub open spec fn stood(squads: Seq<SquadView>, n: nat) -> Seq<Hex>
    decreases n,
{
    if n == 0 || n > squads.len() {
        Seq::empty()
    } else {
        stood(squads, (n - 1) as nat) + squads[n - 1].stands(true)
    }
}

/// What the losses of one update cost: the fine for an engineer if the
/// last unit that fell was one.
pub open spec fn fine_of(fallen: Seq<(Hex, UnitType)>) -> int {
    if fallen.len() > 0 && fallen[fallen.len() - 1].1 == UnitType::Engineer {
        ENGINEER_FINE as int
    } else {
        0
    }
}

/// The number of turrets among the first `n` of the fallen.
pub open spec fn turrets_lost(fallen: Seq<(Hex, UnitType)>, n: nat) -> int
    decreases n,
{
    if n == 0 || n > fallen.len() {
        0
    } else {
        turrets_lost(fallen, (n - 1) as nat) + if fallen[n - 1].1 == UnitType::Turret {
            1int
        } else {
            0int
        }
    }
}

/// `v`, or the nearest number that a counter can hold.
pub open spec fn clamped(v: int) -> i32 {
    if v < i32::MIN {
        i32::MIN
    } else if v > i32::MAX {
        i32::MAX
    } else {
        v as i32
    }
}

/// The selection after the first `n` squads were looked at, and whether
/// the click is still to be used. A click on a hex where a unit of a squad
/// stands that is no turret selects that squad, or lets it go if it was
/// selected, and is used up by that.
pub open spec fn picked(
    squads: Seq<SquadView>,
    current: Option<usize>,
    goal: Hex,
    clicked: bool,
    n: nat,
) -> (Option<usize>, bool)
    decreases n,
{
    if n == 0 || n > squads.len() {
        (current, clicked)
    } else {
        let (cur, click) = picked(squads, current, goal, clicked, (n - 1) as nat);
        if click && squads[n - 1].stands(false).contains(goal) {
            (
                if cur == Some((n - 1) as usize) {
                    None
                } else {
                    Some((n - 1) as usize)
                },
                false,
            )
        } else {
            (cur, click)
        }
    }
}

/// The selected squad after the buttons of the order panel were looked
/// at, and whether one of them took the click. Walls and turrets can be
/// ordered only while fewer than the most stand, and an order for one of
/// them turns into an order to go once the most stand.
pub open spec fn pressed(s: SquadView, walls: i32, turrets: i32, o: Orders) -> (SquadView, bool) {
    let s1 = if o.go {
        s.told(Action::Go)
    } else {
        s
    };
    let s2 = if walls < MAX_WALLS && o.wall {
        s1.told(Action::Wall)
    } else {
        s1
    };
    let s3 = if turrets < MAX_TURRETS && o.turret {
        s2.told(Action::Turret)
    } else {
        s2
    };
    let s4 = if o.destroy {
        s3.told(Action::Destroy)
    } else {
        s3
    };
    let s5 = if s4.action == Some(Action::Turret) && turrets >= MAX_TURRETS {
        s4.told(Action::Go)
    } else {
        s4
    };
    let s6 = if s4.action == Some(Action::Wall) && walls >= MAX_WALLS {
        s5.told(Action::Go)
    } else {
        s5
    };
    (s6, o.go || (walls < MAX_WALLS && o.wall) || (turrets < MAX_TURRETS && o.turret) || o.destroy)
}

/// The squad after a click on `goal` reached it as an order: it is sent
/// there if it is to go, or to tear down and a wall stands there, or to
/// build and the hex is open.
pub open spec fn issued(s: SquadView, lv: LevelView, goal: Hex) -> SquadView {
    match s.action {
        Some(a) => if a == Action::Go || (a == Action::Destroy && lv.wall(goal)) || (a
            != Action::Destroy && lv.open(goal)) {
            s.sent(Some(goal))
        } else {
            s
        },
        None => s,
    }
}

/// The squad held to the most walls and turrets a side may have: an order
/// to build what the side has its fill of turns into an order to go.
pub open spec fn capped(s: SquadView, walls: int, turrets: int) -> SquadView {
    if s.action == Some(Action::Wall) && walls >= MAX_WALLS {
        s.told(Action::Go)
    } else if s.action == Some(Action::Turret) && turrets >= MAX_TURRETS {
        s.told(Action::Go)
    } else {
        s
    }
}

/// The squad made ready for its update: it takes the click on `order`, if
/// there is one for it, and is held to the most walls and turrets.
pub open spec fn prepared(
    s: SquadView,
    lv: LevelView,
    order: Option<Hex>,
    walls: int,
    turrets: int,
) -> SquadView {
    capped(
        match order {
            Some(goal) => issued(s, lv, goal),
            None => s,
        },
        walls,
        turrets,
    )
}

/// The first `n` squads in turn: the selected one takes the click, if it
/// is still to be used; each is held to the most walls and turrets, counted
/// with what the squads before it have just built; then each is given its
/// way and updated. The walls and turrets of `m` are those the side has.
pub open spec fn drilled(
    m: March,
    n: nat,
    current: Option<usize>,
    click: Option<Hex>,
    deleted: Seq<Hex>,
    obstacles: Seq<Hex>,
    targets: Seq<Hex>,
    delta: u32,
) -> March
    decreases n,
{
    if n == 0 {
        m
    } else {
        let p = drilled(m, (n - 1) as nat, current, click, deleted, obstacles, targets, delta);
        let s = prepared(
            p.squads[n - 1],
            p.level,
            if current == Some((n - 1) as usize) {
                click
            } else {
                None
            },
            p.walls,
            p.turrets,
        );
        (March { squads: p.squads.update(n - 1, s), ..p }).advanced(
            n - 1,
            deleted,
            obstacles,
            targets,
            true,
            delta,
        )
    }
}

/// The update of the first `n` squads makes of the units of each of them
/// what `follows_units` says, and leaves the other squads alone.
pub proof fn lemma_drilled_follows(
    m: March,
    n: nat,
    current: Option<usize>,
    click: Option<Hex>,
    deleted: Seq<Hex>,
    obstacles: Seq<Hex>,
    targets: Seq<Hex>,
    delta: u32,
)
    requires
        n <= m.squads.len(),
    ensures
        ({
            let d = drilled(m, n, current, click, deleted, obstacles, targets, delta);
            &&& d.squads.len() == m.squads.len()
            &&& forall|k: int|
                0 <= k < n ==> follows_units(
                    m.squads[k].soldiers,
                    (#[trigger] d.squads[k]).soldiers,
                    deleted,
                    m.squads[k].heals(delta),
                    true,
                )
            &&& forall|k: int| n <= k < m.squads.len() ==> #[trigger] d.squads[k] == m.squads[k]
        }),
    decreases n,
{
    if n > 0 {
        lemma_drilled_follows(
            m,
            (n - 1) as nat,
            current,
            click,
            deleted,
            obstacles,
            targets,
            delta,
        );
        let p = drilled(m, (n - 1) as nat, current, click, deleted, obstacles, targets, delta);
        let s = prepared(
            p.squads[n - 1],
            p.level,
            if current == Some((n - 1) as usize) {
                click
            } else {
                None
            },
            p.walls,
            p.turrets,
        );
        let q = March { squads: p.squads.update(n - 1, s), ..p };
        lemma_advanced_follows(q, n - 1, deleted, obstacles, targets, true, delta);
        let d = drilled(m, n, current, click, deleted, obstacles, targets, delta);
        assert(p.squads[n - 1] == m.squads[n - 1]);
        assert(s.soldiers == m.squads[n - 1].soldiers);
        assert(s.timer_heal == m.squads[n - 1].timer_heal);
        assert forall|k: int| 0 <= k < n implies follows_units(
            m.squads[k].soldiers,
            (#[trigger] d.squads[k]).soldiers,
            deleted,
            m.squads[k].heals(delta),
            true,
        ) by {
            if k < n - 1 {
                assert(d.squads[k] == q.squads[k]);
                assert(q.squads[k] == p.squads[k]);
            }
        }
    }
}

/// An update of the player's side makes of the units of each squad what
/// `follows_units` says, from the squad as the hits left it and with the
/// hexes of the fallen to clear, before the squads without units are
/// dropped. So a unit that a hit leaves without health is removed in the
/// same update, and a unit that no hit goes to keeps its health unless a
/// round of healing comes.
pub proof fn lemma_update_follows(
    player: PlayerView,
    level: LevelView,
    events: Seq<(Hex, i16)>,
    enemies: Seq<Seq<Hex>>,
    o: Orders,
    delta: u32,
)
    ensures
        ({
            let (hurt, fallen) = struck(player.squads, events, events.len());
            let each = player.marched(level, events, enemies, o, delta).squads;
            &&& player.updated(level, events, enemies, o, delta).player.squads == alive(each)
            &&& hurt.len() == player.squads.len()
            &&& each.len() == player.squads.len()
            &&& forall|k: int|
                0 <= k < hurt.len() ==> follows_units(
                    hurt[k].soldiers,
                    (#[trigger] each[k]).soldiers,
                    graves(fallen),
                    hurt[k].heals(delta),
                    true,
                )
        }),
{
    let (hurt, fallen) = struck(player.squads, events, events.len());
    lemma_struck_len(player.squads, events, events.len());
    let turrets = clamped(player.turrets - turrets_lost(fallen, fallen.len()));
    let targets = flat(enemies, enemies.len());
    let (current, clicked) = picked(hurt, player.current, o.goal, o.clicked, hurt.len());
    let own = stood(hurt, hurt.len());
    let obstacles = targets + own;
    let panel = match current {
        Some(c) => c < hurt.len() && hurt[c as int].has(UnitType::Engineer),
        None => false,
    };
    let ready = if panel {
        hurt.update(
            current.unwrap() as int,
            pressed(hurt[current.unwrap() as int], player.walls, turrets, o).0,
        )
    } else {
        hurt
    };
    let click = if clicked && !(panel && pressed(
        hurt[current.unwrap() as int],
        player.walls,
        turrets,
        o,
    ).1) {
        Some(o.goal)
    } else {
        None
    };
    let start = March {
        squads: ready,
        level,
        attacked: Seq::empty(),
        walls: player.walls as int,
        turrets: turrets as int,
        cues: Seq::empty(),
    };
    lemma_drilled_follows(
        start,
        ready.len(),
        current,
        click,
        graves(fallen),
        obstacles,
        targets,
        delta,
    );
    let m = drilled(start, ready.len(), current, click, graves(fallen), obstacles, targets, delta);
    assert(m == player.marched(level, events, enemies, o, delta));
    assert forall|k: int| 0 <= k < hurt.len() implies follows_units(
        hurt[k].soldiers,
        (#[trigger] m.squads[k]).soldiers,
        graves(fallen),
        hurt[k].heals(delta),
        true,
    ) by {
        assert(ready[k].soldiers == hurt[k].soldiers);
        assert(ready[k].timer_heal == hurt[k].timer_heal);
    }
}

/// One hit that leaves a unit of the player without health, the only unit
/// of its squad on that hex, and what the update makes of it: the unit is
/// removed from its squad in the same update, and the units left in the
/// squad are there as an update that clears nothing leaves them; and so
/// are the units of every squad that has no unit on the hex of the hit.
pub proof fn lemma_fallen_removed(
    player: PlayerView,
    level: LevelView,
    pos: Hex,
    amount: i16,
    enemies: Seq<Seq<Hex>>,
    o: Orders,
    delta: u32,
    k: int,
    i: int,
)
    requires
        fit(player.squads),
        first_with(player.squads, pos, player.squads.len()) == Some(k),
        first_at(player.squads[k].soldiers, pos, player.squads[k].soldiers.len()) == Some(i),
        0 <= k < player.squads.len(),
        0 <= i < player.squads[k].soldiers.len(),
        player.squads[k].soldiers[i].health - amount <= 0,
        forall|j: int|
            0 <= j < player.squads[k].soldiers.len() && j != i ==> (
            #[trigger] player.squads[k].soldiers[j]).start_pos != pos,
    ensures
        ({
            let each = player.marched(level, seq![(pos, amount)], enemies, o, delta).squads;
            let squads = player.squads;
            &&& player.updated(level, seq![(pos, amount)], enemies, o, delta).player.squads
                == alive(each)
            &&& each.len() == squads.len()
            &&& follows_units(
                squads[k].soldiers.remove(i),
                each[k].soldiers,
                Seq::empty(),
                squads[k].heals(delta),
                true,
            )
            &&& forall|j: int|
                0 <= j < squads.len() && j != k && first_at(
                    squads[j].soldiers,
                    pos,
                    squads[j].soldiers.len(),
                ) is None ==> follows_units(
                    squads[j].soldiers,
                    (#[trigger] each[j]).soldiers,
                    Seq::empty(),
                    squads[j].heals(delta),
                    true,
                )
        }),
{
    let squads = player.squads;
    let events = seq![(pos, amount)];
    lemma_hit(squads, pos, amount, k, i);
    lemma_update_follows(player, level, events, enemies, o, delta);
    let (hurt, fallen) = struck(squads, events, 1);
    let each = player.marched(level, events, enemies, o, delta).squads;
    let deleted = graves(fallen);
    assert(deleted =~= seq![pos]);
    crate::squad::lemma_first_at_range(squads[k].soldiers, pos, squads[k].soldiers.len());
    assert(hurt[k] == squads[k].wounded(pos, amount));
    assert(follows_units(
        hurt[k].soldiers,
        each[k].soldiers,
        deleted,
        hurt[k].heals(delta),
        true,
    ));
    lemma_cleared_is_removed(
        hurt[k].soldiers,
        each[k].soldiers,
        pos,
        i,
        squads[k].heals(delta),
        true,
    );
    assert(hurt[k].soldiers.remove(i) =~= squads[k].soldiers.remove(i));
    assert forall|j: int|
        0 <= j < squads.len() && j != k && first_at(
            squads[j].soldiers,
            pos,
            squads[j].soldiers.len(),
        ) is None implies follows_units(
        squads[j].soldiers,
        (#[trigger] each[j]).soldiers,
        Seq::empty(),
        squads[j].heals(delta),
        true,
    ) by {
        assert(hurt[j] == squads[j]);
        crate::squad::lemma_first_at_range(squads[j].soldiers, pos, squads[j].soldiers.len());
        assert(follows_units(
            hurt[j].soldiers,
            each[j].soldiers,
            deleted,
            hurt[j].heals(delta),
            true,
        ));
        lemma_cleared_nothing(
            squads[j].soldiers,
            each[j].soldiers,
            pos,
            squads[j].heals(delta),
            true,
        );
    }
}

/// One hit on the player's side in an update in which no round of healing
/// comes to any squad. Where no unit stands on the hex of the hit, every
/// unit stays as it was. Where one unit does and no other, it loses the
/// health the hit takes and stays if it has health left, and is removed
/// in the same update if it has none; every other unit stays as it was.
/// The squads are those of `marched`, of which the update drops the ones
/// without units.
pub proof fn lemma_hit_update(
    player: PlayerView,
    level: LevelView,
    pos: Hex,
    amount: i16,
    enemies: Seq<Seq<Hex>>,
    o: Orders,
    delta: u32,
)
    requires
        fit(player.squads),
        amount > 0,
        forall|j: int| 0 <= j < player.squads.len() ==> !(#[trigger] player.squads[j]).heals(delta),
    ensures
        ({
            let squads = player.squads;
            let each = player.marched(level, seq![(pos, amount)], enemies, o, delta).squads;
            &&& player.updated(level, seq![(pos, amount)], enemies, o, delta).player.squads
                == alive(each)
            &&& each.len() == squads.len()
            &&& first_with(squads, pos, squads.len()) is None ==> forall|j: int|
                0 <= j < squads.len() ==> stays(squads[j].soldiers, (#[trigger] each[j]).soldiers)
            &&& forall|k: int, i: int|
                {
                    &&& 0 <= k < squads.len()
                    &&& 0 <= i < squads[k].soldiers.len()
                    &&& #[trigger] squads[k].soldiers[i].start_pos == pos
                    &&& forall|a: int, b: int|
                        0 <= a < squads.len() && 0 <= b < squads[a].soldiers.len() && (a != k || b
                            != i) ==> (#[trigger] squads[a].soldiers[b]).start_pos != pos
                } ==> {
                    let unit = squads[k].soldiers[i];
                    &&& unit.health > amount ==> stays(
                        squads[k].soldiers.update(
                            i,
                            Unit { health: (unit.health - amount) as i16, ..unit },
                        ),
                        each[k].soldiers,
                    )
                    &&& unit.health <= amount ==> stays(
                        squads[k].soldiers.remove(i),
                        each[k].soldiers,
                    )
                    &&& forall|j: int|
                        0 <= j < squads.len() && j != k ==> stays(
                            squads[j].soldiers,
                            (#[trigger] each[j]).soldiers,
                        )
                }
        }),
{
    let squads = player.squads;
    let events = seq![(pos, amount)];
    let each = player.marched(level, events, enemies, o, delta).squads;
    lemma_update_follows(player, level, events, enemies, o, delta);
    let (hurt, fallen) = struck(squads, events, 1);
    reveal_with_fuel(struck, 2);
    assert(events[0] == (pos, amount));
    lemma_first_with_range(squads, pos, squads.len());
    if first_with(squads, pos, squads.len()) is None {
        assert(hurt == squads);
        assert(graves(fallen) =~= Seq::<Hex>::empty());
        assert forall|j: int| 0 <= j < squads.len() implies stays(
            squads[j].soldiers,
            (#[trigger] each[j]).soldiers,
        ) by {
            assert(!squads[j].heals(delta));
            assert(follows_units(
                hurt[j].soldiers,
                each[j].soldiers,
                graves(fallen),
                hurt[j].heals(delta),
                true,
            ));
            lemma_stays(squads[j].soldiers, each[j].soldiers, true);
        }
    }
    assert forall|k: int, i: int|
        {
            &&& 0 <= k < squads.len()
            &&& 0 <= i < squads[k].soldiers.len()
            &&& #[trigger] squads[k].soldiers[i].start_pos == pos
            &&& forall|a: int, b: int|
                0 <= a < squads.len() && 0 <= b < squads[a].soldiers.len() && (a != k || b != i)
                    ==> (#[trigger] squads[a].soldiers[b]).start_pos != pos
        } implies {
        let unit = squads[k].soldiers[i];
        &&& unit.health > amount ==> stays(
            squads[k].soldiers.update(i, Unit { health: (unit.health - amount) as i16, ..unit }),
            each[k].soldiers,
        )
        &&& unit.health <= amount ==> stays(squads[k].soldiers.remove(i), each[k].soldiers)
        &&& forall|j: int|
            0 <= j < squads.len() && j != k ==> stays(
                squads[j].soldiers,
                (#[trigger] each[j]).soldiers,
            )
    } by {
        lemma_sole(squads, pos, k, i);
        lemma_hit(squads, pos, amount, k, i);
        let unit = squads[k].soldiers[i];
        assert(squads[k].wf());
        assert(unit.wf());
        assert(hurt[k] == squads[k].wounded(pos, amount));
        assert(!squads[k].heals(delta));
        assert(!hurt[k].heals(delta)) by {
            if hurt[k].has(UnitType::Medic) {
                let x = choose|x: int|
                    0 <= x < hurt[k].soldiers.len() && (#[trigger] hurt[k].soldiers[x]).kind
                        == UnitType::Medic;
                assert(squads[k].soldiers[x].kind == UnitType::Medic);
            }
        }
        assert(follows_units(
            hurt[k].soldiers,
            each[k].soldiers,
            graves(fallen),
            hurt[k].heals(delta),
            true,
        ));
        if unit.health > amount {
            assert(graves(fallen) =~= Seq::<Hex>::empty());
            lemma_stays(hurt[k].soldiers, each[k].soldiers, true);
            assert(hurt[k].soldiers =~= squads[k].soldiers.update(
                i,
                Unit { health: (unit.health - amount) as i16, ..unit },
            ));
        } else {
            assert(graves(fallen) =~= seq![pos]);
            assert forall|b: int| 0 <= b < hurt[k].soldiers.len() && b != i implies (
            #[trigger] hurt[k].soldiers[b]).start_pos != pos by {
                assert(squads[k].soldiers[b].start_pos != pos);
            }
            lemma_cleared_is_removed(hurt[k].soldiers, each[k].soldiers, pos, i, false, true);
            lemma_stays(hurt[k].soldiers.remove(i), each[k].soldiers, true);
            assert(hurt[k].soldiers.remove(i) =~= squads[k].soldiers.remove(i));
        }
        assert forall|j: int| 0 <= j < squads.len() && j != k implies stays(
            squads[j].soldiers,
            (#[trigger] each[j]).soldiers,
        ) by {
            assert(hurt[j] == squads[j]);
            assert(!squads[j].heals(delta));
            assert(follows_units(
                hurt[j].soldiers,
                each[j].soldiers,
                graves(fallen),
                hurt[j].heals(delta),
                true,
            ));
            assert forall|b: int| 0 <= b < squads[j].soldiers.len() implies (
            #[trigger] squads[j].soldiers[b]).start_pos != pos by {}
            if unit.health > amount {
                assert(graves(fallen) =~= Seq::<Hex>::empty());
            } else {
                lemma_cleared_nothing(squads[j].soldiers, each[j].soldiers, pos, false, true);
            }
            lemma_stays(squads[j].soldiers, each[j].soldiers, true);
        }
    }
}

impl PlayerView {
    /// Every squad is well formed.
    pub open spec fn wf(self) -> bool {
        fit(self.squads)
    }

    /// The squads of the side after the part of its update in which they
    /// are updated, before those without units are dropped, with what
    /// their updates gave: the squads take the hits `events`; a click
    /// selects; the order panel is looked at; then each squad in turn
    /// takes its order, is held to the most walls and turrets the side may
    /// have, is given its way round all units and is updated.
    pub open spec fn marched(
        self,
        level: LevelView,
        events: Seq<(Hex, i16)>,
        enemies: Seq<Seq<Hex>>,
        o: Orders,
        delta: u32,
    ) -> March {
        let (hurt, fallen) = struck(self.squads, events, events.len());
        let turrets = clamped(self.turrets - turrets_lost(fallen, fallen.len()));
        let targets = flat(enemies, enemies.len());
        let (current, clicked) = picked(hurt, self.current, o.goal, o.clicked, hurt.len());
        let own = stood(hurt, hurt.len());
        let obstacles = targets + own;
        let panel = match current {
            Some(c) => c < hurt.len() && hurt[c as int].has(UnitType::Engineer),
            None => false,
        };
        let ready = if panel {
            hurt.update(
                current.unwrap() as int,
                pressed(hurt[current.unwrap() as int], self.walls, turrets, o).0,
            )
        } else {
            hurt
        };
        let click = if clicked && !(panel && pressed(
            hurt[current.unwrap() as int],
            self.walls,
            turrets,
            o,
        ).1) {
            Some(o.goal)
        } else {
            None
        };
        drilled(
            March {
                squads: ready,
                level,
                attacked: Seq::empty(),
                walls: self.walls as int,
                turrets: turrets as int,
                cues: Seq::empty(),
            },
            ready.len(),
            current,
            click,
            graves(fallen),
            obstacles,
            targets,
            delta,
        )
    }

    /// One update of the player's side. The squads take the hits
    /// `events`; a click selects; the order panel is looked at; then each
    /// squad in turn takes its order, is held to the most walls and
    /// turrets the side may have, is given its way round all units and is
    /// updated, with the units of `enemies` its targets; and the squads
    /// that have lost their last unit are dropped.
    pub open spec fn updated(
        self,
        level: LevelView,
        events: Seq<(Hex, i16)>,
        enemies: Seq<Seq<Hex>>,
        o: Orders,
        delta: u32,
    ) -> Turn {
        let (hurt, fallen) = struck(self.squads, events, events.len());
        let fine = if self.fine + fine_of(fallen) > u32::MAX {
            u32::MAX
        } else {
            (self.fine + fine_of(fallen)) as u32
        };
        let targets = flat(enemies, enemies.len());
        let current = picked(hurt, self.current, o.goal, o.clicked, hurt.len()).0;
        let own = stood(hurt, hurt.len());
        let obstacles = targets + own;
        let m = self.marched(level, events, enemies, o, delta);
        Turn {
            player: PlayerView {
                fine,
                walls: clamped(m.walls),
                turrets: clamped(m.turrets),
                squads: alive(m.squads),
                current: match current {
                    Some(c) => if c < m.squads.len() && m.squads[c as int].soldiers.len() == 0 {
                        None
                    } else {
                        current
                    },
                    None => None,
                },
            },
            level: m.level,
            positions: obstacles,
            player_units: own,
            attacked: m.attacked,
            cues: m.cues,
        }
    }
}

/// The squads a fresh player has: the `i`-th is described by the `i`-th
/// of `units`, led by the first unit described; the first squad starts
/// one hex off the origin, each other as many hexes off to the other side
/// as its place says.
pub open spec fn mustered(units: Seq<Vec<UnitType>>) -> Seq<SquadView> {
    Seq::new(
        units.len(),
        |i: int|
            SquadView::fresh(
                Hex {
                    x: 0,
                    y: if i == 0 {
                        1
                    } else {
                        (-i) as i32
                    },
                },
                units[i]@.reverse(),
                Team::Player,
            ),
    )
}

/// All of `groups`, one after the other.
pub fn flatten(groups: &Vec<Vec<Hex>>) -> (all: Vec<Hex>)
    ensures
        all@ == flat(groups@.map_values(|g: Vec<Hex>| g@), groups@.len()),
{
    let ghost views = groups@.map_values(|g: Vec<Hex>| g@);
    let mut all: Vec<Hex> = Vec::new();
    let mut n: usize = 0;
    while n < groups.len()
        invariant
            n <= groups.len(),
            views == groups@.map_values(|g: Vec<Hex>| g@),
            all@ == flat(views, n as nat),
        decreases groups.len() - n,
    {
        let group = &groups[n];
        let ghost before = all@;
        let mut i: usize = 0;
        while i < group.len()
            invariant
                i <= group.len(),
                all@ == before + group@.take(i as int),
            decreases group.len() - i,
        {
            all.push(group[i]);
            i += 1;
        }
        n += 1;
    }
    all
}

/// `v`, or the nearest number that a counter can hold.
pub fn clamp(v: i128) -> (c: i32)
    ensures
        c == clamped(v as int),
{
    if v < i32::MIN as i128 {
        i32::MIN
    } else if v > i32::MAX as i128 {
        i32::MAX
    } else {
        v as i32
    }
}

impl Player {
    /// The player's side as the rules see it.
    pub closed spec fn view(&self) -> PlayerView {
        PlayerView {
            fine: self.fine,
            walls: self.walls,
            turrets: self.turrets,
            squads: views(self.squads@),
            current: self.current,
        }
    }

    /// The side is well formed as the rules see it.
    pub open spec fn wf(&self) -> bool {
        self@.wf()
    }

    /// A player with one squad for each description in `units`.
    pub fn new(units: Vec<Vec<UnitType>>) -> (player: Player)
        requires
            units@.len() <= i32::MAX,
            forall|i: int| 0 <= i < units@.len() ==> (#[trigger] units@[i])@.len() <= i32::MAX,
        ensures
            player@ == (PlayerView {
                fine: 0,
                walls: 0,
                turrets: 0,
                squads: mustered(units@),
                current: None,
            }),
            player.wf(),
    {
        let mut squads: Vec<Squad> = Vec::new();
        let mut i: usize = 0;
        while i < units.len()
            invariant
                i <= units.len(),
                units@.len() <= i32::MAX,
                forall|j: int| 0 <= j < units@.len() ==> (#[trigger] units@[j])@.len() <= i32::MAX,
                squads@.len() == i,
                forall|j: int|
                    0 <= j < i ==> (#[trigger] squads@[j])@ == mustered(units@)[j]
                        && squads@[j].wf(),
            decreases units.len() - i,
        {
            let types = &units[i];
            let mut body: Vec<UnitType> = Vec::new();
            let mut j: usize = types.len();
            while j > 0
                invariant
                    j <= types.len(),
                    body@.len() == types.len() - j,
                    forall|k: int|
                        0 <= k < body@.len() ==> body@[k] == types@[types@.len() - 1 - k],
                decreases j,
            {
                j -= 1;
                body.push(types[j]);
            }
            assert(body@ =~= types@.reverse());
            let y: i32 = if i == 0 {
                1
            } else {
                -(i as i32)
            };
            squads.push(Squad::new(Hex { x: 0, y }, body, Team::Player));
            i += 1;
        }
        let player = Player { fine: 0, walls: 0, turrets: 0, squads, current: None };
        player
    }

    /// The player has lost when no squad is left.
    pub fn lose(&mut self) -> (lost: bool)
        ensures
            *final(self) == *old(self),
            lost == (old(self)@.squads.len() == 0),
    {
        self.squads.len() == 0
    }

    /// The squads.
    pub fn squads(&self) -> (squads: &Vec<Squad>)
        ensures
            views(squads@) == self@.squads,
    {
        &self.squads
    }

    /// The place of the selected squad among the squads.
    pub fn current(&self) -> (current: Option<usize>)
        ensures
            current == self@.current,
    {
        self.current
    }

    /// What the losses have cost so far.
    pub fn fine(&self) -> (fine: u32)
        ensures
            fine == self@.fine,
    {
        self.fine
    }

    /// Walls built, less walls torn down.
    pub fn walls(&self) -> (walls: i32)
        ensures
            walls == self@.walls,
    {
        self.walls
    }

    /// Turrets that stand.
    pub fn turrets(&self) -> (turrets: i32)
        ensures
            turrets == self@.turrets,
    {
        self.turrets
    }

    /// Looks at a click on `goal`: it selects the first squad that has a
    /// unit there that is no turret, or lets that squad go if it was
    /// selected. Returns whether the click is still to be used.
    fn pick(&mut self, goal: Hex, clicked: bool) -> (left: bool)
        ensures
            (final(self).current, left) == picked(
                old(self)@.squads,
                old(self).current,
                goal,
                clicked,
                old(self)@.squads.len(),
            ),
            final(self).squads == old(self).squads,
            final(self).fine == old(self).fine,
            final(self).walls == old(self).walls,
            final(self).turrets == old(self).turrets,
    {
        let mut left = clicked;
        let mut n: usize = 0;
        while n < self.squads.len()
            invariant
                n <= self.squads.len(),
                self.squads == old(self).squads,
                self.fine == old(self).fine,
                self.walls == old(self).walls,
                self.turrets == old(self).turrets,
                (self.current, left) == picked(
                    old(self)@.squads,
                    old(self).current,
                    goal,
                    clicked,
                    n as nat,
                ),
            decreases self.squads.len() - n,
        {
            if left {
                let stand = self.squads[n].positions(false);
                if holds(stand.as_slice(), &goal) {
                    left = false;
                    self.current = if self.current == Some(n) {
                        None
                    } else {
                        Some(n)
                    };
                }
            }
            n += 1;
        }
        left
    }

    /// The hexes on which the player's units stand.
    fn stand(&self) -> (own: Vec<Hex>)
        ensures
            own@ == stood(self@.squads, self@.squads.len()),
    {
        let mut own: Vec<Hex> = Vec::new();
        let mut n: usize = 0;
        while n < self.squads.len()
            invariant
                n <= self.squads.len(),
                own@ == stood(self@.squads, n as nat),
            decreases self.squads.len() - n,
        {
            let mut part = self.squads[n].positions(true);
            own.append(&mut part);
            n += 1;
        }
        own
    }

    /// Looks at the buttons of the order panel for `squad`. Returns
    /// whether one of them took the click.
    fn press(squad: &mut Squad, walls: i32, turrets: i32, o: &Orders) -> (used: bool)
        requires
            old(squad).wf(),
        ensures
            (final(squad)@, used) == pressed(old(squad)@, walls, turrets, *o),
            final(squad).wf(),
    {
        let mut used = false;
        if o.go {
            squad.set_action(Action::Go);
            used = true;
        }
        if walls < MAX_WALLS && o.wall {
            squad.set_action(Action::Wall);
            used = true;
        }
        if turrets < MAX_TURRETS && o.turret {
            squad.set_action(Action::Turret);
            used = true;
        }
        if o.destroy {
            squad.set_action(Action::Destroy);
            used = true;
        }
        let busy = squad.busy();
        let action = squad.action();
        if busy && action == Action::Turret && turrets >= MAX_TURRETS {
            squad.set_action(Action::Go);
        }
        if busy && action == Action::Wall && walls >= MAX_WALLS {
            squad.set_action(Action::Go);
        }
        used
    }

    /// Hands a click on `goal` to `squad` as an order.
    fn issue(squad: &mut Squad, level: &Level, goal: Hex)
        requires
            old(squad).wf(),
        ensures
            final(squad)@ == issued(old(squad)@, level@, goal),
            final(squad).wf(),
    {
        if squad.busy() {
            let action = squad.action();
            if action == Action::Go || (action == Action::Destroy && level.wall(&goal)) || (action
                != Action::Destroy && !level.get(&goal)) {
                squad.set_goal(Some(goal));
            }
        }
    }

    /// What the losses `fallen` mean: the hexes to clear of the fallen,
    /// the fine, and the number of turrets lost.
    fn toll(fallen: &Vec<(Hex, UnitType)>) -> (out: (Vec<Hex>, u32, i128))
        ensures
            out.0@ == graves(fallen@),
            out.1 == fine_of(fallen@),
            out.2 == turrets_lost(fallen@, fallen@.len()),
            0 <= out.2 <= fallen@.len(),
    {
        let mut deleted: Vec<Hex> = Vec::new();
        let mut lost: i128 = 0;
        let mut fine: u32 = 0;
        let mut f: usize = 0;
        while f < fallen.len()
            invariant
                f <= fallen.len(),
                deleted@ == graves(fallen@.take(f as int)),
                lost == turrets_lost(fallen@, f as nat),
                0 <= lost <= f,
                fine == fine_of(fallen@.take(f as int)),
            decreases fallen.len() - f,
        {
            deleted.push(fallen[f].0);
            fine = 0;
            match fallen[f].1 {
                UnitType::Engineer => {
                    fine = ENGINEER_FINE;
                },
                UnitType::Turret => {
                    lost += 1;
                },
                _ => {},
            }
            f += 1;
        }
        (deleted, fine, lost)
    }

    /// Makes `squad` ready for its update: it takes the click on `order`,
    /// if there is one for it, and is held to the most walls and turrets.
    fn prepare(squad: &mut Squad, level: &Level, order: Option<Hex>, walls: i128, turrets: i128)
        requires
            old(squad).wf(),
        ensures
            final(squad)@ == prepared(old(squad)@, level@, order, walls as int, turrets as int),
            final(squad).wf(),
    {
        if let Some(goal) = order {
            Player::issue(squad, level, goal);
        }
        if squad.busy() {
            let action = squad.action();
            if action == Action::Wall && walls >= MAX_WALLS as i128 {
                squad.set_action(Action::Go);
            } else if action == Action::Turret && turrets >= MAX_TURRETS as i128 {
                squad.set_action(Action::Go);
            }
        }
    }

    /// The squads in turn: the selected one takes the click on `spot`, if
    /// there is one to take; each is held to the most walls and turrets;
    /// then each is given its way and updated. `walls` and `turrets` are
    /// what the side has. Returns the hits dealt, the walls and turrets the
    /// side has now, and what there is to hear.
    fn drill(
        squads: &mut Vec<Squad>,
        level: &mut Level,
        current: Option<usize>,
        spot: Option<Hex>,
        walls: i32,
        turrets: i32,
        deleted: &Vec<Hex>,
        obstacles: &Vec<Hex>,
        targets: &Vec<Hex>,
        delta: u32,
    ) -> (out: (Vec<(Hex, i16)>, i128, i128, Vec<Cue>))
        requires
            fit(views(old(squads)@)),
            old(level).wf(),
        ensures
            (March {
                squads: views(final(squads)@),
                level: final(level)@,
                attacked: out.0@,
                walls: out.1 as int,
                turrets: out.2 as int,
                cues: out.3@,
            }) == drilled(
                March {
                    squads: views(old(squads)@),
                    level: old(level)@,
                    attacked: Seq::empty(),
                    walls: walls as int,
                    turrets: turrets as int,
                    cues: Seq::empty(),
                },
                old(squads)@.len(),
                current,
                spot,
                deleted@,
                obstacles@,
                targets@,
                delta,
            ),
            final(squads)@.len() == old(squads)@.len(),
            forall|j: int| 0 <= j < final(squads)@.len() ==> (#[trigger] final(squads)@[j]).wf(),
            final(level).wf(),
            walls - old(squads)@.len() <= out.1 <= walls + old(squads)@.len(),
            turrets <= out.2 <= turrets + old(squads)@.len(),
            walls <= MAX_WALLS ==> out.1 <= MAX_WALLS,
            turrets <= MAX_TURRETS ==> out.2 <= MAX_TURRETS,
    {
        let mut hits: Vec<(Hex, i16)> = Vec::new();
        let mut cues: Vec<Cue> = Vec::new();
        let ghost start = March {
            squads: views(squads@),
            level: level@,
            attacked: hits@,
            walls: walls as int,
            turrets: turrets as int,
            cues: cues@,
        };
        let ghost mut now = start;
        let mut built: i128 = walls as i128;
        let mut armed: i128 = turrets as i128;
        let count = squads.len();
        proof {
            assert forall|j: int| 0 <= j < squads@.len() implies (#[trigger] squads@[j]).wf() by {
                assert(views(squads@)[j].wf());
            }
        }
        let mut k: usize = 0;
        while k < count
            invariant
                k <= count,
                count == squads@.len(),
                forall|j: int| 0 <= j < squads@.len() ==> (#[trigger] squads@[j]).wf(),
                level.wf(),
                now == drilled(
                    start,
                    k as nat,
                    current,
                    spot,
                    deleted@,
                    obstacles@,
                    targets@,
                    delta,
                ),
                now.squads == views(squads@),
                now.level == level@,
                now.attacked == hits@,
                now.cues == cues@,
                now.walls == built,
                now.turrets == armed,
                walls - k <= built <= walls + k,
                turrets <= armed <= turrets + k,
                walls <= MAX_WALLS ==> built <= MAX_WALLS,
                turrets <= MAX_TURRETS ==> armed <= MAX_TURRETS,
            decreases count - k,
        {
            let ghost was = squads@;
            let order = if current == Some(k) {
                spot
            } else {
                None
            };
            Player::prepare(&mut squads[k], level, order, built, armed);
            proof {
                assert(views(squads@) =~= views(was).update(k as int, squads@[k as int]@));
                assert forall|j: int| 0 <= j < squads@.len() implies (
                #[trigger] squads@[j]).wf() by {
                    if j != k {
                        assert(squads@[j] == was[j]);
                    }
                }
            }
            let ghost mid = March { squads: views(squads@), ..now };
            let ghost ready = squads@[k as int]@;
            proof {
                assert(ready == prepared(
                    now.squads[k as int],
                    now.level,
                    order,
                    now.walls,
                    now.turrets,
                ));
                assert(built >= MAX_WALLS ==> ready.action != Some(Action::Wall));
                assert(armed >= MAX_TURRETS ==> ready.action != Some(Action::Turret));
            }
            let made = advance(
                squads,
                k,
                level,
                deleted.as_slice(),
                obstacles.as_slice(),
                targets.as_slice(),
                true,
                delta,
                &mut hits,
                &mut cues,
                Ghost(mid),
            );
            built += made.0 as i128;
            armed += made.1 as i128;
            proof {
                now = mid.advanced(k as int, deleted@, obstacles@, targets@, true, delta);
            }
            k += 1;
        }
        (hits, built, armed, cues)
    }

    /// Advances the player's side by `delta` microseconds. `attacked`
    /// holds the hits the opponent dealt in the last update, `positions`
    /// the hexes on which the units of each of its squads stand, `orders`
    /// what the player did. Returns the hexes on which units of either
    /// side stood when the update began; those on which the player's
    /// stood; the hits the player's units deal, each with the hex it goes
    /// to; and what there is to hear.
    pub fn update(
        &mut self,
        attacked: &Vec<(Hex, i16)>,
        positions: Vec<Vec<Hex>>,
        level: &mut Level,
        orders: Orders,
        delta: u32,
    ) -> (out: (Vec<Hex>, Vec<Hex>, Vec<(Hex, i16)>, Vec<Cue>))
        requires
            old(self).wf(),
            old(level).wf(),
        ensures
            final(self).wf(),
            final(level).wf(),
            ({
                let turn = old(self)@.updated(
                    old(level)@,
                    attacked@,
                    positions@.map_values(|g: Vec<Hex>| g@),
                    orders,
                    delta,
                );
                &&& final(self)@ == turn.player
                &&& final(level)@ == turn.level
                &&& out.0@ == turn.positions
                &&& out.1@ == turn.player_units
                &&& out.2@ == turn.attacked
                &&& out.3@ == turn.cues
            }),
            old(self)@.walls <= MAX_WALLS ==> final(self)@.walls <= MAX_WALLS,
            old(self)@.turrets <= MAX_TURRETS ==> final(self)@.turrets <= MAX_TURRETS,
    {
        let fallen = strike(&mut self.squads, attacked.as_slice());
        let ghost hurt = views(self.squads@);
        let (deleted, fine, lost) = Player::toll(&fallen);
        self.fine = if self.fine > u32::MAX - fine {
            u32::MAX
        } else {
            self.fine + fine
        };
        let slain = fallen.len();
        self.turrets = clamp(self.turrets as i128 - lost);
        let targets = flatten(&positions);
        let clicked = self.pick(orders.goal, orders.clicked);
        let own = self.stand();
        let mut obstacles: Vec<Hex> = Vec::new();
        let mut t: usize = 0;
        while t < targets.len()
            invariant
                t <= targets.len(),
                obstacles@ == targets@.take(t as int),
            decreases targets.len() - t,
        {
            obstacles.push(targets[t]);
            t += 1;
        }
        let mut t: usize = 0;
        while t < own.len()
            invariant
                t <= own.len(),
                obstacles@ == targets@ + own@.take(t as int),
            decreases own.len() - t,
        {
            obstacles.push(own[t]);
            t += 1;
        }
        proof {
            assert(own@.take(t as int) =~= own@);
        }
        let mut click = clicked;
        if let Some(c) = self.current {
            if c < self.squads.len() && self.squads[c].engineer() {
                let used = Player::press(&mut self.squads[c], self.walls, self.turrets, &orders);
                if used {
                    click = false;
                }
                proof {
                    assert(views(self.squads@) =~= hurt.update(c as int, self.squads@[c as int]@));
                }
            }
        }
        let spot: Option<Hex> = if click {
            Some(orders.goal)
        } else {
            None
        };
        let current = self.current;
        let count = self.squads.len();
        let (hits, walls, turrets, cues) = Player::drill(
            &mut self.squads,
            level,
            current,
            spot,
            self.walls,
            self.turrets,
            &deleted,
            &obstacles,
            &targets,
            delta,
        );
        if let Some(c) = self.current {
            if c < self.squads.len() && self.squads[c].empty() {
                self.current = None;
            }
        }
        self.walls = clamp(walls);
        self.turrets = clamp(turrets);
        prune(&mut self.squads);
        (obstacles, own, hits, cues)
    }
}

} // verus!
