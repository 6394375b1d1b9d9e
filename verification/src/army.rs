//! What the two sides do alike with the squads they own: taking the hits
//! of the last update, finding each squad its way, updating it, and
//! dropping the squads that have lost their last unit.

use vstd::prelude::*;
use crate::level::{Level, LevelView};
use crate::squad::{
    buried, first_at, kept, lemma_update_units, Action, Cue, Squad, SquadView, Tick,
};
use crate::structs::{Hex, UnitType};
use crate::unit::Unit;

verus! {

/// The squads as the rules see them.
pub open spec fn views(squads: Seq<Squad>) -> Seq<SquadView> {
    squads.map_values(|s: Squad| s@)
}

/// Every squad is well formed.
pub open spec fn fit(squads: Seq<SquadView>) -> bool {
    forall|k: int| 0 <= k < squads.len() ==> (#[trigger] squads[k]).wf()
}

/// Every squad is told to go: none builds or tears down.
pub open spec fn marching(squads: Seq<SquadView>) -> bool {
    forall|k: int| 0 <= k < squads.len() ==> (#[trigger] squads[k]).action == Some(Action::Go)
}

/// The number of units in all the squads.
pub open spec fn headcount(squads: Seq<SquadView>) -> int
    decreases squads.len(),
{
    if squads.len() == 0 {
        0
    } else {
        headcount(squads.drop_last()) + squads.last().soldiers.len()
    }
}

/// The first of the first `n` squads that has a unit on `pos`.
pub open spec fn first_with(squads: Seq<SquadView>, pos: Hex, n: nat) -> Option<int>
    decreases n,
{
    if n == 0 || n > squads.len() {
        None
    } else {
        match first_with(squads, pos, (n - 1) as nat) {
            Some(k) => Some(k),
            None => if first_at(squads[n - 1].soldiers, pos, squads[n - 1].soldiers.len())
                is Some {
                Some(n - 1)
            } else {
                None
            },
        }
    }
}

/// The squads after the first `n` of the hits `events` were taken, and the
/// units that were left without health, each with the hex it stood on and
/// its type, in the order they fell. A hit goes to the first unit on its
/// hex, the squads and their units taken in order; a hit on a hex where
/// no unit stands is lost.
pub open spec fn struck(squads: Seq<SquadView>, events: Seq<(Hex, i16)>, n: nat) -> (
    Seq<SquadView>,
    Seq<(Hex, UnitType)>,
)
    decreases n,
{
    if n == 0 || n > events.len() {
        (squads, Seq::empty())
    } else {
        let (before, fallen) = struck(squads, events, (n - 1) as nat);
        let (pos, amount) = events[n - 1];
        match first_with(before, pos, before.len()) {
            Some(k) => {
                let i = first_at(before[k].soldiers, pos, before[k].soldiers.len()).unwrap();
                let u = before[k].soldiers[i];
                (
                    before.update(k, before[k].wounded(pos, amount)),
                    if u.hurt(amount) <= 0 {
                        fallen.push((pos, u.kind))
                    } else {
                        fallen
                    },
                )
            },
            None => (before, fallen),
        }
    }
}

/// The squad after it was given its way for this update, and whether it
/// announces that it sets out. A squad with a goal is given the way the
/// search finds from its leader to the goal round `obstacles`. Where there
/// is none, a squad that may `retry` turns round and is given the way from
/// its new leader, and any other squad gives up its goal.
pub open spec fn ordered(s: SquadView, lv: LevelView, obstacles: Seq<Hex>, retry: bool) -> (
    SquadView,
    bool,
) {
    match s.goal {
        Some(goal) => if s.soldiers.len() > 0 {
            let first = lv.path_to(obstacles, s.soldiers[0].start_pos, goal);
            if first.len() > 0 {
                (s.routed(first), s.sets_out(first))
            } else if retry {
                let turned = SquadView { soldiers: s.soldiers.reverse(), ..s };
                let second = lv.path_to(obstacles, turned.soldiers[0].start_pos, goal);
                (turned.routed(second), turned.sets_out(second))
            } else {
                (s.sent(None).routed(first), false)
            }
        } else {
            (s, false)
        },
        None => (s, false),
    }
}

/// What the update of a side's squads works on and gives back.
#[verifier::ext_equal]
pub struct March {
    pub squads: Seq<SquadView>,
    pub level: LevelView,
    pub attacked: Seq<(Hex, i16)>,
    pub walls: int,
    pub turrets: int,
    pub cues: Seq<Cue>,
}

impl March {
    /// The `k`-th squad is given its way and updated.
    pub open spec fn advanced(
        self,
        k: int,
        deleted: Seq<Hex>,
        obstacles: Seq<Hex>,
        targets: Seq<Hex>,
        retry: bool,
        delta: u32,
    ) -> March {
        let (s, started) = ordered(self.squads[k], self.level, obstacles, retry);
        let t = Tick::updated(s, self.level, deleted, targets, delta);
        March {
            squads: self.squads.update(k, t.squad),
            level: t.level,
            attacked: self.attacked + t.attacked,
            walls: self.walls + t.walls,
            turrets: self.turrets + t.turrets,
            cues: (if started {
                self.cues.push(Cue::StartGo)
            } else {
                self.cues
            }) + t.cues,
        }
    }
}

impl March {
    /// The first `n` squads are given their way and updated, one after
    /// the other.
    pub open spec fn campaign(
        self,
        n: nat,
        deleted: Seq<Hex>,
        obstacles: Seq<Hex>,
        targets: Seq<Hex>,
        retry: bool,
        delta: u32,
    ) -> March
        decreases n,
    {
        if n == 0 {
            self
        } else {
            self.campaign((n - 1) as nat, deleted, obstacles, targets, retry, delta).advanced(
                n - 1,
                deleted,
                obstacles,
                targets,
                retry,
                delta,
            )
        }
    }
}

/// The hexes of the fallen.
pub open spec fn graves(fallen: Seq<(Hex, UnitType)>) -> Seq<Hex> {
    fallen.map_values(|f: (Hex, UnitType)| f.0)
}

/// The squads that still have a unit.
pub open spec fn alive(squads: Seq<SquadView>) -> Seq<SquadView> {
    squads.filter(|s: SquadView| s.soldiers.len() > 0)
}

/// Takes the hits `events`. Returns the units that were left without
/// health, each with the hex it stood on and its type.
pub fn strike(squads: &mut Vec<Squad>, events: &[(Hex, i16)]) -> (fallen: Vec<(Hex, UnitType)>)
    requires
        fit(views(old(squads)@)),
    ensures
        (views(final(squads)@), fallen@) == struck(views(old(squads)@), events@, events@.len()),
        fit(views(final(squads)@)),
        final(squads)@.len() == old(squads)@.len(),
{
    let mut fallen: Vec<(Hex, UnitType)> = Vec::new();
    let mut n: usize = 0;
    while n < events.len()
        invariant
            n <= events.len(),
            fit(views(squads@)),
            squads@.len() == old(squads)@.len(),
            (views(squads@), fallen@) == struck(views(old(squads)@), events@, n as nat),
        decreases events.len() - n,
    {
        let pos = events[n].0;
        let amount = events[n].1;
        let ghost before = views(squads@);
        let mut k: usize = 0;
        let mut done = false;
        while k < squads.len() && !done
            invariant
                k <= squads.len(),
                squads@.len() == old(squads)@.len(),
                !done ==> views(squads@) == before && first_with(before, pos, k as nat) is None,
                fit(before),
                fit(views(squads@)),
                done ==> (views(squads@), fallen@) == struck(
                    views(old(squads)@),
                    events@,
                    (n + 1) as nat,
                ),
                !done ==> (before, fallen@) == struck(views(old(squads)@), events@, n as nat),
                pos == events@[n as int].0,
                amount == events@[n as int].1,
                n < events.len(),
            decreases squads.len() - k + (if done { 0int } else { 1int }),
        {
            let ghost was = squads@;
            let hit = squads[k].wound(pos, amount);
            proof {
                assert(views(squads@) =~= views(was).update(k as int, squads@[k as int]@));
            }
            if let Some((kind, dead)) = hit {
                if dead {
                    fallen.push((pos, kind));
                }
                done = true;
                proof {
                    lemma_first_with_stays(before, pos, (k + 1) as nat, before.len());
                }
            }
            k += 1;
        }
        n += 1;
    }
    fallen
}

/// Once a squad with a unit on `pos` is found among the first `n`, looking
/// at more of them finds the same one.
pub proof fn lemma_first_with_stays(squads: Seq<SquadView>, pos: Hex, n: nat, m: nat)
    requires
        n <= m <= squads.len(),
        first_with(squads, pos, n) is Some,
    ensures
        first_with(squads, pos, m) == first_with(squads, pos, n),
    decreases m,
{
    if m > n {
        lemma_first_with_stays(squads, pos, n, (m - 1) as nat);
    }
}

/// Gives `squad` its way for this update. Returns whether it announces
/// that it sets out.
pub fn order(squad: &mut Squad, level: &Level, obstacles: &[Hex], retry: bool) -> (started: bool)
    requires
        old(squad).wf(),
        level.wf(),
    ensures
        (final(squad)@, started) == ordered(old(squad)@, level@, obstacles@, retry),
        final(squad).wf(),
        final(squad)@.soldiers.len() == old(squad)@.soldiers.len(),
        final(squad)@.action == old(squad)@.action,
{
    if let Some(goal) = squad.goal() {
        if !squad.empty() {
            let mut path = level.find_path(obstacles, squad.start_pos(), goal);
            if path.len() == 0 {
                if retry {
                    squad.rev();
                    path = level.find_path(obstacles, squad.start_pos(), goal);
                } else {
                    squad.set_goal(None);
                }
            }
            return squad.set_path(path);
        }
    }
    false
}

/// A hit on a hex where a unit stands takes the health it says from that
/// unit, as far as the unit has it, and from no other; the unit falls if
/// and only if no health is left; and a unit that fell is the one that the
/// next update of its squad removes.
pub proof fn lemma_hit(squads: Seq<SquadView>, pos: Hex, amount: i16, k: int, i: int)
    requires
        fit(squads),
        first_with(squads, pos, squads.len()) == Some(k),
        first_at(squads[k].soldiers, pos, squads[k].soldiers.len()) == Some(i),
        0 <= k < squads.len(),
        0 <= i < squads[k].soldiers.len(),
    ensures
        ({
            let (after, fallen) = struck(squads, seq![(pos, amount)], 1);
            let unit = squads[k].soldiers[i];
            &&& after == squads.update(k, squads[k].wounded(pos, amount))
            &&& after.len() == squads.len()
            &&& forall|j: int| 0 <= j < squads.len() && j != k ==> after[j] == squads[j]
            &&& after[k].soldiers.len() == squads[k].soldiers.len()
            &&& forall|j: int|
                0 <= j < squads[k].soldiers.len() && j != i ==> after[k].soldiers[j]
                    == squads[k].soldiers[j]
            &&& after[k].soldiers[i] == (Unit { health: unit.hurt(amount), ..unit })
            &&& 0 <= unit.health - amount <= unit.max_health ==> after[k].soldiers[i].health
                == unit.health - amount
            &&& unit.health - amount <= 0 <==> fallen == seq![(pos, unit.kind)]
            &&& unit.health - amount > 0 <==> fallen == Seq::<(Hex, UnitType)>::empty()
            &&& buried(after[k].soldiers, graves(seq![(pos, unit.kind)]), 1)
                == after[k].soldiers.remove(i)
        }),
{
    reveal_with_fuel(struck, 2);
    reveal_with_fuel(buried, 2);
    let (after, fallen) = struck(squads, seq![(pos, amount)], 1);
    let unit = squads[k].soldiers[i];
    assert(squads[k].wf());
    let events = seq![(pos, amount)];
    assert(events[0] == (pos, amount));
    assert(struck(squads, events, 0) == (squads, Seq::<(Hex, UnitType)>::empty()));
    assert(after == squads.update(k, squads[k].wounded(pos, amount)));
    if unit.health - amount <= 0 {
        assert(fallen =~= seq![(pos, unit.kind)]);
    }
    let soldiers = after[k].soldiers;
    lemma_first_at_same(squads[k].soldiers, soldiers, pos, squads[k].soldiers.len());
}

/// Who stands first on a hex does not depend on anything but where the
/// units stand.
pub proof fn lemma_first_at_same(a: Seq<Unit>, b: Seq<Unit>, pos: Hex, n: nat)
    requires
        a.len() == b.len(),
        forall|j: int| 0 <= j < a.len() ==> (#[trigger] a[j]).start_pos == b[j].start_pos,
    ensures
        first_at(a, pos, n) == first_at(b, pos, n),
    decreases n,
{
    if n > 0 && n <= a.len() {
        lemma_first_at_same(a, b, pos, (n - 1) as nat);
    }
}

/// Two files of units are alike where each unit of the one stands where
/// the unit in its place in the other stands, and is of its type and has
/// its health and its ceiling.
pub open spec fn alike(a: Seq<Unit>, b: Seq<Unit>) -> bool {
    &&& a.len() == b.len()
    &&& forall|j: int|
        0 <= j < a.len() ==> {
            &&& (#[trigger] a[j]).start_pos == b[j].start_pos
            &&& a[j].kind == b[j].kind
            &&& a[j].health == b[j].health
            &&& a[j].max_health == b[j].max_health
        }
}

/// `after` is what one update, in which the units on the hexes of
/// `deleted` are removed, makes of the units `before`: the units that are
/// left are there as `kept` says, in their order, or turned round where
/// the squad may turn round to find its way.
pub open spec fn follows_units(
    before: Seq<Unit>,
    after: Seq<Unit>,
    deleted: Seq<Hex>,
    healed: bool,
    retry: bool,
) -> bool {
    exists|file: Seq<Unit>|
        {
            &&& alike(file, before) || (retry && alike(file, before.reverse()))
            &&& #[trigger] kept(buried(file, deleted, deleted.len()), after, healed)
        }
}

/// `after` is what one update, in which the units on the hexes of
/// `deleted` are removed, makes of the squad `before`: it keeps its order
/// and its side, its units are as `follows_units` says, and none has
/// joined unless it is told to build a turret.
pub open spec fn follows(
    before: SquadView,
    after: SquadView,
    deleted: Seq<Hex>,
    delta: u32,
    retry: bool,
) -> bool {
    let healed = before.heals(delta);
    &&& after.action == before.action
    &&& after.team == before.team
    &&& follows_units(before.soldiers, after.soldiers, deleted, healed, retry)
    &&& exists|file: Seq<Unit>|
        {
            &&& alike(file, before.soldiers) || (retry && alike(file, before.soldiers.reverse()))
            &&& #[trigger] kept(buried(file, deleted, deleted.len()), after.soldiers, healed)
            &&& before.action != Some(Action::Turret) ==> after.soldiers.len() == buried(
                file,
                deleted,
                deleted.len(),
            ).len()
        }
}

/// Giving a squad its way and updating it leaves the other squads alone,
/// and makes of the squad what `follows` says.
pub proof fn lemma_advanced_follows(
    m: March,
    k: int,
    deleted: Seq<Hex>,
    obstacles: Seq<Hex>,
    targets: Seq<Hex>,
    retry: bool,
    delta: u32,
)
    requires
        0 <= k < m.squads.len(),
    ensures
        ({
            let r = m.advanced(k, deleted, obstacles, targets, retry, delta);
            &&& r.squads.len() == m.squads.len()
            &&& forall|j: int| 0 <= j < m.squads.len() && j != k ==> r.squads[j] == m.squads[j]
            &&& follows(m.squads[k], r.squads[k], deleted, delta, retry)
        }),
{
    let before = m.squads[k];
    let (s, started) = ordered(before, m.level, obstacles, retry);
    lemma_update_units(s, m.level, deleted, targets, delta);
    let r = m.advanced(k, deleted, obstacles, targets, retry, delta);
    let file = s.soldiers;
    assert(alike(file, before.soldiers) || (retry && alike(file, before.soldiers.reverse())));
    assert(kept(
        buried(file, deleted, deleted.len()),
        r.squads[k].soldiers,
        before.heals(delta),
    ));
}

/// Clearing hexes of units leaves files that are alike alike.
pub proof fn lemma_buried_alike(a: Seq<Unit>, b: Seq<Unit>, deleted: Seq<Hex>, n: nat)
    requires
        alike(a, b),
    ensures
        alike(buried(a, deleted, n), buried(b, deleted, n)),
    decreases n,
{
    if n > 0 && n <= deleted.len() {
        lemma_buried_alike(a, b, deleted, (n - 1) as nat);
        let x = buried(a, deleted, (n - 1) as nat);
        let y = buried(b, deleted, (n - 1) as nat);
        lemma_first_at_same(x, y, deleted[n - 1], x.len());
        crate::squad::lemma_first_at_range(x, deleted[n - 1], x.len());
        match first_at(x, deleted[n - 1], x.len()) {
            Some(i) => {
                assert forall|j: int| 0 <= j < x.remove(i).len() implies {
                    &&& (#[trigger] x.remove(i)[j]).start_pos == y.remove(i)[j].start_pos
                    &&& x.remove(i)[j].kind == y.remove(i)[j].kind
                    &&& x.remove(i)[j].health == y.remove(i)[j].health
                    &&& x.remove(i)[j].max_health == y.remove(i)[j].max_health
                } by {
                    if j < i {
                        assert(x.remove(i)[j] == x[j] && y.remove(i)[j] == y[j]);
                    } else {
                        assert(x.remove(i)[j] == x[j + 1] && y.remove(i)[j] == y[j + 1]);
                    }
                }
            },
            None => {},
        }
    }
}

/// What holds of what is left of a file holds of a file that is alike.
pub proof fn lemma_kept_alike(a: Seq<Unit>, b: Seq<Unit>, after: Seq<Unit>, healed: bool)
    requires
        alike(a, b),
        kept(a, after, healed),
    ensures
        kept(b, after, healed),
{
    assert forall|j: int| 0 <= j < b.len() implies {
        &&& (#[trigger] after[j]).kind == b[j].kind
        &&& after[j].max_health == b[j].max_health
        &&& !healed ==> after[j].health == b[j].health
        &&& after[j].health >= b[j].health || b[j].health > b[j].max_health
    } by {
        assert(a[j].kind == b[j].kind);
    }
}

/// Where one unit stands on `pos` and no other of any squad does, it is
/// the one a hit on `pos` goes to.
pub proof fn lemma_sole(squads: Seq<SquadView>, pos: Hex, k: int, i: int)
    requires
        0 <= k < squads.len(),
        0 <= i < squads[k].soldiers.len(),
        squads[k].soldiers[i].start_pos == pos,
        forall|a: int, b: int|
            0 <= a < squads.len() && 0 <= b < squads[a].soldiers.len() && (a != k || b != i) ==> (
            #[trigger] squads[a].soldiers[b]).start_pos != pos,
    ensures
        first_with(squads, pos, squads.len()) == Some(k),
        first_at(squads[k].soldiers, pos, squads[k].soldiers.len()) == Some(i),
{
    crate::squad::lemma_first_at_range(squads[k].soldiers, pos, squads[k].soldiers.len());
    match first_at(squads[k].soldiers, pos, squads[k].soldiers.len()) {
        Some(x) => {
            assert(squads[k].soldiers[x].start_pos == pos);
        },
        None => {
            assert(squads[k].soldiers[i].start_pos == pos);
        },
    }
    lemma_first_with_found(squads, pos, squads.len(), k);
    lemma_first_with_range(squads, pos, squads.len());
    let found = first_with(squads, pos, squads.len())->0;
    if found != k {
        crate::squad::lemma_first_at_range(
            squads[found].soldiers,
            pos,
            squads[found].soldiers.len(),
        );
        let x = first_at(squads[found].soldiers, pos, squads[found].soldiers.len())->0;
        assert(squads[found].soldiers[x].start_pos == pos);
    }
}

/// A squad with a unit on `pos` among the first `n` is found, or one
/// before it.
pub proof fn lemma_first_with_found(squads: Seq<SquadView>, pos: Hex, n: nat, k: int)
    requires
        0 <= k < n <= squads.len(),
        first_at(squads[k].soldiers, pos, squads[k].soldiers.len()) is Some,
    ensures
        first_with(squads, pos, n) is Some,
    decreases n,
{
    if k < n - 1 {
        lemma_first_with_found(squads, pos, (n - 1) as nat, k);
    }
}

/// Every unit of `before` is there in `after`, of its type and with its
/// health and its ceiling: each in its place in the file, or each in the
/// place counted from the other end where the squad has turned round; and
/// at most one unit has joined.
pub open spec fn stays(before: Seq<Unit>, after: Seq<Unit>) -> bool {
    let n = before.len() as int;
    &&& n <= after.len() <= n + 1
    &&& {
        ||| forall|j: int|
            0 <= j < n ==> {
                &&& (#[trigger] after[j]).kind == before[j].kind
                &&& after[j].health == before[j].health
                &&& after[j].max_health == before[j].max_health
            }
        ||| forall|j: int|
            0 <= j < n ==> {
                &&& (#[trigger] after[j]).kind == before[n - 1 - j].kind
                &&& after[j].health == before[n - 1 - j].health
                &&& after[j].max_health == before[n - 1 - j].max_health
            }
    }
}

/// An update in which no hex is cleared and no round of healing comes
/// leaves every unit there as it was.
pub proof fn lemma_stays(before: Seq<Unit>, after: Seq<Unit>, retry: bool)
    requires
        follows_units(before, after, Seq::empty(), false, retry),
    ensures
        stays(before, after),
{
    let file = choose|file: Seq<Unit>|
        {
            &&& alike(file, before) || (retry && alike(file, before.reverse()))
            &&& #[trigger] kept(buried(file, Seq::<Hex>::empty(), 0), after, false)
        };
    let n = before.len() as int;
    assert(buried(file, Seq::<Hex>::empty(), 0) == file);
    if alike(file, before) {
        assert forall|j: int| 0 <= j < n implies {
            &&& (#[trigger] after[j]).kind == before[j].kind
            &&& after[j].health == before[j].health
            &&& after[j].max_health == before[j].max_health
        } by {
            assert(file[j].kind == before[j].kind);
        }
    } else {
        let turned = before.reverse();
        assert forall|j: int| 0 <= j < n implies {
            &&& (#[trigger] after[j]).kind == before[n - 1 - j].kind
            &&& after[j].health == before[n - 1 - j].health
            &&& after[j].max_health == before[n - 1 - j].max_health
        } by {
            assert(file[j].kind == turned[j].kind);
            assert(turned[j] == before[n - 1 - j]);
        }
    }
}

/// Where one unit of a file stands on `pos` and no other does, an update
/// that clears `pos` makes of the file what an update that clears nothing
/// makes of the file without that unit.
pub proof fn lemma_cleared_is_removed(
    before: Seq<Unit>,
    after: Seq<Unit>,
    pos: Hex,
    i: int,
    healed: bool,
    retry: bool,
)
    requires
        follows_units(before, after, seq![pos], healed, retry),
        0 <= i < before.len(),
        before[i].start_pos == pos,
        forall|j: int| 0 <= j < before.len() && j != i ==> (#[trigger] before[j]).start_pos != pos,
    ensures
        follows_units(before.remove(i), after, Seq::empty(), healed, retry),
{
    reveal_with_fuel(buried, 2);
    let deleted = seq![pos];
    assert(deleted[0] == pos);
    let file = choose|file: Seq<Unit>|
        {
            &&& alike(file, before) || (retry && alike(file, before.reverse()))
            &&& #[trigger] kept(buried(file, deleted, deleted.len()), after, healed)
        };
    let n = before.len() as int;
    let at = if alike(file, before) {
        i
    } else {
        n - 1 - i
    };
    let turned = before.reverse();
    assert(file[at].start_pos == pos);
    assert forall|j: int| 0 <= j < n && j != at implies (#[trigger] file[j]).start_pos != pos by {
        if alike(file, before) {
            assert(before[j].start_pos != pos);
        } else {
            assert(turned[j] == before[n - 1 - j]);
            assert(before[n - 1 - j].start_pos != pos);
        }
    }
    crate::squad::lemma_first_at_range(file, pos, file.len());
    assert(first_at(file, pos, file.len()) == Some(at));
    let left = file.remove(at);
    assert(buried(file, deleted, 1) == left);
    assert(buried(left, Seq::<Hex>::empty(), 0) == left);
    let want = before.remove(i);
    if alike(file, before) {
        assert forall|j: int| 0 <= j < left.len() implies {
            &&& (#[trigger] left[j]).start_pos == want[j].start_pos
            &&& left[j].kind == want[j].kind
            &&& left[j].health == want[j].health
            &&& left[j].max_health == want[j].max_health
        } by {
            if j < i {
                assert(left[j] == file[j] && want[j] == before[j]);
            } else {
                assert(left[j] == file[j + 1] && want[j] == before[j + 1]);
            }
        }
        assert(alike(left, want));
    } else {
        let back = want.reverse();
        assert forall|j: int| 0 <= j < left.len() implies {
            &&& (#[trigger] left[j]).start_pos == back[j].start_pos
            &&& left[j].kind == back[j].kind
            &&& left[j].health == back[j].health
            &&& left[j].max_health == back[j].max_health
        } by {
            assert(back[j] == want[n - 2 - j]);
            if j < at {
                assert(left[j] == file[j]);
                assert(turned[j] == before[n - 1 - j]);
                assert(want[n - 2 - j] == before[n - 1 - j]);
            } else {
                assert(left[j] == file[j + 1]);
                assert(turned[j + 1] == before[n - 2 - j]);
                assert(want[n - 2 - j] == before[n - 2 - j]);
            }
        }
        assert(alike(left, back));
    }
    assert(kept(buried(left, Seq::<Hex>::empty(), 0), after, healed));
}

/// Where no unit of a file stands on `pos`, an update that clears `pos`
/// makes of the file what an update that clears nothing makes of it.
pub proof fn lemma_cleared_nothing(
    before: Seq<Unit>,
    after: Seq<Unit>,
    pos: Hex,
    healed: bool,
    retry: bool,
)
    requires
        follows_units(before, after, seq![pos], healed, retry),
        forall|j: int| 0 <= j < before.len() ==> (#[trigger] before[j]).start_pos != pos,
    ensures
        follows_units(before, after, Seq::empty(), healed, retry),
{
    reveal_with_fuel(buried, 2);
    let deleted = seq![pos];
    assert(deleted[0] == pos);
    let file = choose|file: Seq<Unit>|
        {
            &&& alike(file, before) || (retry && alike(file, before.reverse()))
            &&& #[trigger] kept(buried(file, deleted, deleted.len()), after, healed)
        };
    let n = before.len() as int;
    let turned = before.reverse();
    assert forall|j: int| 0 <= j < n implies (#[trigger] file[j]).start_pos != pos by {
        if alike(file, before) {
            assert(before[j].start_pos != pos);
        } else {
            assert(turned[j] == before[n - 1 - j]);
            assert(before[n - 1 - j].start_pos != pos);
        }
    }
    crate::squad::lemma_first_at_range(file, pos, file.len());
    assert(first_at(file, pos, file.len()) is None);
    assert(buried(file, deleted, 1) == file);
    assert(buried(file, Seq::<Hex>::empty(), 0) == file);
    assert(kept(buried(file, Seq::<Hex>::empty(), 0), after, healed));
}

/// One hit that leaves a unit of the opponent without health, and what
/// the update makes of it: the unit is removed from its squad in the same
/// update, the units left in the squad are there as `kept` says, none has
/// joined unless the squad builds a turret, and a squad without a unit on
/// the hex of the hit keeps its units as `kept` says.
pub proof fn lemma_fallen_removed(
    squads: Seq<SquadView>,
    m: March,
    obstacles: Seq<Hex>,
    targets: Seq<Hex>,
    pos: Hex,
    amount: i16,
    delta: u32,
    k: int,
    i: int,
)
    requires
        fit(squads),
        first_with(squads, pos, squads.len()) == Some(k),
        first_at(squads[k].soldiers, pos, squads[k].soldiers.len()) == Some(i),
        0 <= k < squads.len(),
        0 <= i < squads[k].soldiers.len(),
        squads[k].soldiers[i].health - amount <= 0,
        m.squads == struck(squads, seq![(pos, amount)], 1).0,
    ensures
        ({
            let fallen = struck(squads, seq![(pos, amount)], 1).1;
            let c = m.campaign(m.squads.len(), graves(fallen), obstacles, targets, false, delta);
            &&& fallen == seq![(pos, squads[k].soldiers[i].kind)]
            &&& c.squads.len() == squads.len()
            &&& kept(
                squads[k].soldiers.remove(i),
                c.squads[k].soldiers,
                squads[k].heals(delta),
            )
            &&& squads[k].action != Some(Action::Turret) ==> c.squads[k].soldiers.len()
                == squads[k].soldiers.len() - 1
            &&& forall|j: int|
                0 <= j < squads.len() && j != k && first_at(
                    squads[j].soldiers,
                    pos,
                    squads[j].soldiers.len(),
                ) is None ==> kept(
                    squads[j].soldiers,
                    (#[trigger] c.squads[j]).soldiers,
                    squads[j].heals(delta),
                ) && (squads[j].action != Some(Action::Turret) ==> c.squads[j].soldiers.len()
                    == squads[j].soldiers.len())
        }),
{
    lemma_hit(squads, pos, amount, k, i);
    let (hurt, fallen) = struck(squads, seq![(pos, amount)], 1);
    let deleted = graves(fallen);
    assert(deleted =~= seq![pos]);
    lemma_campaign_follows(m, m.squads.len(), deleted, obstacles, targets, false, delta);
    let c = m.campaign(m.squads.len(), deleted, obstacles, targets, false, delta);
    assert(follows(hurt[k], c.squads[k], deleted, delta, false));
    let file = choose|file: Seq<Unit>|
        {
            &&& alike(file, hurt[k].soldiers) || (false && alike(file, hurt[k].soldiers.reverse()))
            &&& #[trigger] kept(
                buried(file, deleted, deleted.len()),
                c.squads[k].soldiers,
                hurt[k].heals(delta),
            )
            &&& hurt[k].action != Some(Action::Turret) ==> c.squads[k].soldiers.len() == buried(
                file,
                deleted,
                deleted.len(),
            ).len()
        };
    lemma_buried_alike(file, hurt[k].soldiers, deleted, deleted.len());
    assert(hurt[k] == squads[k].wounded(pos, amount));
    assert(hurt[k].timer_heal == squads[k].timer_heal);
    assert(hurt[k].action == squads[k].action);
    assert(deleted.len() == 1);
    assert(buried(hurt[k].soldiers, deleted, 1) == hurt[k].soldiers.remove(i));
    assert(hurt[k].soldiers.remove(i) =~= squads[k].soldiers.remove(i));
    lemma_kept_alike(
        buried(file, deleted, deleted.len()),
        squads[k].soldiers.remove(i),
        c.squads[k].soldiers,
        squads[k].heals(delta),
    );
    assert forall|j: int|
        0 <= j < squads.len() && j != k && first_at(
            squads[j].soldiers,
            pos,
            squads[j].soldiers.len(),
        ) is None implies kept(
        squads[j].soldiers,
        (#[trigger] c.squads[j]).soldiers,
        squads[j].heals(delta),
    ) && (squads[j].action != Some(Action::Turret) ==> c.squads[j].soldiers.len()
        == squads[j].soldiers.len()) by {
        assert(hurt[j] == squads[j]);
        assert(follows(hurt[j], c.squads[j], deleted, delta, false));
        let other = choose|other: Seq<Unit>|
            {
                &&& alike(other, hurt[j].soldiers) || (false && alike(
                    other,
                    hurt[j].soldiers.reverse(),
                ))
                &&& #[trigger] kept(
                    buried(other, deleted, deleted.len()),
                    c.squads[j].soldiers,
                    hurt[j].heals(delta),
                )
                &&& hurt[j].action != Some(Action::Turret) ==> c.squads[j].soldiers.len()
                    == buried(other, deleted, deleted.len()).len()
            };
        lemma_buried_alike(other, squads[j].soldiers, deleted, deleted.len());
        reveal_with_fuel(buried, 2);
        assert(buried(squads[j].soldiers, deleted, 1) == squads[j].soldiers);
        lemma_kept_alike(
            buried(other, deleted, deleted.len()),
            squads[j].soldiers,
            c.squads[j].soldiers,
            squads[j].heals(delta),
        );
    }
}

/// The update of the first `n` squads makes of each of them what `follows`
/// says, and leaves the others alone.
pub proof fn lemma_campaign_follows(
    m: March,
    n: nat,
    deleted: Seq<Hex>,
    obstacles: Seq<Hex>,
    targets: Seq<Hex>,
    retry: bool,
    delta: u32,
)
    requires
        n <= m.squads.len(),
    ensures
        ({
            let c = m.campaign(n, deleted, obstacles, targets, retry, delta);
            &&& c.squads.len() == m.squads.len()
            &&& forall|k: int|
                0 <= k < n ==> follows(m.squads[k], #[trigger] c.squads[k], deleted, delta, retry)
            &&& forall|k: int| n <= k < m.squads.len() ==> #[trigger] c.squads[k] == m.squads[k]
        }),
    decreases n,
{
    if n > 0 {
        lemma_campaign_follows(m, (n - 1) as nat, deleted, obstacles, targets, retry, delta);
        let p = m.campaign((n - 1) as nat, deleted, obstacles, targets, retry, delta);
        lemma_advanced_follows(p, n - 1, deleted, obstacles, targets, retry, delta);
        let c = m.campaign(n, deleted, obstacles, targets, retry, delta);
        assert(p.squads[n - 1] == m.squads[n - 1]);
        assert forall|k: int| 0 <= k < n implies follows(
            m.squads[k],
            #[trigger] c.squads[k],
            deleted,
            delta,
            retry,
        ) by {
            if k < n - 1 {
                assert(c.squads[k] == p.squads[k]);
            }
        }
    }
}

/// Taking hits changes the number of squads no more than the number of
/// units in any of them.
pub proof fn lemma_struck_len(squads: Seq<SquadView>, events: Seq<(Hex, i16)>, n: nat)
    ensures
        struck(squads, events, n).0.len() == squads.len(),
        forall|k: int|
            0 <= k < squads.len() ==> {
                &&& (#[trigger] struck(squads, events, n).0[k]).soldiers.len()
                    == squads[k].soldiers.len()
                &&& struck(squads, events, n).0[k].action == squads[k].action
            },
    decreases n,
{
    if n > 0 && n <= events.len() {
        lemma_struck_len(squads, events, (n - 1) as nat);
        let before = struck(squads, events, (n - 1) as nat).0;
        let pos = events[n - 1].0;
        lemma_first_with_range(before, pos, before.len());
        match first_with(before, pos, before.len()) {
            Some(k) => {
                crate::squad::lemma_first_at_range(
                    before[k].soldiers,
                    pos,
                    before[k].soldiers.len(),
                );
            },
            None => {},
        }
    }
}

/// The squad found is one of the first `n`.
pub proof fn lemma_first_with_range(squads: Seq<SquadView>, pos: Hex, n: nat)
    requires
        n <= squads.len(),
    ensures
        first_with(squads, pos, n) matches Some(k) ==> 0 <= k < n && first_at(
            squads[k].soldiers,
            pos,
            squads[k].soldiers.len(),
        ) is Some,
    decreases n,
{
    if n > 0 {
        lemma_first_with_range(squads, pos, (n - 1) as nat);
    }
}

/// Gives the `k`-th squad its way and updates it. Returns the walls and
/// turrets it made.
pub(crate) fn advance(
    squads: &mut Vec<Squad>,
    k: usize,
    level: &mut Level,
    deleted: &[Hex],
    obstacles: &[Hex],
    targets: &[Hex],
    retry: bool,
    delta: u32,
    attacked: &mut Vec<(Hex, i16)>,
    cues: &mut Vec<Cue>,
    Ghost(base): Ghost<March>,
) -> (made: (i32, i32))
    requires
        k < old(squads)@.len(),
        forall|j: int| 0 <= j < old(squads)@.len() ==> (#[trigger] old(squads)@[j]).wf(),
        old(level).wf(),
        base.squads == views(old(squads)@),
        base.level == old(level)@,
        base.attacked == old(attacked)@,
        base.cues == old(cues)@,
    ensures
        (March {
            squads: views(final(squads)@),
            level: final(level)@,
            attacked: final(attacked)@,
            walls: base.walls + made.0,
            turrets: base.turrets + made.1,
            cues: final(cues)@,
        }) == base.advanced(k as int, deleted@, obstacles@, targets@, retry, delta),
        forall|j: int| 0 <= j < final(squads)@.len() ==> (#[trigger] final(squads)@[j]).wf(),
        final(level).wf(),
        final(squads)@.len() == old(squads)@.len(),
        -1 <= made.0 <= 1,
        0 <= made.1 <= 1,
        made.0 > 0 ==> old(squads)@[k as int]@.action == Some(Action::Wall),
        made.1 > 0 ==> old(squads)@[k as int]@.action == Some(Action::Turret),
{
    let started = order(&mut squads[k], level, obstacles, retry);
    if started {
        cues.push(Cue::StartGo);
    }
    let ghost mid = squads@[k as int]@;
    let ghost world = level@;
    let (mut hits, walls, turrets, mut heard) = squads[k].update(deleted, targets, level, delta);
    proof {
        let t = Tick::updated(mid, world, deleted@, targets@, delta);
        assert(-1 <= t.walls <= 1 && 0 <= t.turrets <= 1) by {
            lemma_made(mid, world, deleted@, targets@, delta);
        }
    }
    attacked.append(&mut hits);
    cues.append(&mut heard);
    (walls, turrets)
}

/// One update of a squad makes at most one wall or takes one down, and
/// makes at most one turret.
pub proof fn lemma_made(
    squad: SquadView,
    level: LevelView,
    deleted: Seq<Hex>,
    targets: Seq<Hex>,
    delta: u32,
)
    ensures
        -1 <= Tick::updated(squad, level, deleted, targets, delta).walls <= 1,
        0 <= Tick::updated(squad, level, deleted, targets, delta).turrets <= 1,
{
    let ahead = if squad.path.len() > 0 {
        Some(squad.path[0])
    } else {
        None
    };
    let left = SquadView {
        soldiers: crate::squad::buried(squad.soldiers, deleted, deleted.len()),
        ..squad
    };
    let built = (Tick {
        squad: left,
        level,
        attacked: Seq::empty(),
        walls: 0,
        turrets: 0,
        cues: Seq::empty(),
        ahead,
    }).constructed(delta);
    let heal = built.squad.heal_due(delta) && built.squad.has(UnitType::Medic);
    let tended = Tick {
        squad: SquadView {
            timer_heal: if built.squad.heal_due(delta) {
                0
            } else {
                built.squad.timer_heal + delta
            },
            ..built.squad
        },
        ..built
    };
    let count = tended.squad.soldiers.len();
    lemma_sweep_keeps(tended, count, targets, heal, count, delta);
}

/// The turns of the units make no walls and no turrets.
proof fn lemma_sweep_keeps(
    t: Tick,
    n: nat,
    targets: Seq<Hex>,
    heal: bool,
    members: nat,
    delta: u32,
)
    ensures
        t.swept(n, targets, heal, members, delta).walls == t.walls,
        t.swept(n, targets, heal, members, delta).turrets == t.turrets,
    decreases n,
{
    if n > 0 {
        lemma_sweep_keeps(t, (n - 1) as nat, targets, heal, members, delta);
    }
}

/// Dropping the squads without units changes the number of units by
/// nothing, and leaves only squads that were there.
pub proof fn lemma_alive(squads: Seq<SquadView>)
    ensures
        headcount(alive(squads)) == headcount(squads),
        marching(squads) ==> marching(alive(squads)),
        fit(squads) ==> fit(alive(squads)),
    decreases squads.len(),
{
    let full = |s: SquadView| s.soldiers.len() > 0;
    if squads.len() == 0 {
        assert(squads.filter(full) =~= Seq::<SquadView>::empty()) by {
            reveal(Seq::filter);
        }
    } else {
        let rest = squads.drop_last();
        let last = squads.last();
        lemma_alive(rest);
        assert(squads =~= rest.push(last));
        rest.lemma_filter_push(last, full);
        assert(forall|k: int| 0 <= k < rest.len() ==> rest[k] == squads[k]);
        if full(last) {
            let now = rest.filter(full).push(last);
            assert(now.drop_last() =~= rest.filter(full));
            assert(now.last() == last);
            assert forall|k: int| 0 <= k < now.len() implies (marching(squads) ==> (
            #[trigger] now[k]).action == Some(Action::Go)) && (fit(squads) ==> now[k].wf()) by {
                if k < rest.filter(full).len() {
                    assert(now[k] == rest.filter(full)[k]);
                }
            }
        }
    }
}

/// Where two lists of squads differ in the number of units of the `k`-th
/// squad alone, their numbers of units differ by as much.
pub proof fn lemma_headcount(a: Seq<SquadView>, b: Seq<SquadView>, k: int, d: int)
    requires
        a.len() == b.len(),
        0 <= k < a.len(),
        b[k].soldiers.len() == a[k].soldiers.len() + d,
        forall|j: int|
            0 <= j < a.len() && j != k ==> (#[trigger] b[j]).soldiers.len() == a[j].soldiers.len(),
    ensures
        headcount(b) == headcount(a) + d,
    decreases a.len(),
{
    let n = a.len() as int;
    if k == n - 1 {
        lemma_headcount_same(a.drop_last(), b.drop_last());
    } else {
        lemma_headcount(a.drop_last(), b.drop_last(), k, d);
    }
}

/// Lists of squads with as many units in each squad have as many units.
pub proof fn lemma_headcount_same(a: Seq<SquadView>, b: Seq<SquadView>)
    requires
        a.len() == b.len(),
        forall|j: int| 0 <= j < a.len() ==> (#[trigger] b[j]).soldiers.len() == a[j].soldiers.len(),
    ensures
        headcount(b) == headcount(a),
    decreases a.len(),
{
    if a.len() > 0 {
        lemma_headcount_same(a.drop_last(), b.drop_last());
    }
}

/// Drops the squads that have no unit left.
pub fn prune(squads: &mut Vec<Squad>)
    requires
        forall|j: int| 0 <= j < old(squads)@.len() ==> (#[trigger] old(squads)@[j]).wf(),
    ensures
        views(final(squads)@) == alive(views(old(squads)@)),
        fit(views(final(squads)@)),
{
    let ghost all = views(squads@);
    let ghost full = |s: SquadView| s.soldiers.len() > 0;
    let ghost mut j: int = 0;
    let mut i: usize = 0;
    proof {
        assert(all.skip(0) =~= all);
    }
    while i < squads.len()
        invariant
            i <= squads.len(),
            0 <= j <= all.len(),
            full == (|s: SquadView| s.soldiers.len() > 0),
            squads@.len() - i == all.len() - j,
            i == all.take(j).filter(full).len(),
            views(squads@) == all.take(j).filter(full) + all.skip(j),
            forall|m: int| 0 <= m < all.len() ==> (#[trigger] all[m]).wf(),
        decreases all.len() - j,
    {
        let ghost before = squads@;
        proof {
            assert(views(squads@)[i as int] == all.skip(j)[0]);
            assert(all.take(j + 1) =~= all.take(j).push(all[j]));
            all.take(j).lemma_filter_push(all[j], full);
        }
        if squads[i].empty() {
            squads.remove(i);
            proof {
                assert(views(squads@) =~= views(before).remove(i as int));
            }
        } else {
            i += 1;
        }
        proof {
            j = j + 1;
        }
    }
    proof {
        assert forall|k: int| 0 <= k < views(squads@).len() implies (#[trigger] views(
            squads@,
        )[k]).wf() by {
            all.lemma_filter_pred(full, k);
            let e = all.filter(full)[k];
            all.lemma_filter_contains_rev(full, e);
        }
    }
}

} // verus!
