//! The world: the tile map with its control points, the set of hexes
//! that block a line of sight, and the player's fog-of-war visibility.

use vstd::prelude::*;
use std::collections::{HashMap, HashSet};
use vstd::std_specs::iter::IteratorSpec;
use pathfinding::directed::astar::astar;
use crate::grid::{
    adjacent, along, diamond, direction, distance, in_range, lemma_distance, neighbours, ring,
    sample, shift, step,
    within, LEVEL_SIZE, SAMPLES,
};
use crate::structs::{invert_team, opponent, Hex, Paint, Team, Tile, TileType};

verus! {

/// How far a control point lets its owner see.
pub const CAPTURE_SIGHT: i32 = 15;

/// The world as the rules see it.
#[verifier::ext_equal]
pub struct LevelView {
    /// The tile on each hex that has one. A hex without one is open.
    pub tiles: Map<Hex, Tile>,
    /// The hexes the player sees.
    pub visible: Set<Hex>,
    /// The hexes no shot passes.
    pub solid: Set<Hex>,
}

/// The tile of a wall.
pub open spec fn wall_tile() -> Tile {
    Tile { kind: TileType::Wall, fill_color: Paint::Wall, border_color: Paint::WallBorder }
}

/// The tile of a control point that `team` holds.
pub open spec fn control_tile(team: Team) -> Tile {
    match team {
        Team::Player => Tile {
            kind: TileType::Control(Some(Team::Player)),
            fill_color: Paint::Player,
            border_color: Paint::PlayerBorder,
        },
        Team::Computer => Tile {
            kind: TileType::Control(Some(Team::Computer)),
            fill_color: Paint::Enemy,
            border_color: Paint::EnemyBorder,
        },
    }
}

impl LevelView {
    /// The blocking set holds exactly the hexes with a tile other than
    /// water, and the map holds finitely many tiles.
    pub open spec fn wf(self) -> bool {
        &&& forall|h: Hex|
            self.solid.contains(h) <==> (#[trigger] self.tiles.contains_key(h)
                && self.tiles[h].kind != TileType::Water)
        &&& self.tiles.dom().finite()
    }

    /// No tile stands on `pos`.
    pub open spec fn open(self, pos: Hex) -> bool {
        !self.tiles.contains_key(pos)
    }

    /// A wall stands on `pos`.
    pub open spec fn wall(self, pos: Hex) -> bool {
        self.tiles.contains_key(pos) && self.tiles[pos].kind == TileType::Wall
    }

    /// `pos` is a control point that `team` does not hold yet.
    pub open spec fn capturable(self, pos: Hex, team: Team) -> bool {
        self.tiles.contains_key(pos) && (self.tiles[pos].kind == TileType::Control(None)
            || self.tiles[pos].kind == TileType::Control(Some(opponent(team))))
    }

    /// `pos` is a control point, whoever holds it.
    pub open spec fn control(self, pos: Hex) -> bool {
        self.tiles.contains_key(pos) && self.tiles[pos].kind is Control
    }

    /// A walker may step on `h`: it lies on the generated map, is open,
    /// and none of `units` stands on it.
    pub open spec fn passable(self, units: Seq<Hex>, h: Hex) -> bool {
        in_range(h) && self.open(h) && !units.contains(h)
    }

    /// `path` leads from `start` to `end` step by step, and every hex after
    /// the first is one a walker may step on.
    pub open spec fn route(self, units: Seq<Hex>, path: Seq<Hex>, start: Hex, end: Hex) -> bool {
        &&& path.len() > 0
        &&& path[0] == start
        &&& path[path.len() - 1] == end
        &&& forall|i: int|
            0 < i < path.len() ==> adjacent(path[i - 1], #[trigger] path[i]) && self.passable(
                units,
                path[i],
            )
    }

    /// `path` is what a search for a shortest walk from `start` to `end`
    /// gives: one of the walks with the fewest hexes, or nothing where no
    /// walk exists.
    pub open spec fn shortest(self, units: Seq<Hex>, path: Seq<Hex>, start: Hex, end: Hex) -> bool {
        if path.len() == 0 {
            forall|q: Seq<Hex>| !#[trigger] self.route(units, q, start, end)
        } else {
            &&& self.route(units, path, start, end)
            &&& forall|q: Seq<Hex>| #[trigger]
                self.route(units, q, start, end) ==> path.len() <= q.len()
        }
    }

    /// Nothing stops a shot from `a` to `b`: none of the hexes under the
    /// tested points of the line between them, both ends among them, is in
    /// the blocking set.
    pub open spec fn clear_shot(self, a: Hex, b: Hex) -> bool {
        forall|k: int|
            0 <= k <= SAMPLES * distance(a, b) ==> !self.solid.contains(#[trigger] sample(a, b, k))
    }

    /// The walk that the search finds from `start` to `end`; none where
    /// there is none.
    pub open spec fn walk(self, units: Seq<Hex>, start: Hex, end: Hex) -> Seq<Hex> {
        match found_route(self, units, start, end) {
            Some(path) => path,
            None => Seq::empty(),
        }
    }

    /// The walk to the first of the first `n` of `hexes` that is open and
    /// has a walk leading to it; none where none of them has.
    pub open spec fn first_walk(self, units: Seq<Hex>, start: Hex, hexes: Seq<Hex>, n: nat) -> Seq<
        Hex,
    >
        decreases n,
    {
        if n == 0 || n > hexes.len() {
            Seq::empty()
        } else {
            let before = self.first_walk(units, start, hexes, (n - 1) as nat);
            if before.len() > 0 {
                before
            } else if self.open(hexes[n - 1]) {
                self.walk(units, start, hexes[n - 1])
            } else {
                Seq::empty()
            }
        }
    }

    /// The walk a squad takes from `start` towards `goal` round `units`: to
    /// `goal` itself where it is open, and else to the first of its
    /// neighbours, in the order of the directions, that is open and can be
    /// reached.
    pub open spec fn path_to(self, units: Seq<Hex>, start: Hex, goal: Hex) -> Seq<Hex> {
        if self.open(goal) {
            self.walk(units, start, goal)
        } else {
            self.first_walk(units, start, neighbours(goal), neighbours(goal).len())
        }
    }

    /// `path` is what a walk from `start` towards `goal` should be. To an
    /// open goal it is a shortest walk, and empty just where there is no
    /// walk. To a goal with a tile on it, it is a shortest walk to the
    /// first open neighbour of the goal, in the order of the directions,
    /// that any walk leads to, and empty just where no walk leads to any
    /// open neighbour.
    pub open spec fn leads(self, units: Seq<Hex>, path: Seq<Hex>, start: Hex, goal: Hex) -> bool {
        let around = neighbours(goal);
        if self.open(goal) {
            self.shortest(units, path, start, goal)
        } else if path.len() == 0 {
            forall|i: int|
                0 <= i < around.len() && self.open(#[trigger] around[i]) ==> self.shortest(
                    units,
                    Seq::empty(),
                    start,
                    around[i],
                )
        } else {
            exists|i: int|
                {
                    &&& 0 <= i < around.len()
                    &&& self.open(#[trigger] around[i])
                    &&& self.shortest(units, path, start, around[i])
                    &&& forall|j: int|
                        0 <= j < i && self.open(#[trigger] around[j]) ==> self.shortest(
                            units,
                            Seq::empty(),
                            start,
                            around[j],
                        )
                }
        }
    }

    /// The control points.
    pub open spec fn controls(self) -> Set<Hex> {
        Set::new(|h: Hex| self.control(h))
    }

    /// The control points that `team` holds.
    pub open spec fn held(self, team: Team) -> Set<Hex> {
        Set::new(
            |h: Hex|
                self.tiles.contains_key(h) && self.tiles[h].kind == TileType::Control(Some(team)),
        )
    }

    /// The part of the control points that `team` holds, in whole percent,
    /// rounded down; nothing where there is no control point.
    pub open spec fn share(self, team: Team) -> int {
        if self.controls().len() == 0 {
            0
        } else {
            (self.held(team).len() * 100) as int / (self.controls().len() as int)
        }
    }

    /// The tile on `h`, if there is one.
    pub open spec fn tile_at(self, h: Hex) -> Option<Tile> {
        if self.tiles.contains_key(h) {
            Some(self.tiles[h])
        } else {
            None
        }
    }

    /// The world with `tile` on `pos`, in place of whatever stood there.
    pub open spec fn with_tile(self, pos: Hex, tile: Tile) -> LevelView {
        LevelView {
            tiles: self.tiles.insert(pos, tile),
            solid: if tile.kind != TileType::Water {
                self.solid.insert(pos)
            } else {
                self.solid.remove(pos)
            },
            ..self
        }
    }

    /// The world with a wall on `pos`, in place of whatever stood there.
    pub open spec fn walled(self, pos: Hex) -> LevelView {
        LevelView {
            tiles: self.tiles.insert(pos, wall_tile()),
            solid: self.solid.insert(pos),
            ..self
        }
    }

    /// The world with `pos` open.
    pub open spec fn cleared(self, pos: Hex) -> LevelView {
        LevelView { tiles: self.tiles.remove(pos), solid: self.solid.remove(pos), ..self }
    }

    /// The world with every hex at most `radius` steps from `pos` made
    /// visible (`add`) or hidden again.
    pub open spec fn revealed(self, pos: Hex, radius: int, add: bool) -> LevelView {
        LevelView {
            visible: if add {
                self.visible.union(diamond(pos, radius))
            } else {
                self.visible.difference(diamond(pos, radius))
            },
            ..self
        }
    }

    /// The world after `team` took the control point on `pos`: the tile is
    /// the team's, and the surroundings are visible if the player took it
    /// and hidden if the computer did. Only a control point changes hands:
    /// where `pos` is none, the world is as it was.
    pub open spec fn captured(self, pos: Hex, team: Team) -> LevelView {
        if self.control(pos) {
            LevelView {
                tiles: self.tiles.insert(pos, control_tile(team)),
                solid: self.solid.insert(pos),
                ..self
            }.revealed(pos, CAPTURE_SIGHT as int, team == Team::Player)
        } else {
            self
        }
    }
}

/// The part of the diamond round `pos` that a walk column by column has
/// passed when it stands at the offset `(dx, dy)`.
spec fn swept(pos: Hex, radius: int, dx: int, dy: int) -> Set<Hex> {
    Set::new(
        |h: Hex|
            within(pos, radius, h) && (h.x - pos.x < dx || (h.x - pos.x == dx && h.y - pos.y
                < dy)),
    )
}

/// The number a hex is filed under: its two coordinates, each counted from
/// the least one, side by side.
closed spec fn key(pos: Hex) -> u64 {
    ((pos.x - i32::MIN) * 0x1_0000_0000 + (pos.y - i32::MIN)) as u64
}

/// Two hexes are filed under the same number only if they are the same.
proof fn lemma_key_injective(a: Hex, b: Hex)
    ensures
        key(a) == key(b) <==> a == b,
{
}

/// The number `pos` is filed under.
fn encode(pos: Hex) -> (k: u64)
    ensures
        k == key(pos),
{
    let x: u64 = (pos.x as i64 - i32::MIN as i64) as u64;
    let y: u64 = (pos.y as i64 - i32::MIN as i64) as u64;
    x * 0x1_0000_0000 + y
}

/// The hex that is filed under `k`.
fn decode(k: u64) -> (pos: Hex)
    ensures
        key(pos) == k,
{
    let x: i64 = (k / 0x1_0000_0000) as i64 + i32::MIN as i64;
    let y: i64 = (k % 0x1_0000_0000) as i64 + i32::MIN as i64;
    Hex { x: x as i32, y: y as i32 }
}

/// Whether `h` is one of `hexes`.
pub fn holds(hexes: &[Hex], h: &Hex) -> (found: bool)
    ensures
        found == hexes@.contains(*h),
{
    let mut i: usize = 0;
    while i < hexes.len()
        invariant
            i <= hexes.len(),
            forall|j: int| 0 <= j < i ==> hexes@[j] != *h,
        decreases hexes.len() - i,
    {
        if hexes[i] == *h {
            return true;
        }
        i += 1;
    }
    false
}

/// The keys of `map`, each once, in the order the map hands them out.
fn keys_of(map: &HashMap<u64, Tile>) -> (keys: Vec<u64>)
    ensures
        keys@.no_duplicates(),
        keys@.to_set() == map@.dom(),
{
    broadcast use vstd::std_specs::hash::axiom_spec_keys_iter;

    let ghost all: Seq<u64> = map.keys().remaining().unref();
    let mut keys: Vec<u64> = Vec::new();
    for k in it: map.keys()
        invariant
            it.seq().unref() == all,
            keys@ == all.take(it.index()),
    {
        keys.push(*k);
    }
    proof {
        assert(keys@ =~= all);
    }
    keys
}

/// The members of `set`, each once, in the order the set hands them out.
fn members_of(set: &HashSet<u64>) -> (members: Vec<u64>)
    ensures
        members@.no_duplicates(),
        members@.to_set() == set@,
{
    broadcast use vstd::std_specs::hash::axiom_spec_hash_keys_iter;

    let ghost all: Seq<u64> = set.iter().remaining().unref();
    let mut members: Vec<u64> = Vec::new();
    for k in it: set.iter()
        invariant
            it.seq().unref() == all,
            members@ == all.take(it.index()),
    {
        members.push(*k);
    }
    proof {
        assert(members@ =~= all);
    }
    members
}

/// As many members of a sequence without duplicates meet `p` as members of
/// the set of its members do.
proof fn lemma_count(s: Seq<Hex>, p: spec_fn(Hex) -> bool)
    requires
        s.no_duplicates(),
    ensures
        s.filter(p).len() == s.to_set().filter(p).len(),
        s.to_set().finite(),
    decreases s.len(),
{
    broadcast use vstd::set::group_set_axioms;

    if s.len() == 0 {
        assert(s.to_set().filter(p) =~= Set::empty());
        assert(s.filter(p) =~= Seq::empty()) by {
            reveal(Seq::filter);
        }
    } else {
        let t = s.drop_last();
        let x = s.last();
        assert(s =~= t.push(x));
        lemma_count(t, p);
        t.lemma_filter_push(x, p);
        assert(!t.to_set().contains(x));
        assert(s.to_set() =~= t.to_set().insert(x));
        if p(x) {
            assert(s.to_set().filter(p) =~= t.to_set().filter(p).insert(x));
        } else {
            assert(s.to_set().filter(p) =~= t.to_set().filter(p));
        }
    }
}

/// The world. Tiles, visible hexes and solid hexes are each filed under
/// the number of their hex.
pub struct Level {
    root: HashMap<u64, Tile>,
    visible: HashSet<u64>,
    solid: HashSet<u64>,
}

impl Level {
    /// The world as the rules see it.
    pub closed spec fn view(&self) -> LevelView {
        LevelView {
            tiles: Map::new(
                |h: Hex| self.root@.contains_key(key(h)),
                |h: Hex| self.root@[key(h)],
            ),
            visible: Set::new(|h: Hex| self.visible@.contains(key(h))),
            solid: Set::new(|h: Hex| self.solid@.contains(key(h))),
        }
    }

    /// The world is well formed as the rules see it.
    pub open spec fn wf(&self) -> bool {
        self@.wf()
    }

    /// Whether a tile stands on `pos`, that is, whether `pos` is not open.
    pub fn get(&self, pos: &Hex) -> (taken: bool)
        ensures
            taken == !self@.open(*pos),
    {
        self.root.contains_key(&encode(*pos))
    }

    /// The tile on `pos`, if there is one.
    pub fn tile(&self, pos: &Hex) -> (tile: Option<Tile>)
        ensures
            tile == (if self@.tiles.contains_key(*pos) {
                Some(self@.tiles[*pos])
            } else {
                None
            }),
    {
        match self.root.get(&encode(*pos)) {
            Some(t) => Some(*t),
            None => None,
        }
    }

    /// A world without tiles, of which nothing is seen.
    pub(crate) fn blank() -> (level: Level)
        ensures
            level@.tiles == Map::<Hex, Tile>::empty(),
            level@.visible == Set::<Hex>::empty(),
            level@.solid == Set::<Hex>::empty(),
            level.wf(),
    {
        let level = Level { root: HashMap::new(), visible: HashSet::new(), solid: HashSet::new() };
        proof {
            assert(level@.tiles =~= Map::<Hex, Tile>::empty());
            assert(level@.visible =~= Set::<Hex>::empty());
            assert(level@.solid =~= Set::<Hex>::empty());
        }
        level
    }

    /// Puts `tile` on `pos`.
    pub(crate) fn put(&mut self, pos: Hex, tile: Tile)
        requires
            old(self).wf(),
        ensures
            final(self)@ == old(self)@.with_tile(pos, tile),
            final(self).wf(),
    {
        let k = encode(pos);
        self.root.insert(k, tile);
        if tile.kind != TileType::Water {
            self.solid.insert(k);
        } else {
            self.solid.remove(&k);
        }
        proof {
            assert forall|h: Hex| key(h) == k <==> h == pos by {
                lemma_key_injective(h, pos);
            }
            assert(self@.tiles =~= old(self)@.tiles.insert(pos, tile));
            assert(self@.solid =~= old(self)@.with_tile(pos, tile).solid);
            assert(self@.visible =~= old(self)@.visible);
        }
    }

    /// Puts a wall on `pos`.
    pub fn set(&mut self, pos: &Hex)
        requires
            old(self).wf(),
        ensures
            final(self)@ == old(self)@.walled(*pos),
            final(self).wf(),
    {
        let k = encode(*pos);
        self.root.insert(
            k,
            Tile { kind: TileType::Wall, fill_color: Paint::Wall, border_color: Paint::WallBorder },
        );
        self.solid.insert(k);
        proof {
            assert forall|h: Hex| key(h) == k <==> h == *pos by {
                lemma_key_injective(h, *pos);
            }
            assert(self@.tiles =~= old(self)@.tiles.insert(*pos, wall_tile()));
            assert(self@.solid =~= old(self)@.solid.insert(*pos));
            assert(self@.visible =~= old(self)@.visible);
        }
    }

    /// Removes whatever stands on `pos`.
    pub fn delete(&mut self, pos: &Hex)
        requires
            old(self).wf(),
        ensures
            final(self)@ == old(self)@.cleared(*pos),
            final(self).wf(),
    {
        let k = encode(*pos);
        self.root.remove(&k);
        self.solid.remove(&k);
        proof {
            assert forall|h: Hex| key(h) == k <==> h == *pos by {
                lemma_key_injective(h, *pos);
            }
            assert(self@.tiles =~= old(self)@.tiles.remove(*pos));
            assert(self@.solid =~= old(self)@.solid.remove(*pos));
            assert(self@.visible =~= old(self)@.visible);
        }
    }

    /// Shows (`add`) or hides every hex at most `distance` steps from `pos`.
    pub fn visible(&mut self, pos: Hex, distance: i32, add: bool)
        requires
            old(self).wf(),
        ensures
            final(self)@ == old(self)@.revealed(pos, distance as int, add),
            final(self).wf(),
    {
        let r: i64 = distance as i64;
        let mut dx: i64 = -r;
        while dx <= r
            invariant
                r == distance,
                -r <= dx,
                dx <= r + 1 || r < 0,
                self@.tiles == old(self)@.tiles,
                self@.solid == old(self)@.solid,
                self@.visible == (if add {
                    old(self)@.visible.union(swept(pos, r as int, dx as int, -r as int))
                } else {
                    old(self)@.visible.difference(swept(pos, r as int, dx as int, -r as int))
                }),
            decreases r + 1 - dx,
        {
            let mut dy: i64 = -r;
            while dy <= r
                invariant
                    r == distance,
                    -r <= dx <= r,
                    -r <= dy <= r + 1,
                    self@.tiles == old(self)@.tiles,
                    self@.solid == old(self)@.solid,
                    self@.visible == (if add {
                        old(self)@.visible.union(swept(pos, r as int, dx as int, dy as int))
                    } else {
                        old(self)@.visible.difference(swept(pos, r as int, dx as int, dy as int))
                    }),
                decreases r + 1 - dy,
            {
                let ghost before = self@;
                let sum: i64 = dx + dy;
                if -r <= sum && sum <= r {
                    if let Some(h) = shift(pos, dx, dy) {
                        let k = encode(h);
                        if add {
                            self.visible.insert(k);
                        } else {
                            self.visible.remove(&k);
                        }
                        proof {
                            assert(self@.visible =~= if add {
                                before.visible.insert(h)
                            } else {
                                before.visible.remove(h)
                            });
                        }
                    }
                }
                dy += 1;
            }
            dx += 1;
        }
    }

    /// Gives the control point on `pos` to `team`, and shows the
    /// surroundings to the player if the player took it, or hides them.
    /// Where `pos` is no control point nothing happens.
    pub fn capture(&mut self, pos: &Hex, team: &Team)
        requires
            old(self).wf(),
        ensures
            final(self)@ == old(self)@.captured(*pos, *team),
            final(self).wf(),
    {
        let k = encode(*pos);
        let mut held = false;
        if let Some(t) = self.root.get(&k) {
            if let TileType::Control(_) = t.kind {
                held = true;
            }
        }
        if !held {
            return ;
        }
        let tile = match team {
            Team::Player => Tile {
                kind: TileType::Control(Some(Team::Player)),
                fill_color: Paint::Player,
                border_color: Paint::PlayerBorder,
            },
            Team::Computer => Tile {
                kind: TileType::Control(Some(Team::Computer)),
                fill_color: Paint::Enemy,
                border_color: Paint::EnemyBorder,
            },
        };
        self.root.insert(k, tile);
        self.solid.insert(k);
        proof {
            assert forall|h: Hex| key(h) == k <==> h == *pos by {
                lemma_key_injective(h, *pos);
            }
            assert(self@.tiles =~= old(self)@.tiles.insert(*pos, control_tile(*team)));
            assert(self@.solid =~= old(self)@.solid.insert(*pos));
            assert(self@.visible =~= old(self)@.visible);
        }
        self.visible(*pos, CAPTURE_SIGHT, *team == Team::Player);
    }

    /// Whether the player sees `pos`.
    pub fn is_visible(&self, pos: &Hex) -> (seen: bool)
        ensures
            seen == self@.visible.contains(*pos),
    {
        self.visible.contains(&encode(*pos))
    }

    /// Whether a shot is stopped on `pos`.
    pub fn is_solid(&self, pos: &Hex) -> (blocked: bool)
        ensures
            blocked == self@.solid.contains(*pos),
    {
        self.solid.contains(&encode(*pos))
    }

    /// Whether `pos` is a control point that `team` does not hold yet.
    pub fn is_capturable(&self, pos: &Hex, team: &Team) -> (free: bool)
        ensures
            free == self@.capturable(*pos, *team),
    {
        match self.root.get(&encode(*pos)) {
            Some(t) => t.kind == TileType::Control(None) || t.kind == TileType::Control(
                Some(invert_team(team)),
            ),
            None => false,
        }
    }

    /// Whether a wall stands on `pos`.
    pub fn wall(&self, pos: &Hex) -> (walled: bool)
        ensures
            walled == self@.wall(*pos),
    {
        match self.root.get(&encode(*pos)) {
            Some(t) => t.kind == TileType::Wall,
            None => false,
        }
    }

    /// Whether `pos` lies on the generated map.
    pub fn range(pos: &Hex) -> (inside: bool)
        ensures
            inside == in_range(*pos),
    {
        -LEVEL_SIZE <= pos.y && pos.y < LEVEL_SIZE && -LEVEL_SIZE <= pos.x && pos.x < LEVEL_SIZE
    }

    /// The hexes adjacent to `pos`, in the order of the directions.
    pub fn neighbours(pos: &Hex) -> (around: Vec<Hex>)
        ensures
            around@ == neighbours(*pos),
    {
        let mut around: Vec<Hex> = Vec::new();
        let mut i: usize = 0;
        while i < 6
            invariant
                i <= 6,
                around@ == ring(*pos, i as nat),
            decreases 6 - i,
        {
            let d = step(i);
            if let Some(h) = shift(*pos, d.0 as i64, d.1 as i64) {
                around.push(h);
            }
            i += 1;
        }
        around
    }

    /// The hexes a walker can step on from `pos`, each with the cost of
    /// the step, which is one.
    pub fn steps(&self, units: &[Hex], pos: &Hex) -> (next: Vec<(Hex, u64)>)
        ensures
            next@.len() == neighbours(*pos).filter(|h: Hex| self@.passable(units@, h)).len(),
            forall|i: int|
                0 <= i < next@.len() ==> (#[trigger] next@[i]).1 == 1 && next@[i].0 == neighbours(
                    *pos,
                ).filter(|h: Hex| self@.passable(units@, h))[i],
    {
        let around = Level::neighbours(pos);
        let ghost ok = |h: Hex| self@.passable(units@, h);
        let mut next: Vec<(Hex, u64)> = Vec::new();
        let mut i: usize = 0;
        while i < around.len()
            invariant
                i <= around.len(),
                ok == (|h: Hex| self@.passable(units@, h)),
                next@.len() == around@.take(i as int).filter(ok).len(),
                forall|j: int|
                    0 <= j < next@.len() ==> (#[trigger] next@[j]).1 == 1 && next@[j].0
                        == around@.take(i as int).filter(ok)[j],
            decreases around.len() - i,
        {
            let h = around[i];
            proof {
                assert(around@.take(i + 1) =~= around@.take(i as int).push(h));
                around@.take(i as int).lemma_filter_push(h, ok);
            }
            if Level::range(&h) && !self.get(&h) && !holds(units, &h) {
                next.push((h, 1));
            }
            i += 1;
        }
        proof {
            assert(around@.take(i as int) =~= around@);
        }
        next
    }

    /// A guess of the number of steps from `pos` to `goal` that is never
    /// too high: half their distance.
    pub fn estimate(pos: &Hex, goal: &Hex) -> (guess: u64)
        ensures
            guess == distance(*pos, *goal) / 2,
    {
        Level::distance(pos, goal) / 2
    }

    /// Whether a walk that stands on `pos` has reached `goal`.
    pub fn arrived(pos: &Hex, goal: &Hex) -> (there: bool)
        ensures
            there == (*pos == *goal),
    {
        *pos == *goal
    }

    /// A shortest walk from `start` to `goal` over open hexes of the
    /// generated map on which none of `units` stands. Where a tile stands
    /// on `goal`, the walk leads to a neighbour of `goal` instead: the open
    /// neighbours are tried in the order of the directions, and the walk to
    /// the first that can be reached is taken. The walk begins with
    /// `start`, whatever stands there. It is empty where there is no such
    /// walk.
    pub fn find_path(&self, units: &[Hex], start: Hex, goal: Hex) -> (path: Vec<Hex>)
        requires
            self.wf(),
        ensures
            path@ == self@.path_to(units@, start, goal),
            self@.leads(units@, path@, start, goal),
    {
        if !self.get(&goal) {
            return match search(self, units, start, goal) {
                Some(path) => path,
                None => Vec::new(),
            };
        }
        let around = Level::neighbours(&goal);
        let mut i: usize = 0;
        while i < around.len()
            invariant
                i <= around.len(),
                around@ == neighbours(goal),
                !self@.open(goal),
                self@.first_walk(units@, start, around@, i as nat).len() == 0,
                forall|j: int|
                    0 <= j < i && self@.open(#[trigger] around@[j]) ==> self@.shortest(
                        units@,
                        Seq::empty(),
                        start,
                        around@[j],
                    ),
            decreases around.len() - i,
        {
            let h = around[i];
            if !self.get(&h) {
                if let Some(path) = search(self, units, start, h) {
                    proof {
                        assert(path@.len() > 0);
                        assert(self@.walk(units@, start, h) == path@);
                        assert(self@.first_walk(units@, start, around@, (i + 1) as nat) == path@);
                        self@.lemma_first_walk_stays(
                            units@,
                            start,
                            around@,
                            (i + 1) as nat,
                            around@.len(),
                        );
                        assert(self@.open(around@[i as int]));
                        assert(self@.shortest(units@, path@, start, around@[i as int]));
                        assert(!self@.open(goal));
                        assert(self@.path_to(units@, start, goal) == self@.first_walk(
                            units@,
                            start,
                            around@,
                            around@.len(),
                        ));
                        assert(self@.leads(units@, path@, start, goal));
                    }
                    return path;
                }
                assert(self@.shortest(units@, Seq::empty(), start, h));
            }
            i += 1;
        }
        Vec::new()
    }

    /// The control points, each once, in no particular order.
    pub fn find_captures(&self) -> (points: Vec<Hex>)
        ensures
            points@.no_duplicates(),
            points@.to_set() == self@.controls(),
    {
        let keys = keys_of(&self.root);
        let mut points: Vec<Hex> = Vec::new();
        let mut i: usize = 0;
        while i < keys.len()
            invariant
                i <= keys.len(),
                keys@.no_duplicates(),
                keys@.to_set() == self.root@.dom(),
                points@.no_duplicates(),
                forall|h: Hex|
                    points@.contains(h) <==> (keys@.take(i as int).contains(#[trigger] key(h))
                        && self@.control(h)),
            decreases keys.len() - i,
        {
            let k = keys[i];
            let h = decode(k);
            let ghost before = points@;
            let mut found = false;
            if let Some(t) = self.root.get(&k) {
                if let TileType::Control(_) = t.kind {
                    found = true;
                }
            }
            if found {
                proof {
                    if before.contains(h) {
                        let head = keys@.take(i as int);
                    }
                }
                points.push(h);
            }
            proof {
                let head = keys@.take(i as int);
                let more = keys@.take(i + 1);
                assert forall|g: Hex|
                    points@.contains(g) <==> (more.contains(#[trigger] key(g)) && self@.control(
                        g,
                    )) by {
                    lemma_key_injective(g, h);
                    if found {
                        if g == h {
                            assert(points@[before.len() as int] == h);
                            assert(more[i as int] == k);
                        }
                        if before.contains(g) {
                            let j = choose|j: int| 0 <= j < before.len() && before[j] == g;
                            assert(points@[j] == g);
                        }
                    }
                }
            }
            i += 1;
        }
        proof {
            assert(keys@.take(i as int) =~= keys@);
        }
        points
    }

    /// The part of the control points that the player holds, in percent.
    pub fn control_player(&self) -> (percent: u8)
        ensures
            percent == self@.share(Team::Player),
            percent <= 100,
    {
        let points = self.find_captures();
        let ghost ours = |h: Hex|
            self@.tiles.contains_key(h) && self@.tiles[h].kind == TileType::Control(
                Some(Team::Player),
            );
        let mut count: usize = 0;
        let mut i: usize = 0;
        while i < points.len()
            invariant
                i <= points.len(),
                count <= i,
                ours == (|h: Hex|
                    self@.tiles.contains_key(h) && self@.tiles[h].kind == TileType::Control(
                        Some(Team::Player),
                    )),
                count == points@.take(i as int).filter(ours).len(),
            decreases points.len() - i,
        {
            let h = points[i];
            proof {
                assert(points@.take(i + 1) =~= points@.take(i as int).push(h));
                points@.take(i as int).lemma_filter_push(h, ours);
            }
            let mut mine = false;
            if let Some(t) = self.root.get(&encode(h)) {
                if t.kind == TileType::Control(Some(Team::Player)) {
                    mine = true;
                }
            }
            if mine {
                count += 1;
            }
            i += 1;
        }
        proof {
            assert(points@.take(i as int) =~= points@);
            lemma_count(points@, ours);
            points@.unique_seq_to_set();
            assert(self@.controls().filter(ours) =~= self@.held(Team::Player));
        }
        if points.len() == 0 {
            0
        } else {
            let part: u128 = count as u128 * 100 / (points.len() as u128);
            assert(part <= 100) by (nonlinear_arith)
                requires
                    part == (count * 100) / (points.len() as int),
                    count <= points.len(),
                    points.len() > 0,
            {
            }
            part as u8
        }
    }

    /// The hexes the player sees, each once, in no particular order.
    pub fn visible_hexes(&self) -> (seen: Vec<Hex>)
        ensures
            seen@.no_duplicates(),
            seen@.to_set() == self@.visible,
    {
        let members = members_of(&self.visible);
        let mut seen: Vec<Hex> = Vec::new();
        let mut i: usize = 0;
        while i < members.len()
            invariant
                i <= members.len(),
                members@.no_duplicates(),
                seen@.len() == i,
                forall|j: int| 0 <= j < i ==> key(#[trigger] seen@[j]) == members@[j],
            decreases members.len() - i,
        {
            seen.push(decode(members[i]));
            i += 1;
        }
        proof {
            assert forall|h: Hex| seen@.to_set().contains(h) <==> self@.visible.contains(h) by {
                if self@.visible.contains(h) {
                    let j = choose|j: int| 0 <= j < members@.len() && members@[j] == key(h);
                    lemma_key_injective(seen@[j], h);
                }
            }
        }
        seen
    }

    /// Whether a shot from `start` reaches `end`.
    pub fn can_shot(&self, start: &Hex, end: &Hex) -> (clear: bool)
        ensures
            clear == self@.clear_shot(*start, *end),
    {
        let n: u64 = SAMPLES * Level::distance(start, end);
        let mut k: u64 = 0;
        while k <= n
            invariant
                n == SAMPLES * distance(*start, *end),
                k <= n + 1,
                n < u64::MAX,
                forall|j: int|
                    0 <= j < k ==> !self@.solid.contains(#[trigger] sample(*start, *end, j)),
            decreases n + 1 - k,
        {
            let h = along(start, end, k);
            if self.is_solid(&h) {
                return false;
            }
            k += 1;
        }
        true
    }

    /// The distance between `a` and `b`, in steps on the grid.
    pub fn distance(a: &Hex, b: &Hex) -> (d: u64)
        ensures
            d == distance(*a, *b),
    {
        let dx: i64 = a.x as i64 - b.x as i64;
        let dy: i64 = a.y as i64 - b.y as i64;
        let sum: i64 = dx + dy;
        let ax: u64 = if dx < 0 { (-dx) as u64 } else { dx as u64 };
        let ay: u64 = if dy < 0 { (-dy) as u64 } else { dy as u64 };
        let both: u64 = if sum < 0 { (-sum) as u64 } else { sum as u64 };
        if ax >= ay && ax >= both {
            ax
        } else if ay >= both {
            ay
        } else {
            both
        }
    }
}

impl LevelView {
    /// A control point that a team has taken can be taken by the other
    /// team, and not by the team that holds it.
    pub proof fn lemma_capture_flips(self, pos: Hex, team: Team)
        requires
            self.control(pos),
        ensures
            self.captured(pos, team).capturable(pos, opponent(team)),
            !self.captured(pos, team).capturable(pos, team),
            self.captured(pos, team).control(pos),
    {
    }

    /// A wall built on an open hex and torn down again leaves the world as
    /// it was: the hex is open, and nothing blocks a shot there.
    pub proof fn lemma_wall_round_trip(self, pos: Hex)
        requires
            self.wf(),
            self.open(pos),
        ensures
            self.walled(pos).wall(pos),
            self.walled(pos).solid.contains(pos),
            self.walled(pos).cleared(pos) == self,
            self.walled(pos).cleared(pos).open(pos),
            !self.walled(pos).cleared(pos).solid.contains(pos),
    {
        let back = self.walled(pos).cleared(pos);
    }

    /// Every step of a walk goes in one of the six directions, and no hex
    /// of it after the first holds a tile or a unit.
    pub proof fn lemma_route_steps(
        self,
        units: Seq<Hex>,
        path: Seq<Hex>,
        start: Hex,
        end: Hex,
        i: int,
    )
        requires
            self.route(units, path, start, end),
            0 < i < path.len(),
        ensures
            exists|d: int|
                0 <= d < 6 && #[trigger] direction(d) == (
                    path[i].x - path[i - 1].x,
                    path[i].y - path[i - 1].y,
                ),
            !self.tiles.contains_key(path[i]),
            !units.contains(path[i]),
            in_range(path[i]),
    {
    }

    /// A walk towards a goal is empty if and only if no walk leads there:
    /// to the goal itself where it is open, and else to any open neighbour
    /// of it.
    pub proof fn lemma_leads_empty(self, units: Seq<Hex>, path: Seq<Hex>, start: Hex, goal: Hex)
        requires
            self.leads(units, path, start, goal),
        ensures
            self.open(goal) ==> (path.len() == 0 <==> forall|q: Seq<Hex>|
                !#[trigger] self.route(units, q, start, goal)),
            !self.open(goal) ==> (path.len() == 0 <==> forall|i: int, q: Seq<Hex>|
                0 <= i < neighbours(goal).len() && self.open(neighbours(goal)[i])
                    ==> !#[trigger] self.route(units, q, start, neighbours(goal)[i])),
    {
        let around = neighbours(goal);
        if !self.open(goal) {
            if path.len() == 0 {
                assert forall|i: int, q: Seq<Hex>|
                    0 <= i < around.len() && self.open(
                        around[i],
                    ) implies !#[trigger] self.route(units, q, start, around[i]) by {
                    assert(self.shortest(units, Seq::empty(), start, around[i]));
                }
            } else {
                let i = choose|i: int|
                    {
                        &&& 0 <= i < around.len()
                        &&& self.open(#[trigger] around[i])
                        &&& self.shortest(units, path, start, around[i])
                    };
                assert(self.route(units, path, start, around[i]));
            }
        }
    }

    /// Once a walk is found to one of the first `n`, looking at more of
    /// them finds the same one.
    pub proof fn lemma_first_walk_stays(
        self,
        units: Seq<Hex>,
        start: Hex,
        hexes: Seq<Hex>,
        n: nat,
        m: nat,
    )
        requires
            n <= m <= hexes.len(),
            self.first_walk(units, start, hexes, n).len() > 0,
        ensures
            self.first_walk(units, start, hexes, m) == self.first_walk(units, start, hexes, n),
        decreases m,
    {
        if m > n {
            self.lemma_first_walk_stays(units, start, hexes, n, (m - 1) as nat);
        }
    }

    /// The distance never overrates a walk, and so half of it does not:
    /// every walk from `start` to `end` takes at least as many steps as
    /// the two are apart.
    pub proof fn lemma_estimate_admissible(
        self,
        units: Seq<Hex>,
        path: Seq<Hex>,
        start: Hex,
        end: Hex,
    )
        requires
            self.route(units, path, start, end),
        ensures
            distance(start, end) <= path.len() - 1,
            distance(start, end) / 2 <= path.len() - 1,
        decreases path.len(),
    {
        if path.len() > 1 {
            let rest = path.subrange(1, path.len() as int);
            assert forall|i: int| 0 < i < rest.len() implies adjacent(
                rest[i - 1],
                #[trigger] rest[i],
            ) && self.passable(units, rest[i]) by {
                assert(rest[i] == path[i + 1]);
                assert(rest[i - 1] == path[i]);
            }
            self.lemma_estimate_admissible(units, rest, path[1], end);
            assert(adjacent(path[0], path[1]));
            lemma_distance(end, path[1], path[0]);
            lemma_distance(path[1], path[0], path[0]);
            lemma_distance(end, path[1], end);
            lemma_distance(end, path[0], end);
            lemma_distance(path[0], path[1], end);
        }
    }
}

/// The walk that the search of `pathfinding` comes back with, in the world
/// `level`, round `units`, from `start` to `end`. Which of several
/// shortest walks that is, is the business of the search; it is the same
/// one whenever it is asked the same.
pub uninterp spec fn found_route(level: LevelView, units: Seq<Hex>, start: Hex, end: Hex) -> Option<
    Seq<Hex>,
>;

/// Searches a shortest walk with `pathfinding::directed::astar::astar`. The
/// search starts at `start`, follows `Level::steps`, is guided by
/// `Level::estimate` and ends on the hex that `Level::arrived` accepts, that
/// is on `end`. Every step costs one, and the guess is never too high
/// (`lemma_estimate_admissible`), so what the search calls a shortest path
/// is a walk of the fewest hexes. It returns the walk with both its ends,
/// and `None` where no walk leads to `end`. The search keeps no state and
/// draws nothing at random, so its answer is `found_route` of what it is
/// asked.
#[verifier::external_body]
fn search(level: &Level, units: &[Hex], start: Hex, end: Hex) -> (found: Option<Vec<Hex>>)
    ensures
        match found {
            Some(path) => {
                &&& found_route(level@, units@, start, end) == Some(path@)
                &&& level@.route(units@, path@, start, end)
                &&& forall|q: Seq<Hex>| #[trigger]
                    level@.route(units@, q, start, end) ==> path@.len() <= q.len()
            },
            None => {
                &&& found_route(level@, units@, start, end) is None
                &&& forall|q: Seq<Hex>| !#[trigger] level@.route(units@, q, start, end)
            },
        },
{
    astar(
        &start,
        |pos| level.steps(units, pos),
        |pos| Level::estimate(pos, &end),
        |pos| Level::arrived(pos, &end),
    ).map(|found| found.0)
}

} // verus!
