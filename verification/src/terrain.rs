//! How a world is generated: the ground from the heights handed over,
//! walls and the shades of water by chance, and control points drawn at
//! random that keep their distance from each other.

use vstd::prelude::*;
use crate::dice::{reseed, roll};
use crate::grid::{distance, in_range, LEVEL_SIZE};
use crate::level::{wall_tile, Level, LevelView};
use crate::structs::{Hex, Paint, Tile, TileType};

verus! {

/// The number of control points a generated map has.
pub const CONTROLS: usize = 10;

/// The least distance between two control points of a generated map.
pub const SPACING: u64 = 35;

/// Control points are placed on coordinates from `-SPREAD` up to, but not
/// including, `SPREAD`.
pub const SPREAD: i32 = 50;

/// Round a new control point the map is cleared this far down, and one
/// less up, on both axes.
pub const CLEARANCE: i32 = 10;

/// Of a thousand hexes of plain ground, this many get a wall.
pub const BUILDING_CHANCE: i32 = 25;

/// How many places are tried for one control point before generation
/// gives up.
pub const ATTEMPTS: u32 = 10_000;

/// The number of hexes of the generated map, and of heights it is made
/// from.
pub const CELLS: usize = 40_000;

/// Why no map was generated.
#[derive(Clone, Copy, Debug, PartialEq, Eq, Structural)]
pub enum GenerationError {
    /// The heights handed over are not one for each hex of the map.
    HeightField,
    /// No place far enough from the other control points was found for
    /// one of them.
    Placement,
}

/// The kind of ground a height stands for.
#[derive(Clone, Copy, Debug, PartialEq, Eq, Structural)]
pub enum Ground {
    Water,
    HillLow,
    HillMedium,
    HillHigh,
    Plain,
}

/// The ground of a height given in millionths: water up to -0.5, low
/// hills from 0.4 to 0.6, medium hills above that up to 0.8, high hills
/// above 0.8, and plain ground between water and hills.
pub open spec fn ground(height: i32) -> Ground {
    if height <= -500_000 {
        Ground::Water
    } else if 400_000 <= height <= 600_000 {
        Ground::HillLow
    } else if 600_000 < height <= 800_000 {
        Ground::HillMedium
    } else if height > 800_000 {
        Ground::HillHigh
    } else {
        Ground::Plain
    }
}

/// The ground of a height given in millionths.
pub fn classify(height: i32) -> (g: Ground)
    ensures
        g == ground(height),
{
    if height <= -500_000 {
        Ground::Water
    } else if 400_000 <= height && height <= 600_000 {
        Ground::HillLow
    } else if 600_000 < height && height <= 800_000 {
        Ground::HillMedium
    } else if height > 800_000 {
        Ground::HillHigh
    } else {
        Ground::Plain
    }
}

/// The tile of water in the shade that was drawn.
pub open spec fn water_tile(shade: int) -> Tile {
    Tile {
        kind: TileType::Water,
        fill_color: if shade == 0 {
            Paint::Water
        } else if shade == 1 {
            Paint::WaterAlt1
        } else {
            Paint::WaterAlt2
        },
        border_color: Paint::WaterBorder,
    }
}

/// The tile of a hill of the given height; of a high one where `g` is no
/// hill.
pub open spec fn hill_tile(g: Ground) -> Tile {
    match g {
        Ground::HillLow => Tile {
            kind: TileType::Mountain,
            fill_color: Paint::HillLow,
            border_color: Paint::HillLowBorder,
        },
        Ground::HillMedium => Tile {
            kind: TileType::Mountain,
            fill_color: Paint::HillMedium,
            border_color: Paint::HillMediumBorder,
        },
        _ => Tile {
            kind: TileType::Mountain,
            fill_color: Paint::HillHigh,
            border_color: Paint::HillHighBorder,
        },
    }
}

/// The tile of a control point that nobody holds.
pub open spec fn free_tile() -> Tile {
    Tile {
        kind: TileType::Control(None),
        fill_color: Paint::CaptureUnoccupied,
        border_color: Paint::CaptureUnoccupiedBorder,
    }
}

/// What generation puts on a hex of ground `g` after the draw `drawn`:
/// on water the draw picks the shade, on plain ground it decides whether
/// a wall is built.
pub open spec fn spec_terrain(g: Ground, drawn: i32) -> Option<Tile> {
    match g {
        Ground::Water => Some(water_tile(drawn as int)),
        Ground::Plain => if drawn <= BUILDING_CHANCE {
            Some(wall_tile())
        } else {
            None
        },
        _ => Some(hill_tile(g)),
    }
}

/// What generation puts on a hex of ground `g` after the draw `drawn`.
#[verifier::when_used_as_spec(spec_terrain)]
pub fn terrain(g: Ground, drawn: i32) -> (tile: Option<Tile>)
    ensures
        tile == spec_terrain(g, drawn),
{
    match g {
        Ground::Water => Some(
            Tile {
                kind: TileType::Water,
                fill_color: if drawn == 0 {
                    Paint::Water
                } else if drawn == 1 {
                    Paint::WaterAlt1
                } else {
                    Paint::WaterAlt2
                },
                border_color: Paint::WaterBorder,
            },
        ),
        Ground::HillLow => Some(
            Tile {
                kind: TileType::Mountain,
                fill_color: Paint::HillLow,
                border_color: Paint::HillLowBorder,
            },
        ),
        Ground::HillMedium => Some(
            Tile {
                kind: TileType::Mountain,
                fill_color: Paint::HillMedium,
                border_color: Paint::HillMediumBorder,
            },
        ),
        Ground::HillHigh => Some(
            Tile {
                kind: TileType::Mountain,
                fill_color: Paint::HillHigh,
                border_color: Paint::HillHighBorder,
            },
        ),
        Ground::Plain => if drawn <= BUILDING_CHANCE {
            Some(
                Tile {
                    kind: TileType::Wall,
                    fill_color: Paint::Wall,
                    border_color: Paint::WallBorder,
                },
            )
        } else {
            None
        },
    }
}

/// What generation may leave on a hex of ground `g`, whatever is drawn.
pub open spec fn fits(g: Ground, tile: Option<Tile>) -> bool {
    exists|drawn: i32| tile == #[trigger] spec_terrain(g, drawn)
}

/// The place of the height of `h` among the heights a map is made from:
/// column after column, each from the least `y` up.
pub open spec fn cell(h: Hex) -> int {
    (h.x + LEVEL_SIZE) * (2 * LEVEL_SIZE) + (h.y + LEVEL_SIZE)
}

/// `h` lies in the square that is cleared round a control point on `c`.
pub open spec fn cleared_by(c: Hex, h: Hex) -> bool {
    &&& c.x - CLEARANCE <= h.x < c.x + CLEARANCE
    &&& c.y - CLEARANCE <= h.y < c.y + CLEARANCE
}

/// `candidate` keeps the distance that control points must have from
/// every one of `points`.
pub open spec fn spec_far_enough(points: Seq<Hex>, candidate: Hex) -> bool {
    forall|i: int| 0 <= i < points.len() ==> distance(candidate, #[trigger] points[i]) >= SPACING
}

/// The number of shades water comes in.
pub const SHADES: i32 = 3;

/// The number of chances of which `BUILDING_CHANCE` give a wall.
pub const ODDS: i32 = 1000;

/// The bounds of the draw that generation makes for a hex of ground `g`,
/// the lower one included and the upper one not: a shade for water, one
/// chance of `ODDS` for plain ground, and no draw for hills.
pub open spec fn spec_draw_for(g: Ground) -> Option<(i32, i32)> {
    match g {
        Ground::Water => Some((0, SHADES)),
        Ground::Plain => Some((1, (ODDS + 1) as i32)),
        _ => None,
    }
}

#[verifier::when_used_as_spec(spec_draw_for)]
pub fn draw_for(g: Ground) -> (bounds: Option<(i32, i32)>)
    ensures
        bounds == spec_draw_for(g),
{
    match g {
        Ground::Water => Some((0, SHADES)),
        Ground::Plain => Some((1, ODDS + 1)),
        _ => None,
    }
}

/// The bounds of the draws for each coordinate of the place of a control
/// point, the lower one included and the upper one not.
pub fn place_span() -> (bounds: (i32, i32))
    ensures
        bounds.0 == -SPREAD,
        bounds.1 == SPREAD,
{
    (-SPREAD, SPREAD)
}

/// What a try for the place of a control point came to.
#[derive(Clone, Copy, Debug, PartialEq, Eq, Structural)]
pub enum Trial {
    /// The place is far enough from the control points placed before.
    Found(Hex),
    /// It is not, and another place is drawn.
    Again,
    /// It is not, and it was the last try.
    GiveUp,
}

/// What the try number `tries`, counted from none, comes to when the
/// place `c` is drawn: the place is taken if it is far enough from
/// `points`; else another is drawn, unless this was the last of
/// `ATTEMPTS` tries.
pub open spec fn spec_tried(points: Seq<Hex>, tries: u32, c: Hex) -> Trial {
    if spec_far_enough(points, c) {
        Trial::Found(c)
    } else if tries + 1 < ATTEMPTS {
        Trial::Again
    } else {
        Trial::GiveUp
    }
}

/// What the try number `tries` comes to when the place `c` is drawn.
pub fn tried(points: &[Hex], tries: u32, c: Hex) -> (t: Trial)
    ensures
        t == spec_tried(points@, tries, c),
{
    if far_enough(points, c) {
        Trial::Found(c)
    } else if tries < ATTEMPTS - 1 {
        Trial::Again
    } else {
        Trial::GiveUp
    }
}

/// `h` lies in the square that is cleared round one of `points`.
spec fn cleared_by_any(points: Seq<Hex>, h: Hex) -> bool {
    exists|j: int| 0 <= j < points.len() && cleared_by(#[trigger] points[j], h)
}

/// `h` comes before `(x, y)` where the map is walked column after column.
spec fn passed(h: Hex, x: int, y: int) -> bool {
    h.x < x || (h.x == x && h.y < y)
}

/// What holds of the world while its ground is laid out and the walk has
/// come to `(x, y)`.
spec fn laid(lv: LevelView, heights: Seq<i32>, x: int, y: int) -> bool {
    &&& lv.wf()
    &&& lv.visible == Set::<Hex>::empty()
    &&& forall|h: Hex| #[trigger]
        lv.tiles.contains_key(h) ==> in_range(h) && passed(h, x, y) && !lv.control(h)
    &&& forall|h: Hex|
        in_range(h) && passed(h, x, y) ==> fits(ground(heights[cell(h)]), #[trigger] lv.tile_at(h))
}

/// What holds of the world once the control points `points` are placed.
spec fn placed(lv: LevelView, points: Seq<Hex>, heights: Seq<i32>) -> bool {
    &&& lv.wf()
    &&& lv.visible == Set::<Hex>::empty()
    &&& forall|h: Hex| #[trigger] lv.tiles.contains_key(h) ==> in_range(h)
    &&& forall|h: Hex| #[trigger] lv.control(h) <==> points.contains(h)
    &&& forall|j: int|
        0 <= j < points.len() ==> lv.tiles[#[trigger] points[j]] == free_tile() && -SPREAD
            <= points[j].x < SPREAD && -SPREAD <= points[j].y < SPREAD
    &&& forall|j: int, k: int|
        0 <= j < points.len() && 0 <= k < points.len() && j != k ==> distance(
            #[trigger] points[j],
            #[trigger] points[k],
        ) >= SPACING
    &&& forall|h: Hex|
        in_range(h) && !points.contains(h) ==> if cleared_by_any(points, h) {
            lv.open(h)
        } else {
            fits(ground(heights[cell(h)]), #[trigger] lv.tile_at(h))
        }
}

/// Whether `candidate` keeps the distance that control points must have
/// from every one of `points`.
pub fn far_enough(points: &[Hex], candidate: Hex) -> (far: bool)
    ensures
        far == spec_far_enough(points@, candidate),
{
    let mut i: usize = 0;
    while i < points.len()
        invariant
            i <= points.len(),
            forall|j: int| 0 <= j < i ==> distance(candidate, #[trigger] points@[j]) >= SPACING,
        decreases points.len() - i,
    {
        if Level::distance(&candidate, &points[i]) < SPACING {
            return false;
        }
        i += 1;
    }
    true
}

impl LevelView {
    /// `h` lies in the square that was cleared round one of the control
    /// points.
    pub open spec fn in_clearing(self, h: Hex) -> bool {
        exists|c: Hex| self.control(c) && #[trigger] cleared_by(c, h)
    }

    /// Any two control points keep the distance they must have.
    pub open spec fn spaced(self) -> bool {
        forall|a: Hex, b: Hex|
            #![trigger self.control(a), self.control(b)]
            self.control(a) && self.control(b) && a != b ==> distance(a, b) >= SPACING
    }

    /// The world is one that generation makes from `heights`: nothing is
    /// seen yet; every tile lies on the map; there are `CONTROLS` control
    /// points, one of them on the origin, none held, all in the middle
    /// part of the map and far enough from each other; the square round
    /// each control point is open; and every other hex holds what fits
    /// the ground of its height.
    pub open spec fn generated(self, heights: Seq<i32>) -> bool {
        &&& self.wf()
        &&& self.visible == Set::<Hex>::empty()
        &&& forall|h: Hex| #[trigger] self.tiles.contains_key(h) ==> in_range(h)
        &&& self.controls().finite()
        &&& self.controls().len() == CONTROLS
        &&& self.control(Hex { x: 0, y: 0 })
        &&& forall|c: Hex| #[trigger]
            self.control(c) ==> self.tiles[c] == free_tile() && -SPREAD <= c.x < SPREAD && -SPREAD
                <= c.y < SPREAD
        &&& self.spaced()
        &&& forall|h: Hex|
            in_range(h) && !self.control(h) ==> if self.in_clearing(h) {
                self.open(h)
            } else {
                fits(ground(heights[cell(h)]), #[trigger] self.tile_at(h))
            }
    }

    /// The world with the square round `c` cleared.
    pub open spec fn without_square(self, c: Hex) -> LevelView {
        LevelView {
            tiles: self.tiles.remove_keys(Set::new(|h: Hex| cleared_by(c, h))),
            solid: self.solid.difference(Set::new(|h: Hex| cleared_by(c, h))),
            ..self
        }
    }

    /// A world as generation makes it has its control points far enough
    /// from each other.
    pub proof fn lemma_generated_spaced(self, heights: Seq<i32>, a: Hex, b: Hex)
        requires
            self.generated(heights),
            self.control(a),
            self.control(b),
            a != b,
        ensures
            distance(a, b) >= SPACING,
    {
    }

}

impl Level {
    /// Removes whatever stands in the square round `c`.
    fn clear_square(&mut self, c: Hex)
        requires
            old(self).wf(),
            -SPREAD <= c.x < SPREAD,
            -SPREAD <= c.y < SPREAD,
        ensures
            final(self)@ == old(self)@.without_square(c),
            final(self).wf(),
    {
        let ghost square = Set::new(|h: Hex| cleared_by(c, h));
        let mut x: i32 = c.x - CLEARANCE;
        while x < c.x + CLEARANCE
            invariant
                -SPREAD <= c.x < SPREAD,
                -SPREAD <= c.y < SPREAD,
                c.x - CLEARANCE <= x <= c.x + CLEARANCE,
                square == Set::new(|h: Hex| cleared_by(c, h)),
                self.wf(),
                self@.visible == old(self)@.visible,
                self@.tiles == old(self)@.tiles.remove_keys(
                    Set::new(|h: Hex| cleared_by(c, h) && h.x < x),
                ),
                self@.solid == old(self)@.solid.difference(
                    Set::new(|h: Hex| cleared_by(c, h) && h.x < x),
                ),
            decreases c.x + CLEARANCE - x,
        {
            let mut y: i32 = c.y - CLEARANCE;
            while y < c.y + CLEARANCE
                invariant
                    -SPREAD <= c.x < SPREAD,
                    -SPREAD <= c.y < SPREAD,
                    c.x - CLEARANCE <= x < c.x + CLEARANCE,
                    c.y - CLEARANCE <= y <= c.y + CLEARANCE,
                    self.wf(),
                    self@.visible == old(self)@.visible,
                    self@.tiles == old(self)@.tiles.remove_keys(
                        Set::new(
                            |h: Hex| cleared_by(c, h) && (h.x < x || (h.x == x && h.y < y)),
                        ),
                    ),
                    self@.solid == old(self)@.solid.difference(
                        Set::new(
                            |h: Hex| cleared_by(c, h) && (h.x < x || (h.x == x && h.y < y)),
                        ),
                    ),
                decreases c.y + CLEARANCE - y,
            {
                self.delete(&Hex { x, y });
                y += 1;
            }
            x += 1;
        }
    }

    /// Lays out the ground: on every hex of the map what its height asks
    /// for.
    fn fill(heights: &[i32]) -> (level: Level)
        requires
            heights@.len() == CELLS,
        ensures
            laid(level@, heights@, LEVEL_SIZE as int, -LEVEL_SIZE as int),
    {
        let mut level = Level::blank();
        let mut x: i32 = -LEVEL_SIZE;
        while x < LEVEL_SIZE
            invariant
                heights@.len() == CELLS,
                -LEVEL_SIZE <= x <= LEVEL_SIZE,
                laid(level@, heights@, x as int, -LEVEL_SIZE as int),
            decreases LEVEL_SIZE - x,
        {
            let mut y: i32 = -LEVEL_SIZE;
            while y < LEVEL_SIZE
                invariant
                    heights@.len() == CELLS,
                    -LEVEL_SIZE <= x < LEVEL_SIZE,
                    -LEVEL_SIZE <= y <= LEVEL_SIZE,
                    laid(level@, heights@, x as int, y as int),
                decreases LEVEL_SIZE - y,
            {
                let pos = Hex { x, y };
                let column: i32 = x + LEVEL_SIZE;
                let row: i32 = y + LEVEL_SIZE;
                let at: usize = (column * 200 + row) as usize;
                let g = classify(heights[at]);
                let drawn: i32 = match draw_for(g) {
                    Some((low, high)) => roll(low, high),
                    None => 0,
                };
                let ghost before = level@;
                if let Some(tile) = terrain(g, drawn) {
                    level.put(pos, tile);
                }
                proof {
                    assert forall|h: Hex| in_range(h) && passed(h, x as int, y + 1) implies fits(
                        ground(heights@[cell(h)]),
                        #[trigger] level@.tile_at(h),
                    ) by {
                        if h != pos {
                            assert(level@.tile_at(h) == before.tile_at(h));
                        }
                    }
                }
                y += 1;
            }
            x += 1;
        }
        level
    }

    /// Draws a place for the next control point: the origin for the first,
    /// and for the others places within `place_span`, one after the other,
    /// until `tried` takes one or gives up.
    fn pick(points: &Vec<Hex>) -> (place: Option<Hex>)
        ensures
            points@.len() == 0 ==> place == Some(Hex { x: 0, y: 0 }),
            place matches Some(c) ==> spec_far_enough(points@, c) && -SPREAD <= c.x < SPREAD
                && -SPREAD <= c.y < SPREAD,
    {
        if points.len() == 0 {
            return Some(Hex { x: 0, y: 0 });
        }
        let mut tries: u32 = 0;
        while tries < ATTEMPTS
            invariant
                tries <= ATTEMPTS,
                points@.len() > 0,
            decreases ATTEMPTS - tries,
        {
            let (low, high) = place_span();
            let x = roll(low, high);
            let y = roll(low, high);
            match tried(points.as_slice(), tries, Hex { x, y }) {
                Trial::Found(c) => {
                    return Some(c);
                },
                Trial::Again => {
                    tries += 1;
                },
                Trial::GiveUp => {
                    return None;
                },
            }
        }
        None
    }

    /// Places a control point on `c`: clears the square round it and puts
    /// the tile of a free control point there.
    fn place(&mut self, c: Hex, Ghost(points): Ghost<Seq<Hex>>, Ghost(heights): Ghost<Seq<i32>>)
        requires
            placed(old(self)@, points, heights),
            spec_far_enough(points, c),
            -SPREAD <= c.x < SPREAD,
            -SPREAD <= c.y < SPREAD,
        ensures
            placed(final(self)@, points.push(c), heights),
    {
        let ghost before = self@;
        self.clear_square(c);
        self.put(
            c,
            Tile {
                kind: TileType::Control(None),
                fill_color: Paint::CaptureUnoccupied,
                border_color: Paint::CaptureUnoccupiedBorder,
            },
        );
        proof {
            let more = points.push(c);
            let now = self@;
            assert forall|h: Hex| now.tile_at(h) == (if h == c {
                Some(free_tile())
            } else if cleared_by(c, h) {
                None
            } else {
                before.tile_at(h)
            }) by {}
            assert forall|h: Hex| points.contains(h) implies more.contains(h) by {
                let j = choose|j: int| 0 <= j < points.len() && points[j] == h;
                assert(more[j] == h);
            }
            assert(more[points.len() as int] == c);
            assert forall|h: Hex| #[trigger] now.control(h) <==> more.contains(h) by {
                if h != c {
                    assert(before.control(h) <==> points.contains(h));
                }
            }
            assert forall|j: int| 0 <= j < more.len() implies now.tiles[#[trigger] more[j]]
                == free_tile() && -SPREAD <= more[j].x < SPREAD && -SPREAD <= more[j].y
                < SPREAD by {
                if j < points.len() {
                    assert(before.control(points[j]));
                }
            }
            assert forall|h: Hex| in_range(h) && !more.contains(h) implies if cleared_by_any(
                more,
                h,
            ) {
                now.open(h)
            } else {
                fits(ground(heights[cell(h)]), #[trigger] now.tile_at(h))
            } by {
                if !cleared_by_any(more, h) && cleared_by_any(points, h) {
                    let j = choose|j: int|
                        0 <= j < points.len() && cleared_by(#[trigger] points[j], h);
                    assert(cleared_by(more[j], h));
                }
            }
        }
    }

    /// Generates a world from `seed` and from the height of the ground on
    /// every hex of the map: `heights` holds them in millionths, column
    /// after column, each column from the least `y` up. The heights decide
    /// where water and hills are. The rest is drawn, after the shared
    /// generator was restarted from `seed`: for every hex, column after
    /// column, one number within the bounds `draw_for` gives for its
    /// ground, of which `terrain` makes the tile; then, for each control
    /// point after the first, places within `place_span`, a draw for each
    /// coordinate, until `tried` takes one or gives up. Where it gives up
    /// no world is made.
    pub fn new(seed: u64, heights: &[i32]) -> (made: Result<Level, GenerationError>)
        ensures
            match made {
                Ok(level) => heights@.len() == CELLS && level@.generated(heights@),
                Err(GenerationError::HeightField) => heights@.len() != CELLS,
                Err(GenerationError::Placement) => heights@.len() == CELLS,
            },
    {
        if heights.len() != CELLS {
            return Err(GenerationError::HeightField);
        }
        reseed(seed);
        let mut level = Level::fill(heights);
        let mut points: Vec<Hex> = Vec::new();
        let mut i: usize = 0;
        while i < CONTROLS
            invariant
                heights@.len() == CELLS,
                i <= CONTROLS,
                points@.len() == i,
                i > 0 ==> points@[0] == (Hex { x: 0, y: 0 }),
                placed(level@, points@, heights@),
            decreases CONTROLS - i,
        {
            match Level::pick(&points) {
                Some(c) => {
                    level.place(c, Ghost(points@), Ghost(heights@));
                    points.push(c);
                },
                None => {
                    return Err(GenerationError::Placement);
                },
            }
            i += 1;
        }
        proof {
            let lv = level@;
            assert(lv.controls() =~= points@.to_set());
            points@.unique_seq_to_set();
            vstd::seq_lib::seq_to_set_is_finite(points@);
            assert forall|h: Hex| in_range(h) && !lv.control(h) implies if lv.in_clearing(h) {
                lv.open(h)
            } else {
                fits(ground(heights@[cell(h)]), #[trigger] lv.tile_at(h))
            } by {}
        }
        Ok(level)
    }
}

} // verus!
