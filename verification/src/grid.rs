//! Geometry of the hexagonal grid in axial coordinates: the six
//! directions, adjacency, the two distances the rules use, and the bounds
//! of the generated map.

use vstd::prelude::*;
use crate::structs::Hex;

verus! {

/// The generated map covers the coordinates from `-LEVEL_SIZE` up to, but
/// not including, `LEVEL_SIZE`, on both axes.
pub const LEVEL_SIZE: i32 = 100;

/// The distance of `v` from zero.
pub open spec fn abs(v: int) -> int {
    if v < 0 {
        -v
    } else {
        v
    }
}

/// The `i`-th of the six directions, as a difference of coordinates.
pub open spec fn direction(i: int) -> (int, int) {
    if i == 0 {
        (1, 0)
    } else if i == 1 {
        (1, -1)
    } else if i == 2 {
        (0, -1)
    } else if i == 3 {
        (-1, 0)
    } else if i == 4 {
        (-1, 1)
    } else {
        (0, 1)
    }
}

/// `b` is one step in one of the six directions away from `a`.
pub open spec fn adjacent(a: Hex, b: Hex) -> bool {
    exists|i: int| 0 <= i < 6 && #[trigger] direction(i) == (b.x - a.x, b.y - a.y)
}

/// The hex `(dx, dy)` away from `pos`, if its coordinates exist.
pub open spec fn shifted(pos: Hex, dx: int, dy: int) -> Option<Hex> {
    if i32::MIN <= pos.x + dx <= i32::MAX && i32::MIN <= pos.y + dy <= i32::MAX {
        Some(Hex { x: (pos.x + dx) as i32, y: (pos.y + dy) as i32 })
    } else {
        None
    }
}

/// The neighbours of `pos` in the first `n` directions, in the order of
/// the directions.
pub open spec fn ring(pos: Hex, n: nat) -> Seq<Hex>
    decreases n,
{
    if n == 0 {
        Seq::empty()
    } else {
        let before = ring(pos, (n - 1) as nat);
        match shifted(pos, direction(n - 1).0, direction(n - 1).1) {
            Some(h) => before.push(h),
            None => before,
        }
    }
}

/// The hexes adjacent to `pos`, in the order of the directions: six of
/// them, unless `pos` lies on the rim of the coordinate space.
pub open spec fn neighbours(pos: Hex) -> Seq<Hex> {
    ring(pos, 6)
}

/// The greatest of three numbers.
pub open spec fn greatest(a: int, b: int, c: int) -> int {
    if a >= b && a >= c {
        a
    } else if b >= c {
        b
    } else {
        c
    }
}

/// The distance between two hexes: the number of steps on the grid from
/// one to the other, which is the greatest of the differences of the two
/// coordinates and of their sums.
pub open spec fn distance(a: Hex, b: Hex) -> int {
    greatest(abs(a.x - b.x), abs(a.y - b.y), abs((a.x - b.x) + (a.y - b.y)))
}

/// `h` is at most `radius` steps on the grid away from `center`.
pub open spec fn within(center: Hex, radius: int, h: Hex) -> bool {
    distance(center, h) <= radius
}

/// All hexes at most `radius` steps away from `center`.
pub open spec fn diamond(center: Hex, radius: int) -> Set<Hex> {
    Set::new(|h: Hex| within(center, radius, h))
}

/// How many points of the line between two hexes a line of sight is
/// tested on, for each step of their distance.
pub const SAMPLES: u64 = 100;

/// `p / n` rounded to the nearest whole number, a half away from zero.
pub open spec fn rounded(p: int, n: int) -> int {
    if p >= 0 {
        (2 * p + n) / (2 * n)
    } else {
        -((n - 2 * p) / (2 * n))
    }
}

/// The hex under the `k`-th of the points that divide the straight line
/// from `a` to `b` into `SAMPLES * distance(a, b)` equal parts. The line
/// is drawn through the coordinates as they are, each rounded by itself.
pub open spec fn sample(a: Hex, b: Hex, k: int) -> Hex {
    let n = SAMPLES * distance(a, b);
    if n == 0 {
        a
    } else {
        Hex {
            x: (a.x + rounded((b.x - a.x) * k, n)) as i32,
            y: (a.y + rounded((b.y - a.y) * k, n)) as i32,
        }
    }
}

/// `pos` lies on the generated map.
pub open spec fn in_range(pos: Hex) -> bool {
    &&& -LEVEL_SIZE <= pos.x < LEVEL_SIZE
    &&& -LEVEL_SIZE <= pos.y < LEVEL_SIZE
}

/// The `i`-th direction.
pub fn step(i: usize) -> (d: (i32, i32))
    requires
        i < 6,
    ensures
        (d.0 as int, d.1 as int) == direction(i as int),
{
    if i == 0 {
        (1, 0)
    } else if i == 1 {
        (1, -1)
    } else if i == 2 {
        (0, -1)
    } else if i == 3 {
        (-1, 0)
    } else if i == 4 {
        (-1, 1)
    } else {
        (0, 1)
    }
}

/// The hex `(dx, dy)` away from `pos`, if its coordinates exist.
pub fn shift(pos: Hex, dx: i64, dy: i64) -> (moved: Option<Hex>)
    requires
        -0x1_0000_0000 <= dx <= 0x1_0000_0000,
        -0x1_0000_0000 <= dy <= 0x1_0000_0000,
    ensures
        moved == shifted(pos, dx as int, dy as int),
{
    let x: i64 = pos.x as i64 + dx;
    let y: i64 = pos.y as i64 + dy;
    if x < i32::MIN as i64 || x > i32::MAX as i64 || y < i32::MIN as i64 || y > i32::MAX as i64 {
        None
    } else {
        Some(Hex { x: x as i32, y: y as i32 })
    }
}

/// `d * k / n`, rounded to the nearest whole number: the part of the way
/// `d` that is done after `k` of `n` equal parts.
fn part(d: i64, k: u64, n: u64) -> (r: i64)
    requires
        0 < n < 0x200_0000_0000,
        k <= n,
        -0x1_0000_0000 < d < 0x1_0000_0000,
    ensures
        r == rounded(d * k, n as int),
        d >= 0 ==> 0 <= r <= d,
        d <= 0 ==> d <= r <= 0,
{
    let ad: u128 = if d < 0 { (-d) as u128 } else { d as u128 };
    let wide_k: u128 = k as u128;
    let wide_n: u128 = n as u128;
    assert(ad * wide_k <= 0x1_0000_0000 * 0x200_0000_0000) by (nonlinear_arith)
        requires
            ad <= 0x1_0000_0000,
            wide_k <= 0x200_0000_0000,
    ;
    assert(ad * wide_k <= ad * wide_n) by (nonlinear_arith)
        requires
            wide_k <= wide_n,
            0 <= ad,
    ;
    let product: u128 = ad * wide_k;
    let top: u128 = 2 * product + wide_n;
    let q: u128 = top / (2 * wide_n);
    assert(q <= ad) by (nonlinear_arith)
        requires
            q == top as int / (2 * wide_n as int),
            top <= 2 * (ad * wide_n) + wide_n,
            wide_n > 0,
            ad >= 0,
    ;
    proof {
        if d < 0 {
            assert(d * k == -product) by (nonlinear_arith)
                requires
                    product == ad * wide_k,
                    ad == -d,
                    wide_k == k,
            ;
            if k == 0 {
                assert(wide_n as int / (2 * wide_n as int) == 0) by (nonlinear_arith)
                    requires
                        wide_n > 0,
                ;
            } else {
                assert(product > 0) by (nonlinear_arith)
                    requires
                        product == ad * wide_k,
                        wide_k > 0,
                        ad > 0,
                ;
            }
        }
    }
    if d < 0 {
        -(q as i64)
    } else {
        q as i64
    }
}

/// The hex under the `k`-th point of the line from `a` to `b`.
pub fn along(a: &Hex, b: &Hex, k: u64) -> (h: Hex)
    requires
        k <= SAMPLES * distance(*a, *b),
    ensures
        h == sample(*a, *b, k as int),
{
    let dx: i64 = b.x as i64 - a.x as i64;
    let dy: i64 = b.y as i64 - a.y as i64;
    let sum: i64 = dx + dy;
    let ax: u64 = if dx < 0 { (-dx) as u64 } else { dx as u64 };
    let ay: u64 = if dy < 0 { (-dy) as u64 } else { dy as u64 };
    let both: u64 = if sum < 0 { (-sum) as u64 } else { sum as u64 };
    let far: u64 = if ax >= ay && ax >= both {
        ax
    } else if ay >= both {
        ay
    } else {
        both
    };
    let n: u64 = SAMPLES * far;
    if n == 0 {
        *a
    } else {
        let x: i64 = a.x as i64 + part(dx, k, n);
        let y: i64 = a.y as i64 + part(dy, k, n);
        Hex { x: x as i32, y: y as i32 }
    }
}

/// The distance is none from a hex to itself and to no other, is the same
/// both ways, is one exactly between adjacent hexes, and grows by at most
/// one with a step.
pub proof fn lemma_distance(a: Hex, b: Hex, c: Hex)
    ensures
        distance(a, a) == 0,
        distance(a, b) == 0 <==> a == b,
        distance(a, b) == distance(b, a),
        distance(a, b) == 1 <==> adjacent(a, b),
        adjacent(b, c) ==> distance(a, c) <= distance(a, b) + 1,
{
    if adjacent(a, b) {
        let i = choose|i: int| 0 <= i < 6 && #[trigger] direction(i) == (b.x - a.x, b.y - a.y);
    }
    if distance(a, b) == 1 {
        let dx = b.x - a.x;
        let dy = b.y - a.y;
        if dx == 1 && dy == 0 {
            assert(direction(0) == (dx, dy));
        } else if dx == 1 && dy == -1 {
            assert(direction(1) == (dx, dy));
        } else if dx == 0 && dy == -1 {
            assert(direction(2) == (dx, dy));
        } else if dx == -1 && dy == 0 {
            assert(direction(3) == (dx, dy));
        } else if dx == -1 && dy == 1 {
            assert(direction(4) == (dx, dy));
        } else {
            assert(direction(5) == (dx, dy));
        }
    }
    if adjacent(b, c) {
        let i = choose|i: int| 0 <= i < 6 && #[trigger] direction(i) == (c.x - b.x, c.y - b.y);
    }
}

/// Every neighbour is adjacent, and every adjacent hex is a neighbour.
pub proof fn lemma_neighbours_adjacent(pos: Hex, h: Hex)
    ensures
        neighbours(pos).contains(h) <==> adjacent(pos, h),
{
    reveal_with_fuel(ring, 7);
    let n = neighbours(pos);
    if adjacent(pos, h) {
        let i = choose|i: int| 0 <= i < 6 && #[trigger] direction(i) == (h.x - pos.x, h.y - pos.y);
        lemma_ring_contains(pos, 6, i);
    }
    if n.contains(h) {
        lemma_ring_adjacent(pos, 6, h);
    }
}

/// The neighbour in a direction below `n` is among the first `n`.
proof fn lemma_ring_contains(pos: Hex, n: nat, i: int)
    requires
        0 <= i < n,
        shifted(pos, direction(i).0, direction(i).1) is Some,
    ensures
        ring(pos, n).contains(shifted(pos, direction(i).0, direction(i).1).unwrap()),
    decreases n,
{
    let h = shifted(pos, direction(i).0, direction(i).1).unwrap();
    let before = ring(pos, (n - 1) as nat);
    if i == n - 1 {
        assert(before.push(h)[before.len() as int] == h);
    } else {
        lemma_ring_contains(pos, (n - 1) as nat, i);
        let k = choose|k: int| 0 <= k < before.len() && before[k] == h;
        match shifted(pos, direction(n - 1).0, direction(n - 1).1) {
            Some(g) => {
                assert(before.push(g)[k] == h);
            },
            None => {},
        }
    }
}

/// Each of the first `n` neighbours is adjacent.
proof fn lemma_ring_adjacent(pos: Hex, n: nat, h: Hex)
    requires
        n <= 6,
        ring(pos, n).contains(h),
    ensures
        adjacent(pos, h),
    decreases n,
{
    if n > 0 {
        let before = ring(pos, (n - 1) as nat);
        let k = choose|k: int| 0 <= k < ring(pos, n).len() && ring(pos, n)[k] == h;
        if k < before.len() {
            lemma_ring_adjacent(pos, (n - 1) as nat, h);
        }
    }
}

/// Away from the rim of the coordinate space a hex has all six neighbours,
/// one in each direction.
pub proof fn lemma_six_neighbours(pos: Hex)
    requires
        i32::MIN < pos.x < i32::MAX,
        i32::MIN < pos.y < i32::MAX,
    ensures
        neighbours(pos).len() == 6,
        forall|i: int|
            0 <= i < 6 ==> #[trigger] neighbours(pos)[i] == (Hex {
                x: (pos.x + direction(i).0) as i32,
                y: (pos.y + direction(i).1) as i32,
            }),
{
    reveal_with_fuel(ring, 7);
}

} // verus!
