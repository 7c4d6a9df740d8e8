//! Integer points, records and axis-aligned bounding boxes.
use vstd::prelude::*;

verus! {

/// A point in space, in integer units of the caller's choosing.
#[derive(Clone, Copy, Debug, PartialEq, Eq, Structural)]
pub struct Position {
    pub x: i32,
    pub y: i32,
    pub z: i32,
}

/// An identifier paired with the position it was seen at.
#[derive(Clone, Copy, Debug, PartialEq, Eq, Structural)]
pub struct PointRecord {
    pub entity: u64,
    pub position: Position,
}

/// Axis-aligned bounding box given by its two extreme corners.
#[derive(Clone, Copy, Debug, PartialEq, Eq, Structural)]
pub struct Aabb {
    /// Corner with the smallest coordinates.
    pub min: Position,
    /// Corner with the largest coordinates.
    pub max: Position,
}

/// The coordinate of `p` on axis 0 (x), 1 (y) or 2 (z).
pub open spec fn coord(p: Position, axis: int) -> int {
    if axis == 0 {
        p.x as int
    } else if axis == 1 {
        p.y as int
    } else {
        p.z as int
    }
}

pub open spec fn sq(d: int) -> int {
    d * d
}

/// Squared Euclidean distance between two points.
pub open spec fn dist_sq(a: Position, b: Position) -> int {
    sq(a.x - b.x) + sq(a.y - b.y) + sq(a.z - b.z)
}

/// A point lies within the closed ball of the given radius around `center`.
pub open spec fn within(p: Position, center: Position, radius: u32) -> bool {
    dist_sq(p, center) <= sq(radius as int)
}

/// Distance from `c` to the interval `[lo, hi]` on one axis.
pub open spec fn axis_gap(c: int, lo: int, hi: int) -> int {
    if c < lo {
        lo - c
    } else if c > hi {
        c - hi
    } else {
        0
    }
}

pub open spec fn min_i32(a: i32, b: i32) -> i32 {
    if a <= b {
        a
    } else {
        b
    }
}

pub open spec fn max_i32(a: i32, b: i32) -> i32 {
    if a >= b {
        a
    } else {
        b
    }
}

pub open spec fn min_pos(a: Position, b: Position) -> Position {
    Position { x: min_i32(a.x, b.x), y: min_i32(a.y, b.y), z: min_i32(a.z, b.z) }
}

pub open spec fn max_pos(a: Position, b: Position) -> Position {
    Position { x: max_i32(a.x, b.x), y: max_i32(a.y, b.y), z: max_i32(a.z, b.z) }
}

/// The box made of a single point.
pub open spec fn point_box(p: Position) -> Aabb {
    Aabb { min: p, max: p }
}

pub open spec fn zero_box() -> Aabb {
    Aabb { min: Position { x: 0, y: 0, z: 0 }, max: Position { x: 0, y: 0, z: 0 } }
}

/// The tight bounds of the positions in `s`: the componentwise minimum and
/// maximum, or the zero box when `s` is empty.
pub open spec fn bounds_of(s: Seq<PointRecord>) -> Aabb
    decreases s.len(),
{
    if s.len() == 0 {
        zero_box()
    } else if s.len() == 1 {
        point_box(s[0].position)
    } else {
        bounds_of(s.drop_last()).union(point_box(s.last().position))
    }
}

impl Aabb {
    pub open spec fn contains(self, p: Position) -> bool {
        &&& self.min.x <= p.x <= self.max.x
        &&& self.min.y <= p.y <= self.max.y
        &&& self.min.z <= p.z <= self.max.z
    }

    pub open spec fn is_ordered(self) -> bool {
        self.min.x <= self.max.x && self.min.y <= self.max.y && self.min.z <= self.max.z
    }

    /// The smallest box holding both boxes.
    pub open spec fn union(self, other: Aabb) -> Aabb {
        Aabb { min: min_pos(self.min, other.min), max: max_pos(self.max, other.max) }
    }

    /// Twice the sum of the face areas; negative extents are taken as they are.
    pub open spec fn surface_area(self) -> int {
        let ex = self.max.x - self.min.x;
        let ey = self.max.y - self.min.y;
        let ez = self.max.z - self.min.z;
        2 * (ex * ey) + 2 * (ex * ez) + 2 * (ey * ez)
    }

    /// Squared distance from `c` to the nearest point of the box.
    pub open spec fn dist_sq_to(self, c: Position) -> int {
        sq(axis_gap(c.x as int, self.min.x as int, self.max.x as int)) + sq(
            axis_gap(c.y as int, self.min.y as int, self.max.y as int),
        ) + sq(axis_gap(c.z as int, self.min.z as int, self.max.z as int))
    }

    pub open spec fn meets_sphere(self, center: Position, radius: u32) -> bool {
        self.dist_sq_to(center) <= sq(radius as int)
    }

    /// Total surface area of the box.
    pub fn total_surface_area(&self) -> (r: i128)
        ensures
            r == self.surface_area(),
    {
        let ex = self.max.x as i128 - self.min.x as i128;
        let ey = self.max.y as i128 - self.min.y as i128;
        let ez = self.max.z as i128 - self.min.z as i128;
        proof {
            lemma_extent_product(ex as int, ey as int);
            lemma_extent_product(ex as int, ez as int);
            lemma_extent_product(ey as int, ez as int);
        }
        2 * (ex * ey) + 2 * (ex * ez) + 2 * (ey * ez)
    }

    /// Whether the box meets the closed ball of `radius` around `center`.
    pub fn intersects_sphere(&self, center: Position, radius: u32) -> (r: bool)
        ensures
            r == self.meets_sphere(center, radius),
    {
        let gx = gap(center.x, self.min.x, self.max.x);
        let gy = gap(center.y, self.min.y, self.max.y);
        let gz = gap(center.z, self.min.z, self.max.z);
        square(gx) + square(gy) + square(gz) <= square(radius as u64)
    }
}

proof fn lemma_extent_product(a: int, b: int)
    requires
        -0x1_0000_0000 < a < 0x1_0000_0000,
        -0x1_0000_0000 < b < 0x1_0000_0000,
    ensures
        -0x1_0000_0000_0000_0000 < a * b < 0x1_0000_0000_0000_0000,
{
    assert(-0x1_0000_0000_0000_0000 < a * b < 0x1_0000_0000_0000_0000) by (nonlinear_arith)
        requires
            -0x1_0000_0000 < a < 0x1_0000_0000,
            -0x1_0000_0000 < b < 0x1_0000_0000,
    ;
}

/// Square of a value below 2^32, exactly.
fn square(d: u64) -> (r: u128)
    requires
        d < 0x1_0000_0000,
    ensures
        r == sq(d as int),
        r < 0x1_0000_0000_0000_0000,
{
    assert(d * d < 0x1_0000_0000_0000_0000) by (nonlinear_arith)
        requires
            d < 0x1_0000_0000,
    ;
    (d as u128) * (d as u128)
}

/// Distance from `c` to the interval `[lo, hi]`.
fn gap(c: i32, lo: i32, hi: i32) -> (r: u64)
    ensures
        r == axis_gap(c as int, lo as int, hi as int),
        r < 0x1_0000_0000,
{
    if c < lo {
        (lo as i64 - c as i64) as u64
    } else if c > hi {
        (c as i64 - hi as i64) as u64
    } else {
        0
    }
}

/// Absolute difference of two coordinates.
fn abs_diff(a: i32, b: i32) -> (r: u64)
    ensures
        r as int == a - b || r as int == b - a,
        r < 0x1_0000_0000,
{
    if a >= b {
        (a as i64 - b as i64) as u64
    } else {
        (b as i64 - a as i64) as u64
    }
}

/// Whether `p` lies within `radius` of `center`, boundary included.
pub fn is_within(p: Position, center: Position, radius: u32) -> (r: bool)
    ensures
        r == within(p, center, radius),
{
    let dx = abs_diff(p.x, center.x);
    let dy = abs_diff(p.y, center.y);
    let dz = abs_diff(p.z, center.z);
    let r = square(dx) + square(dy) + square(dz) <= square(radius as u64);
    proof {
        assert(sq(dx as int) == sq(p.x - center.x)) by (nonlinear_arith)
            requires
                dx as int == p.x - center.x || dx as int == center.x - p.x,
        ;
        assert(sq(dy as int) == sq(p.y - center.y)) by (nonlinear_arith)
            requires
                dy as int == p.y - center.y || dy as int == center.y - p.y,
        ;
        assert(sq(dz as int) == sq(p.z - center.z)) by (nonlinear_arith)
            requires
                dz as int == p.z - center.z || dz as int == center.z - p.z,
        ;
    }
    r
}


fn min_position(a: Position, b: Position) -> (r: Position)
    ensures
        r == min_pos(a, b),
{
    Position {
        x: if a.x <= b.x { a.x } else { b.x },
        y: if a.y <= b.y { a.y } else { b.y },
        z: if a.z <= b.z { a.z } else { b.z },
    }
}

fn max_position(a: Position, b: Position) -> (r: Position)
    ensures
        r == max_pos(a, b),
{
    Position {
        x: if a.x >= b.x { a.x } else { b.x },
        y: if a.y >= b.y { a.y } else { b.y },
        z: if a.z >= b.z { a.z } else { b.z },
    }
}

/// The tight bounding box of the records' positions; the zero box for none.
pub fn calculate_aabb(records: &[PointRecord]) -> (r: Aabb)
    ensures
        r == bounds_of(records@),
{
    assert(records@.subrange(0, records@.len() as int) == records@);
    bounds_in(records, 0, records.len())
}

/// The tight bounding box of the positions of `records[lo..hi]`.
pub fn bounds_in(records: &[PointRecord], lo: usize, hi: usize) -> (r: Aabb)
    requires
        lo <= hi <= records@.len(),
    ensures
        r == bounds_of(records@.subrange(lo as int, hi as int)),
{
    if lo == hi {
        let origin = Position { x: 0, y: 0, z: 0 };
        return Aabb { min: origin, max: origin };
    }
    let first = records[lo].position;
    let mut aabb = Aabb { min: first, max: first };
    let mut i: usize = lo + 1;
    while i < hi
        invariant
            lo < i <= hi <= records@.len(),
            aabb == bounds_of(records@.subrange(lo as int, i as int)),
        decreases hi - i,
    {
        let p = records[i].position;
        aabb = Aabb { min: min_position(aabb.min, p), max: max_position(aabb.max, p) };
        assert(records@.subrange(lo as int, i + 1).drop_last() == records@.subrange(lo as int, i as int));
        i += 1;
    }
    aabb
}

/// The bounds of a sequence hold each of its positions, and are ordered.
pub proof fn lemma_bounds_contain(s: Seq<PointRecord>)
    ensures
        bounds_of(s).is_ordered(),
        forall|k: int| 0 <= k < s.len() ==> #[trigger] bounds_of(s).contains(s[k].position),
    decreases s.len(),
{
    if s.len() > 1 {
        lemma_bounds_contain(s.drop_last());
        assert forall|k: int| 0 <= k < s.len() implies #[trigger] bounds_of(s).contains(
            s[k].position,
        ) by {
            if k < s.len() - 1 {
                assert(bounds_of(s.drop_last()).contains(s.drop_last()[k].position));
            }
        }
    }
}

/// Each face of the bounds of a non-empty sequence is reached by one of its positions.
pub proof fn lemma_bounds_tight(s: Seq<PointRecord>)
    requires
        s.len() > 0,
    ensures
        exists|k: int| 0 <= k < s.len() && #[trigger] s[k].position.x == bounds_of(s).min.x,
        exists|k: int| 0 <= k < s.len() && #[trigger] s[k].position.y == bounds_of(s).min.y,
        exists|k: int| 0 <= k < s.len() && #[trigger] s[k].position.z == bounds_of(s).min.z,
        exists|k: int| 0 <= k < s.len() && #[trigger] s[k].position.x == bounds_of(s).max.x,
        exists|k: int| 0 <= k < s.len() && #[trigger] s[k].position.y == bounds_of(s).max.y,
        exists|k: int| 0 <= k < s.len() && #[trigger] s[k].position.z == bounds_of(s).max.z,
    decreases s.len(),
{
    if s.len() == 1 {
        assert(s[0].position.x == bounds_of(s).min.x);
        assert(s[0].position.y == bounds_of(s).min.y);
        assert(s[0].position.z == bounds_of(s).min.z);
        assert(s[0].position.x == bounds_of(s).max.x);
        assert(s[0].position.y == bounds_of(s).max.y);
        assert(s[0].position.z == bounds_of(s).max.z);
    } else {
        let t = s.drop_last();
        let last = s.len() - 1;
        lemma_bounds_tight(t);
        let b = bounds_of(t);
        if s[last].position.x <= b.min.x {
            assert(s[last].position.x == bounds_of(s).min.x);
        } else {
            let k = choose|k: int| 0 <= k < t.len() && #[trigger] t[k].position.x == b.min.x;
            assert(s[k].position.x == bounds_of(s).min.x);
        }
        if s[last].position.y <= b.min.y {
            assert(s[last].position.y == bounds_of(s).min.y);
        } else {
            let k = choose|k: int| 0 <= k < t.len() && #[trigger] t[k].position.y == b.min.y;
            assert(s[k].position.y == bounds_of(s).min.y);
        }
        if s[last].position.z <= b.min.z {
            assert(s[last].position.z == bounds_of(s).min.z);
        } else {
            let k = choose|k: int| 0 <= k < t.len() && #[trigger] t[k].position.z == b.min.z;
            assert(s[k].position.z == bounds_of(s).min.z);
        }
        if s[last].position.x >= b.max.x {
            assert(s[last].position.x == bounds_of(s).max.x);
        } else {
            let k = choose|k: int| 0 <= k < t.len() && #[trigger] t[k].position.x == b.max.x;
            assert(s[k].position.x == bounds_of(s).max.x);
        }
        if s[last].position.y >= b.max.y {
            assert(s[last].position.y == bounds_of(s).max.y);
        } else {
            let k = choose|k: int| 0 <= k < t.len() && #[trigger] t[k].position.y == b.max.y;
            assert(s[k].position.y == bounds_of(s).max.y);
        }
        if s[last].position.z >= b.max.z {
            assert(s[last].position.z == bounds_of(s).max.z);
        } else {
            let k = choose|k: int| 0 <= k < t.len() && #[trigger] t[k].position.z == b.max.z;
            assert(s[k].position.z == bounds_of(s).max.z);
        }
    }
}

/// A box that holds `p` is no farther from any point than `p` is.
pub proof fn lemma_box_nearer(b: Aabb, p: Position, c: Position)
    requires
        b.contains(p),
    ensures
        b.dist_sq_to(c) <= dist_sq(p, c),
{
    lemma_gap_le(c.x as int, b.min.x as int, b.max.x as int, p.x as int);
    lemma_gap_le(c.y as int, b.min.y as int, b.max.y as int, p.y as int);
    lemma_gap_le(c.z as int, b.min.z as int, b.max.z as int, p.z as int);
}

proof fn lemma_gap_le(c: int, lo: int, hi: int, v: int)
    requires
        lo <= v <= hi,
    ensures
        sq(axis_gap(c, lo, hi)) <= sq(v - c),
{
    let g = axis_gap(c, lo, hi);
    if c < lo {
        assert(g * g <= (v - c) * (v - c)) by (nonlinear_arith)
            requires
                0 <= g <= v - c,
        ;
    } else if c > hi {
        assert(g * g <= (v - c) * (v - c)) by (nonlinear_arith)
            requires
                0 <= g <= c - v,
        ;
    } else {
        assert(0 <= (v - c) * (v - c)) by (nonlinear_arith);
    }
}

/// An owned copy of the records, in the same order.
pub fn copy_records(records: &[PointRecord]) -> (r: Vec<PointRecord>)
    ensures
        r@ == records@,
{
    let mut out: Vec<PointRecord> = Vec::with_capacity(records.len());
    let mut i: usize = 0;
    while i < records.len()
        invariant
            i <= records@.len(),
            out@ == records@.subrange(0, i as int),
        decreases records@.len() - i,
    {
        out.push(records[i]);
        i += 1;
    }
    assert(records@.subrange(0, records@.len() as int) == records@);
    out
}

} // verus!
