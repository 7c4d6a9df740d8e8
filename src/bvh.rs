//! Bounding volume hierarchy built with the surface area heuristic.
use vstd::prelude::*;

use crate::geometry::{
    Aabb, PointRecord, Position, bounds_in, bounds_of, calculate_aabb, coord, copy_records,
    lemma_bounds_contain, lemma_box_nearer, within,
};
use crate::query::{collect_within, ids_within, lemma_ids_within_append, lemma_ids_within_none};
use crate::sort::{sort_on_axis, sorted_on};

verus! {

/// Caps a cost at the largest value a `u128` holds.
pub open spec fn saturate(c: int) -> int {
    if c > u128::MAX {
        u128::MAX as int
    } else {
        c
    }
}

/// Surface area heuristic for splitting `s` before `index`: the area of each
/// side's bounds weighted by the number of records on that side.
pub open spec fn sah_cost(s: Seq<PointRecord>, index: int) -> int {
    bounds_of(s.subrange(0, index)).surface_area() * index + bounds_of(
        s.subrange(index, s.len() as int),
    ).surface_area() * (s.len() - index)
}

/// The heuristic as computed, capped at `u128::MAX`.
pub open spec fn split_cost(s: Seq<PointRecord>, index: int) -> int {
    saturate(sah_cost(s, index))
}

/// Distance between two sampled split indices of a sequence of `n` records.
pub open spec fn split_step(n: int, max_samples: int) -> int {
    n / (if n < max_samples { n } else { max_samples })
}

/// The `k`-th sampled split index: `1`, `1 + step`, `1 + 2 * step`, ...
pub open spec fn candidate(step: int, k: int) -> int {
    1 + k * step
}

/// `index` is the first of the sampled split indices of `s` with the lowest
/// cost, and `cost` is that cost.
pub open spec fn is_best_split(s: Seq<PointRecord>, max_samples: int, index: int, cost: int) -> bool {
    let n = s.len() as int;
    let step = split_step(n, max_samples);
    &&& 1 <= index < n
    &&& exists|k: int| 0 <= k && #[trigger] candidate(step, k) == index
    &&& cost == split_cost(s, index)
    &&& forall|k: int|
        0 <= k && #[trigger] candidate(step, k) < n ==> cost <= split_cost(s, candidate(step, k))
    &&& forall|k: int|
        0 <= k && #[trigger] candidate(step, k) < index ==> cost < split_cost(s, candidate(step, k))
}

/// Axis of the lowest cost: x only when its cost is strictly below both
/// others, else y when strictly below z, else z.
pub open spec fn axis_of_least_cost(x_cost: int, y_cost: int, z_cost: int) -> int {
    if x_cost < y_cost && x_cost < z_cost {
        0
    } else if y_cost < z_cost {
        1
    } else {
        2
    }
}

/// The split of `given` into `left` and `right` that the heuristic makes:
/// for each axis, `sorted` holds the records ordered on it and `indices` and
/// `costs` its best sampled split; the records, ordered on the axis of least
/// cost as `cut`, are divided at that axis's index.
pub open spec fn heuristic_split(
    given: Seq<PointRecord>,
    max_samples: int,
    sorted: (Seq<PointRecord>, Seq<PointRecord>, Seq<PointRecord>),
    indices: (int, int, int),
    costs: (int, int, int),
    cut: Seq<PointRecord>,
    left: Seq<PointRecord>,
    right: Seq<PointRecord>,
) -> bool {
    let axis = axis_of_least_cost(costs.0, costs.1, costs.2);
    let index = if axis == 0 {
        indices.0
    } else if axis == 1 {
        indices.1
    } else {
        indices.2
    };
    &&& sorted.0.to_multiset() == given.to_multiset() && sorted_on(sorted.0, 0)
    &&& sorted.1.to_multiset() == given.to_multiset() && sorted_on(sorted.1, 1)
    &&& sorted.2.to_multiset() == given.to_multiset() && sorted_on(sorted.2, 2)
    &&& is_best_split(sorted.0, max_samples, indices.0, costs.0)
    &&& is_best_split(sorted.1, max_samples, indices.1, costs.1)
    &&& is_best_split(sorted.2, max_samples, indices.2, costs.2)
    &&& cut.to_multiset() == given.to_multiset() && sorted_on(cut, axis)
    &&& 0 <= index <= cut.len()
    &&& left.to_multiset() == cut.subrange(0, index).to_multiset()
    &&& right.to_multiset() == cut.subrange(index, cut.len() as int).to_multiset()
}

proof fn lemma_area_range(b: Aabb)
    requires
        b.is_ordered(),
    ensures
        0 <= b.surface_area() < 0x8_0000_0000_0000_0000,
{
    let ex = b.max.x - b.min.x;
    let ey = b.max.y - b.min.y;
    let ez = b.max.z - b.min.z;
    assert(0 <= 2 * (ex * ey) + 2 * (ex * ez) + 2 * (ey * ez) < 0x8_0000_0000_0000_0000)
        by (nonlinear_arith)
        requires
            0 <= ex < 0x1_0000_0000,
            0 <= ey < 0x1_0000_0000,
            0 <= ez < 0x1_0000_0000,
    ;
}

/// `a * n`, or `u128::MAX` when the product does not fit.
fn weighted(a: u128, n: usize) -> (r: u128)
    ensures
        r == saturate(a * n),
{
    match a.checked_mul(n as u128) {
        Some(v) => v,
        None => u128::MAX,
    }
}

/// Surface area heuristic cost of splitting `entities` before `index`.
fn cost(entities: &[PointRecord], index: usize) -> (r: u128)
    requires
        index <= entities@.len(),
    ensures
        r == split_cost(entities@, index as int),
{
    let n = entities.len();
    let left = bounds_in(entities, 0, index);
    let right = bounds_in(entities, index, n);
    proof {
        lemma_bounds_contain(entities@.subrange(0, index as int));
        lemma_bounds_contain(entities@.subrange(index as int, n as int));
        lemma_area_range(left);
        lemma_area_range(right);
    }
    let left_area = left.total_surface_area() as u128;
    let right_area = right.total_surface_area() as u128;
    let l = weighted(left_area, index);
    let r = weighted(right_area, n - index);
    proof {
        assert(0 <= left_area * index) by (nonlinear_arith)
            requires
                0 <= left_area,
                0 <= index,
        ;
        assert(0 <= right_area * (n - index)) by (nonlinear_arith)
            requires
                0 <= right_area,
                0 <= n - index,
        ;
    }
    l.saturating_add(r)
}

/// Finds, among the sampled split indices of `entities`, the first one of
/// lowest cost, and returns it with its cost.
fn find_split_index_and_cost(entities: &[PointRecord], max_split_samples_per_axis: usize) -> (r: (
    usize,
    u128,
))
    requires
        entities@.len() > 1,
        max_split_samples_per_axis >= 1,
    ensures
        is_best_split(entities@, max_split_samples_per_axis as int, r.0 as int, r.1 as int),
{
    let n = entities.len();
    let samples = if n < max_split_samples_per_axis {
        n
    } else {
        max_split_samples_per_axis
    };
    let step = n / samples;
    let ghost gstep = split_step(n as int, max_split_samples_per_axis as int);
    assert(step == gstep);
    assert(step >= 1) by (nonlinear_arith)
        requires
            step == n / samples,
            1 <= samples <= n,
    ;
    let mut best_index: usize = 1;
    let mut best_cost = cost(entities, 1);
    let mut i: usize = 1;
    let ghost mut k: int = 0;
    assert(candidate(gstep, 0) == 1);
    while n - i > step
        invariant
            step == gstep >= 1,
            n == entities@.len(),
            0 <= k,
            i == candidate(gstep, k),
            1 <= best_index <= i < n,
            exists|j: int| 0 <= j && #[trigger] candidate(gstep, j) == best_index,
            best_cost == split_cost(entities@, best_index as int),
            forall|j: int|
                0 <= j <= k ==> best_cost <= split_cost(entities@, #[trigger] candidate(gstep, j)),
            forall|j: int|
                0 <= j && #[trigger] candidate(gstep, j) < best_index ==> best_cost < split_cost(
                    entities@,
                    candidate(gstep, j),
                ),
        decreases n - i,
    {
        i = i + step;
        proof {
            k = k + 1;
            assert(candidate(gstep, k) == candidate(gstep, k - 1) + gstep) by (nonlinear_arith);
        }
        let c = cost(entities, i);
        if c < best_cost {
            proof {
                assert forall|j: int|
                    0 <= j && #[trigger] candidate(gstep, j) < i implies c < split_cost(
                    entities@,
                    candidate(gstep, j),
                ) by {
                    lemma_candidate_monotonic(gstep, j, k);
                }
            }
            best_index = i;
            best_cost = c;
        }
    }
    proof {
        assert forall|j: int|
            0 <= j && #[trigger] candidate(gstep, j) < n implies best_cost <= split_cost(
            entities@,
            candidate(gstep, j),
        ) by {
            lemma_candidate_monotonic(gstep, j, k + 1);
            assert(candidate(gstep, k + 1) == candidate(gstep, k) + gstep) by (nonlinear_arith);
        }
    }
    (best_index, best_cost)
}

/// Sampled indices grow with their rank.
proof fn lemma_candidate_monotonic(step: int, j: int, k: int)
    requires
        step >= 1,
        0 <= j,
        0 <= k,
    ensures
        j < k <==> candidate(step, j) < candidate(step, k),
{
    if j < k {
        assert(j * step < k * step) by (nonlinear_arith)
            requires
                j < k,
                step >= 1,
        ;
    } else {
        assert(j * step >= k * step) by (nonlinear_arith)
            requires
                j >= k,
                step >= 1,
        ;
    }
}

/// What a node holds: records, or two subtrees.
pub enum BvhNodeKind {
    Leaf(Vec<PointRecord>),
    Branch(Box<BvhNode>, Box<BvhNode>),
}

/// Node of the hierarchy: a bounding box and either records or two children.
pub struct BvhNode {
    pub aabb: Aabb,
    pub kind: BvhNodeKind,
}

impl BvhNode {
    /// The records of the subtree, left subtree before right.
    pub open spec fn records(self) -> Seq<PointRecord>
        decreases self,
    {
        match self.kind {
            BvhNodeKind::Leaf(v) => v@,
            BvhNodeKind::Branch(l, r) => l.records() + r.records(),
        }
    }

    /// Every node's box holds the positions of all records beneath it.
    pub open spec fn boxes_hold_records(self) -> bool
        decreases self,
    {
        &&& forall|k: int|
            0 <= k < self.records().len() ==> self.aabb.contains(#[trigger] self.records()[k].position)
        &&& match self.kind {
            BvhNodeKind::Leaf(_) => true,
            BvhNodeKind::Branch(l, r) => l.boxes_hold_records() && r.boxes_hold_records(),
        }
    }

    /// No leaf holds more than `bound` records.
    pub open spec fn leaves_within(self, bound: int) -> bool
        decreases self,
    {
        match self.kind {
            BvhNodeKind::Leaf(v) => v@.len() <= bound,
            BvhNodeKind::Branch(l, r) => l.leaves_within(bound) && r.leaves_within(bound),
        }
    }

    /// Whether this node's box meets the ball of `radius` around `sample_point`.
    pub fn intersects_sphere(&self, sample_point: Position, radius: u32) -> (r: bool)
        ensures
            r == self.aabb.meets_sphere(sample_point, radius),
    {
        self.aabb.intersects_sphere(sample_point, radius)
    }

    /// The identifiers of the subtree's records within `radius` of
    /// `sample_point`, boundary included; subtrees whose box misses the ball
    /// are skipped.
    pub fn entities_in_radius(&self, sample_point: Position, radius: u32) -> (r: Vec<u64>)
        requires
            self.boxes_hold_records(),
        ensures
            r@ == ids_within(self.records(), sample_point, radius),
        decreases self,
    {
        if !self.intersects_sphere(sample_point, radius) {
            proof {
                let s = self.records();
                assert forall|k: int| 0 <= k < s.len() implies !within(
                    #[trigger] s[k].position,
                    sample_point,
                    radius,
                ) by {
                    lemma_box_nearer(self.aabb, s[k].position, sample_point);
                }
                lemma_ids_within_none(s, sample_point, radius);
            }
            return Vec::new();
        }
        match &self.kind {
            BvhNodeKind::Leaf(records) => collect_within(records.as_slice(), sample_point, radius),
            BvhNodeKind::Branch(left, right) => {
                let mut total = left.entities_in_radius(sample_point, radius);
                let mut rest = right.entities_in_radius(sample_point, radius);
                total.append(&mut rest);
                proof {
                    lemma_ids_within_append(left.records(), right.records(), sample_point, radius);
                }
                total
            }
        }
    }
}

/// Axis of the lowest cost: x only when its cost is strictly below both
/// others, else y when strictly below z, else z.
pub fn best_axis(x_cost: u128, y_cost: u128, z_cost: u128) -> (r: usize)
    ensures
        r == axis_of_least_cost(x_cost as int, y_cost as int, z_cost as int),
{
    if x_cost < y_cost && x_cost < z_cost {
        0
    } else if y_cost < z_cost {
        1
    } else {
        2
    }
}

proof fn lemma_contained_in_bounds(s: Seq<PointRecord>, t: Seq<PointRecord>)
    requires
        s.to_multiset() == t.to_multiset(),
    ensures
        forall|k: int| 0 <= k < s.len() ==> bounds_of(t).contains(#[trigger] s[k].position),
{
    broadcast use vstd::seq_lib::group_to_multiset_ensures;
    lemma_bounds_contain(t);
    assert forall|k: int| 0 <= k < s.len() implies bounds_of(t).contains(#[trigger] s[k].position) by {
        assert(s.contains(s[k]));
        assert(t.to_multiset().count(s[k]) > 0);
        let j = choose|j: int| 0 <= j < t.len() && t[j] == s[k];
        assert(bounds_of(t).contains(t[j].position));
    }
}

/// No record of `a` lies beyond a record of `b` on `axis`.
pub open spec fn separated_on(a: Seq<PointRecord>, b: Seq<PointRecord>, axis: int) -> bool {
    forall|i: int, j: int|
        0 <= i < a.len() && 0 <= j < b.len() ==> coord(#[trigger] a[i].position, axis) <= coord(
            #[trigger] b[j].position,
            axis,
        )
}

proof fn lemma_separated_moves(
    a: Seq<PointRecord>,
    b: Seq<PointRecord>,
    a2: Seq<PointRecord>,
    b2: Seq<PointRecord>,
    axis: int,
)
    requires
        separated_on(a, b, axis),
        a.to_multiset() == a2.to_multiset(),
        b.to_multiset() == b2.to_multiset(),
    ensures
        separated_on(a2, b2, axis),
{
    broadcast use vstd::seq_lib::group_to_multiset_ensures;
    assert forall|i: int, j: int| 0 <= i < a2.len() && 0 <= j < b2.len() implies coord(
        #[trigger] a2[i].position,
        axis,
    ) <= coord(#[trigger] b2[j].position, axis) by {
        assert(a2.contains(a2[i]));
        assert(a.to_multiset().count(a2[i]) > 0);
        let x = choose|x: int| 0 <= x < a.len() && a[x] == a2[i];
        assert(b2.contains(b2[j]));
        assert(b.to_multiset().count(b2[j]) > 0);
        let y = choose|y: int| 0 <= y < b.len() && b[y] == b2[j];
        assert(coord(a[x].position, axis) <= coord(b[y].position, axis));
    }
}

/// The facts about a branch that follow from how its records were divided.
proof fn lemma_branch_of_split(
    given: Seq<PointRecord>,
    max_samples: int,
    sorted: (Seq<PointRecord>, Seq<PointRecord>, Seq<PointRecord>),
    indices: (int, int, int),
    costs: (int, int, int),
    cut: Seq<PointRecord>,
    left_part: Seq<PointRecord>,
    right_part: Seq<PointRecord>,
    left: Seq<PointRecord>,
    right: Seq<PointRecord>,
)
    requires
        sorted.0.to_multiset() == given.to_multiset() && sorted_on(sorted.0, 0),
        sorted.1.to_multiset() == given.to_multiset() && sorted_on(sorted.1, 1),
        sorted.2.to_multiset() == given.to_multiset() && sorted_on(sorted.2, 2),
        is_best_split(sorted.0, max_samples, indices.0, costs.0),
        is_best_split(sorted.1, max_samples, indices.1, costs.1),
        is_best_split(sorted.2, max_samples, indices.2, costs.2),
        cut.to_multiset() == given.to_multiset(),
        sorted_on(cut, axis_of_least_cost(costs.0, costs.1, costs.2)),
        ({
            let axis = axis_of_least_cost(costs.0, costs.1, costs.2);
            let index = if axis == 0 {
                indices.0
            } else if axis == 1 {
                indices.1
            } else {
                indices.2
            };
            &&& 0 < index < cut.len()
            &&& left_part == cut.subrange(0, index)
            &&& right_part == cut.subrange(index, cut.len() as int)
        }),
        left.to_multiset() == left_part.to_multiset(),
        right.to_multiset() == right_part.to_multiset(),
    ensures
        (left + right).to_multiset() == given.to_multiset(),
        left.len() > 0,
        right.len() > 0,
        separated_on(left, right, axis_of_least_cost(costs.0, costs.1, costs.2)),
        heuristic_split(given, max_samples, sorted, indices, costs, cut, left, right),
{
    broadcast use vstd::seq_lib::group_to_multiset_ensures;
    let axis = axis_of_least_cost(costs.0, costs.1, costs.2);
    let index = if axis == 0 {
        indices.0
    } else if axis == 1 {
        indices.1
    } else {
        indices.2
    };
    assert(cut == left_part + right_part);
    vstd::seq_lib::lemma_multiset_commutative(left_part, right_part);
    vstd::seq_lib::lemma_multiset_commutative(left, right);
    assert forall|i: int, j: int| 0 <= i < left_part.len() && 0 <= j < right_part.len() implies coord(
        #[trigger] left_part[i].position,
        axis,
    ) <= coord(#[trigger] right_part[j].position, axis) by {
        assert(cut[i] == left_part[i]);
        assert(cut[index + j] == right_part[j]);
    }
    lemma_separated_moves(left_part, right_part, left, right, axis);
    assert(left.to_multiset().len() == left_part.len());
    assert(right.to_multiset().len() == right_part.len());
}

/// Recursively splits the records into nodes, choosing each split by the
/// surface area heuristic over sampled indices on each axis.
fn split_node(entities: Vec<PointRecord>, entities_per_leaf: usize, max_split_samples_per_axis: usize) -> (node: BvhNode)
    requires
        entities@.len() > 0,
        entities_per_leaf >= 1,
        max_split_samples_per_axis >= 1,
    ensures
        node.records().to_multiset() == entities@.to_multiset(),
        node.aabb == bounds_of(entities@),
        node.boxes_hold_records(),
        node.leaves_within(entities_per_leaf as int),
        node.kind is Leaf <==> entities@.len() <= entities_per_leaf,
        node.kind is Leaf ==> node.records() == entities@,
        node.kind matches BvhNodeKind::Branch(l, r) ==> {
            &&& l.records().len() > 0
            &&& r.records().len() > 0
            &&& separated_on(l.records(), r.records(), 0) || separated_on(l.records(), r.records(), 1)
                || separated_on(l.records(), r.records(), 2)
            &&& exists|sorted: (Seq<PointRecord>, Seq<PointRecord>, Seq<PointRecord>), indices: (int, int, int), costs: (int, int, int), cut: Seq<PointRecord>|
                #[trigger] heuristic_split(
                    entities@,
                    max_split_samples_per_axis as int,
                    sorted,
                    indices,
                    costs,
                    cut,
                    l.records(),
                    r.records(),
                )
        },
    decreases entities@.len(),
{
    let mut entities = entities;
    let ghost given = entities@;
    let aabb = calculate_aabb(entities.as_slice());
    if entities.len() <= entities_per_leaf {
        proof {
            lemma_contained_in_bounds(entities@, entities@);
        }
        return BvhNode { aabb, kind: BvhNodeKind::Leaf(entities) };
    }
    sort_on_axis(&mut entities, 0);
    let ghost by_x = entities@;
    let (x_index, x_cost) = find_split_index_and_cost(entities.as_slice(), max_split_samples_per_axis);
    sort_on_axis(&mut entities, 1);
    let ghost by_y = entities@;
    let (y_index, y_cost) = find_split_index_and_cost(entities.as_slice(), max_split_samples_per_axis);
    sort_on_axis(&mut entities, 2);
    let ghost by_z = entities@;
    let (z_index, z_cost) = find_split_index_and_cost(entities.as_slice(), max_split_samples_per_axis);
    let axis = best_axis(x_cost, y_cost, z_cost);
    let index = if axis == 0 {
        sort_on_axis(&mut entities, 0);
        x_index
    } else if axis == 1 {
        sort_on_axis(&mut entities, 1);
        y_index
    } else {
        z_index
    };
    let ghost sorted = entities@;
    let right = entities.split_off(index);
    let ghost left_part = entities@;
    let ghost right_part = right@;
    let left_node = split_node(entities, entities_per_leaf, max_split_samples_per_axis);
    let right_node = split_node(right, entities_per_leaf, max_split_samples_per_axis);
    let node = BvhNode { aabb, kind: BvhNodeKind::Branch(Box::new(left_node), Box::new(right_node)) };
    proof {
        lemma_branch_of_split(
            given,
            max_split_samples_per_axis as int,
            (by_x, by_y, by_z),
            (x_index as int, y_index as int, z_index as int),
            (x_cost as int, y_cost as int, z_cost as int),
            sorted,
            left_part,
            right_part,
            left_node.records(),
            right_node.records(),
        );
        assert(node.records() == left_node.records() + right_node.records());
        lemma_contained_in_bounds(node.records(), given);
    }
    node
}

/// Number of split positions sampled per axis when none is given.
pub const DEFAULT_MAX_SPLIT_SAMPLES_PER_AXIS: usize = 10;

/// Bounding volume hierarchy spatial lookup.
///
/// Splits are chosen by the surface area heuristic over at most
/// `max_split_samples_per_axis` sampled positions per axis. Leaves hold at most
/// `entities_per_leaf` records: more per leaf gives a smaller tree, faster
/// building and traversal, and slower final filtering.
///
/// A query walks the tree from the root, enters each node whose box meets the
/// ball, and filters the records of each leaf it reaches by exact distance.
pub struct Bvh {
    entities_per_leaf: usize,
    max_split_samples_per_axis: usize,
    root: Option<BvhNode>,
    prepared: bool,
}

impl View for Bvh {
    type V = Seq<PointRecord>;

    /// The records held by the tree, in traversal order.
    closed spec fn view(&self) -> Seq<PointRecord> {
        match self.root {
            Some(node) => node.records(),
            None => Seq::empty(),
        }
    }
}

impl Bvh {
    pub closed spec fn leaf_capacity(self) -> nat {
        self.entities_per_leaf as nat
    }

    pub closed spec fn split_samples(self) -> nat {
        self.max_split_samples_per_axis as nat
    }

    /// The built tree, if records were given to the last `prepare`.
    pub closed spec fn tree(self) -> Option<BvhNode> {
        self.root
    }

    pub closed spec fn has_been_prepared(self) -> bool {
        self.prepared
    }

    pub closed spec fn wf(self) -> bool {
        &&& self.entities_per_leaf >= 1
        &&& self.max_split_samples_per_axis >= 1
        &&& self.root is Some ==> self.prepared
        &&& match self.root {
            Some(node) => node.boxes_hold_records() && node.leaves_within(self.entities_per_leaf as int),
            None => true,
        }
    }

    /// An empty, not yet prepared hierarchy with the given configuration.
    pub fn new(entities_per_leaf: usize, max_split_samples_per_axis: usize) -> (r: Bvh)
        requires
            entities_per_leaf >= 1,
            max_split_samples_per_axis >= 1,
        ensures
            r.wf(),
            r.leaf_capacity() == entities_per_leaf,
            r.split_samples() == max_split_samples_per_axis,
            !r.has_been_prepared(),
            r.tree() is None,
            r@ == Seq::<PointRecord>::empty(),
    {
        Bvh { entities_per_leaf, max_split_samples_per_axis, root: None, prepared: false }
    }

    /// An empty hierarchy sampling `DEFAULT_MAX_SPLIT_SAMPLES_PER_AXIS` splits per axis.
    pub fn with_entities_per_leaf(entities_per_leaf: usize) -> (r: Bvh)
        requires
            entities_per_leaf >= 1,
        ensures
            r.wf(),
            r.leaf_capacity() == entities_per_leaf,
            r.split_samples() == DEFAULT_MAX_SPLIT_SAMPLES_PER_AXIS,
            !r.has_been_prepared(),
            r@ == Seq::<PointRecord>::empty(),
    {
        Bvh::new(entities_per_leaf, DEFAULT_MAX_SPLIT_SAMPLES_PER_AXIS)
    }

    /// Maximum number of records per leaf.
    pub fn entities_per_leaf(&self) -> (r: usize)
        ensures
            r == self.leaf_capacity(),
    {
        self.entities_per_leaf
    }

    /// Maximum number of split positions sampled per axis.
    pub fn max_split_samples_per_axis(&self) -> (r: usize)
        ensures
            r == self.split_samples(),
    {
        self.max_split_samples_per_axis
    }

    /// Whether `prepare` has been called.
    pub fn is_prepared(&self) -> (r: bool)
        ensures
            r == self.has_been_prepared(),
    {
        self.prepared
    }

    /// The root of the tree; none before `prepare` or after preparing no records.
    pub fn root(&self) -> (r: Option<&BvhNode>)
        ensures
            r is None <==> self.tree() is None,
            r matches Some(node) ==> self.tree() == Some(*node),
    {
        match &self.root {
            Some(node) => Some(node),
            None => None,
        }
    }

    /// Rebuilds the tree from `entities`, discarding the previous one. With no
    /// records the index is left prepared and empty.
    pub fn prepare(&mut self, entities: &[PointRecord])
        requires
            old(self).wf(),
        ensures
            final(self).wf(),
            final(self).has_been_prepared(),
            final(self).leaf_capacity() == old(self).leaf_capacity(),
            final(self).split_samples() == old(self).split_samples(),
            final(self)@.to_multiset() == entities@.to_multiset(),
            final(self)@.len() == entities@.len(),
            final(self).tree() is None <==> entities@.len() == 0,
            final(self).tree() matches Some(node) ==> node.aabb == bounds_of(entities@)
                && node.leaves_within(final(self).leaf_capacity() as int),
    {
        if entities.len() == 0 {
            self.root = None;
            proof {
                assert(entities@ == Seq::<PointRecord>::empty());
            }
        } else {
            let root = split_node(
                copy_records(entities),
                self.entities_per_leaf,
                self.max_split_samples_per_axis,
            );
            self.root = Some(root);
            proof {
                broadcast use vstd::seq_lib::group_to_multiset_ensures;
                assert(root.records().to_multiset().len() == entities@.to_multiset().len());
            }
        }
        self.prepared = true;
    }

    /// The identifiers of the records within `radius` of `sample_point`,
    /// boundary included, in traversal order. Nothing before `prepare`.
    pub fn entities_in_radius(&self, sample_point: Position, radius: u32) -> (r: Vec<u64>)
        requires
            self.wf(),
        ensures
            r@ == ids_within(self@, sample_point, radius),
            !self.has_been_prepared() ==> r@.len() == 0,
            self@.len() == 0 ==> r@.len() == 0,
    {
        match &self.root {
            Some(root) => root.entities_in_radius(sample_point, radius),
            None => Vec::new(),
        }
    }
}

} // verus!
