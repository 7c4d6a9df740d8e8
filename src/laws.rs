//! Properties that relate the index's operations to one another.
use vstd::prelude::*;

use crate::bvh::{Bvh, BvhNode};
use crate::geometry::{PointRecord, Position, bounds_of, lemma_bounds_contain, lemma_bounds_tight, within};
use crate::naive::Naive;
use crate::query::{ids_within, lemma_ids_within_member, lemma_ids_within_permutation};

verus! {

/// A hierarchy and a naive index prepared with the same records answer every
/// query with the same set of identifiers.
pub proof fn lemma_bvh_agrees_with_naive(
    points: Seq<PointRecord>,
    bvh: Bvh,
    naive: Naive,
    center: Position,
    radius: u32,
)
    requires
        bvh@.to_multiset() == points.to_multiset(),
        naive@ == points,
    ensures
        ids_within(bvh@, center, radius).to_set() == ids_within(naive@, center, radius).to_set(),
{
    lemma_ids_within_permutation(bvh@, naive@, center, radius);
}

/// After a rebuild from `points`, an identifier is answered exactly when one
/// of `points` carries it within the ball: nothing of earlier records remains.
pub proof fn lemma_answers_only_prepared_points(
    points: Seq<PointRecord>,
    bvh: Bvh,
    center: Position,
    radius: u32,
    id: u64,
)
    requires
        bvh@.to_multiset() == points.to_multiset(),
    ensures
        ids_within(bvh@, center, radius).contains(id) <==> exists|k: int|
            0 <= k < points.len() && #[trigger] points[k].entity == id && within(
                points[k].position,
                center,
                radius,
            ),
{
    lemma_ids_within_permutation(bvh@, points, center, radius);
    lemma_ids_within_member(points, center, radius, id);
    assert(ids_within(bvh@, center, radius).contains(id) <==> ids_within(bvh@, center, radius).to_set().contains(id));
    assert(ids_within(points, center, radius).contains(id) <==> ids_within(points, center, radius).to_set().contains(id));
}

/// The root box of a tree built from `points` holds every stored position,
/// and each of its faces touches one of them.
pub proof fn lemma_root_box_is_tight(points: Seq<PointRecord>, root: BvhNode)
    requires
        points.len() > 0,
        root.aabb == bounds_of(points),
        root.records().to_multiset() == points.to_multiset(),
    ensures
        forall|k: int| 0 <= k < root.records().len() ==> root.aabb.contains(#[trigger] root.records()[k].position),
        exists|k: int| 0 <= k < points.len() && #[trigger] points[k].position.x == root.aabb.min.x,
        exists|k: int| 0 <= k < points.len() && #[trigger] points[k].position.y == root.aabb.min.y,
        exists|k: int| 0 <= k < points.len() && #[trigger] points[k].position.z == root.aabb.min.z,
        exists|k: int| 0 <= k < points.len() && #[trigger] points[k].position.x == root.aabb.max.x,
        exists|k: int| 0 <= k < points.len() && #[trigger] points[k].position.y == root.aabb.max.y,
        exists|k: int| 0 <= k < points.len() && #[trigger] points[k].position.z == root.aabb.max.z,
{
    broadcast use vstd::seq_lib::group_to_multiset_ensures;
    lemma_bounds_contain(points);
    lemma_bounds_tight(points);
    let s = root.records();
    assert forall|k: int| 0 <= k < s.len() implies root.aabb.contains(#[trigger] s[k].position) by {
        assert(s.contains(s[k]));
        assert(points.to_multiset().count(s[k]) > 0);
        let j = choose|j: int| 0 <= j < points.len() && points[j] == s[k];
        assert(root.aabb.contains(points[j].position));
    }
}

} // verus!
