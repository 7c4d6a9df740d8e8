//! What a radius query answers, stated over sequences of records.
use vstd::prelude::*;

use crate::geometry::{PointRecord, Position, is_within, within};

verus! {

/// The identifiers of the records of `s` within `radius` of `center`, in the
/// order of `s`.
pub open spec fn ids_within(s: Seq<PointRecord>, center: Position, radius: u32) -> Seq<u64>
    decreases s.len(),
{
    if s.len() == 0 {
        Seq::empty()
    } else {
        let rest = ids_within(s.drop_last(), center, radius);
        if within(s.last().position, center, radius) {
            rest.push(s.last().entity)
        } else {
            rest
        }
    }
}

/// Querying a concatenation concatenates the answers.
pub proof fn lemma_ids_within_append(a: Seq<PointRecord>, b: Seq<PointRecord>, center: Position, radius: u32)
    ensures
        ids_within(a + b, center, radius) == ids_within(a, center, radius) + ids_within(b, center, radius),
    decreases b.len(),
{
    if b.len() == 0 {
        assert(a + b == a);
        assert(ids_within(b, center, radius) == Seq::<u64>::empty());
        assert(ids_within(a, center, radius) + Seq::<u64>::empty() == ids_within(a, center, radius));
    } else {
        lemma_ids_within_append(a, b.drop_last(), center, radius);
        assert((a + b).drop_last() == a + b.drop_last());
        assert((a + b).last() == b.last());
        let l = ids_within(a, center, radius);
        let r = ids_within(b.drop_last(), center, radius);
        assert((l + r).push(b.last().entity) == l + r.push(b.last().entity));
    }
}

/// An identifier is answered exactly when some record carrying it lies within the ball.
pub proof fn lemma_ids_within_member(s: Seq<PointRecord>, center: Position, radius: u32, id: u64)
    ensures
        ids_within(s, center, radius).contains(id) <==> exists|k: int|
            0 <= k < s.len() && #[trigger] s[k].entity == id && within(s[k].position, center, radius),
    decreases s.len(),
{
    if s.len() > 0 {
        let t = s.drop_last();
        lemma_ids_within_member(t, center, radius, id);
        let rest = ids_within(t, center, radius);
        if ids_within(s, center, radius).contains(id) {
            if rest.contains(id) {
                let k = choose|k: int|
                    0 <= k < t.len() && #[trigger] t[k].entity == id && within(t[k].position, center, radius);
                assert(s[k] == t[k]);
            } else {
                let j = choose|j: int| 0 <= j < ids_within(s, center, radius).len()
                    && ids_within(s, center, radius)[j] == id;
                assert(j == rest.len());
                assert(s[s.len() - 1].entity == id);
            }
        }
        if exists|k: int|
            0 <= k < s.len() && #[trigger] s[k].entity == id && within(s[k].position, center, radius) {
            let k = choose|k: int|
                0 <= k < s.len() && #[trigger] s[k].entity == id && within(s[k].position, center, radius);
            if k < s.len() - 1 {
                assert(t[k] == s[k]);
                assert(rest.contains(id));
                if within(s.last().position, center, radius) {
                    let j = choose|j: int| 0 <= j < rest.len() && rest[j] == id;
                    assert(rest.push(s.last().entity)[j] == id);
                }
            } else {
                assert(rest.push(s.last().entity)[rest.len() as int] == id);
            }
        }
    }
}

/// Records that hold the same items, in whatever order, give the same answers as a set.
pub proof fn lemma_ids_within_permutation(a: Seq<PointRecord>, b: Seq<PointRecord>, center: Position, radius: u32)
    requires
        a.to_multiset() == b.to_multiset(),
    ensures
        ids_within(a, center, radius).to_set() == ids_within(b, center, radius).to_set(),
{
    assert forall|id: u64| ids_within(a, center, radius).to_set().contains(id) implies ids_within(
        b,
        center,
        radius,
    ).to_set().contains(id) by {
        lemma_ids_within_member(a, center, radius, id);
        lemma_ids_within_member(b, center, radius, id);
        lemma_member_moves(a, b, center, radius, id);
    }
    assert forall|id: u64| ids_within(b, center, radius).to_set().contains(id) implies ids_within(
        a,
        center,
        radius,
    ).to_set().contains(id) by {
        lemma_ids_within_member(a, center, radius, id);
        lemma_ids_within_member(b, center, radius, id);
        lemma_member_moves(b, a, center, radius, id);
    }
    assert(ids_within(a, center, radius).to_set() =~= ids_within(b, center, radius).to_set());
}

proof fn lemma_member_moves(a: Seq<PointRecord>, b: Seq<PointRecord>, center: Position, radius: u32, id: u64)
    requires
        a.to_multiset() == b.to_multiset(),
        exists|k: int| 0 <= k < a.len() && #[trigger] a[k].entity == id && within(a[k].position, center, radius),
    ensures
        exists|k: int| 0 <= k < b.len() && #[trigger] b[k].entity == id && within(b[k].position, center, radius),
{
    broadcast use vstd::seq_lib::group_to_multiset_ensures;
    let k = choose|k: int| 0 <= k < a.len() && #[trigger] a[k].entity == id && within(a[k].position, center, radius);
    let rec = a[k];
    assert(a.contains(rec));
    assert(a.to_multiset().count(rec) > 0);
    assert(b.contains(rec));
    let j = choose|j: int| 0 <= j < b.len() && b[j] == rec;
    assert(b[j].entity == id);
}

/// When no record lies within the ball, nothing is answered.
pub proof fn lemma_ids_within_none(s: Seq<PointRecord>, center: Position, radius: u32)
    requires
        forall|k: int| 0 <= k < s.len() ==> !within(#[trigger] s[k].position, center, radius),
    ensures
        ids_within(s, center, radius) == Seq::<u64>::empty(),
    decreases s.len(),
{
    if s.len() > 0 {
        let t = s.drop_last();
        assert forall|k: int| 0 <= k < t.len() implies !within(#[trigger] t[k].position, center, radius) by {
            assert(t[k] == s[k]);
        }
        lemma_ids_within_none(t, center, radius);
        assert(!within(s[s.len() - 1].position, center, radius));
    }
}

/// The identifiers of `records` within `radius` of `center`, boundary
/// included, in the order of `records`.
pub fn collect_within(records: &[PointRecord], center: Position, radius: u32) -> (r: Vec<u64>)
    ensures
        r@ == ids_within(records@, center, radius),
{
    let mut found: Vec<u64> = Vec::new();
    let mut i: usize = 0;
    while i < records.len()
        invariant
            i <= records@.len(),
            found@ == ids_within(records@.subrange(0, i as int), center, radius),
        decreases records@.len() - i,
    {
        let record = records[i];
        assert(records@.subrange(0, i + 1).drop_last() == records@.subrange(0, i as int));
        if is_within(record.position, center, radius) {
            found.push(record.entity);
        }
        i += 1;
    }
    assert(records@.subrange(0, records@.len() as int) == records@);
    found
}

} // verus!
