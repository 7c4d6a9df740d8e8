//! Ordering records along one axis.
use vstd::prelude::*;

use crate::geometry::{PointRecord, Position, coord};

verus! {

/// The records are in non-decreasing order of their coordinate on `axis`.
pub open spec fn sorted_on(s: Seq<PointRecord>, axis: int) -> bool {
    forall|a: int, b: int|
        0 <= a < b < s.len() ==> coord(#[trigger] s[a].position, axis) <= coord(#[trigger] s[b].position, axis)
}

/// The coordinate of `p` on axis 0 (x), 1 (y) or 2 (z).
pub fn axis_coord(p: Position, axis: usize) -> (r: i32)
    ensures
        r as int == coord(p, axis as int),
{
    if axis == 0 {
        p.x
    } else if axis == 1 {
        p.y
    } else {
        p.z
    }
}

/// Merges two runs sorted on `axis` into one; on equal coordinates the record
/// of `a` comes first.
fn merge(a: &[PointRecord], b: &[PointRecord], axis: usize) -> (r: Vec<PointRecord>)
    requires
        sorted_on(a@, axis as int),
        sorted_on(b@, axis as int),
    ensures
        r@.len() == a@.len() + b@.len(),
        r@.to_multiset() == (a@ + b@).to_multiset(),
        sorted_on(r@, axis as int),
{
    broadcast use vstd::seq_lib::group_to_multiset_ensures;
    broadcast use vstd::multiset::group_multiset_axioms;
    let ghost ax = axis as int;
    let mut out: Vec<PointRecord> = Vec::new();
    let mut i: usize = 0;
    let mut j: usize = 0;
    while i < a.len() || j < b.len()
        invariant
            i <= a@.len(),
            j <= b@.len(),
            ax == axis as int,
            sorted_on(a@, ax),
            sorted_on(b@, ax),
            out@.len() == i + j,
            out@.to_multiset() == a@.subrange(0, i as int).to_multiset().add(
                b@.subrange(0, j as int).to_multiset(),
            ),
            sorted_on(out@, ax),
            out@.len() > 0 && i < a@.len() ==> coord(out@.last().position, ax) <= coord(
                a@[i as int].position,
                ax,
            ),
            out@.len() > 0 && j < b@.len() ==> coord(out@.last().position, ax) <= coord(
                b@[j as int].position,
                ax,
            ),
        decreases a@.len() + b@.len() - i - j,
    {
        let take_a = if i < a.len() && j < b.len() {
            axis_coord(a[i].position, axis) <= axis_coord(b[j].position, axis)
        } else {
            i < a.len()
        };
        let ghost before = out@;
        if take_a {
            let item = a[i];
            out.push(item);
            proof {
                assert(a@.subrange(0, i + 1) == a@.subrange(0, i as int).push(item));
                assert(out@ == before.push(item));
                vstd::seq_lib::to_multiset_build(before, item);
                vstd::seq_lib::to_multiset_build(a@.subrange(0, i as int), item);
                assert(out@.to_multiset() =~= a@.subrange(0, i + 1).to_multiset().add(
                    b@.subrange(0, j as int).to_multiset(),
                ));
                assert forall|x: int, y: int| 0 <= x < y < out@.len() implies coord(
                    #[trigger] out@[x].position,
                    ax,
                ) <= coord(#[trigger] out@[y].position, ax) by {
                    if y == out@.len() - 1 && x < y - 1 {
                        assert(coord(before[x].position, ax) <= coord(before.last().position, ax));
                    }
                }
                if i + 1 < a@.len() {
                    assert(coord(a@[i as int].position, ax) <= coord(a@[i + 1].position, ax));
                }
            }
            i += 1;
        } else {
            let item = b[j];
            out.push(item);
            proof {
                assert(b@.subrange(0, j + 1) == b@.subrange(0, j as int).push(item));
                assert(out@ == before.push(item));
                vstd::seq_lib::to_multiset_build(before, item);
                vstd::seq_lib::to_multiset_build(b@.subrange(0, j as int), item);
                assert(out@.to_multiset() =~= a@.subrange(0, i as int).to_multiset().add(
                    b@.subrange(0, j + 1).to_multiset(),
                ));
                assert forall|x: int, y: int| 0 <= x < y < out@.len() implies coord(
                    #[trigger] out@[x].position,
                    ax,
                ) <= coord(#[trigger] out@[y].position, ax) by {
                    if y == out@.len() - 1 && x < y - 1 {
                        assert(coord(before[x].position, ax) <= coord(before.last().position, ax));
                    }
                }
                if j + 1 < b@.len() {
                    assert(coord(b@[j as int].position, ax) <= coord(b@[j + 1].position, ax));
                }
            }
            j += 1;
        }
    }
    proof {
        assert(a@.subrange(0, a@.len() as int) == a@);
        assert(b@.subrange(0, b@.len() as int) == b@);
        vstd::seq_lib::lemma_multiset_commutative(a@, b@);
    }
    out
}

/// Sorts the records by their coordinate on `axis`, keeping the order of
/// records with equal coordinates.
pub fn sort_on_axis(v: &mut Vec<PointRecord>, axis: usize)
    ensures
        final(v)@.len() == old(v)@.len(),
        final(v)@.to_multiset() == old(v)@.to_multiset(),
        sorted_on(final(v)@, axis as int),
    decreases old(v)@.len(),
{
    let n = v.len();
    if n <= 1 {
        return;
    }
    let ghost whole = v@;
    let mut right = v.split_off(n / 2);
    proof {
        assert(whole == v@ + right@);
        vstd::seq_lib::lemma_multiset_commutative(v@, right@);
    }
    let ghost left_before = v@;
    let ghost right_before = right@;
    sort_on_axis(v, axis);
    sort_on_axis(&mut right, axis);
    let merged = merge(v.as_slice(), right.as_slice(), axis);
    proof {
        vstd::seq_lib::lemma_multiset_commutative(v@, right@);
    }
    *v = merged;
}

} // verus!
