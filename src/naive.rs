//! Naive index: keep the records and scan them all on every query.
use vstd::prelude::*;

use crate::geometry::{PointRecord, Position, copy_records};
use crate::query::{collect_within, ids_within};

verus! {

/// Naive spatial lookup: every query scans all records.
///
/// It beats the hierarchy when there is only one query per rebuild, or when
/// there are few records.
#[derive(Debug)]
pub struct Naive {
    entities: Vec<PointRecord>,
    prepared: bool,
}

impl View for Naive {
    type V = Seq<PointRecord>;

    closed spec fn view(&self) -> Seq<PointRecord> {
        self.entities@
    }
}

impl Default for Naive {
    fn default() -> (r: Naive)
        ensures
            r@ == Seq::<PointRecord>::empty(),
            !r.has_been_prepared(),
    {
        Naive::new()
    }
}

impl Naive {
    /// Nothing is held before the first `prepare`.
    #[verifier::type_invariant]
    spec fn inv(self) -> bool {
        !self.prepared ==> self.entities@.len() == 0
    }

    pub closed spec fn has_been_prepared(self) -> bool {
        self.prepared
    }

    /// An index that holds no records yet.
    pub fn new() -> (r: Naive)
        ensures
            r@ == Seq::<PointRecord>::empty(),
            !r.has_been_prepared(),
    {
        Naive { entities: Vec::new(), prepared: false }
    }

    /// Whether `prepare` has been called.
    pub fn is_prepared(&self) -> (r: bool)
        ensures
            r == self.has_been_prepared(),
    {
        self.prepared
    }

    /// Replaces the stored records by a copy of `entities`.
    pub fn prepare(&mut self, entities: &[PointRecord])
        ensures
            final(self)@ == entities@,
            final(self).has_been_prepared(),
    {
        *self = Naive { entities: copy_records(entities), prepared: true };
    }

    /// The identifiers of the stored records within `radius` of `sample_point`,
    /// boundary included, in storage order.
    pub fn entities_in_radius(&self, sample_point: Position, radius: u32) -> (r: Vec<u64>)
        ensures
            r@ == ids_within(self@, sample_point, radius),
            !self.has_been_prepared() ==> r@.len() == 0,
    {
        proof {
            use_type_invariant(self);
        }
        collect_within(self.entities.as_slice(), sample_point, radius)
    }
}

} // verus!
