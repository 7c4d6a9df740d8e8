//! The index that callers hold: one of the lookup algorithms, chosen when it
//! is made.
use vstd::prelude::*;

use crate::bvh::Bvh;
use crate::geometry::{PointRecord, Position};
use crate::naive::Naive;
use crate::query::ids_within;

verus! {

/// The available lookup algorithms.
pub enum SpatialLookupAlgorithm {
    Bvh(Bvh),
    Naive(Naive),
}

/// Spatial index over the records of the current cycle.
pub struct SpatialLookupState {
    algorithm: SpatialLookupAlgorithm,
}

impl View for SpatialLookupState {
    type V = Seq<PointRecord>;

    /// The records the active algorithm holds.
    closed spec fn view(&self) -> Seq<PointRecord> {
        match self.algorithm {
            SpatialLookupAlgorithm::Bvh(b) => b@,
            SpatialLookupAlgorithm::Naive(n) => n@,
        }
    }
}

impl SpatialLookupAlgorithm {
    pub open spec fn wf(self) -> bool {
        match self {
            SpatialLookupAlgorithm::Bvh(b) => b.wf(),
            SpatialLookupAlgorithm::Naive(_) => true,
        }
    }
}

impl Default for SpatialLookupState {
    /// A naive index holding no records.
    fn default() -> (r: SpatialLookupState)
        ensures
            r.wf(),
            r.uses_naive(),
            !r.has_been_prepared(),
            r@ == Seq::<PointRecord>::empty(),
    {
        SpatialLookupState { algorithm: SpatialLookupAlgorithm::Naive(Naive::new()) }
    }
}

impl SpatialLookupState {
    pub closed spec fn wf(self) -> bool {
        self.algorithm.wf()
    }

    pub closed spec fn uses_naive(self) -> bool {
        self.algorithm is Naive
    }

    pub closed spec fn has_been_prepared(self) -> bool {
        match self.algorithm {
            SpatialLookupAlgorithm::Bvh(b) => b.has_been_prepared(),
            SpatialLookupAlgorithm::Naive(n) => n.has_been_prepared(),
        }
    }

    /// Whether `prepare` has been called on the active algorithm.
    pub fn is_prepared(&self) -> (r: bool)
        ensures
            r == self.has_been_prepared(),
    {
        match &self.algorithm {
            SpatialLookupAlgorithm::Bvh(b) => b.is_prepared(),
            SpatialLookupAlgorithm::Naive(n) => n.is_prepared(),
        }
    }

    /// An index that answers through `algorithm`.
    pub fn new(algorithm: SpatialLookupAlgorithm) -> (r: SpatialLookupState)
        requires
            algorithm.wf(),
        ensures
            r.wf(),
            r.uses_naive() <==> algorithm is Naive,
            r.has_been_prepared() == (match algorithm {
                SpatialLookupAlgorithm::Bvh(b) => b.has_been_prepared(),
                SpatialLookupAlgorithm::Naive(n) => n.has_been_prepared(),
            }),
            r@ == (match algorithm {
                SpatialLookupAlgorithm::Bvh(b) => b@,
                SpatialLookupAlgorithm::Naive(n) => n@,
            }),
    {
        SpatialLookupState { algorithm }
    }

    /// Replaces the held records by `entities`; the algorithm stays the same.
    pub fn prepare(&mut self, entities: &[PointRecord])
        requires
            old(self).wf(),
        ensures
            final(self).wf(),
            final(self).uses_naive() == old(self).uses_naive(),
            final(self).has_been_prepared(),
            final(self)@.to_multiset() == entities@.to_multiset(),
            final(self).uses_naive() ==> final(self)@ == entities@,
    {
        match &mut self.algorithm {
            SpatialLookupAlgorithm::Bvh(b) => b.prepare(entities),
            SpatialLookupAlgorithm::Naive(n) => n.prepare(entities),
        }
    }

    /// The identifiers of the held records within `radius` of `sample_point`,
    /// boundary included.
    pub fn entities_in_radius(&self, sample_point: Position, radius: u32) -> (r: Vec<u64>)
        requires
            self.wf(),
        ensures
            r@ == ids_within(self@, sample_point, radius),
            !self.has_been_prepared() ==> r@.len() == 0,
            self@.len() == 0 ==> r@.len() == 0,
    {
        match &self.algorithm {
            SpatialLookupAlgorithm::Bvh(b) => b.entities_in_radius(sample_point, radius),
            SpatialLookupAlgorithm::Naive(n) => n.entities_in_radius(sample_point, radius),
        }
    }
}

} // verus!
