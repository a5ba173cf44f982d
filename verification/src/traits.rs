use vstd::prelude::*;

use crate::error::NreseResult;
use crate::model::TripleRef;
use crate::reasoning::{ReasonerCapability, ReasonerExecutionPlan, ReasoningOutput};

verus! {

/// How much of a snapshot the engine can read.
#[derive(Debug, Clone, Copy, PartialEq, Eq, Default, Structural)]
pub struct SnapshotCoverageStats {
    pub supported_triples: u64,
    pub unsupported_triples: u64,
    pub unsupported_blank_node_subjects: u64,
    pub unsupported_blank_node_objects: u64,
    pub unsupported_literal_objects: u64,
    pub flattened_named_graph_quads: u64,
}

/// Coverage statistics that count `supported` and `unsupported` triples and
/// nothing else.
pub open spec fn basic_coverage(supported: u64, unsupported: u64) -> SnapshotCoverageStats {
    SnapshotCoverageStats {
        supported_triples: supported,
        unsupported_triples: unsupported,
        unsupported_blank_node_subjects: 0,
        unsupported_blank_node_objects: 0,
        unsupported_literal_objects: 0,
        flattened_named_graph_quads: 0,
    }
}

/// Coverage statistics from the two triple counts of a snapshot.
pub fn coverage_from_counts(supported: u64, unsupported: u64) -> (r: SnapshotCoverageStats)
    ensures
        r == basic_coverage(supported, unsupported),
{
    SnapshotCoverageStats {
        supported_triples: supported,
        unsupported_triples: unsupported,
        unsupported_blank_node_subjects: 0,
        unsupported_blank_node_objects: 0,
        unsupported_literal_objects: 0,
        flattened_named_graph_quads: 0,
    }
}

/// A source of IRI triples.
pub trait TripleSource {
    /// The supported triples of the source.
    fn triples(&self) -> Vec<TripleRef<'_>>;
}

/// A read-only dataset revision that reasoning runs over.
pub trait DatasetSnapshot: TripleSource {
    /// The revision of the dataset.
    fn revision(&self) -> u64;

    /// A key that identifies the snapshot content, when one is known.
    fn cache_key(&self) -> (r: Option<u64>)
        default_ensures
            r is None,
    {
        None
    }

    /// Number of supported triples.
    fn asserted_triple_count(&self) -> u64 {
        self.triples().len() as u64
    }

    /// Number of triples the engine cannot read.
    fn unsupported_triple_count(&self) -> (r: u64)
        default_ensures
            r == 0,
    {
        0
    }

    /// Supported and unsupported triple counts.
    fn coverage_stats(&self) -> (r: SnapshotCoverageStats)
        default_ensures
            exists|supported: u64, unsupported: u64| r == basic_coverage(supported, unsupported),
    {
        coverage_from_counts(self.asserted_triple_count(), self.unsupported_triple_count())
    }
}

/// A reasoning engine over snapshots of type `S`.
pub trait ReasonerEngine<S: DatasetSnapshot> {
    type Inferred;

    fn profile_name(&self) -> &'static str;

    fn mode_name(&self) -> &'static str;

    fn capabilities(&self) -> &[ReasonerCapability];

    fn plan(&self, snapshot: &S) -> NreseResult<ReasonerExecutionPlan>;

    fn run(
        &self,
        snapshot: &S,
        plan: &ReasonerExecutionPlan,
    ) -> NreseResult<ReasoningOutput<Self::Inferred>>;
}

} // verus!
