use vstd::prelude::*;

verus! {

/// A reasoning feature a profile may offer.
#[derive(Debug, Clone, Copy, PartialEq, Eq, Hash, Structural)]
pub enum ReasonerFeature {
    RdfsSubclassClosure,
    RdfsSubpropertyClosure,
    RdfsTypePropagation,
    RdfsDomainRangeTyping,
    OwlEqualityReasoning,
    OwlPropertyChainAxioms,
    OwlClassSatisfiability,
    OwlConsistencyCheck,
    IncrementalRefresh,
    ExplanationTrace,
}

/// How far a capability has been built.
#[derive(Debug, Clone, Copy, PartialEq, Eq, Hash, Structural)]
pub enum CapabilityMaturity {
    Experimental,
    Mvp,
    Target,
}

/// A feature together with its maturity and default state.
#[derive(Debug, Clone, Copy, PartialEq, Eq, Hash, Structural)]
pub struct ReasonerCapability {
    pub feature: ReasonerFeature,
    pub maturity: CapabilityMaturity,
    pub enabled_by_default: bool,
}

/// The kind of a reasoning run.
#[derive(Debug, Clone, Copy, PartialEq, Eq, Hash, Structural)]
pub enum ExecutionKind {
    FullMaterialization,
    IncrementalRefresh,
    ValidationOnly,
}

/// What a reasoning run is asked to do for one dataset revision.
#[derive(Debug, Clone, Copy, PartialEq, Eq, Hash, Structural)]
pub struct ReasonerExecutionPlan {
    pub revision: u64,
    pub kind: ExecutionKind,
    pub changed_asserted_triples: Option<u64>,
}

impl ReasonerExecutionPlan {
    /// A full materialization of `revision`.
    pub fn full_materialization(revision: u64) -> (r: Self)
        ensures
            r.revision == revision,
            r.kind == ExecutionKind::FullMaterialization,
            r.changed_asserted_triples is None,
    {
        ReasonerExecutionPlan {
            revision,
            kind: ExecutionKind::FullMaterialization,
            changed_asserted_triples: None,
        }
    }

    /// A validation-only run of `revision`.
    pub fn validation_only(revision: u64) -> (r: Self)
        ensures
            r.revision == revision,
            r.kind == ExecutionKind::ValidationOnly,
            r.changed_asserted_triples is None,
    {
        ReasonerExecutionPlan {
            revision,
            kind: ExecutionKind::ValidationOnly,
            changed_asserted_triples: None,
        }
    }
}

/// How a reasoning run ended.
#[derive(Debug, Clone, Copy, PartialEq, Eq, Hash, Structural)]
pub enum ReasonerRunStatus {
    Completed,
    Skipped,
    Rejected,
}

/// Counters of a reasoning run.
#[derive(Debug, Clone, Copy, PartialEq, Eq, Default, Hash, Structural)]
pub struct ReasonerRunMetrics {
    pub asserted_triples_seen: u64,
    pub inferred_triples_produced: u64,
    pub consistency_violations: u64,
    pub elapsed_millis: u64,
}

/// The report of a reasoning run.
#[derive(Debug, Clone, PartialEq, Eq)]
pub struct ReasonerRunReport {
    pub profile: &'static str,
    pub mode: &'static str,
    pub revision: u64,
    pub status: ReasonerRunStatus,
    pub metrics: ReasonerRunMetrics,
    pub notes: Vec<&'static str>,
}

/// The inferred result of a reasoning run with its report.
#[derive(Debug, Clone, PartialEq, Eq)]
pub struct ReasoningOutput<T> {
    pub inferred: T,
    pub report: ReasonerRunReport,
}

} // verus!
