use vstd::prelude::*;

use crate::config::{
    default_rules_mvp_config, profile_mode, ReasonerConfig, ReasonerProfileConfig, ReasoningMode,
    RulesMvpConfig,
};
use crate::policy::{FeatureMode, RulesMvpFeaturePolicy, RulesMvpPreset};
use crate::reasoning::{CapabilityMaturity, ReasonerCapability, ReasonerFeature};

verus! {

/// The public description of a configured reasoner.
#[derive(Debug, Clone, PartialEq, Eq)]
pub struct ReasonerProfile {
    pub name: &'static str,
    pub mode: &'static str,
    pub semantic_tier: &'static str,
    pub capabilities: Vec<ReasonerCapability>,
}

/// The name of a reasoning mode.
pub open spec fn mode_text(mode: ReasoningMode) -> Seq<char> {
    match mode {
        ReasoningMode::Disabled => "disabled"@,
        ReasoningMode::RulesMvp => "rules-mvp"@,
        ReasoningMode::OwlDlTarget => "owl-dl-target"@,
    }
}

/// The semantic tier of a preset.
pub open spec fn preset_tier_text(p: RulesMvpPreset) -> Seq<char> {
    match p {
        RulesMvpPreset::RdfsCore => "rdfs-core"@,
        RulesMvpPreset::BoundedOwl => "bounded-owl"@,
        RulesMvpPreset::Custom => "custom"@,
    }
}

/// A capability value.
pub open spec fn capability(
    feature: ReasonerFeature,
    maturity: CapabilityMaturity,
    enabled: bool,
) -> ReasonerCapability {
    ReasonerCapability { feature, maturity, enabled_by_default: enabled }
}

/// The capabilities of the owl-dl-target profile.
pub open spec fn owl_dl_target_capabilities() -> Seq<ReasonerCapability> {
    seq![
        capability(ReasonerFeature::OwlClassSatisfiability, CapabilityMaturity::Target, false),
        capability(ReasonerFeature::OwlConsistencyCheck, CapabilityMaturity::Target, false),
        capability(ReasonerFeature::IncrementalRefresh, CapabilityMaturity::Target, false),
        capability(ReasonerFeature::ExplanationTrace, CapabilityMaturity::Experimental, false),
    ]
}

/// The capabilities of the rules-mvp profile under `p`: every rule at MVP
/// maturity, enabled as the policy says.
pub open spec fn rules_mvp_capability_list(p: RulesMvpFeaturePolicy) -> Seq<ReasonerCapability> {
    seq![
        capability(ReasonerFeature::RdfsSubclassClosure, CapabilityMaturity::Mvp, p.rdfs_subclass_closure == FeatureMode::Enabled),
        capability(ReasonerFeature::RdfsSubpropertyClosure, CapabilityMaturity::Mvp, p.rdfs_subproperty_closure == FeatureMode::Enabled),
        capability(ReasonerFeature::RdfsTypePropagation, CapabilityMaturity::Mvp, p.rdfs_type_propagation == FeatureMode::Enabled),
        capability(ReasonerFeature::RdfsDomainRangeTyping, CapabilityMaturity::Mvp, p.rdfs_domain_range_typing == FeatureMode::Enabled),
        capability(ReasonerFeature::OwlEqualityReasoning, CapabilityMaturity::Mvp, p.owl_equality_reasoning == FeatureMode::Enabled),
        capability(ReasonerFeature::OwlPropertyChainAxioms, CapabilityMaturity::Mvp, p.owl_property_chain_axioms == FeatureMode::Enabled),
        capability(ReasonerFeature::OwlConsistencyCheck, CapabilityMaturity::Mvp, p.owl_consistency_check == FeatureMode::Enabled),
    ]
}

/// The text fields and capabilities of a profile.
pub open spec fn profile_view(p: ReasonerProfile) -> (
    Seq<char>,
    Seq<char>,
    Seq<char>,
    Seq<ReasonerCapability>,
) {
    (p.name@, p.mode@, p.semantic_tier@, p.capabilities@)
}

/// The profile a configuration resolves to.
pub open spec fn expected_profile(config: ReasonerProfileConfig) -> (
    Seq<char>,
    Seq<char>,
    Seq<char>,
    Seq<ReasonerCapability>,
) {
    match config {
        ReasonerProfileConfig::Disabled => (
            "nrese-disabled"@,
            mode_text(ReasoningMode::Disabled),
            "disabled"@,
            Seq::empty(),
        ),
        ReasonerProfileConfig::RulesMvp(c) => (
            "nrese-rules-mvp"@,
            mode_text(ReasoningMode::RulesMvp),
            preset_tier_text(c.preset),
            rules_mvp_capability_list(c.feature_policy),
        ),
        ReasonerProfileConfig::OwlDlTarget => (
            "nrese-owl-dl-target"@,
            mode_text(ReasoningMode::OwlDlTarget),
            "owl-dl-target"@,
            owl_dl_target_capabilities(),
        ),
    }
}

/// The default profile configuration of a mode.
pub open spec fn mode_default_config(mode: ReasoningMode) -> ReasonerProfileConfig {
    match mode {
        ReasoningMode::Disabled => ReasonerProfileConfig::Disabled,
        ReasoningMode::RulesMvp => ReasonerProfileConfig::RulesMvp(default_rules_mvp_config()),
        ReasoningMode::OwlDlTarget => ReasonerProfileConfig::OwlDlTarget,
    }
}

/// The profile of `mode` with default settings: the profile of
/// `ReasonerConfig::for_mode(mode)`.
pub fn profile_for_mode(mode: ReasoningMode) -> (r: ReasonerProfile)
    ensures
        profile_view(r) == expected_profile(mode_default_config(mode)),
        r.mode@ == mode_text(mode),
{
    profile_for_config(&ReasonerConfig::for_mode(mode))
}

/// The profile of a configuration.
pub fn profile_for_config(config: &ReasonerConfig) -> (r: ReasonerProfile)
    ensures
        profile_view(r) == expected_profile(config.profile),
        r.mode@ == mode_text(profile_mode(config.profile)),
{
    match &config.profile {
        ReasonerProfileConfig::Disabled => {
            let r = ReasonerProfile {
                name: "nrese-disabled",
                mode: mode_name(ReasoningMode::Disabled),
                semantic_tier: "disabled",
                capabilities: Vec::new(),
            };
            assert(r.capabilities@ =~= Seq::<ReasonerCapability>::empty());
            r
        },
        ReasonerProfileConfig::RulesMvp(rules_mvp) => ReasonerProfile {
            name: "nrese-rules-mvp",
            mode: mode_name(ReasoningMode::RulesMvp),
            semantic_tier: rules_mvp.preset.semantic_tier(),
            capabilities: rules_mvp_capabilities(rules_mvp),
        },
        ReasonerProfileConfig::OwlDlTarget => {
            let r = ReasonerProfile {
                name: "nrese-owl-dl-target",
                mode: mode_name(ReasoningMode::OwlDlTarget),
                semantic_tier: "owl-dl-target",
                capabilities: vec![
                    ReasonerCapability {
                        feature: ReasonerFeature::OwlClassSatisfiability,
                        maturity: CapabilityMaturity::Target,
                        enabled_by_default: false,
                    },
                    ReasonerCapability {
                        feature: ReasonerFeature::OwlConsistencyCheck,
                        maturity: CapabilityMaturity::Target,
                        enabled_by_default: false,
                    },
                    ReasonerCapability {
                        feature: ReasonerFeature::IncrementalRefresh,
                        maturity: CapabilityMaturity::Target,
                        enabled_by_default: false,
                    },
                    ReasonerCapability {
                        feature: ReasonerFeature::ExplanationTrace,
                        maturity: CapabilityMaturity::Experimental,
                        enabled_by_default: false,
                    },
                ],
            };
            assert(r.capabilities@ =~= owl_dl_target_capabilities());
            r
        },
    }
}

fn rules_mvp_capabilities(config: &RulesMvpConfig) -> (r: Vec<ReasonerCapability>)
    ensures
        r@ == rules_mvp_capability_list(config.feature_policy),
{
    let policy = config.feature_policy;
    let r = vec![
        ReasonerCapability {
            feature: ReasonerFeature::RdfsSubclassClosure,
            maturity: CapabilityMaturity::Mvp,
            enabled_by_default: policy.rdfs_subclass_closure_enabled(),
        },
        ReasonerCapability {
            feature: ReasonerFeature::RdfsSubpropertyClosure,
            maturity: CapabilityMaturity::Mvp,
            enabled_by_default: policy.rdfs_subproperty_closure_enabled(),
        },
        ReasonerCapability {
            feature: ReasonerFeature::RdfsTypePropagation,
            maturity: CapabilityMaturity::Mvp,
            enabled_by_default: policy.rdfs_type_propagation_enabled(),
        },
        ReasonerCapability {
            feature: ReasonerFeature::RdfsDomainRangeTyping,
            maturity: CapabilityMaturity::Mvp,
            enabled_by_default: policy.rdfs_domain_range_typing_enabled(),
        },
        ReasonerCapability {
            feature: ReasonerFeature::OwlEqualityReasoning,
            maturity: CapabilityMaturity::Mvp,
            enabled_by_default: policy.owl_equality_reasoning_enabled(),
        },
        ReasonerCapability {
            feature: ReasonerFeature::OwlPropertyChainAxioms,
            maturity: CapabilityMaturity::Mvp,
            enabled_by_default: policy.owl_property_chain_axioms_enabled(),
        },
        ReasonerCapability {
            feature: ReasonerFeature::OwlConsistencyCheck,
            maturity: CapabilityMaturity::Mvp,
            enabled_by_default: policy.owl_consistency_check_enabled(),
        },
    ];
    assert(r@ =~= rules_mvp_capability_list(config.feature_policy));
    r
}

/// The name of a reasoning mode.
pub fn mode_name(mode: ReasoningMode) -> (r: &'static str)
    ensures
        r@ == mode_text(mode),
{
    match mode {
        ReasoningMode::Disabled => "disabled",
        ReasoningMode::RulesMvp => "rules-mvp",
        ReasoningMode::OwlDlTarget => "owl-dl-target",
    }
}

} // verus!
