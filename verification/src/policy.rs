use vstd::prelude::*;

verus! {

/// Whether a feature of the rules-mvp profile runs.
#[derive(Debug, Clone, Copy, PartialEq, Eq, Hash, Structural)]
pub enum FeatureMode {
    Enabled,
    Disabled,
}

/// What the rules-mvp profile does with constructs it does not implement.
#[derive(Debug, Clone, Copy, PartialEq, Eq, Hash, Structural)]
pub enum UnsupportedConstructBehavior {
    Diagnose,
    Reject,
    Ignore,
}

/// Which rules of the rules-mvp profile run.
#[derive(Debug, Clone, Copy, PartialEq, Eq, Hash, Structural)]
pub struct RulesMvpFeaturePolicy {
    pub rdfs_subclass_closure: FeatureMode,
    pub rdfs_subproperty_closure: FeatureMode,
    pub rdfs_type_propagation: FeatureMode,
    pub rdfs_domain_range_typing: FeatureMode,
    pub owl_property_assertion_closure: FeatureMode,
    pub owl_equality_reasoning: FeatureMode,
    pub owl_property_chain_axioms: FeatureMode,
    pub owl_consistency_check: FeatureMode,
    pub unsupported_constructs: UnsupportedConstructBehavior,
}

/// The policy with every feature enabled and diagnostics for unsupported
/// constructs.
pub open spec fn industry_default_policy() -> RulesMvpFeaturePolicy {
    RulesMvpFeaturePolicy {
        rdfs_subclass_closure: FeatureMode::Enabled,
        rdfs_subproperty_closure: FeatureMode::Enabled,
        rdfs_type_propagation: FeatureMode::Enabled,
        rdfs_domain_range_typing: FeatureMode::Enabled,
        owl_property_assertion_closure: FeatureMode::Enabled,
        owl_equality_reasoning: FeatureMode::Enabled,
        owl_property_chain_axioms: FeatureMode::Enabled,
        owl_consistency_check: FeatureMode::Enabled,
        unsupported_constructs: UnsupportedConstructBehavior::Diagnose,
    }
}

/// The policy of the `rdfs-core` preset: the RDFS rules only.
pub open spec fn rdfs_core_policy() -> RulesMvpFeaturePolicy {
    RulesMvpFeaturePolicy {
        rdfs_subclass_closure: FeatureMode::Enabled,
        rdfs_subproperty_closure: FeatureMode::Enabled,
        rdfs_type_propagation: FeatureMode::Enabled,
        rdfs_domain_range_typing: FeatureMode::Enabled,
        owl_property_assertion_closure: FeatureMode::Disabled,
        owl_equality_reasoning: FeatureMode::Disabled,
        owl_property_chain_axioms: FeatureMode::Disabled,
        owl_consistency_check: FeatureMode::Disabled,
        unsupported_constructs: UnsupportedConstructBehavior::Diagnose,
    }
}

/// Bit `bit` when `mode` is enabled.
pub open spec fn feature_bit(mode: FeatureMode, bit: u64) -> u64 {
    if mode == FeatureMode::Enabled {
        bit
    } else {
        0
    }
}

/// The cache key of a policy: one bit per enabled feature, the unsupported
/// construct behaviour, and a version bit that keeps the key non-zero.
pub open spec fn policy_cache_key(p: RulesMvpFeaturePolicy) -> u64 {
    (feature_bit(p.rdfs_subclass_closure, 1) + feature_bit(p.rdfs_subproperty_closure, 2)
        + feature_bit(p.rdfs_type_propagation, 4) + feature_bit(p.rdfs_domain_range_typing, 8)
        + feature_bit(p.owl_property_assertion_closure, 16) + feature_bit(
        p.owl_equality_reasoning,
        32,
    ) + feature_bit(p.owl_property_chain_axioms, 64) + feature_bit(p.owl_consistency_check, 128)
        + match p.unsupported_constructs {
        UnsupportedConstructBehavior::Diagnose => 0u64,
        UnsupportedConstructBehavior::Reject => 256u64,
        UnsupportedConstructBehavior::Ignore => 512u64,
    } + 4096u64) as u64
}

fn enabled_bit(mode: FeatureMode, bit: u64) -> (r: u64)
    ensures
        r == feature_bit(mode, bit),
{
    match mode {
        FeatureMode::Enabled => bit,
        FeatureMode::Disabled => 0,
    }
}

impl RulesMvpFeaturePolicy {
    /// Every feature enabled; unsupported constructs are diagnosed.
    pub fn industry_default() -> (r: Self)
        ensures
            r == industry_default_policy(),
    {
        RulesMvpFeaturePolicy {
            rdfs_subclass_closure: FeatureMode::Enabled,
            rdfs_subproperty_closure: FeatureMode::Enabled,
            rdfs_type_propagation: FeatureMode::Enabled,
            rdfs_domain_range_typing: FeatureMode::Enabled,
            owl_property_assertion_closure: FeatureMode::Enabled,
            owl_equality_reasoning: FeatureMode::Enabled,
            owl_property_chain_axioms: FeatureMode::Enabled,
            owl_consistency_check: FeatureMode::Enabled,
            unsupported_constructs: UnsupportedConstructBehavior::Diagnose,
        }
    }

    /// The RDFS rules only.
    pub fn rdfs_core() -> (r: Self)
        ensures
            r == rdfs_core_policy(),
    {
        RulesMvpFeaturePolicy {
            rdfs_subclass_closure: FeatureMode::Enabled,
            rdfs_subproperty_closure: FeatureMode::Enabled,
            rdfs_type_propagation: FeatureMode::Enabled,
            rdfs_domain_range_typing: FeatureMode::Enabled,
            owl_property_assertion_closure: FeatureMode::Disabled,
            owl_equality_reasoning: FeatureMode::Disabled,
            owl_property_chain_axioms: FeatureMode::Disabled,
            owl_consistency_check: FeatureMode::Disabled,
            unsupported_constructs: UnsupportedConstructBehavior::Diagnose,
        }
    }

    pub fn rdfs_subclass_closure_enabled(&self) -> (r: bool)
        ensures
            r == (self.rdfs_subclass_closure == FeatureMode::Enabled),
    {
        self.rdfs_subclass_closure == FeatureMode::Enabled
    }

    pub fn rdfs_subproperty_closure_enabled(&self) -> (r: bool)
        ensures
            r == (self.rdfs_subproperty_closure == FeatureMode::Enabled),
    {
        self.rdfs_subproperty_closure == FeatureMode::Enabled
    }

    pub fn rdfs_type_propagation_enabled(&self) -> (r: bool)
        ensures
            r == (self.rdfs_type_propagation == FeatureMode::Enabled),
    {
        self.rdfs_type_propagation == FeatureMode::Enabled
    }

    pub fn rdfs_domain_range_typing_enabled(&self) -> (r: bool)
        ensures
            r == (self.rdfs_domain_range_typing == FeatureMode::Enabled),
    {
        self.rdfs_domain_range_typing == FeatureMode::Enabled
    }

    pub fn owl_property_assertion_closure_enabled(&self) -> (r: bool)
        ensures
            r == (self.owl_property_assertion_closure == FeatureMode::Enabled),
    {
        self.owl_property_assertion_closure == FeatureMode::Enabled
    }

    pub fn owl_equality_reasoning_enabled(&self) -> (r: bool)
        ensures
            r == (self.owl_equality_reasoning == FeatureMode::Enabled),
    {
        self.owl_equality_reasoning == FeatureMode::Enabled
    }

    pub fn owl_property_chain_axioms_enabled(&self) -> (r: bool)
        ensures
            r == (self.owl_property_chain_axioms == FeatureMode::Enabled),
    {
        self.owl_property_chain_axioms == FeatureMode::Enabled
    }

    pub fn owl_consistency_check_enabled(&self) -> (r: bool)
        ensures
            r == (self.owl_consistency_check == FeatureMode::Enabled),
    {
        self.owl_consistency_check == FeatureMode::Enabled
    }

    /// A stable, non-zero key that identifies the policy.
    pub fn cache_key(&self) -> (r: u64)
        ensures
            r == policy_cache_key(*self),
            r != 0,
    {
        let behaviour: u64 = match self.unsupported_constructs {
            UnsupportedConstructBehavior::Diagnose => 0,
            UnsupportedConstructBehavior::Reject => 256,
            UnsupportedConstructBehavior::Ignore => 512,
        };
        enabled_bit(self.rdfs_subclass_closure, 1) + enabled_bit(self.rdfs_subproperty_closure, 2)
            + enabled_bit(self.rdfs_type_propagation, 4) + enabled_bit(
            self.rdfs_domain_range_typing,
            8,
        ) + enabled_bit(self.owl_property_assertion_closure, 16) + enabled_bit(
            self.owl_equality_reasoning,
            32,
        ) + enabled_bit(self.owl_property_chain_axioms, 64) + enabled_bit(
            self.owl_consistency_check,
            128,
        ) + behaviour + 4096
    }

    /// The preset this policy matches, or `Custom`.
    pub fn preset(&self) -> (r: RulesMvpPreset)
        ensures
            r == policy_preset(*self),
    {
        if *self == RulesMvpFeaturePolicy::industry_default() {
            RulesMvpPreset::BoundedOwl
        } else if *self == RulesMvpFeaturePolicy::rdfs_core() {
            RulesMvpPreset::RdfsCore
        } else {
            RulesMvpPreset::Custom
        }
    }
}

/// Named feature sets of the rules-mvp profile.
#[derive(Debug, Clone, Copy, PartialEq, Eq, Hash, Structural)]
pub enum RulesMvpPreset {
    RdfsCore,
    BoundedOwl,
    Custom,
}

/// The preset a policy matches.
pub open spec fn policy_preset(p: RulesMvpFeaturePolicy) -> RulesMvpPreset {
    if p == industry_default_policy() {
        RulesMvpPreset::BoundedOwl
    } else if p == rdfs_core_policy() {
        RulesMvpPreset::RdfsCore
    } else {
        RulesMvpPreset::Custom
    }
}

/// The policy of a preset; `Custom` starts from the industry default.
pub open spec fn preset_policy(p: RulesMvpPreset) -> RulesMvpFeaturePolicy {
    match p {
        RulesMvpPreset::RdfsCore => rdfs_core_policy(),
        RulesMvpPreset::BoundedOwl => industry_default_policy(),
        RulesMvpPreset::Custom => industry_default_policy(),
    }
}

impl RulesMvpPreset {
    /// The feature policy of the preset.
    pub fn feature_policy(self) -> (r: RulesMvpFeaturePolicy)
        ensures
            r == preset_policy(self),
    {
        match self {
            RulesMvpPreset::RdfsCore => RulesMvpFeaturePolicy::rdfs_core(),
            RulesMvpPreset::BoundedOwl => RulesMvpFeaturePolicy::industry_default(),
            RulesMvpPreset::Custom => RulesMvpFeaturePolicy::industry_default(),
        }
    }

    /// The semantic tier reported for the preset.
    pub fn semantic_tier(self) -> (r: &'static str)
        ensures
            self == RulesMvpPreset::RdfsCore ==> r@ == "rdfs-core"@,
            self == RulesMvpPreset::BoundedOwl ==> r@ == "bounded-owl"@,
            self == RulesMvpPreset::Custom ==> r@ == "custom"@,
    {
        match self {
            RulesMvpPreset::RdfsCore => "rdfs-core",
            RulesMvpPreset::BoundedOwl => "bounded-owl",
            RulesMvpPreset::Custom => "custom",
        }
    }
}

} // verus!
