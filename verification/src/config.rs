use vstd::prelude::*;

use crate::policy::{
    industry_default_policy, policy_cache_key, policy_preset, preset_policy,
    RulesMvpFeaturePolicy, RulesMvpPreset,
};

verus! {

/// Which reasoner a deployment runs.
#[derive(Debug, Clone, Copy, PartialEq, Eq, Structural)]
pub enum ReasoningMode {
    Disabled,
    RulesMvp,
    OwlDlTarget,
}

/// The configured reasoner profile.
#[derive(Debug, Clone, Copy, PartialEq, Eq, Structural)]
pub enum ReasonerProfileConfig {
    Disabled,
    RulesMvp(RulesMvpConfig),
    OwlDlTarget,
}

/// Typed reasoner configuration.
#[derive(Debug, Clone, Copy, PartialEq, Eq, Structural)]
pub struct ReasonerConfig {
    pub profile: ReasonerProfileConfig,
}

/// Configuration of the rules-mvp profile: a preset and its feature policy.
#[derive(Debug, Clone, Copy, PartialEq, Eq, Structural)]
pub struct RulesMvpConfig {
    pub preset: RulesMvpPreset,
    pub feature_policy: RulesMvpFeaturePolicy,
}

/// The mode of a profile configuration.
pub open spec fn profile_mode(p: ReasonerProfileConfig) -> ReasoningMode {
    match p {
        ReasonerProfileConfig::Disabled => ReasoningMode::Disabled,
        ReasonerProfileConfig::RulesMvp(_) => ReasoningMode::RulesMvp,
        ReasonerProfileConfig::OwlDlTarget => ReasoningMode::OwlDlTarget,
    }
}

/// The default rules-mvp configuration: the bounded-owl preset.
pub open spec fn default_rules_mvp_config() -> RulesMvpConfig {
    RulesMvpConfig {
        preset: RulesMvpPreset::BoundedOwl,
        feature_policy: industry_default_policy(),
    }
}

impl ReasonerConfig {
    /// The configuration of `mode` with default settings.
    pub fn for_mode(mode: ReasoningMode) -> (r: Self)
        ensures
            profile_mode(r.profile) == mode,
            mode == ReasoningMode::RulesMvp ==> r.profile == ReasonerProfileConfig::RulesMvp(
                default_rules_mvp_config(),
            ),
    {
        ReasonerConfig {
            profile: match mode {
                ReasoningMode::Disabled => ReasonerProfileConfig::Disabled,
                ReasoningMode::RulesMvp => ReasonerProfileConfig::RulesMvp(
                    RulesMvpConfig::default(),
                ),
                ReasoningMode::OwlDlTarget => ReasonerProfileConfig::OwlDlTarget,
            },
        }
    }

    /// The mode of this configuration.
    pub fn mode(&self) -> (r: ReasoningMode)
        ensures
            r == profile_mode(self.profile),
    {
        match self.profile {
            ReasonerProfileConfig::Disabled => ReasoningMode::Disabled,
            ReasonerProfileConfig::RulesMvp(_) => ReasoningMode::RulesMvp,
            ReasonerProfileConfig::OwlDlTarget => ReasoningMode::OwlDlTarget,
        }
    }

    /// The rules-mvp configuration, when that profile is selected.
    pub fn rules_mvp(&self) -> (r: Option<&RulesMvpConfig>)
        ensures
            match self.profile {
                ReasonerProfileConfig::RulesMvp(c) => r == Some(&c),
                _ => r is None,
            },
    {
        match &self.profile {
            ReasonerProfileConfig::RulesMvp(config) => Some(config),
            _ => None,
        }
    }

    /// The feature policy of the rules-mvp profile, when selected.
    pub fn rules_mvp_feature_policy(&self) -> (r: Option<RulesMvpFeaturePolicy>)
        ensures
            match self.profile {
                ReasonerProfileConfig::RulesMvp(c) => r == Some(c.feature_policy),
                _ => r is None,
            },
    {
        match &self.profile {
            ReasonerProfileConfig::RulesMvp(config) => Some(config.feature_policy),
            _ => None,
        }
    }

    /// Checks the rules-mvp configuration, if any.
    pub fn validate(&self) -> (r: Result<(), &'static str>)
        ensures
            r is Ok <==> match self.profile {
                ReasonerProfileConfig::RulesMvp(c) => policy_cache_key(c.feature_policy) != 0,
                _ => true,
            },
    {
        if let Some(config) = self.rules_mvp() {
            config.validate()?;
        }
        Ok(())
    }
}

impl Default for ReasonerConfig {
    fn default() -> (r: Self)
        ensures
            r.profile == ReasonerProfileConfig::Disabled,
    {
        ReasonerConfig { profile: ReasonerProfileConfig::Disabled }
    }
}

impl RulesMvpConfig {
    /// The configuration of `preset` with its feature policy.
    pub fn for_preset(preset: RulesMvpPreset) -> (r: Self)
        ensures
            r.preset == preset,
            r.feature_policy == preset_policy(preset),
    {
        RulesMvpConfig { preset, feature_policy: preset.feature_policy() }
    }

    /// The configuration of an explicit policy, tagged with the preset it
    /// matches.
    pub fn from_feature_policy(feature_policy: RulesMvpFeaturePolicy) -> (r: Self)
        ensures
            r.preset == policy_preset(feature_policy),
            r.feature_policy == feature_policy,
    {
        RulesMvpConfig { preset: feature_policy.preset(), feature_policy }
    }

    /// Rejects a policy whose cache key is zero.
    pub fn validate(&self) -> (r: Result<(), &'static str>)
        ensures
            r is Ok <==> policy_cache_key(self.feature_policy) != 0,
    {
        if self.feature_policy.cache_key() == 0 {
            return Err("rules-mvp feature policy cache key must remain stable and non-zero");
        }
        Ok(())
    }
}

impl Default for RulesMvpConfig {
    fn default() -> (r: Self)
        ensures
            r == default_rules_mvp_config(),
    {
        RulesMvpConfig::for_preset(RulesMvpPreset::BoundedOwl)
    }
}

} // verus!
