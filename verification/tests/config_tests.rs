use nrese::config::{ReasonerConfig, ReasonerProfileConfig, ReasoningMode, RulesMvpConfig};
use nrese::policy::{FeatureMode, RulesMvpFeaturePolicy, RulesMvpPreset, UnsupportedConstructBehavior};
use nrese::profile::{mode_name, profile_for_config, profile_for_mode};

#[test]
fn default_reasoner_config_is_valid() {
    assert!(ReasonerConfig::default().validate().is_ok());
}

#[test]
fn reasoner_config_for_mode_preserves_defaults() {
    let config = ReasonerConfig::for_mode(ReasoningMode::RulesMvp);

    assert_eq!(config.mode(), ReasoningMode::RulesMvp);
    assert_eq!(
        config.rules_mvp().expect("rules-mvp config").feature_policy,
        RulesMvpFeaturePolicy::industry_default()
    );
    assert_eq!(
        config.rules_mvp().expect("rules-mvp config").preset,
        RulesMvpPreset::BoundedOwl
    );
}

#[test]
fn rules_mvp_config_accepts_explicit_policy() {
    let config = ReasonerConfig {
        profile: ReasonerProfileConfig::RulesMvp(RulesMvpConfig {
            preset: RulesMvpPreset::Custom,
            feature_policy: RulesMvpFeaturePolicy {
                unsupported_constructs: UnsupportedConstructBehavior::Ignore,
                owl_equality_reasoning: FeatureMode::Disabled,
                ..RulesMvpFeaturePolicy::industry_default()
            },
        }),
    };

    assert!(config.validate().is_ok());
}

#[test]
fn profile_for_mode_matches_config_resolution() {
    let from_mode = profile_for_mode(ReasoningMode::RulesMvp);
    let from_config = profile_for_config(&ReasonerConfig::for_mode(ReasoningMode::RulesMvp));

    assert_eq!(from_mode, from_config);
    assert_eq!(from_mode.mode, mode_name(ReasoningMode::RulesMvp));
}

#[test]
fn mode_names_are_the_configuration_words() {
    assert_eq!(mode_name(ReasoningMode::Disabled), "disabled");
    assert_eq!(mode_name(ReasoningMode::RulesMvp), "rules-mvp");
    assert_eq!(mode_name(ReasoningMode::OwlDlTarget), "owl-dl-target");
}

#[test]
fn presets_round_trip_through_their_policies() {
    for preset in [RulesMvpPreset::RdfsCore, RulesMvpPreset::BoundedOwl] {
        let config = RulesMvpConfig::for_preset(preset);
        assert_eq!(config.preset, preset);
        assert_eq!(RulesMvpConfig::from_feature_policy(config.feature_policy).preset, preset);
    }
    assert!(RulesMvpConfig::for_preset(RulesMvpPreset::RdfsCore).validate().is_ok());
}

#[test]
fn disabled_and_owl_dl_target_profiles() {
    let disabled = profile_for_mode(ReasoningMode::Disabled);
    assert_eq!(disabled.name, "nrese-disabled");
    assert!(disabled.capabilities.is_empty());
    let target = profile_for_mode(ReasoningMode::OwlDlTarget);
    assert_eq!(target.name, "nrese-owl-dl-target");
    assert_eq!(target.semantic_tier, "owl-dl-target");
    let rules = profile_for_mode(ReasoningMode::RulesMvp);
    assert_eq!(rules.semantic_tier, "bounded-owl");
}
