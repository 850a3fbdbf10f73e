use cave_control::rules::{
    evaluate_rules, parse_condition, parse_effect, ActionRule, Condition, ConfigError, Effect, PinCommand,
};

fn rule(condition: Condition, threshold: i64, effect: Effect, pin: u8) -> ActionRule {
    ActionRule { condition, threshold, effect, target_pin: pin }
}

#[test]
fn equal_to_threshold_never_triggers() {
    assert!(!rule(Condition::Below, 5000, Effect::Enable, 1).triggers(5000));
    assert!(!rule(Condition::Above, 5000, Effect::Enable, 1).triggers(5000));
    assert!(rule(Condition::Below, 5000, Effect::Enable, 1).triggers(4999));
    assert!(rule(Condition::Above, 5000, Effect::Enable, 1).triggers(5001));
    let rules = vec![
        rule(Condition::Below, 5000, Effect::Enable, 1),
        rule(Condition::Above, 5000, Effect::Disable, 2),
    ];
    assert!(evaluate_rules(&rules, 5000).is_empty());
}

#[test]
fn every_firing_rule_issues_a_command_in_order() {
    let rules = vec![
        rule(Condition::Above, 5500, Effect::Enable, 17),
        rule(Condition::Below, 5000, Effect::Enable, 18),
        rule(Condition::Above, 5000, Effect::Disable, 17),
    ];
    assert_eq!(
        evaluate_rules(&rules, 6000),
        vec![PinCommand { pin: 17, high: true }, PinCommand { pin: 17, high: false }]
    );
    assert_eq!(evaluate_rules(&rules, 4000), vec![PinCommand { pin: 18, high: true }]);
    assert!(evaluate_rules(&Vec::new(), 4000).is_empty());
}

#[test]
fn configuration_tags() {
    assert_eq!(parse_condition("temp below"), Ok(Condition::Below));
    assert_eq!(parse_condition("temp above"), Ok(Condition::Above));
    assert_eq!(parse_condition("temp equal"), Err(ConfigError::UnknownCondition("temp equal".to_string())));
    assert_eq!(parse_effect("enable"), Ok(Effect::Enable));
    assert_eq!(parse_effect("disable"), Ok(Effect::Disable));
    assert_eq!(parse_effect("toggle"), Err(ConfigError::UnknownEffect("toggle".to_string())));
    assert_eq!(
        ActionRule::from_tags("temp above", 5500, "enable", 17),
        Ok(rule(Condition::Above, 5500, Effect::Enable, 17))
    );
    assert_eq!(
        ActionRule::from_tags("hot", 5500, "toggle", 17),
        Err(ConfigError::UnknownCondition("hot".to_string()))
    );
    assert_eq!(
        ActionRule::from_tags("temp below", 5500, "toggle", 17),
        Err(ConfigError::UnknownEffect("toggle".to_string()))
    );
}
