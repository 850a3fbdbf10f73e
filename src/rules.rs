use vstd::prelude::*;

verus! {

/// When a rule fires, relative to its threshold.
#[derive(Debug, PartialEq, Eq, Structural, Clone, Copy)]
pub enum Condition {
    /// The reading is strictly below the threshold.
    Below,
    /// The reading is strictly above the threshold.
    Above,
}

/// What a firing rule does to its pin.
#[derive(Debug, PartialEq, Eq, Structural, Clone, Copy)]
pub enum Effect {
    /// Drive the pin high.
    Enable,
    /// Drive the pin low.
    Disable,
}

/// A threshold rule of a sensor. The threshold is in hundredths of a degree Fahrenheit.
#[derive(Debug, PartialEq, Eq, Structural, Clone, Copy)]
pub struct ActionRule {
    pub condition: Condition,
    pub threshold: i64,
    pub effect: Effect,
    pub target_pin: u8,
}

/// A level to put on an output pin.
#[derive(Debug, PartialEq, Eq, Structural, Clone, Copy)]
pub struct PinCommand {
    pub pin: u8,
    pub high: bool,
}

/// A configuration tag that names no known condition or effect.
#[derive(Debug, PartialEq, Eq)]
pub enum ConfigError {
    UnknownCondition(String),
    UnknownEffect(String),
}

/// The tag of a condition in the configuration file.
pub open spec fn condition_tag(c: Condition) -> Seq<char> {
    match c {
        Condition::Below => seq!['t', 'e', 'm', 'p', ' ', 'b', 'e', 'l', 'o', 'w'],
        Condition::Above => seq!['t', 'e', 'm', 'p', ' ', 'a', 'b', 'o', 'v', 'e'],
    }
}

/// The tag of an effect in the configuration file.
pub open spec fn effect_tag(e: Effect) -> Seq<char> {
    match e {
        Effect::Enable => seq!['e', 'n', 'a', 'b', 'l', 'e'],
        Effect::Disable => seq!['d', 'i', 's', 'a', 'b', 'l', 'e'],
    }
}

/// Whether `rule` fires on `value`: strict comparison with the threshold.
pub open spec fn triggers(rule: ActionRule, value: int) -> bool {
    match rule.condition {
        Condition::Below => value < rule.threshold,
        Condition::Above => value > rule.threshold,
    }
}

/// The command that a firing rule issues.
pub open spec fn command_of(rule: ActionRule) -> PinCommand {
    PinCommand { pin: rule.target_pin, high: rule.effect == Effect::Enable }
}

/// The commands that `rules` issue on `value`, in rule order.
pub open spec fn commands_for(rules: Seq<ActionRule>, value: int) -> Seq<PinCommand>
    decreases rules.len(),
{
    if rules.len() == 0 {
        Seq::empty()
    } else {
        let prev = commands_for(rules.drop_last(), value);
        if triggers(rules.last(), value) {
            prev.push(command_of(rules.last()))
        } else {
            prev
        }
    }
}

/// Reads a condition tag of the configuration file.
pub fn parse_condition(tag: &str) -> (r: Result<Condition, ConfigError>)
    ensures
        r matches Ok(c) ==> condition_tag(c) == tag@,
        r is Err <==> (tag@ != condition_tag(Condition::Below) && tag@ != condition_tag(Condition::Above)),
        r matches Err(e) ==> e matches ConfigError::UnknownCondition(t) && t@ == tag@,
{
    let s = String::from_str(tag);
    let below = String::from_str("temp below");
    let above = String::from_str("temp above");
    proof {
        reveal_strlit("temp below");
        reveal_strlit("temp above");
        assert(below@ =~= condition_tag(Condition::Below));
        assert(above@ =~= condition_tag(Condition::Above));
    }
    if s == below {
        Ok(Condition::Below)
    } else if s == above {
        Ok(Condition::Above)
    } else {
        Err(ConfigError::UnknownCondition(s))
    }
}

/// Reads an effect tag of the configuration file.
pub fn parse_effect(tag: &str) -> (r: Result<Effect, ConfigError>)
    ensures
        r matches Ok(e) ==> effect_tag(e) == tag@,
        r is Err <==> (tag@ != effect_tag(Effect::Enable) && tag@ != effect_tag(Effect::Disable)),
        r matches Err(e) ==> e matches ConfigError::UnknownEffect(t) && t@ == tag@,
{
    let s = String::from_str(tag);
    let enable = String::from_str("enable");
    let disable = String::from_str("disable");
    proof {
        reveal_strlit("enable");
        reveal_strlit("disable");
        assert(enable@ =~= effect_tag(Effect::Enable));
        assert(disable@ =~= effect_tag(Effect::Disable));
    }
    if s == enable {
        Ok(Effect::Enable)
    } else if s == disable {
        Ok(Effect::Disable)
    } else {
        Err(ConfigError::UnknownEffect(s))
    }
}

impl ActionRule {
    /// Builds a rule from the tags of the configuration file, refusing an unknown tag
    /// (the condition's first).
    pub fn from_tags(typ: &str, threshold: i64, action: &str, target_pin: u8) -> (r: Result<
        ActionRule,
        ConfigError,
    >)
        ensures
            r matches Ok(rule) ==> condition_tag(rule.condition) == typ@ && effect_tag(rule.effect) == action@
                && rule.threshold == threshold && rule.target_pin == target_pin,
            r is Err <==> (typ@ != condition_tag(Condition::Below) && typ@ != condition_tag(Condition::Above))
                || (action@ != effect_tag(Effect::Enable) && action@ != effect_tag(Effect::Disable)),
            r matches Err(e) ==> (e matches ConfigError::UnknownCondition(t) && t@ == typ@) || (
            e matches ConfigError::UnknownEffect(t) && t@ == action@),
    {
        let condition = match parse_condition(typ) {
            Ok(c) => c,
            Err(e) => {
                return Err(e);
            },
        };
        let effect = match parse_effect(action) {
            Ok(e) => e,
            Err(e) => {
                return Err(e);
            },
        };
        Ok(ActionRule { condition, threshold, effect, target_pin })
    }

    /// Whether this rule fires on `value`.
    pub fn triggers(&self, value: i64) -> (r: bool)
        ensures
            r == triggers(*self, value as int),
    {
        match self.condition {
            Condition::Below => value < self.threshold,
            Condition::Above => value > self.threshold,
        }
    }
}

/// The pin commands that `rules` issue on `value`, in rule order: every firing rule
/// issues one, so where two target the same pin the later one wins.
pub fn evaluate_rules(rules: &Vec<ActionRule>, value: i64) -> (r: Vec<PinCommand>)
    ensures
        r@ == commands_for(rules@, value as int),
{
    let mut out: Vec<PinCommand> = Vec::new();
    let mut i: usize = 0;
    while i < rules.len()
        invariant
            0 <= i <= rules@.len(),
            out@ == commands_for(rules@.take(i as int), value as int),
        decreases rules@.len() - i,
    {
        let rule = rules[i];
        proof {
            assert(rules@.take(i as int + 1).drop_last() =~= rules@.take(i as int));
        }
        if rule.triggers(value) {
            out.push(PinCommand { pin: rule.target_pin, high: rule.effect == Effect::Enable });
        }
        i = i + 1;
    }
    proof {
        assert(rules@.take(rules@.len() as int) =~= rules@);
    }
    out
}

/// A reading equal to a rule's threshold never fires it, whatever its condition.
pub proof fn lemma_threshold_never_triggers(rule: ActionRule)
    ensures
        !triggers(rule, rule.threshold as int),
{
}

/// No command comes of the rules whose threshold equals the reading: every command
/// issued on `value` is that of a rule with another threshold.
pub proof fn lemma_commands_exclude_equal_thresholds(rules: Seq<ActionRule>, value: int)
    ensures
        forall|c: PinCommand| #[trigger] commands_for(rules, value).contains(c) ==> exists|k: int|
            0 <= k < rules.len() && #[trigger] command_of(rules[k]) == c && rules[k].threshold != value
                && triggers(rules[k], value),
    decreases rules.len(),
{
    if rules.len() > 0 {
        lemma_commands_exclude_equal_thresholds(rules.drop_last(), value);
        assert forall|c: PinCommand| #[trigger] commands_for(rules, value).contains(c) implies exists|k: int|
            0 <= k < rules.len() && #[trigger] command_of(rules[k]) == c && rules[k].threshold != value
                && triggers(rules[k], value) by {
            let prev = commands_for(rules.drop_last(), value);
            if prev.contains(c) {
                let k = choose|k: int|
                    0 <= k < rules.drop_last().len() && #[trigger] command_of(rules.drop_last()[k]) == c
                        && rules.drop_last()[k].threshold != value && triggers(rules.drop_last()[k], value);
                assert(rules[k] == rules.drop_last()[k]);
            } else {
                let k = rules.len() - 1;
                assert(command_of(rules[k]) == c);
            }
        }
    }
}

} // verus!
