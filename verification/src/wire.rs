//! From the texts of the cluster API to the values of the model, and what a text
//! that is not known stands for.

use crate::model::{
    QosClass, SelectorOperator, SelectorRequirement, Taint, TaintEffect, Toleration,
    TolerationOperator,
};
use crate::text::str_equal;
use vstd::prelude::*;

verus! {

/// The effect that a text names; `None` for any other text.
pub open spec fn effect_named(text: Seq<char>) -> Option<TaintEffect> {
    if text == "NoSchedule"@ {
        Some(TaintEffect::NoSchedule)
    } else if text == "PreferNoSchedule"@ {
        Some(TaintEffect::PreferNoSchedule)
    } else if text == "NoExecute"@ {
        Some(TaintEffect::NoExecute)
    } else {
        None
    }
}

/// The effect of a taint: the one that the text names. A taint whose effect is
/// not known keeps pods off the node, as `NoSchedule` does.
pub open spec fn taint_effect(text: Seq<char>) -> TaintEffect {
    match effect_named(text) {
        Some(effect) => effect,
        None => TaintEffect::NoSchedule,
    }
}

/// The operator of a toleration: `Exists`, or `Equal`, which is also what no
/// text stands for; `None` for any other text.
pub open spec fn toleration_operator_named(text: Seq<char>) -> Option<TolerationOperator> {
    if text.len() == 0 || text == "Equal"@ {
        Some(TolerationOperator::Equal)
    } else if text == "Exists"@ {
        Some(TolerationOperator::Exists)
    } else {
        None
    }
}

/// The effect that a toleration is for: every effect where the text is empty,
/// else the one that the text names; `None` where the text names none.
pub open spec fn toleration_effect_named(text: Seq<char>) -> Option<Option<TaintEffect>> {
    if text.len() == 0 {
        Some(None)
    } else {
        match effect_named(text) {
            Some(effect) => Some(Some(effect)),
            None => None,
        }
    }
}

/// The operator that a text names; `None` for any other text.
pub open spec fn selector_operator_named(text: Seq<char>) -> Option<SelectorOperator> {
    if text == "In"@ {
        Some(SelectorOperator::In)
    } else if text == "NotIn"@ {
        Some(SelectorOperator::NotIn)
    } else if text == "Exists"@ {
        Some(SelectorOperator::Exists)
    } else if text == "DoesNotExist"@ {
        Some(SelectorOperator::DoesNotExist)
    } else if text == "Gt"@ {
        Some(SelectorOperator::Gt)
    } else if text == "Lt"@ {
        Some(SelectorOperator::Lt)
    } else {
        None
    }
}

/// The class that a text names; `Unknown` for any other text.
pub open spec fn qos_class_named(text: Seq<char>) -> QosClass {
    if text == "Guaranteed"@ {
        QosClass::Guaranteed
    } else if text == "Burstable"@ {
        QosClass::Burstable
    } else if text == "BestEffort"@ {
        QosClass::BestEffort
    } else {
        QosClass::Unknown
    }
}

/// Reads the name of an effect.
pub fn parse_effect(text: &str) -> (effect: Option<TaintEffect>)
    ensures
        effect == effect_named(text@),
{
    if str_equal(text, "NoSchedule") {
        Some(TaintEffect::NoSchedule)
    } else if str_equal(text, "PreferNoSchedule") {
        Some(TaintEffect::PreferNoSchedule)
    } else if str_equal(text, "NoExecute") {
        Some(TaintEffect::NoExecute)
    } else {
        None
    }
}

/// Makes a taint of what the cluster states. An effect that is not known keeps
/// pods off the node.
pub fn taint_from(key: String, value: String, effect: &str) -> (taint: Taint)
    ensures
        taint.key == key,
        taint.value == value,
        taint.effect == taint_effect(effect@),
{
    let effect: TaintEffect = match parse_effect(effect) {
        Some(effect) => effect,
        None => TaintEffect::NoSchedule,
    };
    Taint { key, value, effect }
}

/// Makes a toleration of what the cluster states, an empty text standing for
/// what is not stated. `None` where the operator or the effect is not known:
/// such a toleration matches no taint.
pub fn toleration_from(key: String, operator: &str, value: String, effect: &str) -> (toleration:
    Option<Toleration>)
    ensures
        match (toleration_operator_named(operator@), toleration_effect_named(effect@)) {
            (Some(op), Some(eff)) => toleration matches Some(t) && t.key == key && t.value
                == value && t.operator == op && t.effect == eff,
            _ => toleration is None,
        },
{
    let operator: TolerationOperator = if operator.unicode_len() == 0 || str_equal(
        operator,
        "Equal",
    ) {
        TolerationOperator::Equal
    } else if str_equal(operator, "Exists") {
        TolerationOperator::Exists
    } else {
        return None;
    };
    let effect: Option<TaintEffect> = if effect.unicode_len() == 0 {
        None
    } else {
        match parse_effect(effect) {
            Some(effect) => Some(effect),
            None => {
                return None;
            },
        }
    };
    Some(Toleration { key, operator, value, effect })
}

/// Reads the name of a selector's operator.
pub fn parse_selector_operator(text: &str) -> (operator: Option<SelectorOperator>)
    ensures
        operator == selector_operator_named(text@),
{
    if str_equal(text, "In") {
        Some(SelectorOperator::In)
    } else if str_equal(text, "NotIn") {
        Some(SelectorOperator::NotIn)
    } else if str_equal(text, "Exists") {
        Some(SelectorOperator::Exists)
    } else if str_equal(text, "DoesNotExist") {
        Some(SelectorOperator::DoesNotExist)
    } else if str_equal(text, "Gt") {
        Some(SelectorOperator::Gt)
    } else if str_equal(text, "Lt") {
        Some(SelectorOperator::Lt)
    } else {
        None
    }
}

/// Makes a requirement of what the cluster states. One whose operator is not
/// known asks for a value out of none, which no node has.
pub fn requirement_from(key: String, operator: &str, values: Vec<String>) -> (requirement:
    SelectorRequirement)
    ensures
        requirement.key == key,
        match selector_operator_named(operator@) {
            Some(op) => requirement.operator == op && requirement.values == values,
            None => requirement.operator == SelectorOperator::In && requirement.values@.len()
                == 0,
        },
{
    match parse_selector_operator(operator) {
        Some(operator) => SelectorRequirement { key, operator, values },
        None => SelectorRequirement { key, operator: SelectorOperator::In, values: Vec::new() },
    }
}

/// Reads the name of a quality-of-service class.
pub fn parse_qos_class(text: &str) -> (class: QosClass)
    ensures
        class == qos_class_named(text@),
{
    if str_equal(text, "Guaranteed") {
        QosClass::Guaranteed
    } else if str_equal(text, "Burstable") {
        QosClass::Burstable
    } else if str_equal(text, "BestEffort") {
        QosClass::BestEffort
    } else {
        QosClass::Unknown
    }
}

} // verus!
