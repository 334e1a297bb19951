//! Required node affinity: label selectors that a node must meet.

use crate::model::{Label, NodeSelectorTerm, SelectorOperator, SelectorRequirement};
use crate::quantity::{digit_value, digits_value, is_digit};
use crate::text::str_equal;
use vstd::prelude::*;

verus! {

/// The value of the first label from `from` on whose key is `key`.
pub open spec fn label_value(labels: Seq<Label>, key: Seq<char>, from: int) -> Option<Seq<char>>
    decreases labels.len() - from,
{
    if from < 0 || from >= labels.len() {
        None
    } else if labels[from].key@ == key {
        Some(labels[from].value@)
    } else {
        label_value(labels, key, from + 1)
    }
}

/// Whether `value` is one of `values`.
pub open spec fn is_among(values: Seq<String>, value: Seq<char>) -> bool {
    exists|i: int| 0 <= i < values.len() && (#[trigger] values[i])@ == value
}

/// Whether every character of `text` is a digit.
pub open spec fn all_digits(text: Seq<char>) -> bool {
    forall|i: int| 0 <= i < text.len() ==> is_digit(#[trigger] text[i])
}

/// The whole number that `text` writes: an optional sign, then one or more
/// digits, within 64 bits. `None` for any other text.
pub open spec fn integer_value(text: Seq<char>) -> Option<int> {
    let signed = text.len() > 0 && (text[0] == '-' || text[0] == '+');
    let digits = if signed {
        text.skip(1)
    } else {
        text
    };
    let value = if signed && text[0] == '-' {
        -(digits_value(digits) as int)
    } else {
        digits_value(digits) as int
    };
    if digits.len() > 0 && all_digits(digits) && i64::MIN <= value <= i64::MAX {
        Some(value)
    } else {
        None
    }
}

/// Whether the labels meet the requirement.
///
/// `In`: the label is there and its value is one of the values. `NotIn`: it is
/// not there, or its value is none of them. `Exists` and `DoesNotExist`: it is
/// there, or not. `Gt` and `Lt`: it is there, there is exactly one value, both
/// write whole numbers, and the label's is the greater, or the smaller.
pub open spec fn requirement_met(labels: Seq<Label>, requirement: SelectorRequirement) -> bool {
    let found = label_value(labels, requirement.key@, 0);
    match requirement.operator {
        SelectorOperator::In => found matches Some(v) && is_among(requirement.values@, v),
        SelectorOperator::NotIn => match found {
            Some(v) => !is_among(requirement.values@, v),
            None => true,
        },
        SelectorOperator::Exists => found is Some,
        SelectorOperator::DoesNotExist => found is None,
        SelectorOperator::Gt => found matches Some(v) && requirement.values@.len() == 1 && (
        match (integer_value(v), integer_value(requirement.values@[0]@)) {
            (Some(have), Some(bound)) => have > bound,
            _ => false,
        }),
        SelectorOperator::Lt => found matches Some(v) && requirement.values@.len() == 1 && (
        match (integer_value(v), integer_value(requirement.values@[0]@)) {
            (Some(have), Some(bound)) => have < bound,
            _ => false,
        }),
    }
}

/// Whether the labels meet the term: it has requirements, and they meet each. A
/// term without requirements is met by no node.
pub open spec fn term_met(labels: Seq<Label>, term: NodeSelectorTerm) -> bool {
    &&& term.match_expressions@.len() > 0
    &&& forall|i: int|
        0 <= i < term.match_expressions@.len() ==> requirement_met(
            labels,
            #[trigger] term.match_expressions@[i],
        )
}

/// Whether the labels meet the required terms: there are none, or one is met.
pub open spec fn terms_met(labels: Seq<Label>, terms: Seq<NodeSelectorTerm>) -> bool {
    terms.len() == 0 || exists|i: int| 0 <= i < terms.len() && term_met(labels, #[trigger] terms[i])
}

/// Looks up the value of a label.
pub fn find_label<'a>(labels: &'a Vec<Label>, key: &str) -> (found: Option<&'a String>)
    ensures
        match found {
            Some(v) => label_value(labels@, key@, 0) == Some(v@),
            None => label_value(labels@, key@, 0) is None,
        },
{
    let mut i: usize = 0;
    while i < labels.len()
        invariant
            i <= labels.len(),
            label_value(labels@, key@, 0) == label_value(labels@, key@, i as int),
        decreases labels.len() - i,
    {
        if str_equal(labels[i].key.as_str(), key) {
            return Some(&labels[i].value);
        }
        i = i + 1;
    }
    None
}

/// Decides `is_among`.
fn contains_value(values: &Vec<String>, value: &str) -> (found: bool)
    ensures
        found == is_among(values@, value@),
{
    let mut i: usize = 0;
    while i < values.len()
        invariant
            i <= values.len(),
            forall|k: int| 0 <= k < i ==> (#[trigger] values@[k])@ != value@,
        decreases values.len() - i,
    {
        if str_equal(values[i].as_str(), value) {
            return true;
        }
        i = i + 1;
    }
    false
}

/// Reads a whole number: an optional sign, then digits, within 64 bits.
#[verifier::loop_isolation(false)]
pub fn parse_integer(text: &str) -> (value: Option<i64>)
    ensures
        match value {
            Some(v) => integer_value(text@) == Some(v as int),
            None => integer_value(text@) is None,
        },
{
    let n: usize = text.unicode_len();
    if n == 0 {
        return None;
    }
    let first: char = text.get_char(0);
    let signed: bool = first == '-' || first == '+';
    let negative: bool = first == '-';
    let start: usize = if signed {
        1
    } else {
        0
    };
    let ghost digits = if signed {
        text@.skip(1)
    } else {
        text@
    };
    if start == n {
        return None;
    }
    // The number is gathered as a magnitude of at most 2^63.
    let limit: u64 = 9_223_372_036_854_775_808;
    let mut acc: u64 = 0;
    let mut i: usize = start;
    proof {
        assert(digits.take(0) =~= Seq::<char>::empty());
    }
    while i < n
        invariant
            start <= i <= n,
            forall|k: int| 0 <= k < i - start ==> is_digit(#[trigger] digits[k]),
            acc == digits_value(digits.take(i - start)),
            acc <= limit,
        decreases n - i,
    {
        let c: char = text.get_char(i);
        let code: u32 = c as u32;
        if code < 48 || code > 57 {
            assert(!is_digit(digits[i - start]));
            return None;
        }
        let d: u64 = (code - 48) as u64;
        proof {
            let longer = digits.take(i - start + 1);
            assert(longer.drop_last() =~= digits.take(i - start));
            assert(longer.last() == c);
            assert(digit_value(c) == d);
        }
        if acc > (limit - d) / 10 {
            proof {
                lemma_digits_prefix(digits, i - start + 1);
            }
            return None;
        }
        acc = acc * 10 + d;
        i = i + 1;
    }
    proof {
        assert(digits.take(n - start) =~= digits);
    }
    if negative {
        if acc == limit {
            Some(i64::MIN)
        } else {
            Some(-(acc as i64))
        }
    } else if acc == limit {
        None
    } else {
        Some(acc as i64)
    }
}

/// The number that the first `len` digits write is at most what all write.
proof fn lemma_digits_prefix(digits: Seq<char>, len: int)
    requires
        0 <= len <= digits.len(),
    ensures
        digits_value(digits.take(len)) <= digits_value(digits),
    decreases digits.len() - len,
{
    if len < digits.len() {
        lemma_digits_prefix(digits, len + 1);
        assert(digits.take(len + 1).drop_last() =~= digits.take(len));
    } else {
        assert(digits.take(len) =~= digits);
    }
}

/// Decides `requirement_met`.
pub fn is_requirement_met(labels: &Vec<Label>, requirement: &SelectorRequirement) -> (met: bool)
    ensures
        met == requirement_met(labels@, *requirement),
{
    let found = find_label(labels, requirement.key.as_str());
    match requirement.operator {
        SelectorOperator::In => match found {
            Some(v) => contains_value(&requirement.values, v.as_str()),
            None => false,
        },
        SelectorOperator::NotIn => match found {
            Some(v) => !contains_value(&requirement.values, v.as_str()),
            None => true,
        },
        SelectorOperator::Exists => found.is_some(),
        SelectorOperator::DoesNotExist => found.is_none(),
        SelectorOperator::Gt => match found {
            Some(v) => {
                if requirement.values.len() != 1 {
                    false
                } else {
                    let bound = parse_integer(requirement.values[0].as_str());
                    match (parse_integer(v.as_str()), bound) {
                        (Some(have), Some(bound)) => have > bound,
                        _ => false,
                    }
                }
            },
            None => false,
        },
        SelectorOperator::Lt => match found {
            Some(v) => {
                if requirement.values.len() != 1 {
                    false
                } else {
                    let bound = parse_integer(requirement.values[0].as_str());
                    match (parse_integer(v.as_str()), bound) {
                        (Some(have), Some(bound)) => have < bound,
                        _ => false,
                    }
                }
            },
            None => false,
        },
    }
}

/// Decides `term_met`.
pub fn is_term_met(labels: &Vec<Label>, term: &NodeSelectorTerm) -> (met: bool)
    ensures
        met == term_met(labels@, *term),
{
    if term.match_expressions.len() == 0 {
        return false;
    }
    let mut i: usize = 0;
    while i < term.match_expressions.len()
        invariant
            i <= term.match_expressions@.len(),
            forall|k: int|
                0 <= k < i ==> requirement_met(labels@, #[trigger] term.match_expressions@[k]),
        decreases term.match_expressions.len() - i,
    {
        if !is_requirement_met(labels, &term.match_expressions[i]) {
            return false;
        }
        i = i + 1;
    }
    true
}

/// Decides `terms_met`.
pub fn are_terms_met(labels: &Vec<Label>, terms: &Vec<NodeSelectorTerm>) -> (met: bool)
    ensures
        met == terms_met(labels@, terms@),
{
    if terms.len() == 0 {
        return true;
    }
    let mut i: usize = 0;
    while i < terms.len()
        invariant
            i <= terms@.len(),
            forall|k: int| 0 <= k < i ==> !term_met(labels@, #[trigger] terms@[k]),
        decreases terms.len() - i,
    {
        if is_term_met(labels, &terms[i]) {
            return true;
        }
        i = i + 1;
    }
    false
}

} // verus!
