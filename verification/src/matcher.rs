//! Which events a predicate matches.

use vstd::prelude::*;

use crate::convert;
use crate::double;
use crate::double::Double;
use crate::error::ErrorView;
use crate::error::TransformError;
use crate::model::AttributeView;
use crate::model::EventAttribute;
use crate::model::Value;
use crate::model::ValueView;
use crate::recipe;
use crate::recipe::EventPredicate;
use crate::recipe::PredicateView;

verus! {

/// A compiled regular expression as `regex` holds it.
#[verifier::external_type_specification]
#[verifier::external_body]
pub struct ExRegex(regex::Regex);

/// What `regex` reports of a pattern that is no regular expression.
pub uninterp spec fn regex_fault(pattern: Seq<char>) -> Option<Seq<char>>;

/// Whether a regular expression matches somewhere in a text.
pub uninterp spec fn regex_matches(pattern: Seq<char>, haystack: Seq<char>) -> bool;

/// A regular expression: its source text, and the form compiled from it.
#[derive(Debug)]
pub struct Pattern {
    source: String,
    compiled: regex::Regex,
}

impl View for Pattern {
    type V = Seq<char>;

    closed spec fn view(&self) -> Seq<char> {
        self.source@
    }
}

impl DeepView for Pattern {
    type V = Seq<char>;

    open spec fn deep_view(&self) -> Seq<char> {
        self@
    }
}

impl Pattern {
    /// Compile a regular expression.
    ///
    /// Trusted: whether `regex::Regex::new` accepts a pattern, and what it
    /// reports where it does not, is a function of the pattern.
    #[verifier::external_body]
    fn compile(source: &String) -> (outcome: Result<Pattern, String>)
        ensures
            outcome matches Ok(pattern) ==> pattern@ == source@ && regex_fault(source@) is None,
            outcome matches Err(message) ==> regex_fault(source@) == Some(message@),
    {
        match regex::Regex::new(source) {
            Ok(compiled) => Ok(Pattern { source: source.clone(), compiled }),
            Err(fault) => Err(fault.to_string()),
        }
    }

    /// Whether the expression matches somewhere in `haystack`.
    ///
    /// Trusted: `regex::Regex::is_match` is a function of the pattern that the
    /// expression was compiled from and of the text.
    #[verifier::external_body]
    fn is_match(&self, haystack: &String) -> (found: bool)
        ensures
            found == regex_matches(self@, haystack@),
    {
        self.compiled.is_match(haystack)
    }
}

/// A compiled predicate, in the model.
#[verifier::ext_equal]
pub struct MatcherView {
    pub event_type: Option<Seq<char>>,
    pub attr: Option<Seq<char>>,
    pub equals: Option<Seq<char>>,
    pub pattern: Option<Seq<char>>,
    pub min: Option<u64>,
    pub max: Option<u64>,
}

/// The value of the first attribute of this name.
pub open spec fn first_value(attributes: Seq<AttributeView>, name: Seq<char>) -> Option<ValueView>
    decreases attributes.len(),
{
    if attributes.len() == 0 {
        None
    } else {
        let earlier = first_value(attributes.drop_last(), name);
        if earlier is Some {
            earlier
        } else if attributes.last().name == name {
            Some(attributes.last().value)
        } else {
            None
        }
    }
}

/// The bits of a value that is a number: integers count as the nearest double.
pub open spec fn numeric(value: ValueView) -> Option<u64> {
    match value {
        ValueView::Integer(i) => Some(double::integer_bits(i) as u64),
        ValueView::Float(bits) => Some(bits),
        _ => None,
    }
}

impl PredicateView {
    /// Whether a condition on the attribute's value is set.
    pub open spec fn has_value_condition(self) -> bool {
        self.equals is Some || self.matches is Some || self.min is Some || self.max is Some
    }

    /// Why the predicate of step `step` is refused, if it is, where `fault` is
    /// what is wrong with its pattern.
    pub open spec fn refusal(self, step: int, fault: Option<Seq<char>>) -> Option<ErrorView> {
        if self.has_value_condition() && self.attr is None {
            Some(ErrorView::ValueConditionWithoutAttr { step })
        } else if self.event_type is None && self.attr is None {
            Some(ErrorView::EmptyPredicate { step })
        } else {
            match fault {
                Some(message) => Some(ErrorView::BadRegex { step, message }),
                None => None,
            }
        }
    }

    /// What is wrong with the pattern, if one is set.
    pub open spec fn pattern_fault(self) -> Option<Seq<char>> {
        match self.matches {
            Some(pattern) => regex_fault(pattern),
            None => None,
        }
    }

    /// What compiling the predicate of step `step` gives.
    pub open spec fn compiled(self, step: int) -> Result<MatcherView, ErrorView> {
        match self.refusal(step, self.pattern_fault()) {
            Some(error) => Err(error),
            None => Ok(
                MatcherView {
                    event_type: self.event_type,
                    attr: self.attr,
                    equals: self.equals,
                    pattern: self.matches,
                    min: self.min,
                    max: self.max,
                },
            ),
        }
    }
}

impl MatcherView {
    /// Whether the bounds admit a value; without bounds every value is
    /// admitted, with bounds only numbers. A NaN is at least, or at most,
    /// nothing.
    pub open spec fn admits_number(self, value: ValueView) -> bool {
        (self.min is None && self.max is None) || (numeric(value) matches Some(n) && (
        self.min matches Some(min) ==> double::less(min, n) || double::equal(min, n)) && (
        self.max matches Some(max) ==> double::less(n, max) || double::equal(n, max)))
    }

    /// Whether a value passes the conditions on values, where it is written
    /// as `written` and `found` tells whether the pattern matches that text.
    pub open spec fn admits_written(
        self,
        value: ValueView,
        written: Seq<char>,
        found: bool,
    ) -> bool {
        &&& self.equals matches Some(equals) ==> written == equals
        &&& self.pattern is Some ==> found
        &&& self.admits_number(value)
    }

    /// Whether a value passes the conditions on values.
    pub open spec fn admits(self, value: ValueView) -> bool {
        let written = convert::value_text(value);
        self.admits_written(
            value,
            written,
            self.pattern matches Some(pattern) && regex_matches(pattern, written),
        )
    }

    /// Whether an event of this type with these attributes matches: every set
    /// condition holds, the conditions on values of the first attribute of the
    /// name.
    pub open spec fn matches(
        self,
        event_type: Seq<char>,
        attributes: Seq<AttributeView>,
    ) -> bool {
        &&& self.event_type matches Some(wanted) ==> event_type == wanted
        &&& self.attr matches Some(name) ==> (first_value(attributes, name) matches Some(value)
            && self.admits(value))
    }
}

/// A compiled event predicate.
#[derive(Debug)]
pub struct Matcher {
    event_type: Option<String>,
    attr: Option<String>,
    equals: Option<String>,
    pattern: Option<Pattern>,
    min: Option<Double>,
    max: Option<Double>,
}

impl View for Matcher {
    type V = MatcherView;

    closed spec fn view(&self) -> MatcherView {
        MatcherView {
            event_type: self.event_type.deep_view(),
            attr: self.attr.deep_view(),
            equals: self.equals.deep_view(),
            pattern: self.pattern.deep_view(),
            min: recipe::bits_of(self.min),
            max: recipe::bits_of(self.max),
        }
    }
}

/// The first attribute of a name.
fn find_attribute<'a>(attributes: &'a Vec<EventAttribute>, name: &String) -> (found: Option<
    &'a Value,
>)
    ensures
        found matches Some(value) ==> first_value(attributes.deep_view(), name@) == Some(value@),
        found is None ==> first_value(attributes.deep_view(), name@) is None,
{
    let mut i: usize = 0;
    while i < attributes.len()
        invariant
            i <= attributes.len(),
            first_value(attributes.deep_view().take(i as int), name@) is None,
        decreases attributes.len() - i,
    {
        proof {
            let all = attributes.deep_view();
            assert(all.take(i + 1).drop_last() =~= all.take(i as int));
            assert(all.take(i + 1).last() == attributes[i as int]@);
        }
        if attributes[i].name == *name {
            proof {
                lemma_first_value_kept(attributes.deep_view(), i + 1, name@);
            }
            return Some(&attributes[i].value);
        }
        i += 1;
    }
    assert(attributes.deep_view().take(i as int) =~= attributes.deep_view());
    None
}

/// The first value found in a front part is the first in the whole.
proof fn lemma_first_value_kept(attributes: Seq<AttributeView>, n: int, name: Seq<char>)
    requires
        0 <= n <= attributes.len(),
        first_value(attributes.take(n), name) is Some,
    ensures
        first_value(attributes, name) == first_value(attributes.take(n), name),
    decreases attributes.len(),
{
    if n == attributes.len() {
        assert(attributes.take(n) =~= attributes);
    } else {
        assert(attributes.drop_last().take(n) =~= attributes.take(n));
        lemma_first_value_kept(attributes.drop_last(), n, name);
    }
}

/// Why the predicate of step `step` is refused, if it is, where `fault` is
/// what is wrong with its pattern.
pub fn refusal(step: usize, predicate: &EventPredicate, fault: Option<String>) -> (error: Option<
    TransformError,
>)
    ensures
        error.deep_view() == predicate@.refusal(step as int, fault.deep_view()),
{
    let has_value_condition = predicate.equals.is_some() || predicate.matches.is_some()
        || predicate.min.is_some() || predicate.max.is_some();
    if has_value_condition && predicate.attr.is_none() {
        return Some(TransformError::ValueConditionWithoutAttr { step });
    }
    if predicate.event_type.is_none() && predicate.attr.is_none() {
        return Some(TransformError::EmptyPredicate { step });
    }
    match fault {
        Some(message) => Some(TransformError::BadRegex { step, message }),
        None => None,
    }
}

impl Matcher {
    /// Compile the predicate of step `step`.
    pub fn compile(step: usize, predicate: &EventPredicate) -> (outcome: Result<
        Matcher,
        TransformError,
    >)
        ensures
            outcome matches Ok(matcher) ==> predicate@.compiled(step as int) == Ok::<
                MatcherView,
                ErrorView,
            >(matcher@),
            outcome matches Err(error) ==> predicate@.compiled(step as int) == Err::<
                MatcherView,
                ErrorView,
            >(error@),
    {
        let (pattern, fault) = match &predicate.matches {
            None => (None, None),
            Some(source) => match Pattern::compile(source) {
                Ok(pattern) => (Some(pattern), None),
                Err(message) => (None, Some(message)),
            },
        };
        if let Some(error) = refusal(step, predicate, fault) {
            return Err(error);
        }
        Ok(
            Matcher {
                event_type: predicate.event_type.clone(),
                attr: predicate.attr.clone(),
                equals: predicate.equals.clone(),
                pattern,
                min: predicate.min,
                max: predicate.max,
            },
        )
    }

    /// Whether the bounds admit a value.
    fn admits_number(&self, value: &Value) -> (admitted: bool)
        ensures
            admitted == self@.admits_number(value@),
    {
        if self.min.is_none() && self.max.is_none() {
            return true;
        }
        let number = match value {
            Value::Integer(i) => Double::from_integer(*i),
            Value::Float(float) => Double { bits: float.bits() },
            _ => {
                return false;
            },
        };
        if let Some(min) = &self.min {
            if !min.less(&number) && !min.same(&number) {
                return false;
            }
        }
        if let Some(max) = &self.max {
            if !number.less(max) && !number.same(max) {
                return false;
            }
        }
        true
    }

    /// Whether a value passes the conditions on values, where it is written as
    /// `written` and `found` tells whether the pattern matches that text.
    pub fn admits_written(&self, value: &Value, written: &String, found: bool) -> (admitted: bool)
        ensures
            admitted == self@.admits_written(value@, written@, found),
    {
        if let Some(equals) = &self.equals {
            if *written != *equals {
                return false;
            }
        }
        if self.pattern.is_some() && !found {
            return false;
        }
        self.admits_number(value)
    }

    /// Whether an event of this type with these attributes matches.
    pub fn matches(&self, event_type: &String, attributes: &Vec<EventAttribute>) -> (matched: bool)
        ensures
            matched == self@.matches(event_type@, attributes.deep_view()),
    {
        if let Some(wanted) = &self.event_type {
            if *event_type != *wanted {
                return false;
            }
        }
        let name = match &self.attr {
            Some(name) => name,
            None => {
                return true;
            },
        };
        let value = match find_attribute(attributes, name) {
            Some(value) => value,
            None => {
                return false;
            },
        };
        let written = value.to_text();
        let found = match &self.pattern {
            Some(pattern) => pattern.is_match(&written),
            None => false,
        };
        self.admits_written(value, &written, found)
    }
}

/// An event without the named attribute never matches.
pub proof fn law_missing_attribute_never_matches(
    matcher: MatcherView,
    event_type: Seq<char>,
    attributes: Seq<AttributeView>,
    name: Seq<char>,
)
    requires
        matcher.attr == Some(name),
        forall|k: int| 0 <= k < attributes.len() ==> (#[trigger] attributes[k]).name != name,
    ensures
        !matcher.matches(event_type, attributes),
{
    lemma_no_value(attributes, name);
}

proof fn lemma_no_value(attributes: Seq<AttributeView>, name: Seq<char>)
    requires
        forall|k: int| 0 <= k < attributes.len() ==> (#[trigger] attributes[k]).name != name,
    ensures
        first_value(attributes, name) is None,
    decreases attributes.len(),
{
    if attributes.len() > 0 {
        let front = attributes.drop_last();
        assert forall|k: int| 0 <= k < front.len() implies (#[trigger] front[k]).name != name by {
            assert(attributes[k].name != name);
        }
        lemma_no_value(front, name);
        assert(attributes[attributes.len() - 1].name != name);
    }
}

/// With a numeric bound, values that are no numbers never match.
pub proof fn law_bounds_match_numbers_alone(matcher: MatcherView, value: ValueView)
    requires
        matcher.min is Some || matcher.max is Some,
        value !is Integer,
        value !is Float,
    ensures
        !matcher.admits(value),
{
}

/// A NaN lies within no bounds, and a bound that is a NaN admits nothing.
pub proof fn law_nan_is_never_within_bounds(matcher: MatcherView, value: ValueView)
    requires
        matcher.min is Some || matcher.max is Some,
        (numeric(value) matches Some(n) && double::is_nan(n)) || (matcher.min matches Some(min)
            && double::is_nan(min)) || (matcher.max matches Some(max) && double::is_nan(max)),
    ensures
        !matcher.admits(value),
{
}

/// All set conditions must hold: a condition that is taken away lets no event
/// fall out.
pub proof fn law_conditions_join(
    matcher: MatcherView,
    looser: MatcherView,
    event_type: Seq<char>,
    attributes: Seq<AttributeView>,
)
    requires
        looser.event_type is None || looser.event_type == matcher.event_type,
        looser.attr is None || looser.attr == matcher.attr,
        looser.equals is None || looser.equals == matcher.equals,
        looser.pattern is None || looser.pattern == matcher.pattern,
        looser.min is None || looser.min == matcher.min,
        looser.max is None || looser.max == matcher.max,
        matcher.matches(event_type, attributes),
    ensures
        looser.matches(event_type, attributes),
{
}

/// A predicate that compiles has a condition, and an attribute for every
/// condition on a value.
pub proof fn law_compiled_predicates_have_conditions(predicate: PredicateView, step: int)
    ensures
        predicate.compiled(step) matches Ok(matcher) ==> {
            &&& matcher.event_type is Some || matcher.attr is Some
            &&& predicate.has_value_condition() ==> matcher.attr is Some
        },
{
}

/// A predicate is refused as empty exactly where it sets nothing at all, and
/// for want of an attribute exactly where it sets a condition on a value and no
/// attribute, whatever else it sets.
pub proof fn law_refusals_tell_what_is_missing(
    predicate: PredicateView,
    step: int,
    fault: Option<Seq<char>>,
)
    ensures
        predicate.refusal(step, fault) == Some(ErrorView::EmptyPredicate { step }) <==> (
        predicate.event_type is None && predicate.attr is None && predicate.equals is None
            && predicate.matches is None && predicate.min is None && predicate.max is None),
        predicate.refusal(step, fault) == Some(ErrorView::ValueConditionWithoutAttr { step }) <==> (
        predicate.attr is None && predicate.has_value_condition()),
{
}

/// A value that is written in some way passes exactly where it is written like
/// the text, where one is set; the pattern is found, where one is set; and it
/// is a number within the bounds, where some are set. Integers count as doubles.
pub proof fn law_values_pass_each_condition(
    matcher: MatcherView,
    value: ValueView,
    written: Seq<char>,
    found: bool,
)
    ensures
        ({
            let number = match value {
                ValueView::Integer(i) => Some(double::integer_bits(i) as u64),
                ValueView::Float(bits) => Some(bits),
                _ => None,
            };
            matcher.admits_written(value, written, found) <==> {
                &&& matcher.equals is None || matcher.equals == Some(written)
                &&& matcher.pattern is None || found
                &&& matcher.min matches Some(low) ==> number matches Some(n) && (double::less(
                    low,
                    n,
                ) || double::equal(low, n))
                &&& matcher.max matches Some(high) ==> number matches Some(n) && (double::less(
                    n,
                    high,
                ) || double::equal(n, high))
            }
        }),
{
}

/// A predicate that has a condition, and an attribute for every condition on a
/// value, is refused exactly where its pattern is at fault, and for that.
pub proof fn law_faults_refuse(
    predicate: PredicateView,
    step: int,
    fault: Option<Seq<char>>,
)
    requires
        predicate.attr is Some || (predicate.event_type is Some && predicate.equals is None
            && predicate.matches is None && predicate.min is None && predicate.max is None),
    ensures
        fault is None ==> predicate.refusal(step, fault) is None,
        fault matches Some(message) ==> predicate.refusal(step, fault) == Some(
            ErrorView::BadRegex { step, message },
        ),
{
}

} // verus!
