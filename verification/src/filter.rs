//! Which events a step keeps.

use vstd::prelude::*;

use crate::matcher::Matcher;
use crate::matcher::MatcherView;
use crate::model::Event;
use crate::model::EventView;
use crate::text;
use crate::time::TimeView;
use crate::time::Timestamp;
use crate::window;

verus! {

/// A condition on the events to keep, in the model.
#[verifier::ext_equal]
pub enum FilterView {
    /// Not of these types.
    WithoutTypes(Seq<Seq<char>>),
    /// Of these types.
    OfTypes(Seq<Seq<char>>),
    /// Not matched by the predicate.
    Unmatched(MatcherView),
    /// Not before the first bound, and before the second.
    Within(Option<TimeView>, Option<TimeView>),
}

impl FilterView {
    /// Whether the event is kept.
    pub open spec fn keeps(self, event: EventView) -> bool {
        match self {
            FilterView::WithoutTypes(names) => !names.contains(event.event_type),
            FilterView::OfTypes(names) => names.contains(event.event_type),
            FilterView::Unmatched(matcher) => !matcher.matches(event.event_type, event.attributes),
            FilterView::Within(from, to) => {
                &&& from matches Some(from) ==> !event.time.before(from)
                &&& to matches Some(to) ==> event.time.before(to)
            },
        }
    }
}

/// A condition on the events to keep.
#[derive(Debug)]
pub enum EventFilter<'a> {
    /// Not of these types.
    WithoutTypes(&'a Vec<String>),
    /// Of these types.
    OfTypes(&'a Vec<String>),
    /// Not matched by the predicate.
    Unmatched(&'a Matcher),
    /// Not before the first bound, and before the second.
    Within(Option<Timestamp>, Option<Timestamp>),
}

impl<'a> View for EventFilter<'a> {
    type V = FilterView;

    open spec fn view(&self) -> FilterView {
        match self {
            EventFilter::WithoutTypes(names) => FilterView::WithoutTypes(names.deep_view()),
            EventFilter::OfTypes(names) => FilterView::OfTypes(names.deep_view()),
            EventFilter::Unmatched(matcher) => FilterView::Unmatched(matcher@),
            EventFilter::Within(from, to) => FilterView::Within(from.deep_view(), to.deep_view()),
        }
    }
}

impl<'a> EventFilter<'a> {
    /// Whether the event is kept.
    pub fn keeps(&self, event: &Event) -> (kept: bool)
        ensures
            kept == self@.keeps(event@),
    {
        match self {
            EventFilter::WithoutTypes(names) => !text::contains_text(
                names,
                event.event_type.as_str(),
            ),
            EventFilter::OfTypes(names) => text::contains_text(names, event.event_type.as_str()),
            EventFilter::Unmatched(matcher) => !matcher.matches(
                &event.event_type,
                &event.attributes,
            ),
            EventFilter::Within(from, to) => {
                if let Some(from) = from {
                    if event.time.before(from) {
                        return false;
                    }
                }
                if let Some(to) = to {
                    if !event.time.before(to) {
                        return false;
                    }
                }
                true
            },
        }
    }
}

/// A window is half open: it holds the instant it begins with, and not the one
/// it ends with.
pub proof fn law_windows_are_half_open(from: TimeView, to: TimeView, event: EventView)
    requires
        from.before(to),
    ensures
        event.time == from ==> FilterView::Within(Some(from), Some(to)).keeps(event),
        event.time == to ==> !FilterView::Within(Some(from), Some(to)).keeps(event),
        FilterView::Within(Some(from), Some(to)).keeps(event) <==> !event.time.before(from)
            && event.time.before(to),
{
}

/// A window from a date to the same date holds that day, from its first
/// instant to its last, and nothing else.
pub proof fn law_date_windows_hold_the_day(step: int, raw: Seq<char>, day: int, event: EventView)
    requires
        day < window::LAST_DAY,
        0 <= event.time.nanos,
    ensures
        window::settled(step, raw, None, Some(day), false) matches Ok(from) && window::settled(
            step,
            raw,
            None,
            Some(day),
            true,
        ) matches Ok(to) && (FilterView::Within(from, to).keeps(event) <==> day * 86400
            <= event.time.secs < (day + 1) * 86400),
{
}

} // verus!
