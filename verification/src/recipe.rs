//! The recipe: a named, ordered list of transformation steps.

use vstd::prelude::*;

use crate::double::Double;
use crate::names::NameTable;

verus! {

/// Conditions on one event, in the model. Numeric bounds stand by their bits.
#[verifier::ext_equal]
pub struct PredicateView {
    pub event_type: Option<Seq<char>>,
    pub attr: Option<Seq<char>>,
    pub equals: Option<Seq<char>>,
    pub matches: Option<Seq<char>>,
    pub min: Option<u64>,
    pub max: Option<u64>,
}

/// A time window, in the model.
#[verifier::ext_equal]
pub struct WindowView {
    pub from: Option<Seq<char>>,
    pub to: Option<Seq<char>>,
}

/// A reachability condition, in the model.
#[verifier::ext_equal]
pub struct RelatedView {
    pub object_type: Seq<char>,
    pub via: Option<Seq<Seq<char>>>,
    pub not_via: Option<Seq<Seq<char>>>,
}

/// A lift, in the model.
#[verifier::ext_equal]
pub struct LiftView {
    pub from: Seq<char>,
    pub to: Seq<char>,
    pub event_types: Seq<Seq<char>>,
    pub qualifier: Seq<char>,
}

/// A step, in the model.
#[verifier::ext_equal]
pub enum StepView {
    DropEventTypes(Seq<Seq<char>>),
    KeepEventTypes(Seq<Seq<char>>),
    DropEventsWhere(PredicateView),
    RenameEventTypes(Map<Seq<char>, Seq<char>>),
    TimeWindow(WindowView),
    KeepObjectTypes(Seq<Seq<char>>),
    DropObjectsWithoutEvents,
    MapObjectIds(Map<Seq<char>, Seq<char>>),
    Union(Seq<char>),
    KeepRelatedTo(RelatedView),
    LiftEvents(LiftView),
}

/// A named transformation pipeline.
#[derive(Debug, Clone)]
pub struct Recipe {
    pub name: String,
    pub steps: Vec<Step>,
}

/// One transformation step. Steps are applied in recipe order; each step's
/// effect is reported.
#[derive(Debug, Clone)]
pub enum Step {
    /// Drop every event of these types. Objects stay (use
    /// [`Step::DropObjectsWithoutEvents`] to clean up afterwards).
    DropEventTypes(Vec<String>),
    /// Keep only events of these types.
    KeepEventTypes(Vec<String>),
    /// Drop events matching the predicate (all set conditions must hold).
    DropEventsWhere(EventPredicate),
    /// Rename event types; several old names mapping to one new name merge.
    RenameEventTypes(NameTable),
    /// Keep only events inside the half-open window `[from, to)`. Object
    /// attribute observations are not trimmed.
    TimeWindow(TimeWindow),
    /// Keep objects of these types; events no longer related to any kept
    /// object are dropped (their other E2O links are stripped).
    KeepObjectTypes(Vec<String>),
    /// Drop objects no remaining event references (O2O links to dropped
    /// objects are stripped from survivors).
    DropObjectsWithoutEvents,
    /// Re-key objects through an alias table: ids map to their alias or stay
    /// as they are; several ids mapping to one canonical id merge, and every
    /// E2O/O2O reference follows.
    MapObjectIds(AliasTable),
    /// Merge another log into the log. Same-id objects merge; same-id events
    /// must be identical: identical ones are skipped and counted, differing
    /// ones fail the step.
    Union(UnionSource),
    /// Keep only the objects reachable from the objects of one type over
    /// shared events and O2O links, walking only through allowed types; events
    /// no longer related to any kept object are dropped.
    KeepRelatedTo(RelatedTo),
    /// Add E2O relations lifting events from objects of one type to the
    /// objects of another type they are O2O-linked with (both directions).
    LiftEvents(LiftEvents),
}

/// The alias table of [`Step::MapObjectIds`].
#[derive(Debug, Clone)]
pub struct AliasTable {
    /// Old id to canonical id.
    pub aliases: NameTable,
}

/// The source file of [`Step::Union`].
#[derive(Debug, Clone)]
pub struct UnionSource {
    /// Path of the OCEL file to merge, resolved against the input log's
    /// directory.
    pub file: String,
}

/// The reachability condition of [`Step::KeepRelatedTo`]. Exactly one of `via`
/// and `not_via` must be set. A reached object is always kept, but the walk
/// continues through it only if its type is allowed (in `via`, or not in
/// `not_via`): endpoints of other types are kept without being expanded.
#[derive(Debug, Clone)]
pub struct RelatedTo {
    /// The seed type: every object of this type is kept and expanded.
    pub object_type: String,
    /// Object types the walk may continue through.
    pub via: Option<Vec<String>>,
    /// Object types the walk stops at (every other type is walkable).
    pub not_via: Option<Vec<String>>,
}

/// The lift of [`Step::LiftEvents`].
#[derive(Debug, Clone)]
pub struct LiftEvents {
    /// Type of the objects the events currently relate to.
    pub from: String,
    /// Type of the O2O-linked objects the events are lifted to.
    pub to: String,
    /// Only events of these types are lifted (required, non-empty).
    pub event_types: Vec<String>,
    /// Qualifier of the added E2O relations.
    pub qualifier: String,
}

/// Conditions on one event; all set fields must hold. At least one condition
/// is required, and value conditions require `attr`. An event without the
/// named attribute never matches.
#[derive(Debug, Clone)]
pub struct EventPredicate {
    /// Match only events of this type.
    pub event_type: Option<String>,
    /// Attribute the value conditions below apply to.
    pub attr: Option<String>,
    /// Value (as text) equals this exactly.
    pub equals: Option<String>,
    /// Value (as text) matches this regular expression.
    pub matches: Option<String>,
    /// Numeric value is at least this (non-numeric values and NaN never
    /// match).
    pub min: Option<Double>,
    /// Numeric value is at most this (non-numeric values and NaN never match).
    pub max: Option<Double>,
}

/// Half-open time window `[from, to)`. Bounds accept RFC 3339 or `YYYY-MM-DD`;
/// a date-only `to` means "up to and including that day" (it stands for the
/// following midnight).
#[derive(Debug, Clone)]
pub struct TimeWindow {
    pub from: Option<String>,
    pub to: Option<String>,
}

/// The bits of an optional number.
pub open spec fn bits_of(number: Option<Double>) -> Option<u64> {
    match number {
        Some(double) => Some(double.bits),
        None => None,
    }
}

impl View for EventPredicate {
    type V = PredicateView;

    open spec fn view(&self) -> PredicateView {
        PredicateView {
            event_type: self.event_type.deep_view(),
            attr: self.attr.deep_view(),
            equals: self.equals.deep_view(),
            matches: self.matches.deep_view(),
            min: bits_of(self.min),
            max: bits_of(self.max),
        }
    }
}

impl View for TimeWindow {
    type V = WindowView;

    open spec fn view(&self) -> WindowView {
        WindowView { from: self.from.deep_view(), to: self.to.deep_view() }
    }
}

impl View for RelatedTo {
    type V = RelatedView;

    open spec fn view(&self) -> RelatedView {
        RelatedView {
            object_type: self.object_type@,
            via: self.via.deep_view(),
            not_via: self.not_via.deep_view(),
        }
    }
}

impl View for LiftEvents {
    type V = LiftView;

    open spec fn view(&self) -> LiftView {
        LiftView {
            from: self.from@,
            to: self.to@,
            event_types: self.event_types.deep_view(),
            qualifier: self.qualifier@,
        }
    }
}

impl View for Step {
    type V = StepView;

    open spec fn view(&self) -> StepView {
        match self {
            Step::DropEventTypes(names) => StepView::DropEventTypes(names.deep_view()),
            Step::KeepEventTypes(names) => StepView::KeepEventTypes(names.deep_view()),
            Step::DropEventsWhere(predicate) => StepView::DropEventsWhere(predicate@),
            Step::RenameEventTypes(renames) => StepView::RenameEventTypes(renames@),
            Step::TimeWindow(window) => StepView::TimeWindow(window@),
            Step::KeepObjectTypes(names) => StepView::KeepObjectTypes(names.deep_view()),
            Step::DropObjectsWithoutEvents => StepView::DropObjectsWithoutEvents,
            Step::MapObjectIds(table) => StepView::MapObjectIds(table.aliases@),
            Step::Union(source) => StepView::Union(source.file@),
            Step::KeepRelatedTo(related) => StepView::KeepRelatedTo(related@),
            Step::LiftEvents(lift) => StepView::LiftEvents(lift@),
        }
    }
}

impl DeepView for Step {
    type V = StepView;

    open spec fn deep_view(&self) -> StepView {
        self@
    }
}

impl StepView {
    /// The display label of the step.
    pub open spec fn label(self) -> Seq<char> {
        match self {
            StepView::DropEventTypes(_) => "dropEventTypes"@,
            StepView::KeepEventTypes(_) => "keepEventTypes"@,
            StepView::DropEventsWhere(_) => "dropEventsWhere"@,
            StepView::RenameEventTypes(_) => "renameEventTypes"@,
            StepView::TimeWindow(_) => "timeWindow"@,
            StepView::KeepObjectTypes(_) => "keepObjectTypes"@,
            StepView::DropObjectsWithoutEvents => "dropObjectsWithoutEvents"@,
            StepView::MapObjectIds(_) => "mapObjectIds"@,
            StepView::Union(_) => "union"@,
            StepView::KeepRelatedTo(_) => "keepRelatedTo"@,
            StepView::LiftEvents(_) => "liftEvents"@,
        }
    }
}

impl Step {
    /// Stable display label (matches the JSON tag).
    #[must_use]
    pub fn label(&self) -> (label: &'static str)
        ensures
            label@ == self@.label(),
    {
        match self {
            Step::DropEventTypes(_) => "dropEventTypes",
            Step::KeepEventTypes(_) => "keepEventTypes",
            Step::DropEventsWhere(_) => "dropEventsWhere",
            Step::RenameEventTypes(_) => "renameEventTypes",
            Step::TimeWindow(_) => "timeWindow",
            Step::KeepObjectTypes(_) => "keepObjectTypes",
            Step::DropObjectsWithoutEvents => "dropObjectsWithoutEvents",
            Step::MapObjectIds(_) => "mapObjectIds",
            Step::Union(_) => "union",
            Step::KeepRelatedTo(_) => "keepRelatedTo",
            Step::LiftEvents(_) => "liftEvents",
        }
    }
}

/// The files that the union steps name, in order.
pub open spec fn union_files(steps: Seq<StepView>) -> Seq<Seq<char>>
    decreases steps.len(),
{
    if steps.len() == 0 {
        Seq::empty()
    } else {
        match steps.last() {
            StepView::Union(file) => union_files(steps.drop_last()).push(file),
            _ => union_files(steps.drop_last()),
        }
    }
}

impl Recipe {
    /// The files that the union steps name, in order.
    pub fn union_files(&self) -> (files: Vec<String>)
        ensures
            files.deep_view() == union_files(self.steps.deep_view()),
    {
        let ghost all = self.steps.deep_view();
        let mut files: Vec<String> = Vec::new();
        let mut i: usize = 0;
        assert(files.deep_view() =~= union_files(all.take(0)));
        while i < self.steps.len()
            invariant
                i <= self.steps.len(),
                all == self.steps.deep_view(),
                files.deep_view() == union_files(all.take(i as int)),
            decreases self.steps.len() - i,
        {
            let ghost before = files.deep_view();
            proof {
                assert(all.take(i + 1).drop_last() =~= all.take(i as int));
                assert(all.take(i + 1).last() == self.steps[i as int]@);
            }
            if let Step::Union(source) = &self.steps[i] {
                files.push(source.file.clone());
                assert(files.deep_view() =~= before.push(source.file@));
            }
            i += 1;
        }
        assert(all.take(i as int) =~= all);
        files
    }
}

/// The qualifier of lifted relations where a recipe names none.
pub fn default_lift_qualifier() -> (qualifier: String)
    ensures
        qualifier@ == "lifted"@,
{
    "lifted".to_owned()
}

impl Default for EventPredicate {
    fn default() -> (predicate: EventPredicate)
        ensures
            predicate@ == (PredicateView {
                event_type: None,
                attr: None,
                equals: None,
                matches: None,
                min: None,
                max: None,
            }),
    {
        EventPredicate {
            event_type: None,
            attr: None,
            equals: None,
            matches: None,
            min: None,
            max: None,
        }
    }
}

impl Default for TimeWindow {
    fn default() -> (window: TimeWindow)
        ensures
            window@ == (WindowView { from: None, to: None }),
    {
        TimeWindow { from: None, to: None }
    }
}

impl Default for AliasTable {
    fn default() -> (table: AliasTable)
        ensures
            table.aliases@ == Map::<Seq<char>, Seq<char>>::empty(),
    {
        AliasTable { aliases: NameTable::new() }
    }
}

/// What a recipe says is what the steps read: each condition, list, table and
/// file under its own name.
pub proof fn law_steps_are_read_as_written(step: Step)
    ensures
        match step {
            Step::DropEventTypes(names) => step@ == StepView::DropEventTypes(names.deep_view()),
            Step::KeepEventTypes(names) => step@ == StepView::KeepEventTypes(names.deep_view()),
            Step::DropEventsWhere(predicate) => step@ matches StepView::DropEventsWhere(read) && {
                &&& read.event_type == predicate.event_type.deep_view()
                &&& read.attr == predicate.attr.deep_view()
                &&& read.equals == predicate.equals.deep_view()
                &&& read.matches == predicate.matches.deep_view()
                &&& read.min == (match predicate.min {
                    Some(low) => Some(low.bits),
                    None => None,
                })
                &&& read.max == (match predicate.max {
                    Some(high) => Some(high.bits),
                    None => None,
                })
            },
            Step::RenameEventTypes(renames) => step@ == StepView::RenameEventTypes(renames@),
            Step::TimeWindow(window) => step@ matches StepView::TimeWindow(read) && read.from
                == window.from.deep_view() && read.to == window.to.deep_view(),
            Step::KeepObjectTypes(names) => step@ == StepView::KeepObjectTypes(names.deep_view()),
            Step::DropObjectsWithoutEvents => step@ == StepView::DropObjectsWithoutEvents,
            Step::MapObjectIds(table) => step@ == StepView::MapObjectIds(table.aliases@),
            Step::Union(source) => step@ == StepView::Union(source.file@),
            Step::KeepRelatedTo(related) => step@ matches StepView::KeepRelatedTo(read) && {
                &&& read.object_type == related.object_type@
                &&& read.via == related.via.deep_view()
                &&& read.not_via == related.not_via.deep_view()
            },
            Step::LiftEvents(lift) => step@ matches StepView::LiftEvents(read) && {
                &&& read.from == lift.from@
                &&& read.to == lift.to@
                &&& read.event_types == lift.event_types.deep_view()
                &&& read.qualifier == lift.qualifier@
            },
        },
{
}

} // verus!
