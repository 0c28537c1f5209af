//! Applying a recipe: each step maps a log to a log.
//!
//! Event-level steps run through a staging log, which is sealed only if valid;
//! object-level steps keep a consistent part of the log; and the final result
//! is validated once more. A recipe can drop data, but it can never produce an
//! inconsistent log.

use vstd::hash_set::StringHashSet;
use vstd::prelude::*;
use vstd::string::StringExecFns;

use crate::convert;
use crate::error::ErrorView;
use crate::error::TransformError;
use crate::filter::EventFilter;
use crate::filter::FilterView;
use crate::graph;
use crate::graph::Expansion;
use crate::lift;
use crate::matcher::Matcher;
use crate::merge;
use crate::merge::InputView;
use crate::merge::UnionInput;
use crate::model::AttributeView;
use crate::model::Event;
use crate::model::EventAttribute;
use crate::model::EventView;
use crate::model::Log;
use crate::model::LogView;
use crate::recipe;
use crate::recipe::Recipe;
use crate::recipe::Step;
use crate::recipe::StepView;
use crate::recipe::WindowView;
use crate::staging;
use crate::sublog;
use crate::text;
use crate::time::TimeView;
use crate::time::Timestamp;
use crate::validity;
use crate::window;

verus! {

/// What a step tells beyond the counts, in the model.
#[verifier::ext_equal]
pub struct NotesView {
    pub duplicates_skipped: Option<nat>,
    pub events_lifted: Option<nat>,
}

/// A step that has been done, in the model: the log before and after it.
#[verifier::ext_equal]
pub struct StageView {
    pub step: StepView,
    pub before: LogView,
    pub after: LogView,
    pub notes: NotesView,
}

/// The report of a step, in the model.
#[verifier::ext_equal]
pub struct ReportView {
    pub step: Seq<char>,
    pub events_before: nat,
    pub events_after: nat,
    pub objects_before: nat,
    pub objects_after: nat,
    pub duplicates_skipped: Option<nat>,
    pub events_lifted: Option<nat>,
}

/// A dropped event, in the model.
#[verifier::ext_equal]
pub struct DroppedView {
    pub id: Seq<char>,
    pub event_type: Seq<char>,
    pub time: TimeView,
    pub attributes: Seq<(Seq<char>, Seq<char>)>,
}

/// The preview of a step, in the model.
#[verifier::ext_equal]
pub struct PreviewView {
    pub report: ReportView,
    pub dropped_events: Seq<DroppedView>,
    pub dropped_total: nat,
}

/// The notes of a step that tells nothing more.
pub open spec fn no_notes() -> NotesView {
    NotesView { duplicates_skipped: None, events_lifted: None }
}

impl WindowView {
    /// The condition on events that the window of step `step` sets.
    pub open spec fn filter(self, step: int) -> Result<FilterView, ErrorView> {
        match (window::bound(step, self.from, false), window::bound(step, self.to, true)) {
            (Err(error), _) => Err(error),
            (Ok(_), Err(error)) => Err(error),
            (Ok(from), Ok(to)) => Ok(FilterView::Within(from, to)),
        }
    }
}

impl StepView {
    /// The condition on events that step `index` sets, if it is one that
    /// keeps the events meeting a condition.
    pub open spec fn filter(self, index: int) -> Option<Result<FilterView, ErrorView>> {
        match self {
            StepView::DropEventTypes(names) => Some(Ok(FilterView::WithoutTypes(names))),
            StepView::KeepEventTypes(names) => Some(Ok(FilterView::OfTypes(names))),
            StepView::DropEventsWhere(predicate) => Some(
                match predicate.compiled(index) {
                    Ok(matcher) => Ok(FilterView::Unmatched(matcher)),
                    Err(error) => Err(error),
                },
            ),
            StepView::TimeWindow(window) => Some(window.filter(index)),
            _ => None,
        }
    }

    /// What step `index` makes of `log`, where `input` is what the file of a
    /// union holds.
    pub open spec fn outcome(self, index: int, log: LogView, input: InputView) -> Result<
        (LogView, NotesView),
        ErrorView,
    > {
        match self.filter(index) {
            Some(Ok(filter)) => Ok((log.retaining(filter), no_notes())),
            Some(Err(error)) => Err(error),
            None => match self {
                StepView::RenameEventTypes(renames) => Ok((log.renaming(renames), no_notes())),
                StepView::KeepObjectTypes(names) => Ok(
                    (log.restricted(log.ids_of_types(names)), no_notes()),
                ),
                StepView::DropObjectsWithoutEvents => Ok((log.without_orphans(), no_notes())),
                StepView::MapObjectIds(aliases) => Ok((log.resolving(aliases), no_notes())),
                StepView::Union(_) => match input.merged(index, log) {
                    Ok((merged, duplicates)) => Ok(
                        (
                            merged,
                            NotesView { duplicates_skipped: Some(duplicates), events_lifted: None },
                        ),
                    ),
                    Err(error) => Err(error),
                },
                StepView::KeepRelatedTo(related) => match related.expansion(index) {
                    Ok(expansion) => Ok(
                        (
                            log.restricted(log.reached(related.object_type, expansion)),
                            no_notes(),
                        ),
                    ),
                    Err(error) => Err(error),
                },
                StepView::LiftEvents(lift) => match lift.refusal(index) {
                    Some(error) => Err(error),
                    None => Ok(
                        (
                            log.lifting(lift),
                            NotesView {
                                duplicates_skipped: None,
                                events_lifted: Some(log.lift_count(lift)),
                            },
                        ),
                    ),
                },
                _ => Ok((log, no_notes())),
            },
        }
    }

    /// Whether what step `index` makes of `log` can be sealed, if the step
    /// rewrites the log through a staging log. A union that cannot be sealed
    /// fails with an error instead.
    pub open spec fn seals(self, index: int, log: LogView) -> bool {
        match self.filter(index) {
            Some(Ok(filter)) => log.retaining(filter).valid(),
            Some(Err(_)) => true,
            None => match self {
                StepView::RenameEventTypes(renames) => log.renaming(renames).valid(),
                StepView::MapObjectIds(aliases) => log.resolving(aliases).valid(),
                _ => true,
            },
        }
    }
}

/// The log after the stages.
pub open spec fn end(log: LogView, stages: Seq<StageView>) -> LogView {
    if stages.len() == 0 {
        log
    } else {
        stages.last().after
    }
}

/// The stages of a run: each step in turn, until one fails. The input of a
/// union step is the one that stands at the place of its file.
pub open spec fn stages(steps: Seq<StepView>, inputs: Seq<InputView>, log: LogView) -> Result<
    Seq<StageView>,
    ErrorView,
>
    decreases steps.len(),
{
    if steps.len() == 0 {
        Ok(Seq::empty())
    } else {
        match stages(steps.drop_last(), inputs, log) {
            Err(error) => Err(error),
            Ok(done) => {
                let before = end(log, done);
                let input = inputs[recipe::union_files(steps.drop_last()).len() as int];
                match steps.last().outcome(steps.len() - 1, before, input) {
                    Err(error) => Err(error),
                    Ok((after, notes)) => Ok(
                        done.push(StageView { step: steps.last(), before, after, notes }),
                    ),
                }
            },
        }
    }
}

/// Whether what every step of a run makes of the log, if it is reached, can be
/// sealed.
pub open spec fn sealable(steps: Seq<StepView>, inputs: Seq<InputView>, log: LogView) -> bool
    decreases steps.len(),
{
    steps.len() == 0 || (sealable(steps.drop_last(), inputs, log) && (stages(
        steps.drop_last(),
        inputs,
        log,
    ) matches Ok(done) ==> steps.last().seals(steps.len() - 1, end(log, done))))
}

/// The stages of a run whose final log is valid.
pub open spec fn finished(steps: Seq<StepView>, inputs: Seq<InputView>, log: LogView) -> Result<
    Seq<StageView>,
    ErrorView,
> {
    match stages(steps, inputs, log) {
        Err(error) => Err(error),
        Ok(done) => if end(log, done).valid() {
            Ok(done)
        } else {
            Err(ErrorView::Invalid(validity::violations(end(log, done))))
        },
    }
}

/// An event as a preview shows it: its attributes as texts.
pub open spec fn summary(event: EventView) -> DroppedView {
    DroppedView {
        id: event.id,
        event_type: event.event_type,
        time: event.time,
        attributes: event.attributes.map_values(
            |a: AttributeView| (a.name, convert::value_text(a.value)),
        ),
    }
}

impl StageView {
    /// The report of the stage.
    pub open spec fn report(self) -> ReportView {
        ReportView {
            step: self.step.label(),
            events_before: self.before.events.len(),
            events_after: self.after.events.len(),
            objects_before: self.before.objects.len(),
            objects_after: self.after.objects.len(),
            duplicates_skipped: self.notes.duplicates_skipped,
            events_lifted: self.notes.events_lifted,
        }
    }

    /// The events whose id no event has after the stage.
    pub open spec fn dropped(self) -> Seq<EventView> {
        self.before.events.filter(|e: EventView| !self.after.has_event(e.id))
    }

    /// The preview of the stage: at most `sample` of the dropped events are
    /// shown, in the order of the log.
    pub open spec fn preview(self, sample: nat) -> PreviewView {
        let dropped = self.dropped();
        PreviewView {
            report: self.report(),
            dropped_events: (if sample < dropped.len() {
                dropped.take(sample as int)
            } else {
                dropped
            }).map_values(|e: EventView| summary(e)),
            dropped_total: dropped.len(),
        }
    }
}

/// What a step tells beyond the counts.
#[derive(Debug, Clone, Copy)]
pub struct StepNotes {
    pub duplicates_skipped: Option<usize>,
    pub events_lifted: Option<usize>,
}

/// A count as a number.
pub open spec fn count_of(count: Option<usize>) -> Option<nat> {
    match count {
        Some(n) => Some(n as nat),
        None => None,
    }
}

impl View for StepNotes {
    type V = NotesView;

    open spec fn view(&self) -> NotesView {
        NotesView {
            duplicates_skipped: count_of(self.duplicates_skipped),
            events_lifted: count_of(self.events_lifted),
        }
    }
}

impl Default for StepNotes {
    fn default() -> (notes: StepNotes)
        ensures
            notes@ == no_notes(),
    {
        StepNotes { duplicates_skipped: None, events_lifted: None }
    }
}

/// The effect of one step.
#[derive(Debug, Clone)]
pub struct StepReport {
    pub step: String,
    pub events_before: usize,
    pub events_after: usize,
    pub objects_before: usize,
    pub objects_after: usize,
    /// `union` only: incoming events skipped because an identical event
    /// already existed.
    pub duplicates_skipped: Option<usize>,
    /// `liftEvents` only: events that gained at least one lifted relation.
    pub events_lifted: Option<usize>,
}

impl View for StepReport {
    type V = ReportView;

    open spec fn view(&self) -> ReportView {
        ReportView {
            step: self.step@,
            events_before: self.events_before as nat,
            events_after: self.events_after as nat,
            objects_before: self.objects_before as nat,
            objects_after: self.objects_after as nat,
            duplicates_skipped: count_of(self.duplicates_skipped),
            events_lifted: count_of(self.events_lifted),
        }
    }
}

impl DeepView for StepReport {
    type V = ReportView;

    open spec fn deep_view(&self) -> ReportView {
        self@
    }
}

impl ReportView {
    /// The report as one line.
    pub open spec fn line(self) -> Seq<char> {
        let counts = self.step + ": events "@ + text::decimal(self.events_before as int) + " -> "@
            + text::decimal(self.events_after as int) + ", objects "@ + text::decimal(
            self.objects_before as int,
        ) + " -> "@ + text::decimal(self.objects_after as int);
        let skipped = match self.duplicates_skipped {
            Some(n) => ", "@ + text::decimal(n as int) + " duplicates skipped"@,
            None => Seq::empty(),
        };
        let lifted = match self.events_lifted {
            Some(n) => ", lifted "@ + text::decimal(n as int) + " events"@,
            None => Seq::empty(),
        };
        counts + skipped + lifted
    }
}

impl StepReport {
    /// The report as one line.
    pub fn line(&self) -> (line: String)
        ensures
            line@ == self@.line(),
    {
        let mut line = self.step.clone();
        line.append(": events ");
        line.append(text::number(self.events_before).as_str());
        line.append(" -> ");
        line.append(text::number(self.events_after).as_str());
        line.append(", objects ");
        line.append(text::number(self.objects_before).as_str());
        line.append(" -> ");
        line.append(text::number(self.objects_after).as_str());
        if let Some(skipped) = self.duplicates_skipped {
            line.append(", ");
            line.append(text::number(skipped).as_str());
            line.append(" duplicates skipped");
        }
        if let Some(lifted) = self.events_lifted {
            line.append(", lifted ");
            line.append(text::number(lifted).as_str());
            line.append(" events");
        }
        assert(line@ =~= self@.line());
        line
    }
}

/// A dropped event, summarized for a preview of what the recipe deletes.
#[derive(Debug, Clone)]
pub struct DroppedEvent {
    pub id: String,
    pub event_type: String,
    pub time: Timestamp,
    /// (name, value as text) pairs.
    pub attributes: Vec<(String, String)>,
}

impl View for DroppedEvent {
    type V = DroppedView;

    open spec fn view(&self) -> DroppedView {
        DroppedView {
            id: self.id@,
            event_type: self.event_type@,
            time: self.time@,
            attributes: self.attributes@.map_values(|p: (String, String)| (p.0@, p.1@)),
        }
    }
}

impl DeepView for DroppedEvent {
    type V = DroppedView;

    open spec fn deep_view(&self) -> DroppedView {
        self@
    }
}

/// One step's effect plus a sample of the events it removed.
#[derive(Debug, Clone)]
pub struct StepPreview {
    pub report: StepReport,
    /// Up to `sample` of the events this step dropped.
    pub dropped_events: Vec<DroppedEvent>,
    /// Total events this step dropped (the sample may be shorter).
    pub dropped_total: usize,
}

impl View for StepPreview {
    type V = PreviewView;

    open spec fn view(&self) -> PreviewView {
        PreviewView {
            report: self.report@,
            dropped_events: self.dropped_events.deep_view(),
            dropped_total: self.dropped_total as nat,
        }
    }
}

impl DeepView for StepPreview {
    type V = PreviewView;

    open spec fn deep_view(&self) -> PreviewView {
        self@
    }
}

/// Whether a done step agrees with what step `index` makes of `log`.
pub open spec fn agrees(
    done: Option<Result<(Log, StepNotes), TransformError>>,
    step: StepView,
    index: int,
    log: LogView,
    input: InputView,
) -> bool {
    match done {
        Some(Ok((after, notes))) => step.seals(index, log) && step.outcome(index, log, input)
            == Ok::<(LogView, NotesView), ErrorView>((after@, notes@)),
        Some(Err(error)) => step.seals(index, log) && step.outcome(index, log, input) == Err::<
            (LogView, NotesView),
            ErrorView,
        >(error@),
        None => !step.seals(index, log),
    }
}

/// Do step `index` on a log. The input is read by a union step alone. None
/// where the log cannot be sealed.
pub fn apply_step(index: usize, step: &Step, log: &Log, input: Option<&UnionInput>) -> (done: Option<
    Result<(Log, StepNotes), TransformError>,
>)
    requires
        step@ is Union ==> input is Some,
    ensures
        step@ is Union ==> agrees(done, step@, index as int, log@, input->0@),
        step@ !is Union ==> forall|any: InputView| agrees(done, step@, index as int, log@, any),
{
    let mut notes = StepNotes::default();
    let left = match step {
        Step::DropEventTypes(names) => staging::retain(log, &EventFilter::WithoutTypes(names)),
        Step::KeepEventTypes(names) => staging::retain(log, &EventFilter::OfTypes(names)),
        Step::DropEventsWhere(predicate) => match Matcher::compile(index, predicate) {
            Ok(matcher) => staging::retain(log, &EventFilter::Unmatched(&matcher)),
            Err(error) => {
                return Some(Err(error));
            },
        },
        Step::RenameEventTypes(renames) => staging::rename(log, renames),
        Step::TimeWindow(window) => {
            let from = match window::parse_bound(index, &window.from, false) {
                Ok(from) => from,
                Err(error) => {
                    return Some(Err(error));
                },
            };
            let to = match window::parse_bound(index, &window.to, true) {
                Ok(to) => to,
                Err(error) => {
                    return Some(Err(error));
                },
            };
            staging::retain(log, &EventFilter::Within(from, to))
        },
        Step::KeepObjectTypes(names) => Some(sublog::keep_object_types(log, names)),
        Step::DropObjectsWithoutEvents => Some(sublog::drop_objects_without_events(log.clone())),
        Step::MapObjectIds(table) => staging::resolve(log, &table.aliases),
        Step::Union(_) => match input {
            Some(input) => match merge::union_logs(index, input, log) {
                Ok((merged, duplicates)) => {
                    notes.duplicates_skipped = Some(duplicates);
                    Some(merged)
                },
                Err(error) => {
                    return Some(Err(error));
                },
            },
            None => None,
        },
        Step::KeepRelatedTo(related) => match Expansion::compile(index, related) {
            Ok(expansion) => Some(graph::keep_related_to(log, &related.object_type, &expansion)),
            Err(error) => {
                return Some(Err(error));
            },
        },
        Step::LiftEvents(spec) => {
            if spec.event_types.is_empty() {
                return Some(Err(TransformError::EmptyLiftEventTypes { step: index }));
            }
            let (lifted_log, lifted) = lift::lift_events(log.clone(), spec);
            notes.events_lifted = Some(lifted);
            Some(lifted_log)
        },
    };
    match left {
        Some(after) => Some(Ok((after, notes))),
        None => None,
    }
}

/// A run stops at the first failing step.
proof fn lemma_stops(steps: Seq<StepView>, inputs: Seq<InputView>, log: LogView, n: int)
    requires
        0 <= n <= steps.len(),
        stages(steps.take(n), inputs, log) is Err,
    ensures
        stages(steps, inputs, log) == stages(steps.take(n), inputs, log),
        sealable(steps, inputs, log) == sealable(steps.take(n), inputs, log),
    decreases steps.len(),
{
    if n == steps.len() {
        assert(steps.take(n) =~= steps);
    } else {
        assert(steps.drop_last().take(n) =~= steps.take(n));
        lemma_stops(steps.drop_last(), inputs, log, n);
    }
}

/// The front part of a run that can be sealed, can be sealed.
proof fn lemma_seals_before(steps: Seq<StepView>, inputs: Seq<InputView>, log: LogView, n: int)
    requires
        0 <= n <= steps.len(),
        sealable(steps, inputs, log),
    ensures
        sealable(steps.take(n), inputs, log),
    decreases steps.len(),
{
    if n == steps.len() {
        assert(steps.take(n) =~= steps);
    } else {
        assert(steps.drop_last().take(n) =~= steps.take(n));
        lemma_seals_before(steps.drop_last(), inputs, log, n);
    }
}

/// A front part of the steps names no more files than all of them.
proof fn lemma_fewer_files(steps: Seq<StepView>, n: int)
    requires
        0 <= n <= steps.len(),
    ensures
        recipe::union_files(steps.take(n)).len() <= recipe::union_files(steps).len(),
        n < steps.len() && steps[n] is Union ==> recipe::union_files(steps.take(n)).len()
            < recipe::union_files(steps).len(),
    decreases steps.len(),
{
    if n == steps.len() {
        assert(steps.take(n) =~= steps);
    } else {
        assert(steps.drop_last().take(n) =~= steps.take(n));
        lemma_fewer_files(steps.drop_last(), n);
        if n == steps.len() - 1 {
            assert(steps.drop_last() =~= steps.take(n));
        }
    }
}

/// A run that is under way: how many steps are done, and the place of the next
/// input.
struct Run {
    done: usize,
    used: usize,
    log: Log,
}

impl Run {
    /// Whether this is the run of the first steps on `start`.
    #[verifier::opaque]
    spec fn follows(
        self,
        steps: Seq<StepView>,
        inputs: Seq<InputView>,
        start: LogView,
        stages_done: Seq<StageView>,
    ) -> bool {
        let front = steps.take(self.done as int);
        &&& self.done <= steps.len()
        &&& self.used == recipe::union_files(front).len()
        &&& stages(front, inputs, start) == Ok::<Seq<StageView>, ErrorView>(stages_done)
        &&& self.log@ == end(start, stages_done)
        &&& sealable(front, inputs, start)
    }
}

/// A run begins with no step done.
proof fn lemma_run_begins(run: Run, steps: Seq<StepView>, inputs: Seq<InputView>)
    requires
        run.done == 0,
        run.used == 0,
    ensures
        run.follows(steps, inputs, run.log@, Seq::empty()),
{
    reveal(Run::follows);
    assert(steps.take(0) =~= Seq::<StepView>::empty());
}

/// What a run has come to when every step is done.
proof fn lemma_run_ends(
    run: Run,
    steps: Seq<StepView>,
    inputs: Seq<InputView>,
    start: LogView,
    stages_done: Seq<StageView>,
)
    requires
        run.follows(steps, inputs, start, stages_done),
        run.done >= steps.len(),
    ensures
        stages(steps, inputs, start) == Ok::<Seq<StageView>, ErrorView>(stages_done),
        run.log@ == end(start, stages_done),
        sealable(steps, inputs, start),
{
    reveal(Run::follows);
    assert(steps.take(run.done as int) =~= steps);
}

/// Do the next step of a run. Gives what the step makes of the log, and the
/// place of the input after it.
#[verifier::spinoff_prover]
fn advance(
    run: &Run,
    recipe: &Recipe,
    inputs: &Vec<UnionInput>,
    Ghost(start): Ghost<LogView>,
    Ghost(stages_done): Ghost<Seq<StageView>>,
) -> (done: (Option<Result<(Log, StepNotes), TransformError>>, usize))
    requires
        recipe::union_files(recipe.steps.deep_view()).len() <= inputs.len(),
        run.follows(recipe.steps.deep_view(), inputs.deep_view(), start, stages_done),
        run.done < recipe.steps.len(),
    ensures
        ({
            let steps = recipe.steps.deep_view();
            match done.0 {
                Some(Ok((after, notes))) => {
                    let stage = StageView {
                        step: steps[run.done as int],
                        before: run.log@,
                        after: after@,
                        notes: notes@,
                    };
                    (Run { done: (run.done + 1) as usize, used: done.1, log: after }).follows(
                        steps,
                        inputs.deep_view(),
                        start,
                        stages_done.push(stage),
                    )
                },
                Some(Err(error)) => sealable(steps, inputs.deep_view(), start) && stages(
                    steps,
                    inputs.deep_view(),
                    start,
                ) == Err::<Seq<StageView>, ErrorView>(error@),
                None => !sealable(steps, inputs.deep_view(), start),
            }
        }),
{
    let step = &recipe.steps[run.done];
    let ghost steps = recipe.steps.deep_view();
    let ghost front = steps.take(run.done as int);
    let ghost more = steps.take(run.done + 1);
    proof {
        reveal(Run::follows);
        assert(steps[run.done as int] == step@);
        assert(more.drop_last() =~= front);
        assert(more.last() == step@);
        lemma_fewer_files(steps, run.done as int);
    }
    let (attempt, used) = if let Step::Union(_) = step {
        assert(inputs.deep_view()[run.used as int] == inputs[run.used as int]@);
        (apply_step(run.done, step, &run.log, Some(&inputs[run.used])), run.used + 1)
    } else {
        (apply_step(run.done, step, &run.log, None), run.used)
    };
    proof {
        assert(agrees(
            attempt,
            step@,
            run.done as int,
            run.log@,
            inputs.deep_view()[run.used as int],
        ));
        match attempt {
            Some(Ok(_)) => {},
            Some(Err(_)) => {
                lemma_stops(steps, inputs.deep_view(), start, run.done + 1);
            },
            None => {
                if sealable(steps, inputs.deep_view(), start) {
                    lemma_seals_before(steps, inputs.deep_view(), start, run.done + 1);
                }
            },
        }
    }
    (attempt, used)
}

/// The report of a step.
fn report(step: &Step, before: &Log, after: &Log, notes: &StepNotes) -> (report: StepReport)
    ensures
        report@ == (StageView { step: step@, before: before@, after: after@, notes: notes@ }).report(),
{
    StepReport {
        step: step.label().to_owned(),
        events_before: before.events.len(),
        events_after: after.events.len(),
        objects_before: before.objects.len(),
        objects_after: after.objects.len(),
        duplicates_skipped: notes.duplicates_skipped,
        events_lifted: notes.events_lifted,
    }
}

/// Apply every step of `recipe` in order. `inputs` holds what the files of the
/// union steps hold, in the order of [`Recipe::union_files`].
///
/// What every step makes of the log, if it is reached, must be sealable;
/// [`try_apply`] finds out.
#[verifier::spinoff_prover]
pub fn apply(recipe: &Recipe, log: Log, inputs: &Vec<UnionInput>) -> (outcome: Result<
    (Log, Vec<StepReport>),
    TransformError,
>)
    requires
        recipe::union_files(recipe.steps.deep_view()).len() <= inputs.len(),
        sealable(recipe.steps.deep_view(), inputs.deep_view(), log@),
    ensures
        match (outcome, finished(recipe.steps.deep_view(), inputs.deep_view(), log@)) {
            (Ok((after, reports)), Ok(done)) => after@ == end(log@, done) && reports.deep_view()
                == done.map_values(|stage: StageView| stage.report()),
            (Err(error), Err(expected)) => error@ == expected,
            _ => false,
        },
        outcome matches Err(TransformError::Invalid(found)) ==> (stages(
            recipe.steps.deep_view(),
            inputs.deep_view(),
            log@,
        ) matches Ok(done) ==> end(log@, done).commits_exactly(found.deep_view())),
{
    let ghost start = log@;
    let ghost steps = recipe.steps.deep_view();
    let ghost mut stages_done: Seq<StageView> = Seq::empty();
    let mut reports: Vec<StepReport> = Vec::new();
    let mut run = Run { done: 0, used: 0, log };
    proof {
        lemma_run_begins(run, steps, inputs.deep_view());
    }
    assert(reports.deep_view() =~= stages_done.map_values(|stage: StageView| stage.report()));
    while run.done < recipe.steps.len()
        invariant
            recipe::union_files(recipe.steps.deep_view()).len() <= inputs.len(),
            start == log@,
            steps == recipe.steps.deep_view(),
            sealable(steps, inputs.deep_view(), start),
            run.follows(steps, inputs.deep_view(), start, stages_done),
            reports.deep_view() == stages_done.map_values(|stage: StageView| stage.report()),
        decreases recipe.steps.len() - run.done,
    {
        let (attempt, used) = advance(&run, recipe, inputs, Ghost(start), Ghost(stages_done));
        match attempt.unwrap() {
            Ok((after, notes)) => {
                let step = &recipe.steps[run.done];
                let ghost before = reports.deep_view();
                let next = report(step, &run.log, &after, &notes);
                let ghost told = next@;
                reports.push(next);
                proof {
                    let stage = StageView {
                        step: step@,
                        before: run.log@,
                        after: after@,
                        notes: notes@,
                    };
                    assert(steps[run.done as int] == step@);
                    assert(reports.deep_view() =~= before.push(told));
                    stages_done.lemma_push_map_commute(|s: StageView| s.report(), stage);
                    stages_done = stages_done.push(stage);
                }
                run = Run { done: run.done + 1, used, log: after };
            },
            Err(error) => {
                return Err(error);
            },
        }
    }
    proof {
        lemma_run_ends(run, steps, inputs.deep_view(), start, stages_done);
    }
    match run.log.validate() {
        Ok(()) => Ok((run.log, reports)),
        Err(found) => Err(TransformError::Invalid(found)),
    }
}

/// Whether what every step of `recipe` makes of the log, if it is reached, can
/// be sealed.
#[verifier::spinoff_prover]
pub fn can_seal(recipe: &Recipe, log: &Log, inputs: &Vec<UnionInput>) -> (sealed: bool)
    requires
        recipe::union_files(recipe.steps.deep_view()).len() <= inputs.len(),
    ensures
        sealed == sealable(recipe.steps.deep_view(), inputs.deep_view(), log@),
{
    let ghost start = log@;
    let ghost steps = recipe.steps.deep_view();
    let ghost mut stages_done: Seq<StageView> = Seq::empty();
    let mut run = Run { done: 0, used: 0, log: log.clone() };
    proof {
        lemma_run_begins(run, steps, inputs.deep_view());
    }
    while run.done < recipe.steps.len()
        invariant
            recipe::union_files(recipe.steps.deep_view()).len() <= inputs.len(),
            start == log@,
            steps == recipe.steps.deep_view(),
            run.follows(steps, inputs.deep_view(), start, stages_done),
        decreases recipe.steps.len() - run.done,
    {
        let (attempt, used) = advance(&run, recipe, inputs, Ghost(start), Ghost(stages_done));
        match attempt {
            Some(Ok((after, notes))) => {
                proof {
                    let stage = StageView {
                        step: steps[run.done as int],
                        before: run.log@,
                        after: after@,
                        notes: notes@,
                    };
                    stages_done = stages_done.push(stage);
                }
                run = Run { done: run.done + 1, used, log: after };
            },
            Some(Err(_)) => {
                return true;
            },
            None => {
                return false;
            },
        }
    }
    proof {
        lemma_run_ends(run, steps, inputs.deep_view(), start, stages_done);
    }
    true
}

/// Like [`apply`], for every log: none where what a step makes of the log
/// cannot be sealed.
pub fn try_apply(recipe: &Recipe, log: Log, inputs: &Vec<UnionInput>) -> (outcome: Option<
    Result<(Log, Vec<StepReport>), TransformError>,
>)
    requires
        recipe::union_files(recipe.steps.deep_view()).len() <= inputs.len(),
    ensures
        outcome is Some <==> sealable(recipe.steps.deep_view(), inputs.deep_view(), log@),
        outcome matches Some(outcome) ==> match (
            outcome,
            finished(recipe.steps.deep_view(), inputs.deep_view(), log@),
        ) {
            (Ok((after, reports)), Ok(done)) => after@ == end(log@, done) && reports.deep_view()
                == done.map_values(|stage: StageView| stage.report()),
            (Err(error), Err(expected)) => error@ == expected,
            _ => false,
        },
        outcome matches Some(Err(TransformError::Invalid(found))) ==> (stages(
            recipe.steps.deep_view(),
            inputs.deep_view(),
            log@,
        ) matches Ok(done) ==> end(log@, done).commits_exactly(found.deep_view())),
{
    if can_seal(recipe, &log, inputs) {
        Some(apply(recipe, log, inputs))
    } else {
        None
    }
}

/// The ids of the events.
fn event_ids(log: &Log) -> (ids: StringHashSet)
    ensures
        forall|id: Seq<char>| #[trigger] ids@.contains(id) <==> log@.has_event(id),
{
    let mut ids = StringHashSet::new();
    let mut i: usize = 0;
    while i < log.events.len()
        invariant
            i <= log.events.len(),
            forall|id: Seq<char>| #[trigger]
                ids@.contains(id) <==> exists|k: int|
                    0 <= k < i && #[trigger] log@.events[k].id == id,
        decreases log.events.len() - i,
    {
        let ghost before = ids@;
        ids.insert(log.events[i].id.clone());
        proof {
            assert(log@.events[i as int].id == log.events[i as int].id@);
            assert forall|id: Seq<char>| #[trigger] ids@.contains(id) implies exists|k: int|
                0 <= k < i + 1 && #[trigger] log@.events[k].id == id by {
                if before.contains(id) {
                    let k = choose|k: int| 0 <= k < i && #[trigger] log@.events[k].id == id;
                    assert(log@.events[k].id == id);
                }
            }
        }
        i += 1;
    }
    ids
}

/// The attributes as texts.
fn attribute_texts(attributes: &Vec<EventAttribute>) -> (texts: Vec<(String, String)>)
    ensures
        texts@.map_values(|p: (String, String)| (p.0@, p.1@)) == attributes.deep_view().map_values(
            |a: AttributeView| (a.name, convert::value_text(a.value)),
        ),
{
    let mut texts: Vec<(String, String)> = Vec::new();
    let mut i: usize = 0;
    while i < attributes.len()
        invariant
            i <= attributes.len(),
            texts@.len() == i,
            forall|k: int|
                0 <= k < i ==> (#[trigger] texts@[k]).0@ == attributes@[k].name@ && texts@[k].1@
                    == convert::value_text(attributes@[k].value@),
        decreases attributes.len() - i,
    {
        texts.push((attributes[i].name.clone(), attributes[i].value.to_text()));
        i += 1;
    }
    assert(texts@.map_values(|p: (String, String)| (p.0@, p.1@))
        =~= attributes.deep_view().map_values(
        |a: AttributeView| (a.name, convert::value_text(a.value)),
    ));
    texts
}

/// An event as a preview shows it.
fn summarize(event: &Event) -> (dropped: DroppedEvent)
    ensures
        dropped@ == summary(event@),
{
    DroppedEvent {
        id: event.id.clone(),
        event_type: event.event_type.clone(),
        time: event.time,
        attributes: attribute_texts(&event.attributes),
    }
}

/// At most `sample` of the events whose id no event has after a step, and how
/// many they are.
fn find_dropped(step: &Step, before: &Log, after: &Log, notes: &StepNotes, sample: usize) -> (found:
    (Vec<DroppedEvent>, usize))
    ensures
        ({
            let stage = StageView { step: step@, before: before@, after: after@, notes: notes@ };
            &&& found.0.deep_view() == stage.preview(sample as nat).dropped_events
            &&& found.1 == stage.preview(sample as nat).dropped_total
        }),
{
    let kept = event_ids(after);
    let ghost all = before@.events;
    let ghost gone = |e: EventView| !after@.has_event(e.id);
    let ghost show = |e: EventView| summary(e);
    let mut shown: Vec<DroppedEvent> = Vec::new();
    let mut total: usize = 0;
    let mut i: usize = 0;
    proof {
        assert(all.take(0) =~= Seq::<EventView>::empty());
        reveal_with_fuel(Seq::filter, 1);
        assert(shown.deep_view() =~= all.take(0).filter(gone).map_values(show));
    }
    while i < before.events.len()
        invariant
            i <= before.events.len(),
            total <= i,
            forall|id: Seq<char>| #[trigger] kept@.contains(id) <==> after@.has_event(id),
            all == before@.events,
            gone == (|e: EventView| !after@.has_event(e.id)),
            show == (|e: EventView| summary(e)),
            total == all.take(i as int).filter(gone).len(),
            shown.deep_view() == (if sample < total {
                all.take(i as int).filter(gone).take(sample as int)
            } else {
                all.take(i as int).filter(gone)
            }).map_values(show),
        decreases before.events.len() - i,
    {
        let event = &before.events[i];
        let ghost some = all.take(i as int).filter(gone);
        let ghost listed = shown.deep_view();
        proof {
            assert(all[i as int] == event@);
            assert(all.take(i + 1) =~= all.take(i as int).push(event@));
            all.take(i as int).lemma_filter_push(event@, gone);
            some.lemma_push_map_commute(show, event@);
        }
        if !kept.contains(event.id.as_str()) {
            if total < sample {
                let next = summarize(event);
                let ghost told = next@;
                shown.push(next);
                assert(shown.deep_view() =~= listed.push(told));
            } else {
                assert(some.push(event@).take(sample as int) =~= some.take(sample as int));
                assert(sample == total ==> some.take(sample as int) =~= some);
            }
            total += 1;
        }
        i += 1;
    }
    proof {
        assert(all.take(i as int) =~= all);
        let stage = StageView { step: step@, before: before@, after: after@, notes: notes@ };
        assert(stage.dropped() == all.filter(gone));
    }
    (shown, total)
}

/// Like [`apply`], but additionally samples the events each step drops: at
/// most `sample` of them are shown.
#[verifier::spinoff_prover]
pub fn preview(recipe: &Recipe, log: Log, inputs: &Vec<UnionInput>, sample: usize) -> (outcome:
    Result<(Log, Vec<StepPreview>), TransformError>)
    requires
        recipe::union_files(recipe.steps.deep_view()).len() <= inputs.len(),
        sealable(recipe.steps.deep_view(), inputs.deep_view(), log@),
    ensures
        match (outcome, finished(recipe.steps.deep_view(), inputs.deep_view(), log@)) {
            (Ok((after, previews)), Ok(done)) => after@ == end(log@, done) && previews.deep_view()
                == done.map_values(|stage: StageView| stage.preview(sample as nat)),
            (Err(error), Err(expected)) => error@ == expected,
            _ => false,
        },
        outcome matches Err(TransformError::Invalid(found)) ==> (stages(
            recipe.steps.deep_view(),
            inputs.deep_view(),
            log@,
        ) matches Ok(done) ==> end(log@, done).commits_exactly(found.deep_view())),
{
    let ghost start = log@;
    let ghost steps = recipe.steps.deep_view();
    let ghost look = |stage: StageView| stage.preview(sample as nat);
    let ghost mut stages_done: Seq<StageView> = Seq::empty();
    let mut previews: Vec<StepPreview> = Vec::new();
    let mut run = Run { done: 0, used: 0, log };
    proof {
        lemma_run_begins(run, steps, inputs.deep_view());
    }
    assert(previews.deep_view() =~= stages_done.map_values(look));
    while run.done < recipe.steps.len()
        invariant
            recipe::union_files(recipe.steps.deep_view()).len() <= inputs.len(),
            start == log@,
            steps == recipe.steps.deep_view(),
            look == (|stage: StageView| stage.preview(sample as nat)),
            sealable(steps, inputs.deep_view(), start),
            run.follows(steps, inputs.deep_view(), start, stages_done),
            previews.deep_view() == stages_done.map_values(look),
        decreases recipe.steps.len() - run.done,
    {
        let (attempt, used) = advance(&run, recipe, inputs, Ghost(start), Ghost(stages_done));
        match attempt.unwrap() {
            Ok((after, notes)) => {
                let step = &recipe.steps[run.done];
                let ghost before = previews.deep_view();
                let (dropped_events, dropped_total) = find_dropped(
                    step,
                    &run.log,
                    &after,
                    &notes,
                    sample,
                );
                let next = StepPreview {
                    report: report(step, &run.log, &after, &notes),
                    dropped_events,
                    dropped_total,
                };
                let ghost told = next@;
                previews.push(next);
                proof {
                    let stage = StageView {
                        step: step@,
                        before: run.log@,
                        after: after@,
                        notes: notes@,
                    };
                    assert(steps[run.done as int] == step@);
                    assert(previews.deep_view() =~= before.push(told));
                    assert(told == look(stage));
                    stages_done.lemma_push_map_commute(look, stage);
                    stages_done = stages_done.push(stage);
                }
                run = Run { done: run.done + 1, used, log: after };
            },
            Err(error) => {
                return Err(error);
            },
        }
    }
    proof {
        lemma_run_ends(run, steps, inputs.deep_view(), start, stages_done);
    }
    match run.log.validate() {
        Ok(()) => Ok((run.log, previews)),
        Err(found) => Err(TransformError::Invalid(found)),
    }
}

/// Like [`preview`], for every log: none where what a step makes of the log
/// cannot be sealed.
pub fn try_preview(recipe: &Recipe, log: Log, inputs: &Vec<UnionInput>, sample: usize) -> (outcome:
    Option<Result<(Log, Vec<StepPreview>), TransformError>>)
    requires
        recipe::union_files(recipe.steps.deep_view()).len() <= inputs.len(),
    ensures
        outcome is Some <==> sealable(recipe.steps.deep_view(), inputs.deep_view(), log@),
        outcome matches Some(outcome) ==> match (
            outcome,
            finished(recipe.steps.deep_view(), inputs.deep_view(), log@),
        ) {
            (Ok((after, previews)), Ok(done)) => after@ == end(log@, done) && previews.deep_view()
                == done.map_values(|stage: StageView| stage.preview(sample as nat)),
            (Err(error), Err(expected)) => error@ == expected,
            _ => false,
        },
        outcome matches Some(Err(TransformError::Invalid(found))) ==> (stages(
            recipe.steps.deep_view(),
            inputs.deep_view(),
            log@,
        ) matches Ok(done) ==> end(log@, done).commits_exactly(found.deep_view())),
{
    if can_seal(recipe, &log, inputs) {
        Some(preview(recipe, log, inputs, sample))
    } else {
        None
    }
}

/// What a report says is what is read of it: each number under its own name.
pub proof fn law_reports_are_read_as_written(report: StepReport)
    ensures
        report@.step == report.step@,
        report@.events_before == report.events_before,
        report@.events_after == report.events_after,
        report@.objects_before == report.objects_before,
        report@.objects_after == report.objects_after,
        report@.duplicates_skipped is Some <==> report.duplicates_skipped is Some,
        report.duplicates_skipped matches Some(n) ==> report@.duplicates_skipped == Some(n as nat),
        report@.events_lifted is Some <==> report.events_lifted is Some,
        report.events_lifted matches Some(n) ==> report@.events_lifted == Some(n as nat),
{
}

/// What a preview says is what is read of it: the report, the number of dropped
/// events, and each of those that it shows.
pub proof fn law_previews_are_read_as_written(preview: StepPreview)
    ensures
        preview@.report == preview.report@,
        preview@.dropped_total == preview.dropped_total,
        preview@.dropped_events.len() == preview.dropped_events@.len(),
        forall|i: int|
            0 <= i < preview.dropped_events@.len() ==> {
                let (read, event) = (
                    #[trigger] preview@.dropped_events[i],
                    preview.dropped_events@[i],
                );
                &&& read.id == event.id@
                &&& read.event_type == event.event_type@
                &&& read.time == event.time@
                &&& read.attributes.len() == event.attributes@.len()
                &&& forall|k: int|
                    0 <= k < event.attributes@.len() ==> (#[trigger] read.attributes[k]).0
                        == event.attributes@[k].0@ && read.attributes[k].1
                        == event.attributes@[k].1@
            },
{
}

} // verus!
