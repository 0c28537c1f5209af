//! What a run does, told of its steps: what each of them is given and makes,
//! and what the reports and previews tell of it.

use vstd::prelude::*;

use crate::apply;
use crate::apply::DroppedView;
use crate::apply::NotesView;
use crate::apply::ReportView;
use crate::apply::StageView;
use crate::convert;
use crate::error;
use crate::error::ErrorView;
use crate::lists;
use crate::merge::InputView;
use crate::model::EventView;
use crate::model::LogView;
use crate::recipe;
use crate::recipe::StepView;
use crate::terms;
use crate::text;
use crate::validity;

verus! {

/// Whether `count` of the first `n` steps are unions.
pub open spec fn unions_before(steps: Seq<StepView>, n: int, count: int) -> bool {
    exists|places: Seq<int>| #[trigger]
        terms::ordered_places(places, n, count) && forall|k: int|
            0 <= k < n ==> ((#[trigger] steps[k]) is Union <==> places.contains(k))
}

/// The files of a recipe are those of its unions, in their order.
pub proof fn law_union_files(steps: Seq<StepView>)
    ensures
        ({
            let files = recipe::union_files(steps);
            exists|places: Seq<int>|
                {
                    &&& #[trigger] terms::ordered_places(
                        places,
                        steps.len() as int,
                        files.len() as int,
                    )
                    &&& forall|k: int|
                        0 <= k < steps.len() ==> ((#[trigger] steps[k]) is Union
                            <==> places.contains(k))
                    &&& forall|i: int|
                        0 <= i < files.len() ==> steps[places[i]] == StepView::Union(
                            #[trigger] files[i],
                        )
                }
        }),
{
    let places = lemma_union_places(steps);
    assert(terms::ordered_places(
        places,
        steps.len() as int,
        recipe::union_files(steps).len() as int,
    ));
}

proof fn lemma_union_places(steps: Seq<StepView>) -> (places: Seq<int>)
    ensures
        terms::ordered_places(
            places,
            steps.len() as int,
            recipe::union_files(steps).len() as int,
        ),
        forall|k: int|
            0 <= k < steps.len() ==> ((#[trigger] steps[k]) is Union <==> places.contains(k)),
        forall|i: int|
            0 <= i < recipe::union_files(steps).len() ==> steps[places[i]] == StepView::Union(
                #[trigger] recipe::union_files(steps)[i],
            ),
    decreases steps.len(),
{
    if steps.len() == 0 {
        Seq::empty()
    } else {
        let front = steps.drop_last();
        let n = steps.len() - 1;
        let earlier = lemma_union_places(front);
        assert(steps[n] == steps.last());
        let places = if steps.last() is Union {
            earlier.push(n)
        } else {
            earlier
        };
        assert forall|k: int| 0 <= k < steps.len() implies ((#[trigger] steps[k]) is Union
            <==> places.contains(k)) by {
            if k < n {
                assert(front[k] == steps[k]);
                if earlier.contains(k) {
                    let i = choose|i: int| 0 <= i < earlier.len() && earlier[i] == k;
                    assert(places[i] == k);
                }
                if places.contains(k) {
                    let i = choose|i: int| 0 <= i < places.len() && places[i] == k;
                    assert(i < earlier.len());
                    assert(earlier[i] == k);
                }
            } else if steps.last() is Union {
                assert(places[earlier.len() as int] == k);
            } else if places.contains(k) {
                let i = choose|i: int| 0 <= i < places.len() && places[i] == k;
                assert(earlier[i] < n);
            }
        }
        assert forall|i: int|
            0 <= i < recipe::union_files(steps).len() implies steps[places[i]] == StepView::Union(
            #[trigger] recipe::union_files(steps)[i],
        ) by {
            if i < earlier.len() {
                assert(recipe::union_files(front)[i] == recipe::union_files(steps)[i]);
                assert(front[earlier[i]] == steps[places[i]]);
            }
        }
        places
    }
}

/// Every stage of a run is what its step makes, at its place in the recipe, of
/// the log that the stage before it left; a union is given the input at the
/// place that it has among the unions.
pub proof fn law_stages_are_outcomes(
    steps: Seq<StepView>,
    inputs: Seq<InputView>,
    log: LogView,
)
    ensures
        apply::stages(steps, inputs, log) matches Ok(done) ==> done.len() == steps.len() && forall|
            i: int,
        |
            0 <= i < done.len() ==> {
                let stage = #[trigger] done[i];
                &&& stage.step == steps[i]
                &&& stage.before == (if i == 0 {
                    log
                } else {
                    done[i - 1].after
                })
                &&& exists|used: int| #[trigger]
                    unions_before(steps, i, used) && steps[i].outcome(
                        i,
                        stage.before,
                        inputs[used],
                    ) == Ok::<(LogView, NotesView), ErrorView>((stage.after, stage.notes))
            },
    decreases steps.len(),
{
    if steps.len() > 0 {
        let front = steps.drop_last();
        let n = steps.len() - 1;
        law_stages_are_outcomes(front, inputs, log);
        if let Ok(done) = apply::stages(steps, inputs, log) {
            let earlier = apply::stages(front, inputs, log)->Ok_0;
            assert forall|i: int| 0 <= i < done.len() implies {
                let stage = #[trigger] done[i];
                &&& stage.step == steps[i]
                &&& stage.before == (if i == 0 {
                    log
                } else {
                    done[i - 1].after
                })
                &&& exists|used: int| #[trigger]
                    unions_before(steps, i, used) && steps[i].outcome(
                        i,
                        stage.before,
                        inputs[used],
                    ) == Ok::<(LogView, NotesView), ErrorView>((stage.after, stage.notes))
            } by {
                if i < n {
                    assert(done[i] == earlier[i]);
                    if i > 0 {
                        assert(done[i - 1] == earlier[i - 1]);
                    }
                    let used = choose|used: int| #[trigger]
                        unions_before(front, i, used) && front[i].outcome(
                            i,
                            earlier[i].before,
                            inputs[used],
                        ) == Ok::<(LogView, NotesView), ErrorView>(
                            (earlier[i].after, earlier[i].notes),
                        );
                    lemma_unions_alike(front, steps, i, used);
                } else {
                    let used = recipe::union_files(front).len() as int;
                    let places = lemma_union_places(front);
                    assert(terms::ordered_places(places, n, used));
                    assert(unions_before(front, n, used));
                    lemma_unions_alike(front, steps, n, used);
                    if n > 0 {
                        assert(done[n - 1] == earlier[n - 1]);
                    }
                }
            }
        }
    }
}

proof fn lemma_unions_alike(a: Seq<StepView>, b: Seq<StepView>, n: int, count: int)
    requires
        unions_before(a, n, count),
        forall|k: int| 0 <= k < n ==> a[k] == b[k],
    ensures
        unions_before(b, n, count),
{
    let places = choose|places: Seq<int>| #[trigger]
        terms::ordered_places(places, n, count) && forall|k: int|
            0 <= k < n ==> ((#[trigger] a[k]) is Union <==> places.contains(k));
    assert forall|k: int| 0 <= k < n implies ((#[trigger] b[k]) is Union <==> places.contains(
        k,
    )) by {
        assert(a[k] == b[k]);
    }
}

/// A run fails exactly where one of its steps does: with the error of the first
/// that does, on the log that the steps before it left.
pub proof fn law_runs_fail_with_their_steps(
    steps: Seq<StepView>,
    inputs: Seq<InputView>,
    log: LogView,
)
    ensures
        apply::stages(steps, inputs, log) matches Err(error) ==> exists|k: int|
            0 <= k < steps.len() && (#[trigger] apply::stages(
                steps.take(k),
                inputs,
                log,
            ) matches Ok(done) && exists|used: int| #[trigger]
                unions_before(steps, k, used) && steps[k].outcome(
                    k,
                    if k == 0 {
                        log
                    } else {
                        done[k - 1].after
                    },
                    inputs[used],
                ) == Err::<(LogView, NotesView), ErrorView>(error)),
    decreases steps.len(),
{
    if steps.len() > 0 {
        let front = steps.drop_last();
        let n = steps.len() - 1;
        law_runs_fail_with_their_steps(front, inputs, log);
        if let Err(error) = apply::stages(steps, inputs, log) {
            match apply::stages(front, inputs, log) {
                Err(_) => {
                    let k = choose|k: int|
                        0 <= k < front.len() && (#[trigger] apply::stages(
                            front.take(k),
                            inputs,
                            log,
                        ) matches Ok(done) && exists|used: int| #[trigger]
                            unions_before(front, k, used) && front[k].outcome(
                                k,
                                if k == 0 {
                                    log
                                } else {
                                    done[k - 1].after
                                },
                                inputs[used],
                            ) == Err::<(LogView, NotesView), ErrorView>(error));
                    let done = apply::stages(front.take(k), inputs, log)->Ok_0;
                    let used = choose|used: int| #[trigger]
                        unions_before(front, k, used) && front[k].outcome(
                            k,
                            if k == 0 {
                                log
                            } else {
                                done[k - 1].after
                            },
                            inputs[used],
                        ) == Err::<(LogView, NotesView), ErrorView>(error);
                    assert(front.take(k) =~= steps.take(k));
                    lemma_unions_alike(front, steps, k, used);
                    assert(steps[k] == front[k]);
                },
                Ok(done) => {
                    let used = recipe::union_files(front).len() as int;
                    let places = lemma_union_places(front);
                    law_stages_are_outcomes(front, inputs, log);
                    assert(terms::ordered_places(places, n, used));
                    assert(unions_before(front, n, used));
                    lemma_unions_alike(front, steps, n, used);
                    assert(steps.take(n) =~= front);
                    assert(apply::stages(steps.take(n), inputs, log) is Ok);
                },
            }
        }
    }
}

/// A run whose steps all succeed ends with the log that the last of them left,
/// or the one it began with where there is none. It succeeds exactly where that
/// log is valid, and fails with its breaches where it is not.
pub proof fn law_runs_end_valid(steps: Seq<StepView>, inputs: Seq<InputView>, log: LogView)
    ensures
        match apply::stages(steps, inputs, log) {
            Ok(done) => {
                let last = if done.len() == 0 {
                    log
                } else {
                    done[done.len() - 1].after
                };
                &&& apply::end(log, done) == last
                &&& apply::finished(steps, inputs, log) == if last.valid() {
                    Ok::<Seq<StageView>, ErrorView>(done)
                } else {
                    Err::<Seq<StageView>, ErrorView>(
                        ErrorView::Invalid(validity::violations(last)),
                    )
                }
            },
            Err(error) => apply::finished(steps, inputs, log) == Err::<
                Seq<StageView>,
                ErrorView,
            >(error),
        },
{
}

/// A report tells the step by its name in recipes, the numbers of events and
/// objects before and after it, and what the step tells beyond them.
pub proof fn law_reports_tell(stage: StageView)
    ensures
        ({
            let report = stage.report();
            &&& report.step == (match stage.step {
                StepView::DropEventTypes(_) => "dropEventTypes"@,
                StepView::KeepEventTypes(_) => "keepEventTypes"@,
                StepView::DropEventsWhere(_) => "dropEventsWhere"@,
                StepView::RenameEventTypes(_) => "renameEventTypes"@,
                StepView::TimeWindow(_) => "timeWindow"@,
                StepView::KeepObjectTypes(_) => "keepObjectTypes"@,
                StepView::DropObjectsWithoutEvents => "dropObjectsWithoutEvents"@,
                StepView::MapObjectIds(_) => "mapObjectIds"@,
                StepView::Union(_) => "union"@,
                StepView::KeepRelatedTo(_) => "keepRelatedTo"@,
                StepView::LiftEvents(_) => "liftEvents"@,
            })
            &&& report.events_before == stage.before.events.len()
            &&& report.events_after == stage.after.events.len()
            &&& report.objects_before == stage.before.objects.len()
            &&& report.objects_after == stage.after.objects.len()
            &&& report.duplicates_skipped == stage.notes.duplicates_skipped
            &&& report.events_lifted == stage.notes.events_lifted
        }),
{
}

/// Whether no event of the log has this id.
pub open spec fn gone(log: LogView, id: Seq<char>) -> bool {
    forall|j: int| 0 <= j < log.events.len() ==> (#[trigger] log.events[j]).id != id
}

/// Whether an event is shown as it is: with its id, type and time, and with its
/// attributes in their order, their values written as texts.
pub open spec fn shows(event: EventView, told: DroppedView) -> bool {
    &&& told.id == event.id
    &&& told.event_type == event.event_type
    &&& told.time == event.time
    &&& told.attributes.len() == event.attributes.len()
    &&& forall|k: int|
        0 <= k < event.attributes.len() ==> (#[trigger] told.attributes[k]).0
            == event.attributes[k].name && told.attributes[k].1 == convert::value_text(
            event.attributes[k].value,
        )
}

/// A preview tells how many events of the log before the stage have an id that
/// no event has after it, and shows the first of them, in their order and at
/// most as many as asked for.
pub proof fn law_previews_show(stage: StageView, sample: nat)
    ensures
        ({
            let preview = stage.preview(sample);
            let shown = preview.dropped_events;
            &&& preview.report == stage.report()
            &&& shown.len() == (if preview.dropped_total < sample {
                preview.dropped_total
            } else {
                sample
            })
            &&& exists|places: Seq<int>|
                {
                    &&& #[trigger] terms::ordered_places(
                        places,
                        stage.before.events.len() as int,
                        preview.dropped_total as int,
                    )
                    &&& forall|k: int|
                        0 <= k < stage.before.events.len() ==> (gone(
                            stage.after,
                            (#[trigger] stage.before.events[k]).id,
                        ) <==> places.contains(k))
                    &&& forall|i: int|
                        0 <= i < shown.len() ==> shows(
                            stage.before.events[places[i]],
                            #[trigger] shown[i],
                        )
                }
        }),
{
    let events = stage.before.events;
    let missing = |e: EventView| !stage.after.has_event(e.id);
    let dropped = events.filter(missing);
    let preview = stage.preview(sample);
    let shown = preview.dropped_events;
    let places = lists::lemma_filter_places(events, missing);
    assert(stage.dropped() == dropped);
    assert(terms::ordered_places(places, events.len() as int, preview.dropped_total as int));
    assert forall|k: int| 0 <= k < events.len() implies (gone(
        stage.after,
        (#[trigger] stage.before.events[k]).id,
    ) <==> places.contains(k)) by {
        let id = events[k].id;
        if stage.after.has_event(id) {
            let j = choose|j: int|
                0 <= j < stage.after.events.len() && #[trigger] stage.after.events[j].id == id;
            assert(stage.after.events[j].id == id);
        }
        if !gone(stage.after, id) {
            let j = choose|j: int|
                0 <= j < stage.after.events.len() && (#[trigger] stage.after.events[j]).id == id;
            assert(stage.after.events[j].id == id);
        }
        assert(missing(events[k]) == gone(stage.after, id));
        if places.contains(k) {
            let i = choose|i: int| 0 <= i < places.len() && places[i] == k;
            assert(missing(events[places[i]]));
        }
    }
    assert forall|i: int| 0 <= i < shown.len() implies shows(
        events[places[i]],
        #[trigger] shown[i],
    ) by {
        assert(dropped[i] == events[places[i]]);
        assert(shown[i] == apply::summary(events[places[i]]));
    }
}

/// The line of a report that tells nothing beyond the counts names the step and
/// the counts; what it tells beyond them is put behind.
pub proof fn law_report_lines(report: ReportView, count: nat)
    ensures
        (ReportView { duplicates_skipped: None, events_lifted: None, ..report }).line()
            == report.step + ": events "@ + text::decimal(report.events_before as int) + " -> "@
            + text::decimal(report.events_after as int) + ", objects "@ + text::decimal(
            report.objects_before as int,
        ) + " -> "@ + text::decimal(report.objects_after as int),
        (ReportView { duplicates_skipped: Some(count), events_lifted: None, ..report }).line() == (
        ReportView { duplicates_skipped: None, events_lifted: None, ..report }).line() + ", "@
            + text::decimal(count as int) + " duplicates skipped"@,
        (ReportView { events_lifted: Some(count), ..report }).line() == (ReportView {
            events_lifted: None,
            ..report
        }).line() + ", lifted "@ + text::decimal(count as int) + " events"@,
{
    let plain = ReportView { duplicates_skipped: None, events_lifted: None, ..report };
    let skipped = ReportView { duplicates_skipped: Some(count), events_lifted: None, ..report };
    let lifted = ReportView { events_lifted: Some(count), ..report };
    let unlifted = ReportView { events_lifted: None, ..report };
    let n = text::decimal(count as int);
    assert(plain.line() =~= report.step + ": events "@ + text::decimal(report.events_before as int)
        + " -> "@ + text::decimal(report.events_after as int) + ", objects "@ + text::decimal(
        report.objects_before as int,
    ) + " -> "@ + text::decimal(report.objects_after as int));
    assert(skipped.line() =~= plain.line() + ", "@ + n + " duplicates skipped"@);
    assert(lifted.line() =~= unlifted.line() + ", lifted "@ + n + " events"@);
}

/// The message of an error that names a step begins with the step, counted from
/// the first as none, and is otherwise the same whatever the step.
pub proof fn law_messages_name_the_step(error: ErrorView, by: int)
    ensures
        error.failing_step() is None <==> error is Invalid,
        error.failing_step() matches Some(step) ==> error.message() == "step "@ + text::decimal(
            step,
        ) + ": "@ + error.detail() && error.moved(by).message() == "step "@ + text::decimal(
            step + by,
        ) + ": "@ + error.detail(),
        error.failing_step() is None ==> error.message() == error.detail(),
{
}

/// Listed items stand in brackets with a comma between each and the next.
pub proof fn law_lists_are_read(items: Seq<Seq<char>>, item: Seq<char>)
    ensures
        error::listed(Seq::empty()) == "["@ + "]"@,
        error::listed(seq![item]) == "["@ + item + "]"@,
        items.len() > 0 ==> error::listed(items.push(item)) == "["@ + error::joined(items) + ", "@
            + item + "]"@,
{
    reveal_with_fuel(error::joined, 2);
    let none = Seq::<Seq<char>>::empty();
    assert("["@ + error::joined(none) =~= "["@);
    assert(seq![item][0] == item);
    if items.len() > 0 {
        let more = items.push(item);
        assert(more.drop_last() =~= items);
        assert(error::listed(more) =~= "["@ + error::joined(items) + ", "@ + item + "]"@);
    }
}

} // verus!
