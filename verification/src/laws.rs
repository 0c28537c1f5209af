//! What holds of every run of a recipe.

use vstd::prelude::*;

use crate::aliasing;
use crate::apply;
use crate::apply::NotesView;
use crate::apply::StageView;
use crate::error::ErrorView;
use crate::integrity;
use crate::merge::InputView;
use crate::model::LogView;
use crate::preserving;
use crate::recipe;
use crate::recipe::StepView;

verus! {

/// Every step keeps a valid log valid, where it can be sealed.
pub proof fn law_steps_keep_validity(step: StepView, index: int, log: LogView, input: InputView)
    requires
        log.valid(),
        step.seals(index, log),
    ensures
        step.outcome(index, log, input) matches Ok((after, _)) ==> after.valid(),
{
    match step {
        StepView::KeepObjectTypes(names) => {
            integrity::lemma_restricted_valid(log, log.ids_of_types(names));
        },
        StepView::DropObjectsWithoutEvents => {
            integrity::lemma_without_orphans_valid(log);
        },
        StepView::KeepRelatedTo(related) => {
            if let Ok(expansion) = related.expansion(index) {
                integrity::lemma_restricted_valid(
                    log,
                    log.reached(related.object_type, expansion),
                );
            }
        },
        StepView::LiftEvents(lift) => {
            integrity::lemma_lifting_valid(log, lift);
        },
        _ => {},
    }
}

/// What a step makes of a valid log can be sealed, but for aliases that merge
/// objects with attributes that the merged type does not declare.
pub proof fn law_steps_seal(step: StepView, index: int, log: LogView)
    requires
        log.valid(),
    ensures
        step.seals(index, log) <==> (step matches StepView::MapObjectIds(aliases)
            ==> log.mergeable(aliases)),
{
    match step.filter(index) {
        Some(Ok(filter)) => {
            preserving::law_filtering_seals(log, filter);
        },
        Some(Err(_)) => {},
        None => match step {
            StepView::RenameEventTypes(renames) => {
                preserving::law_renaming_seals(log, renames);
            },
            StepView::MapObjectIds(aliases) => {
                aliasing::law_aliasing_seals(log, aliases);
            },
            _ => {},
        },
    }
}

/// Whether every alias step of a run that is reached merges objects that fit.
pub open spec fn merges_fit(steps: Seq<StepView>, inputs: Seq<InputView>, log: LogView) -> bool
    decreases steps.len(),
{
    steps.len() == 0 || (merges_fit(steps.drop_last(), inputs, log) && (apply::stages(
        steps.drop_last(),
        inputs,
        log,
    ) matches Ok(done) ==> (steps.last() matches StepView::MapObjectIds(aliases) ==> apply::end(
        log,
        done,
    ).mergeable(aliases))))
}

/// In a run on a valid log that can be sealed, the log is valid after every
/// step.
pub proof fn law_logs_stay_valid(steps: Seq<StepView>, inputs: Seq<InputView>, log: LogView)
    requires
        log.valid(),
        apply::sealable(steps, inputs, log),
    ensures
        apply::stages(steps, inputs, log) matches Ok(done) ==> apply::end(log, done).valid()
            && forall|i: int|
            0 <= i < done.len() ==> (#[trigger] done[i]).before.valid() && done[i].after.valid(),
    decreases steps.len(),
{
    if steps.len() > 0 {
        let front = steps.drop_last();
        law_logs_stay_valid(front, inputs, log);
        if let Ok(done) = apply::stages(front, inputs, log) {
            let before = apply::end(log, done);
            let input = inputs[recipe::union_files(front).len() as int];
            law_steps_keep_validity(steps.last(), steps.len() - 1, before, input);
        }
    }
}

/// A run on a valid log can be sealed exactly where its aliases merge objects
/// that fit.
pub proof fn law_runs_seal(steps: Seq<StepView>, inputs: Seq<InputView>, log: LogView)
    requires
        log.valid(),
    ensures
        apply::sealable(steps, inputs, log) <==> merges_fit(steps, inputs, log),
    decreases steps.len(),
{
    if steps.len() > 0 {
        let front = steps.drop_last();
        law_runs_seal(front, inputs, log);
        if apply::sealable(front, inputs, log) {
            law_logs_stay_valid(front, inputs, log);
            if let Ok(done) = apply::stages(front, inputs, log) {
                law_steps_seal(steps.last(), steps.len() - 1, apply::end(log, done));
            }
        }
    }
}

/// A run without aliases on a valid log can be sealed.
pub proof fn law_runs_without_aliases_seal(
    steps: Seq<StepView>,
    inputs: Seq<InputView>,
    log: LogView,
)
    requires
        log.valid(),
        forall|i: int| 0 <= i < steps.len() ==> (#[trigger] steps[i]) !is MapObjectIds,
    ensures
        apply::sealable(steps, inputs, log),
{
    lemma_no_aliases_fit(steps, inputs, log);
    law_runs_seal(steps, inputs, log);
}

proof fn lemma_no_aliases_fit(steps: Seq<StepView>, inputs: Seq<InputView>, log: LogView)
    requires
        forall|i: int| 0 <= i < steps.len() ==> (#[trigger] steps[i]) !is MapObjectIds,
    ensures
        merges_fit(steps, inputs, log),
    decreases steps.len(),
{
    if steps.len() > 0 {
        let front = steps.drop_last();
        assert forall|i: int| 0 <= i < front.len() implies (
        #[trigger] front[i]) !is MapObjectIds by {
            assert(steps[i] !is MapObjectIds);
        }
        lemma_no_aliases_fit(front, inputs, log);
        assert(steps[steps.len() - 1] == steps.last());
    }
}

/// A recipe never produces an invalid log, whatever it is applied to.
pub proof fn law_results_are_valid(steps: Seq<StepView>, inputs: Seq<InputView>, log: LogView)
    ensures
        apply::finished(steps, inputs, log) matches Ok(done) ==> apply::end(log, done).valid(),
{
}

/// On a valid log the final validation never fails a run that can be sealed: a
/// run fails only where one of its steps does.
pub proof fn law_final_validation_holds(
    steps: Seq<StepView>,
    inputs: Seq<InputView>,
    log: LogView,
)
    requires
        log.valid(),
        apply::sealable(steps, inputs, log),
    ensures
        apply::finished(steps, inputs, log) == apply::stages(steps, inputs, log),
{
    law_logs_stay_valid(steps, inputs, log);
}

/// The stages of a run follow one another: there is one for each step, the
/// first starts from the log, and each starts from where the one before it
/// ended.
pub proof fn law_stages_follow(steps: Seq<StepView>, inputs: Seq<InputView>, log: LogView)
    ensures
        apply::stages(steps, inputs, log) matches Ok(done) ==> {
            &&& done.len() == steps.len()
            &&& forall|i: int| 0 <= i < done.len() ==> (#[trigger] done[i]).step == steps[i]
            &&& done.len() > 0 ==> done[0].before == log
            &&& forall|i: int, j: int|
                0 <= i && j == i + 1 && j < done.len() ==> (#[trigger] done[j]).before == (
                #[trigger] done[i]).after
        },
    decreases steps.len(),
{
    if steps.len() > 0 {
        law_stages_follow(steps.drop_last(), inputs, log);
    }
}

/// The reports of a run follow one another: the counts that a step finds are
/// those that the step before it left.
pub proof fn law_reports_follow(steps: Seq<StepView>, inputs: Seq<InputView>, log: LogView)
    ensures
        apply::stages(steps, inputs, log) matches Ok(done) ==> {
            let reports = done.map_values(|stage: StageView| stage.report());
            &&& reports.len() == steps.len()
            &&& forall|i: int| 0 <= i < reports.len() ==> (#[trigger] reports[i]).step
                == steps[i].label()
            &&& reports.len() > 0 ==> reports[0].events_before == log.events.len()
                && reports[0].objects_before == log.objects.len() && reports.last().events_after
                == apply::end(log, done).events.len() && reports.last().objects_after == apply::end(
                log,
                done,
            ).objects.len()
            &&& forall|i: int, j: int|
                0 <= i && j == i + 1 && j < reports.len() ==> (#[trigger] reports[j]).events_before
                    == (#[trigger] reports[i]).events_after && reports[j].objects_before
                    == reports[i].objects_after
        },
{
    law_stages_follow(steps, inputs, log);
    if let Ok(done) = apply::stages(steps, inputs, log) {
        let reports = done.map_values(|stage: StageView| stage.report());
        assert forall|i: int| 0 <= i < reports.len() implies (#[trigger] reports[i]).step
            == steps[i].label() by {
            assert(done[i].step == steps[i]);
        }
        assert forall|i: int, j: int| 0 <= i && j == i + 1 && j < reports.len() implies (
        #[trigger] reports[j]).events_before == (#[trigger] reports[i]).events_after
            && reports[j].objects_before == reports[i].objects_after by {
            assert(done[j].before == done[i].after);
        }
    }
}

/// A preview tells of each step what the report tells, and shows as many of
/// the dropped events as it may.
pub proof fn law_previews_report(stage: StageView, sample: nat)
    ensures
        stage.preview(sample).report == stage.report(),
        stage.preview(sample).dropped_total == stage.dropped().len(),
        stage.preview(sample).dropped_events.len() == if sample < stage.dropped().len() {
            sample
        } else {
            stage.dropped().len()
        },
        forall|i: int|
            0 <= i < stage.preview(sample).dropped_events.len() ==> #[trigger] stage.preview(
                sample,
            ).dropped_events[i] == apply::summary(stage.dropped()[i]),
{
}

/// What a step makes of a log does not depend on its place in the recipe; only
/// an error names the place.
pub proof fn law_steps_do_the_same_anywhere(
    step: StepView,
    i: int,
    j: int,
    log: LogView,
    input: InputView,
)
    ensures
        match step.outcome(i, log, input) {
            Ok(made) => step.outcome(j, log, input) == Ok::<(LogView, NotesView), ErrorView>(made),
            Err(error) => step.outcome(j, log, input) == Err::<(LogView, NotesView), ErrorView>(
                error.moved(j - i),
            ),
        },
{
}

/// Steps apply in order: a recipe does what its front part does, and then what
/// the rest does to that. Where the rest fails the whole fails with its error,
/// which names the step by its place in the whole.
pub proof fn law_recipes_compose(
    first: Seq<StepView>,
    second: Seq<StepView>,
    inputs: Seq<InputView>,
    log: LogView,
)
    requires
        recipe::union_files(first).len() + recipe::union_files(second).len() <= inputs.len(),
    ensures
        apply::stages(first, inputs, log) matches Ok(done) ==> {
            let rest = inputs.skip(recipe::union_files(first).len() as int);
            match apply::stages(second, rest, apply::end(log, done)) {
                Ok(more) => apply::stages(first + second, inputs, log) == Ok::<
                    Seq<StageView>,
                    ErrorView,
                >(done + more),
                Err(error) => apply::stages(first + second, inputs, log) == Err::<
                    Seq<StageView>,
                    ErrorView,
                >(error.moved(first.len() as int)),
            }
        },
        apply::stages(first, inputs, log) is Err ==> apply::stages(first + second, inputs, log)
            == apply::stages(first, inputs, log),
    decreases second.len(),
{
    if second.len() == 0 {
        assert(first + second =~= first);
        if let Ok(done) = apply::stages(first, inputs, log) {
            assert(done + Seq::<StageView>::empty() =~= done);
        }
    } else {
        let front = second.drop_last();
        let both = first + second;
        lemma_files_join(first, front);
        lemma_files_join(first, second);
        assert(both.drop_last() =~= first + front);
        assert(both.last() == second.last());
        law_recipes_compose(first, front, inputs, log);
        if let Ok(done) = apply::stages(first, inputs, log) {
            let skipped = recipe::union_files(first).len() as int;
            let rest = inputs.skip(skipped);
            if let Ok(more) = apply::stages(front, rest, apply::end(log, done)) {
                let middle = apply::end(log, done);
                assert(apply::end(log, done + more) == apply::end(middle, more)) by {
                    if more.len() == 0 {
                        assert(done + more =~= done);
                    }
                }
                let place = recipe::union_files(front).len() as int;
                let step = second.last();
                let before = apply::end(middle, more);
                if step is Union {
                    assert(inputs[skipped + place] == rest[place]);
                } else {
                    lemma_outcome_without_input(
                        step,
                        second.len() - 1,
                        before,
                        inputs[skipped + place],
                        rest[place],
                    );
                }
                law_steps_do_the_same_anywhere(
                    step,
                    second.len() - 1,
                    both.len() - 1,
                    before,
                    inputs[skipped + place],
                );
                if let Ok((after, notes)) = step.outcome(second.len() - 1, before, rest[place]) {
                    let stage = StageView { step, before, after, notes };
                    assert(done + more.push(stage) =~= (done + more).push(stage));
                }
            }
        }
    }
}

/// Only a union reads its input.
proof fn lemma_outcome_without_input(
    step: StepView,
    index: int,
    log: LogView,
    a: InputView,
    b: InputView,
)
    requires
        step !is Union,
    ensures
        step.outcome(index, log, a) == step.outcome(index, log, b),
{
}

/// The files of two recipes in a row.
proof fn lemma_files_join(first: Seq<StepView>, second: Seq<StepView>)
    ensures
        recipe::union_files(first + second) == recipe::union_files(first) + recipe::union_files(
            second,
        ),
    decreases second.len(),
{
    if second.len() == 0 {
        assert(first + second =~= first);
        assert(recipe::union_files(first) + recipe::union_files(second) =~= recipe::union_files(
            first,
        ));
    } else {
        let both = first + second;
        lemma_files_join(first, second.drop_last());
        assert(both.drop_last() =~= first + second.drop_last());
        assert(both.last() == second.last());
        assert(recipe::union_files(both) =~= recipe::union_files(first) + recipe::union_files(
            second,
        ));
    }
}

/// An error that names a step names the one that fails: the steps before it
/// succeed, and with it the run fails.
pub proof fn law_errors_name_the_failing_step(
    steps: Seq<StepView>,
    inputs: Seq<InputView>,
    log: LogView,
)
    ensures
        apply::stages(steps, inputs, log) matches Err(error) ==> (
        error.failing_step() matches Some(k) ==> 0 <= k < steps.len() && apply::stages(
            steps.take(k),
            inputs,
            log,
        ) is Ok && apply::stages(steps.take(k + 1), inputs, log) == Err::<
            Seq<StageView>,
            ErrorView,
        >(error)),
    decreases steps.len(),
{
    if steps.len() > 0 {
        let front = steps.drop_last();
        law_errors_name_the_failing_step(front, inputs, log);
        match apply::stages(front, inputs, log) {
            Err(error) => {
                if let Some(k) = error.failing_step() {
                    assert(front.take(k) =~= steps.take(k));
                    assert(front.take(k + 1) =~= steps.take(k + 1));
                }
            },
            Ok(done) => {
                let n = steps.len() - 1;
                let input = inputs[recipe::union_files(front).len() as int];
                lemma_error_names(steps.last(), n, apply::end(log, done), input);
                assert(steps.take(n) =~= front);
                assert(steps.take(n + 1) =~= steps);
            },
        }
    }
}

proof fn lemma_error_names(step: StepView, index: int, log: LogView, input: InputView)
    ensures
        step.outcome(index, log, input) matches Err(error) ==> (
        error.failing_step() matches Some(k) ==> k == index),
{
}

} // verus!
