//! What a fan-out comes to: which workers are done and with what, how they are started, and
//! what their parent is told.

use super::collect::{
    after_start, after_starts, attempt, attempts_of_pass, driven, finished, linked, may_start,
    owes_output, reaped, refusal, region_budget, resumed, settled, slimmed, terminal_result,
    unparked, Started,
};
use super::split::{corrected, split_refused, split_taken, splits};
use super::split_parse::WorkItemView;
use super::{
    failure_sections, fitted, found_workers, law_fitted_within_budget, law_results_always_land,
    lost_workers, report, restored, share, snippet, success_sections, with_results,
    ActiveWorkerView, FanOutSpawner, FanOutStateView, FanOutWaitingView, NewWorker,
};
use crate::blueprint::{lemma_stage_at, FanOutConfig, WorkerFailurePolicy};
use crate::components::{Entity, StatusView};
use crate::context::{lemma_region_at, EntryKindView, EntryView, TaintLevel, WindowView};
use crate::engine::results::{
    all_offered, has_room_for, holds_also, lemma_all_offered, Addressed,
};
use crate::stages::entered;
use crate::text::{byte_count, fitting, law_longest_fitting_beginning_is_kept, tokens_of};
use crate::world::{agent_at, AgentView};
use vstd::prelude::*;
use vstd::utf8::encode_utf8;

verus! {

/// Whether a worker is still at work: it is there, and neither complete nor failed nor
/// cancelled.
pub open spec fn at_work(world: Seq<Option<AgentView>>, e: Entity) -> bool {
    &&& e < world.len()
    &&& world[e as int] is Some
    &&& !(world[e as int]->0.state.status is Complete)
    &&& !(world[e as int]->0.state.status is Error)
    &&& !(world[e as int]->0.state.status is Cancelled)
}

/// A worker that is there has a result exactly where it is complete, failed or cancelled, and
/// one that is gone has failed. Only a complete worker can succeed.
pub proof fn law_worker_is_done_when_its_status_says_so(agent: AgentView)
    ensures
        terminal_result(Some(agent)) is Some <==> agent.state.status is Complete
            || agent.state.status is Error || agent.state.status is Cancelled,
        terminal_result(Some(agent)) is Some <==> agent.state.status.terminal(),
        terminal_result(Some(agent)) is Some && terminal_result(Some(agent))->0 is Ok
            ==> agent.state.status is Complete,
        terminal_result(None) is Some && terminal_result(None)->0 is Err,
{
}

/// What a worker that is done contributes: a failed one its message; a complete one its final
/// output, and without one its last response, unless its stage requires an output.
pub proof fn law_worker_contributes_its_answer(agent: AgentView)
    ensures
        agent.state.status is Error ==> terminal_result(Some(agent)) == Some(
            Err::<Seq<char>, Seq<char>>(agent.state.status->message),
        ),
        agent.state.status is Complete && agent.final_output is Some ==> terminal_result(
            Some(agent),
        ) == Some(Ok::<Seq<char>, Seq<char>>(agent.final_output->0.content@)),
        ({
            let required = agent.blueprint is Some && agent.cursor is Some && agent.cursor->0
                < agent.blueprint->0.stages@.len()
                && agent.blueprint->0.stages@[agent.cursor->0 as int].require_output;
            &&& owes_output(agent) == required
            &&& agent.state.status is Complete && agent.final_output is None && required
                ==> terminal_result(Some(agent))->0 is Err
            &&& agent.state.status is Complete && agent.final_output is None && !required
                && agent.inference is Some ==> terminal_result(Some(agent)) == Some(
                Ok::<Seq<char>, Seq<char>>(agent.inference->0.response),
            )
            &&& agent.state.status is Complete && agent.final_output is None && !required
                && agent.inference is None ==> terminal_result(Some(agent)) == Some(
                Ok::<Seq<char>, Seq<char>>(Seq::empty()),
            )
        }),
{
}

/// Whether two agents are the same but for whether their result was taken.
pub open spec fn same_but_merged(a: Option<AgentView>, b: Option<AgentView>) -> bool {
    match (a, b) {
        (Some(a), Some(b)) => b == (AgentView { merged_worker: b.merged_worker, ..a }),
        (None, None) => true,
        _ => false,
    }
}

/// What the results of several workers are: of each that is done, its item and what it gave.
pub open spec fn results_of(
    world: Seq<Option<AgentView>>,
    workers: Seq<ActiveWorkerView>,
    ok: bool,
) -> Seq<(Seq<char>, Seq<char>)>
    decreases workers.len(),
{
    if workers.len() == 0 {
        Seq::empty()
    } else {
        let before = results_of(world, workers.drop_last(), ok);
        let worker = workers.last();
        match terminal_result(agent_at(world, worker.entity)) {
            Some(Ok(text)) if ok => before.push((worker.item_id, text)),
            Some(Err(text)) if !ok => before.push((worker.item_id, text)),
            _ => before,
        }
    }
}

/// Reaping takes exactly the workers that are done: those at work stay, in their order, and of
/// each of the others the result joins the summaries or the failures, in order too. The
/// agents change in nothing but that their results are taken.
pub proof fn law_reaping_takes_exactly_the_done(
    world: Seq<Option<AgentView>>,
    w: FanOutWaitingView,
    workers: Seq<ActiveWorkerView>,
)
    ensures
        ({
            let (after, left) = reaped(world, w, workers);
            &&& left.active == workers.filter(
                |worker: ActiveWorkerView| at_work(world, worker.entity),
            )
            &&& left.summaries == w.summaries + results_of(world, workers, true)
            &&& left.failures == w.failures + results_of(world, workers, false)
            &&& left.pending == w.pending
            &&& left.max_workers == w.max_workers
            &&& left.config == w.config
            &&& after.len() == world.len()
            &&& forall|i: int|
                0 <= i < world.len() ==> same_but_merged(world[i], #[trigger] after[i])
            &&& forall|i: int|
                0 <= i < world.len() && (#[trigger] after[i]) is Some ==> (after[
                i]->0.merged_worker <==> world[i]->0.merged_worker || exists|k: int|
                    0 <= k < workers.len() && (#[trigger] workers[k]).entity == i && !at_work(
                        world,
                        workers[k].entity,
                    ))
        }),
    decreases workers.len(),
{
    reveal(Seq::filter);
    let rule = |worker: ActiveWorkerView| at_work(world, worker.entity);
    if workers.len() > 0 {
        let front = workers.drop_last();
        let worker = workers.last();
        law_reaping_takes_exactly_the_done(world, w, front);
        let (mid, left) = reaped(world, w, front);
        let (after, now) = reaped(world, w, workers);
        let e = worker.entity as int;
        if 0 <= e < world.len() {
            assert(same_but_merged(world[e], mid[e]));
        }
        assert(terminal_result(agent_at(mid, worker.entity)) == terminal_result(
            agent_at(world, worker.entity),
        ));
        if rule(worker) {
            assert(workers.filter(rule) == front.filter(rule).push(worker));
            assert(terminal_result(agent_at(world, worker.entity)) is None);
        } else {
            assert(workers.filter(rule) == front.filter(rule));
            assert(terminal_result(agent_at(world, worker.entity)) is Some);
        }
        assert(now.summaries =~= w.summaries + results_of(world, workers, true));
        assert(now.failures =~= w.failures + results_of(world, workers, false));
        assert(after.len() == world.len());
        assert forall|i: int| 0 <= i < world.len() implies same_but_merged(
            world[i],
            #[trigger] after[i],
        ) by {
            assert(same_but_merged(world[i], mid[i]));
        }
        assert forall|i: int| 0 <= i < world.len() && (#[trigger] after[i]) is Some implies (after[
        i]->0.merged_worker <==> world[i]->0.merged_worker || exists|k: int|
            0 <= k < workers.len() && (#[trigger] workers[k]).entity == i && !at_work(
                world,
                workers[k].entity,
            )) by {
            assert(same_but_merged(world[i], mid[i]));
            assert(mid[i] is Some);
            if exists|k: int|
                0 <= k < front.len() && (#[trigger] front[k]).entity == i && !at_work(
                    world,
                    front[k].entity,
                ) {
                let k = choose|k: int|
                    0 <= k < front.len() && (#[trigger] front[k]).entity == i && !at_work(
                        world,
                        front[k].entity,
                    );
                assert(workers[k] == front[k]);
            }
            if exists|k: int|
                0 <= k < workers.len() && (#[trigger] workers[k]).entity == i && !at_work(
                    world,
                    workers[k].entity,
                ) {
                let k = choose|k: int|
                    0 <= k < workers.len() && (#[trigger] workers[k]).entity == i && !at_work(
                        world,
                        workers[k].entity,
                    );
                if k < front.len() {
                    assert(front[k] == workers[k]);
                } else {
                    assert(workers[k] == worker);
                }
            }
            if i == e && !rule(worker) {
                assert(workers[workers.len() - 1] == worker);
            }
        }
    } else {
        let (after, now) = reaped(world, w, workers);
        assert(now.active =~= workers.filter(rule));
        assert(now.summaries =~= w.summaries + results_of(world, workers, true));
        assert(now.failures =~= w.failures + results_of(world, workers, false));
    }
}

/// A worker is started for the item that waits longest: it runs under the item's id at the
/// place that is free next, or the item has failed with the reason.
pub proof fn law_start_takes_the_first_item(
    world: Seq<Option<AgentView>>,
    parent: Entity,
    w: FanOutWaitingView,
    started: Started,
)
    requires
        w.pending.len() > 0,
        world.len() <= usize::MAX,
    ensures
        ({
            let (after, now) = after_start(world, parent, w, started);
            let id = w.pending[0].id;
            &&& now.pending == w.pending.skip(1)
            &&& now.summaries == w.summaries
            &&& now.config == w.config
            &&& now.max_workers == w.max_workers
            &&& match started {
                Started::Asked(Ok(worker)) => {
                    &&& now.failures == w.failures
                    &&& now.active.len() == w.active.len() + 1
                    &&& now.active.drop_last() == w.active
                    &&& now.active.last().item_id == id
                    &&& now.active.last().entity == world.len()
                    &&& now.active.last().run_id == worker.metadata.run_id@
                },
                Started::Asked(Err(reason)) => {
                    &&& now.active == w.active
                    &&& now.failures == w.failures.push((id, reason@))
                    &&& after == world
                },
                _ => {
                    &&& now.active == w.active
                    &&& now.failures.len() == w.failures.len() + 1
                    &&& now.failures.drop_last() == w.failures
                    &&& now.failures.last().0 == id
                    &&& after == world
                },
            }
        }),
{
    let (after, now) = after_start(world, parent, w, started);
    if let Started::Asked(Ok(_)) = started {
        assert(now.active.drop_last() =~= w.active);
    } else {
        assert(now.failures.drop_last() =~= w.failures);
    }
}

/// A worker and its parent know of each other: the worker stands at the next free place, one
/// level below its parent, with the metadata it was made with; the parent has it behind its
/// other children. Nobody else changes.
pub proof fn law_worker_is_linked_to_its_parent(
    world: Seq<Option<AgentView>>,
    parent: Entity,
    worker: NewWorker,
)
    requires
        parent < world.len(),
        world[parent as int] is Some,
        world.len() <= usize::MAX,
    ensures
        ({
            let of = world[parent as int]->0;
            let after = linked(world, parent, worker);
            let depth = if of.parent is Some {
                of.parent->0.depth
            } else {
                0
            };
            &&& after.len() == world.len() + 1
            &&& after[world.len() as int] is Some
            &&& after[world.len() as int]->0.metadata == Some(worker.metadata)
            &&& after[world.len() as int]->0.parent is Some
            &&& after[world.len() as int]->0.parent->0.parent_entity == parent
            &&& after[world.len() as int]->0.parent->0.parent_agent_id == of.state.agent_id
            &&& after[world.len() as int]->0.parent->0.depth == depth + 1
            &&& after[world.len() as int]->0.state == worker.agent@.state
            &&& after[world.len() as int]->0.window == worker.agent@.window
            &&& after[parent as int] is Some
            &&& after[parent as int]->0.children is Some
            &&& after[parent as int]->0.children->0.children == (if of.children is Some {
                of.children->0.children
            } else {
                Seq::empty()
            }).push(world.len() as usize)
            &&& after[parent as int]->0.state.spawned_children_ids
                == of.state.spawned_children_ids.push(worker.metadata.run_id@)
            &&& after[parent as int]->0.state.status == of.state.status
            &&& after[parent as int]->0.window == of.window
            &&& forall|i: int|
                0 <= i < world.len() && i != parent ==> #[trigger] after[i] == world[i]
        }),
{
    let of = world[parent as int]->0;
    if of.children is None {
        assert(Seq::<Entity>::empty().push(world.len() as usize) =~= seq![world.len() as usize]);
    }
}

/// A worker is not started where its parent is as deep as its children may be; else it is
/// asked for where there is a spawner, and refused where there is none.
pub proof fn law_depth_and_spawner_decide<S: FanOutSpawner>(
    spawner: Option<&S>,
    world: Seq<Option<AgentView>>,
    parent: Entity,
    config: FanOutConfig,
    item: WorkItemView,
    started: Started,
)
    requires
        attempt(spawner, world, parent, config, item, started),
        parent < world.len(),
        world[parent as int] is Some,
    ensures
        ({
            let of = world[parent as int]->0;
            let depth = if of.parent is Some {
                of.parent->0.depth as int
            } else {
                0
            };
            let limit = if of.children is Some {
                of.children->0.max_child_depth as int
            } else if of.blueprint is Some && of.blueprint->0.max_child_depth is Some {
                of.blueprint->0.max_child_depth->0 as int
            } else {
                3
            };
            &&& started is TooDeep <==> depth >= limit
            &&& started is NoSpawner <==> depth < limit && spawner is None
            &&& started is Asked <==> depth < limit && spawner is Some
            &&& refusal(of, started) is None <==> started is Asked && started->Asked_0 is Ok
        }),
{
}

/// Another worker is started exactly while fewer run than may and an item waits.
pub proof fn law_workers_start_up_to_the_cap(w: FanOutWaitingView)
    ensures
        may_start(w) <==> w.active.len() < w.max_workers && w.pending.len() > 0,
{
}

/// A parent stays parked, as it is, while a worker runs or an item waits to be started; with
/// neither it goes on.
pub proof fn law_parent_stays_while_anything_is_left(agent: AgentView, w: FanOutWaitingView)
    requires
        agent.fan_out is None,
    ensures
        w.active.len() > 0 || w.pending.len() > 0 ==> resumed(agent, w) == (AgentView {
            fan_out: Some(w),
            ..agent
        }),
        w.active.len() == 0 && w.pending.len() == 0 ==> resumed(agent, w).fan_out is None
            && resumed(agent, w) == finished(agent, w),
{
}

/// A parent that is no longer waiting only leaves the fan-out.
pub proof fn law_parent_that_moved_on_leaves<S: FanOutSpawner>(
    spawner: Option<&S>,
    world: Seq<Option<AgentView>>,
    parent: Entity,
    after: Seq<Option<AgentView>>,
)
    requires
        parent < world.len(),
        world[parent as int] is Some,
        world[parent as int]->0.fan_out is Some,
        !(world[parent as int]->0.state.status is Waiting),
        driven(spawner, world, parent, after),
    ensures
        after.len() == world.len(),
        after[parent as int] == Some(AgentView { fan_out: None, ..world[parent as int]->0 }),
        forall|i: int| 0 <= i < world.len() && i != parent ==> #[trigger] after[i] == world[i],
{
}

/// A fan-out that is over: with a failure and the strict policy the parent fails, with the
/// number of failures in its error; else it is told the report of all results, and goes on to
/// the merge stage, or where there is none to what its transitions say.
pub proof fn law_finished_parent_is_told_or_fails(parent: AgentView, w: FanOutWaitingView)
    ensures
        ({
            let strict = w.config.on_worker_failure == WorkerFailurePolicy::FailAll;
            let after = finished(parent, w);
            let region = if w.config.results_region is Some {
                w.config.results_region->0@
            } else {
                "conversation"@
            };
            &&& w.failures.len() > 0 && strict ==> after == (AgentView {
                state: crate::components::AgentStateView {
                    status: StatusView::Error {
                        message: "fan_out: "@ + crate::text::decimal(w.failures.len())
                            + " worker(s) failed (on_worker_failure = fail_all)"@,
                    },
                    ..parent.state
                },
                ..parent
            })
            &&& !(w.failures.len() > 0 && strict) && w.config.merge_stage is None
                && parent.window is Some ==> {
                &&& after.state.status is Active
                &&& after.resolve_transition
                &&& after.window is Some
                &&& after.window->0 == with_results(
                    parent.window->0,
                    region,
                    report(w.summaries, w.failures, region_budget(parent.window, region)),
                )
            }
            &&& !(w.failures.len() > 0 && strict) && w.config.merge_stage is None
                && parent.window is None ==> after.window is None && after.state.status is Active
                && after.resolve_transition
        }),
{
}

/// A parent with a merge stage enters it when the fan-out is over, with the report in its
/// window before the stage's own prompt; one whose blueprint has no such stage goes where its
/// transitions say.
pub proof fn law_finished_parent_enters_its_merge_stage(
    parent: AgentView,
    w: FanOutWaitingView,
    i: int,
)
    requires
        w.failures.len() == 0 || w.config.on_worker_failure != WorkerFailurePolicy::FailAll,
        w.config.merge_stage is Some,
        parent.blueprint is Some,
        parent.blueprint->0.stages@.len() <= usize::MAX,
    ensures
        ({
            let stages = parent.blueprint->0.stages@;
            let name = w.config.merge_stage->0@;
            let region = if w.config.results_region is Some {
                w.config.results_region->0@
            } else {
                "conversation"@
            };
            let after = finished(parent, w);
            let reported = AgentView {
                window: if parent.window is Some {
                    Some(
                        with_results(
                            parent.window->0,
                            region,
                            report(w.summaries, w.failures, region_budget(parent.window, region)),
                        ),
                    )
                } else {
                    None
                },
                state: (crate::components::AgentStateView {
                    status: StatusView::Active,
                    ..parent.state
                }),
                ..parent
            };
            &&& 0 <= i < stages.len() && stages[i].name@ == name && (forall|j: int|
                0 <= j < i ==> (#[trigger] stages[j]).name@ != name) ==> {
                &&& after == entered(reported, i as usize)
                &&& after.cursor == Some(i as usize)
                &&& after.state.current_stage == name
                &&& after.resolve_transition == parent.resolve_transition
            }
            &&& (forall|j: int| 0 <= j < stages.len() ==> (#[trigger] stages[j]).name@ != name) ==> {
                &&& after == (AgentView { resolve_transition: true, ..reported })
            }
        }),
{
    lemma_stage_at(parent.blueprint->0.stages@, w.config.merge_stage->0@);
}

/// A worker gives up its context only once its result was taken and its end is on disk; what
/// it gives up is its context alone.
pub proof fn law_only_merged_and_written_workers_are_slimmed(agent: AgentView)
    ensures
        ({
            let on_disk = agent.watermark is Some && agent.watermark->0.persisted_status is Some && (
            agent.watermark->0.persisted_status->0 is Complete
                || agent.watermark->0.persisted_status->0 is Error
                || agent.watermark->0.persisted_status->0 is Cancelled);
            let after = slimmed(agent);
            &&& agent.merged_worker && on_disk ==> after.window is None && after.inference is None
                && after.setups is None && after.blueprint is None && !after.merged_worker
            &&& !(agent.merged_worker && on_disk) ==> after == agent
            &&& (AgentView {
                window: agent.window,
                inference: agent.inference,
                setups: agent.setups,
                blueprint: agent.blueprint,
                merged_worker: agent.merged_worker,
                ..after
            }) == agent
        }),
{
}

/// The results go into the region that is asked for, and into the conversation where there is
/// no such region: whole where they fit, as one message behind what is there.
pub proof fn law_results_reach_their_region(
    w: WindowView,
    region: Seq<char>,
    text: Seq<char>,
    p: int,
)
    requires
        0 <= p < w.regions.len(),
        w.regions[p].name == region || ((forall|j: int|
            0 <= j < w.regions.len() ==> (#[trigger] w.regions[j]).name != region)
            && w.regions[p].name == "conversation"@),
        forall|j: int| 0 <= j < p ==> (#[trigger] w.regions[j]).name != w.regions[p].name,
        byte_count(text) <= usize::MAX,
        w.regions[p].current_tokens <= w.regions[p].max_tokens,
        byte_count(text) <= (w.regions[p].max_tokens - w.regions[p].current_tokens) * 4,
    ensures
        ({
            let after = with_results(w, region, text);
            &&& after.regions.len() == w.regions.len()
            &&& after.regions[p].content.len() == w.regions[p].content.len() + 1
            &&& after.regions[p].content.drop_last() == w.regions[p].content
            &&& after.regions[p].content.last().content == text
            &&& after.regions[p].content.last().kind is UserMessage
            &&& forall|j: int|
                0 <= j < w.regions.len() && j != p ==> #[trigger] after.regions[j] == w.regions[j]
        }),
{
    lemma_region_at(w.regions, region);
    lemma_region_at(w.regions, "conversation"@);
    let after = with_results(w, region, text);
    assert(after.regions[p].content.drop_last() =~= w.regions[p].content);
}

/// A split that is understood parks the parent with its items in order, none running yet, as
/// many at a time as the stage allows, or all at once where it sets no cap.
pub proof fn law_split_parks_every_item(
    agent: AgentView,
    config: FanOutConfig,
    items: Seq<WorkItemView>,
)
    ensures
        ({
            let after = split_taken(agent, config, items);
            let w = after.fan_out->0;
            &&& after.fan_out is Some
            &&& after.state.status is Waiting
            &&& !after.process_response
            &&& after.inference is None
            &&& w.config == config
            &&& w.max_workers == (if config.max_workers == 0 {
                usize::MAX
            } else {
                config.max_workers
            })
            &&& w.active.len() == 0
            &&& w.summaries.len() == 0
            &&& w.failures.len() == 0
            &&& config.max_items is None || items.len() <= config.max_items->0 ==> w.pending
                == items
            &&& config.max_items is Some && items.len() > config.max_items->0 ==> w.pending
                == items.take(config.max_items->0 as int)
            &&& after.window == agent.window
        }),
{
}

/// A split that is not understood is asked for again, twice at most, with what was answered
/// and why it will not do in the conversation; after that the agent fails, with the reason.
pub proof fn law_split_is_corrected_twice(agent: AgentView, response: Seq<char>, reason: Seq<char>)
    ensures
        ({
            let tried = match agent.split_attempts {
                Some(attempts) => attempts.0,
                None => 0,
            };
            let after = split_refused(agent, response, reason);
            &&& tried < 2 && agent.window is Some ==> {
                &&& after.split_attempts matches Some(attempts) && attempts.0 == tried + 1
                &&& after.ready_to_infer
                &&& after.state == agent.state
                &&& after.window is Some
            }
            &&& tried >= 2 || agent.window is None ==> {
                &&& after.state.status is Error
                &&& after.window == agent.window
                &&& after.split_attempts == agent.split_attempts
            }
            &&& !after.process_response
            &&& after.inference is None
            &&& after.fan_out == agent.fan_out
        }),
{
}

/// An agent splits its work exactly where it is active, has a response to be processed, and is
/// at a stage that fans out.
pub proof fn law_only_a_fan_out_stage_splits(agent: AgentView)
    ensures
        splits(agent) is Some <==> agent.process_response && agent.state.status is Active
            && agent.inference is Some && agent.blueprint is Some && agent.cursor is Some
            && agent.blueprint->0.stages@[agent.cursor->0 as int].mode is FanOut,
        splits(agent) is Some ==> splits(agent)->0
            == agent.blueprint->0.stages@[agent.cursor->0 as int].mode->config,
{
}

/// A report has the budget of the region it goes to, where there is such a region.
pub proof fn law_report_has_its_regions_budget(w: WindowView, region: Seq<char>, p: int)
    ensures
        region_budget(None, region) is None,
        (forall|j: int| 0 <= j < w.regions.len() ==> (#[trigger] w.regions[j]).name != region)
            ==> region_budget(Some(w), region) is None,
        0 <= p < w.regions.len() && w.regions[p].name == region && (forall|j: int|
            0 <= j < p ==> (#[trigger] w.regions[j]).name != region) ==> region_budget(
            Some(w),
            region,
        ) == Some(w.regions[p].max_tokens as usize),
{
    lemma_region_at(w.regions, region);
}

/// A worker that is still at work keeps its parent parked, and is among the running workers
/// after the pass as it was before.
pub proof fn law_worker_at_work_keeps_its_parent_parked<S: FanOutSpawner>(
    spawner: Option<&S>,
    world: Seq<Option<AgentView>>,
    parent: Entity,
    after: Seq<Option<AgentView>>,
    k: int,
)
    requires
        parent < world.len(),
        world[parent as int] is Some,
        world[parent as int]->0.fan_out is Some,
        world[parent as int]->0.state.status is Waiting,
        0 <= k < world[parent as int]->0.fan_out->0.active.len(),
        at_work(world, world[parent as int]->0.fan_out->0.active[k].entity),
        driven(spawner, world, parent, after),
    ensures
        parent < after.len(),
        after[parent as int] is Some,
        after[parent as int]->0.fan_out is Some,
        after[parent as int]->0.fan_out->0.active.contains(
            world[parent as int]->0.fan_out->0.active[k],
        ),
{
    let agent = world[parent as int]->0;
    let w = agent.fan_out->0;
    let worker = w.active[k];
    let taken = world.update(parent as int, Some(unparked(agent)));
    law_reaping_takes_exactly_the_done(taken, w, w.active);
    let (world1, w1) = reaped(taken, w, w.active);
    let rule = |one: ActiveWorkerView| at_work(taken, one.entity);
    assert(rule(worker));
    w.active.lemma_filter_contains(rule, k);
    let attempts = choose|attempts: Seq<Started>|
        {
            &&& #[trigger] attempts_of_pass(spawner, world1, parent, w1, attempts)
            &&& ({
                let (world2, w2) = after_starts(world1, parent, w1, attempts);
                after == settled(world2, parent, w2)
            })
        };
    lemma_starts_keep_workers(world1, parent, w1, attempts, worker);
    let (world2, w2) = after_starts(world1, parent, w1, attempts);
    assert(world2.len() >= world1.len());
    assert(w2.active.len() > 0);
}

/// Starting workers leaves those that run, and the places that there are.
proof fn lemma_starts_keep_workers(
    world: Seq<Option<AgentView>>,
    parent: Entity,
    w: FanOutWaitingView,
    attempts: Seq<Started>,
    worker: ActiveWorkerView,
)
    requires
        parent < world.len(),
        w.active.contains(worker),
    ensures
        after_starts(world, parent, w, attempts).1.active.contains(worker),
        after_starts(world, parent, w, attempts).0.len() >= world.len(),
    decreases attempts.len(),
{
    if attempts.len() > 0 {
        lemma_starts_keep_workers(world, parent, w, attempts.drop_last(), worker);
        let (world1, w1) = after_starts(world, parent, w, attempts.drop_last());
        let i = choose|i: int| 0 <= i < w1.active.len() && w1.active[i] == worker;
        let (world2, w2) = after_start(world1, parent, w1, attempts.last());
        assert(w2.active[i] == worker);
    }
}

/// A report begins with how many workers succeeded and how many failed.
pub proof fn law_report_counts_the_workers(
    summaries: Seq<(Seq<char>, Seq<char>)>,
    failures: Seq<(Seq<char>, Seq<char>)>,
    budget: Option<usize>,
)
    ensures
        ({
            let head = "[fan_out results: "@ + crate::text::decimal(summaries.len())
                + " succeeded, "@ + crate::text::decimal(failures.len()) + " failed]\n"@;
            head.is_prefix_of(report(summaries, failures, budget))
        }),
{
    let head = "[fan_out results: "@ + crate::text::decimal(summaries.len()) + " succeeded, "@
        + crate::text::decimal(failures.len()) + " failed]\n"@;
    let all = report(summaries, failures, budget);
    assert(all.take(head.len() as int) =~= head);
}

/// What one worker more adds to a report: under its name its answer, whole where it is within
/// the budget, behind the answers before it; or its reason, behind the reasons before it.
pub proof fn law_sections_follow_one_another(
    before: Seq<(Seq<char>, Seq<char>)>,
    id: Seq<char>,
    text: Seq<char>,
    budget: nat,
)
    ensures
        success_sections(Seq::empty(), budget) == Seq::<char>::empty(),
        failure_sections(Seq::empty()) == Seq::<char>::empty(),
        byte_count(text) <= budget ==> success_sections(before.push((id, text)), budget)
            == success_sections(before, budget) + ("\n## worker "@ + id + "\n"@ + text + "\n"@),
        byte_count(text) > budget ==> success_sections(before.push((id, text)), budget)
            == success_sections(before, budget) + ("\n## worker "@ + id + "\n"@ + fitted(
            text,
            budget,
        ) + "\n"@),
        failure_sections(before.push((id, text))) == failure_sections(before) + (
        "\n## worker "@ + id + " FAILED\n"@ + text + "\n"@),
{
    assert(before.push((id, text)).drop_last() =~= before);
}

/// A report is its heading, the answers and the reasons, in that order; where an answer is cut
/// the heading says so.
pub proof fn law_report_has_all_sections(
    summaries: Seq<(Seq<char>, Seq<char>)>,
    failures: Seq<(Seq<char>, Seq<char>)>,
    budget: Option<usize>,
)
    ensures
        ({
            let each = share(budget, summaries.len());
            let head = "[fan_out results: "@ + crate::text::decimal(summaries.len())
                + " succeeded, "@ + crate::text::decimal(failures.len()) + " failed]\n"@;
            let note = "[each worker's answer is shown up to "@ + crate::text::decimal(each)
                + " characters; read a worker's own run for the whole thing]\n"@;
            let cut = exists|i: int|
                0 <= i < summaries.len() && byte_count((#[trigger] summaries[i]).1) > each;
            &&& cut ==> report(summaries, failures, budget) == head + note + success_sections(
                summaries,
                each,
            ) + failure_sections(failures)
            &&& !cut ==> report(summaries, failures, budget) == head + success_sections(
                summaries,
                each,
            ) + failure_sections(failures)
        }),
{
}

/// An answer that is over its budget is cut, and marked as cut: what is kept is its beginning,
/// as much of it as fits beside the mark.
pub proof fn law_long_answer_is_cut_and_marked(text: Seq<char>, budget: nat)
    ensures
        byte_count(text) <= budget ==> fitted(text, budget) == text,
        byte_count(text) > budget ==> {
            let mark = crate::fanout::REPORT_TRUNCATION_MARKER@;
            let out = fitted(text, budget);
            let kept = out.len() - mark.len();
            let room = budget - byte_count(mark);
            &&& 0 <= kept <= text.len()
            &&& out == text.take(kept) + mark
            &&& room >= 0 ==> byte_count(text.take(kept)) <= room
            &&& kept < text.len() && room >= 0 ==> byte_count(text.take(kept + 1)) > room
            &&& room < 0 ==> kept == 0
        },
{
    if byte_count(text) > budget {
        let mark = crate::fanout::REPORT_TRUNCATION_MARKER@;
        let room: nat = if byte_count(mark) <= budget {
            (budget - byte_count(mark)) as nat
        } else {
            0
        };
        lemma_longest_fit(text, room);
        let kept = crate::text::fitting(text, room);
        assert(fitted(text, budget).take(kept.len() as int) =~= kept);
        if byte_count(mark) > budget {
            lemma_nothing_fits(text);
        }
    }
}

/// What fits is a beginning of the text, and no longer one would.
proof fn lemma_longest_fit(s: Seq<char>, room: nat)
    ensures
        ({
            let kept = crate::text::fitting(s, room);
            &&& kept.len() <= s.len()
            &&& kept == s.take(kept.len() as int)
            &&& byte_count(kept) <= room
            &&& kept.len() < s.len() ==> byte_count(s.take(kept.len() as int + 1)) > room
        }),
    decreases s.len(),
{
    if s.len() == 0 {
        assert(s =~= Seq::empty());
        reveal_with_fuel(vstd::utf8::encode_utf8, 2);
        assert(s.take(0) =~= s);
    } else if byte_count(s) <= room {
        assert(s.take(s.len() as int) =~= s);
    } else {
        let front = s.drop_last();
        lemma_longest_fit(front, room);
        let kept = crate::text::fitting(front, room);
        assert(front.take(kept.len() as int) =~= s.take(kept.len() as int));
        if kept.len() < front.len() {
            assert(front.take(kept.len() as int + 1) =~= s.take(kept.len() as int + 1));
        } else {
            assert(s.take(kept.len() as int + 1) =~= s);
        }
    }
}

/// No character fits where there is no room.
proof fn lemma_nothing_fits(s: Seq<char>)
    ensures
        crate::text::fitting(s, 0).len() == 0,
    decreases s.len(),
{
    if s.len() > 0 {
        crate::text::lemma_byte_count_push(s.drop_last(), s.last());
        assert(s.drop_last().push(s.last()) =~= s);
        lemma_nothing_fits(s.drop_last());
    }
}

/// How much of each answer a report has room for: nine tenths of its region, shared out among
/// the workers, at least the minimum, and the usual amount where the region has no budget.
pub proof fn law_answers_share_the_region(tokens: usize, workers: nat)
    requires
        tokens * 36 <= usize::MAX,
    ensures
        share(None, workers) == 4000,
        share(Some(0), workers) == 4000,
        tokens > 0 ==> {
            let each = (tokens * 36 / 10) / (if workers > 1 {
                workers as int
            } else {
                1
            });
            &&& each > 200 ==> share(Some(tokens), workers) == each
            &&& each <= 200 ==> share(Some(tokens), workers) == 200
        },
{
}

/// A correction puts what was answered into the conversation, and behind it why that will not
/// do and what to answer instead.
pub proof fn law_correction_follows_the_answer(
    w: WindowView,
    response: Seq<char>,
    reason: Seq<char>,
)
    requires
        has_room_for(w, correction_log(response, reason)),
    ensures
        holds_also(w, correction_log(response, reason), corrected(w, response, reason)),
{
    let log = correction_log(response, reason);
    lemma_all_offered(w, log);
    assert(log.drop_last() =~= seq![log[0]]);
    assert(log.drop_last().drop_last() =~= Seq::empty());
    reveal_with_fuel(all_offered, 3);
    assert(all_offered(w, log) == corrected(w, response, reason));
}

/// What a correction puts into the conversation.
pub open spec fn correction_log(response: Seq<char>, reason: Seq<char>) -> Seq<Addressed> {
    let message = "[System] "@ + ("Your previous response could not be used: "@ + reason
        + ". Reply with the JSON array of work items and nothing else - no prose before or after it, no markdown fences, no explanation. It must start with `[` and end with `]`."@);
    seq![
        (
            "conversation"@,
            EntryView {
                kind: EntryKindView::AssistantTurn { tool_calls: Seq::empty() },
                content: response,
                tokens: tokens_of(response),
                taint: TaintLevel::Public,
            },
        ),
        (
            "conversation"@,
            EntryView {
                kind: EntryKindView::UserMessage,
                content: message,
                tokens: tokens_of(message),
                taint: TaintLevel::Public,
            },
        ),
    ]
}

/// A parent that is restored has its items, results and failures as they were, and behind the
/// failures those of the workers that are not there any more.
pub proof fn law_restored_parent_keeps_what_it_had(
    state: FanOutStateView,
    found: Seq<Option<Entity>>,
    i: int,
)
    requires
        state.active.len() == found.len(),
    ensures
        ({
            let w = restored(state, found);
            let had = state.failures.len();
            &&& w.config == state.config
            &&& w.max_workers == state.max_workers
            &&& w.pending == state.pending
            &&& w.summaries == state.summaries
            &&& w.failures.take(had as int) == state.failures
            &&& had <= i < w.failures.len() ==> w.failures[i].1
                == "worker did not reload after restart"@
            &&& w.active.len() + w.failures.len() == state.active.len() + had
        }),
{
    lemma_lost_workers(state.active, found);
    let w = restored(state, found);
    assert(w.failures.take(state.failures.len() as int) =~= state.failures);
}

/// Each worker is found or lost, and what is said of the lost.
proof fn lemma_lost_workers(active: Seq<(Seq<char>, Seq<char>)>, found: Seq<Option<Entity>>)
    requires
        active.len() == found.len(),
    ensures
        found_workers(active, found).len() + lost_workers(active, found).len() == active.len(),
        forall|i: int|
            0 <= i < lost_workers(active, found).len() ==> (#[trigger] lost_workers(
                active,
                found,
            )[i]).1 == "worker did not reload after restart"@,
    decreases active.len(),
{
    if active.len() > 0 {
        lemma_lost_workers(active.drop_last(), found.drop_last());
    }
}

/// A parent that is restored has every worker that was found running again, in order, and
/// every other as a failure, in order too.
pub proof fn law_restored_workers_run_or_failed(
    active: Seq<(Seq<char>, Seq<char>)>,
    found: Seq<Option<Entity>>,
    id: Seq<char>,
    run_id: Seq<char>,
    at: Option<Entity>,
)
    requires
        active.len() == found.len(),
    ensures
        found_workers(Seq::empty(), Seq::empty()).len() == 0,
        lost_workers(Seq::empty(), Seq::empty()).len() == 0,
        at is Some ==> found_workers(active.push((id, run_id)), found.push(at)) == found_workers(
            active,
            found,
        ).push(ActiveWorkerView { item_id: id, entity: at->0, run_id }) && lost_workers(
            active.push((id, run_id)),
            found.push(at),
        ) == lost_workers(active, found),
        at is None ==> found_workers(active.push((id, run_id)), found.push(at)) == found_workers(
            active,
            found,
        ) && lost_workers(active.push((id, run_id)), found.push(at)) == lost_workers(
            active,
            found,
        ).push((id, "worker did not reload after restart"@)),
{
    assert(active.push((id, run_id)).drop_last() =~= active);
    assert(found.push(at).drop_last() =~= found);
}

/// What a failed split says of the response: that it was empty, all of it, or how it began.
pub proof fn law_snippet_shows_the_response(response: Seq<char>)
    ensures
        ({
            let text = crate::text::trimmed(response);
            &&& text.len() == 0 ==> snippet(response) == "the response was empty"@
            &&& 0 < text.len() <= 200 ==> snippet(response) == "the response was: "@ + text
            &&& text.len() > 200 ==> snippet(response) == "the response began: "@ + text.take(200)
                + "…"@
        }),
{
}

/// Whether there is room or not, a correction offers the conversation the answer first and
/// then what is wrong with it.
pub proof fn law_correction_is_always_offered(
    w: WindowView,
    response: Seq<char>,
    reason: Seq<char>,
)
    ensures
        ({
            let log = correction_log(response, reason);
            corrected(w, response, reason) == w.offered(log[0].0, log[0].1).offered(
                log[1].0,
                log[1].1,
            )
        }),
{
}

/// Results that are longer than the room of their region are cut to it: what is put there is
/// a beginning of them with the mark of truncation behind it, as one message behind what is
/// there.
pub proof fn law_long_results_are_cut_to_the_room(
    w: WindowView,
    region: Seq<char>,
    text: Seq<char>,
    p: int,
)
    requires
        0 <= p < w.regions.len(),
        w.regions[p].name == region || ((forall|j: int|
            0 <= j < w.regions.len() ==> (#[trigger] w.regions[j]).name != region)
            && w.regions[p].name == "conversation"@),
        forall|j: int| 0 <= j < p ==> (#[trigger] w.regions[j]).name != w.regions[p].name,
        w.regions[p].current_tokens <= w.regions[p].max_tokens,
        ({
            let room = (w.regions[p].max_tokens - w.regions[p].current_tokens) * 4;
            &&& byte_count(text) > room
            &&& byte_count("\n[...truncated; read this worker's own run for the full answer]"@)
                <= room <= usize::MAX
        }),
    ensures
        ({
            let after = with_results(w, region, text);
            let room = (w.regions[p].max_tokens - w.regions[p].current_tokens) * 4;
            let marker = "\n[...truncated; read this worker's own run for the full answer]"@;
            let last = after.regions[p].content.last();
            &&& after.regions[p].content.len() == w.regions[p].content.len() + 1
            &&& after.regions[p].content.drop_last() == w.regions[p].content
            &&& last.kind is UserMessage
            &&& byte_count(last.content) <= room
            &&& exists|n: int|
                {
                    &&& 0 <= n <= text.len()
                    &&& last.content == #[trigger] text.take(n) + marker
                    &&& forall|m: int|
                        n < m <= text.len() ==> byte_count(#[trigger] text.take(m)) + byte_count(
                            marker,
                        ) > room
                }
            &&& forall|j: int|
                0 <= j < w.regions.len() && j != p ==> #[trigger] after.regions[j] == w.regions[j]
        }),
{
    lemma_region_at(w.regions, region);
    lemma_region_at(w.regions, "conversation"@);
    let room = ((w.regions[p].max_tokens - w.regions[p].current_tokens) * 4) as nat;
    let marker = "\n[...truncated; read this worker's own run for the full answer]"@;
    let left = (room - byte_count(marker)) as nat;
    law_longest_fitting_beginning_is_kept(text, left);
    law_results_always_land(w, region, text);
    law_fitted_within_budget(text, room);
    let after = with_results(w, region, text);
    assert(after.regions[p].content.last().content == fitting(text, left) + marker);
    let n = choose|n: int|
        {
            &&& 0 <= n <= text.len()
            &&& fitting(text, left) == #[trigger] text.take(n)
            &&& encode_utf8(text.take(n)).len() <= left || n == 0
            &&& forall|m: int|
                n < m <= text.len() ==> encode_utf8(#[trigger] text.take(m)).len() > left
        };
    assert(after.regions[p].content.last().content == text.take(n) + marker);
    assert forall|m: int| n < m <= text.len() implies byte_count(#[trigger] text.take(m))
        + byte_count(marker) > room by {
        assert(encode_utf8(text.take(m)).len() > left);
    }
    assert(after.regions[p].content.drop_last() =~= w.regions[p].content);
}

} // verus!
