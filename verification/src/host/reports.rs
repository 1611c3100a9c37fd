//! What reports and listings say of the runs.

use crate::components::{Entity, RunStatus};
use crate::host::events::{
    adopted, announced, can_park, changes, completed_event, context_event, event_if, looked_at,
    no_live_parent, same_status, same_tokens, snapshot, spawned_event, status_event, still_open,
    tokens_event, unloaded, was_terminal, PassView,
};
use crate::host::listing::{
    asked_kind, finished_rows, last_row, live_rows, parked_rows, pruned, pruned_rows, reason_for,
    recorded, row_of, running_among, without_run,
};
use crate::host::types::{EventView, RunEntryView, WaitReason};
use crate::host::{EmittedView, HostView};
use crate::interaction::{InteractionKind, RequestView};
use crate::table::{lemma_inserted, lemma_removed, lookup};
use crate::world::{agent_at, AgentView};
use vstd::prelude::*;

verus! {

/// Where an event about a run stands among those of one look at it.
pub open spec fn turn_of(event: EventView) -> int {
    match event {
        EventView::Spawned { .. } => 0,
        EventView::Status { .. } => 1,
        EventView::Tokens { .. } => 2,
        EventView::Context { .. } => 3,
        EventView::Completed { .. } => 4,
        _ => 5,
    }
}

/// Whether an event of this turn is among some.
pub open spec fn has_turn(events: Seq<EventView>, turn: int) -> bool {
    exists|i: int| 0 <= i < events.len() && turn_of(#[trigger] events[i]) == turn
}

/// Some events come one per turn, in order.
pub open spec fn in_turn(events: Seq<EventView>) -> bool {
    forall|i: int, j: int|
        0 <= i < j < events.len() ==> turn_of(#[trigger] events[i]) < turn_of(#[trigger] events[j])
}

/// An event says of an agent what it is.
pub open spec fn tells(event: EventView, run: Seq<char>, agent: AgentView) -> bool {
    match event {
        EventView::Spawned { run_id, agent_id, blueprint } => {
            &&& run_id == run
            &&& agent_id == agent.state.agent_id
            &&& agent.metadata is Some ==> blueprint == agent.metadata->0.agent_name@
            &&& agent.metadata is None ==> blueprint.len() == 0
        },
        EventView::Status {
            run_id,
            agent_id,
            status,
            stage,
            iteration,
            tool_calls,
            accepts_messages,
        } => {
            &&& run_id == run
            &&& agent_id == agent.state.agent_id
            &&& status == agent.state.status.label_of()
            &&& stage == agent.state.current_stage
            &&& iteration == agent.state.iteration
            &&& agent.totals is Some ==> tool_calls == agent.totals->0.tool_calls
            &&& agent.totals is None ==> tool_calls == 0
            &&& accepts_messages == agent.state.accepts_messages
        },
        EventView::Tokens {
            run_id,
            agent_id,
            prompt_tokens,
            completion_tokens,
            cached_tokens,
            cache_write_tokens,
        } => {
            &&& run_id == run
            &&& agent_id == agent.state.agent_id
            &&& agent.totals is Some ==> {
                &&& prompt_tokens == agent.totals->0.prompt_tokens
                &&& completion_tokens == agent.totals->0.completion_tokens
                &&& cached_tokens == agent.totals->0.cached_tokens
                &&& cache_write_tokens == agent.totals->0.cache_write_tokens
            }
            &&& agent.totals is None ==> prompt_tokens == 0 && completion_tokens == 0
                && cached_tokens == 0 && cache_write_tokens == 0
        },
        EventView::Context { run_id, agent_id, total_tokens, max_tokens } => {
            &&& run_id == run
            &&& agent_id == agent.state.agent_id
            &&& agent.window is Some ==> total_tokens == agent.window->0.current_tokens
                && max_tokens == agent.window->0.max_tokens
            &&& agent.window is None ==> total_tokens == 0 && max_tokens == 0
        },
        EventView::Completed { run_id, agent_id, status, final_output } => {
            &&& run_id == run
            &&& agent_id == agent.state.agent_id
            &&& status == agent.state.status.label_of()
            &&& final_output == agent.final_output
        },
        _ => false,
    }
}

/// Every event about a run says what the agent is at the time, and the events of one look
/// come in their turn: that the run appeared first, that it is over last.
pub proof fn law_events_tell_what_the_agent_is(
    run_id: Seq<char>,
    agent: AgentView,
    prev: Option<EmittedView>,
)
    ensures
        in_turn(changes(run_id, agent, prev)),
        forall|i: int|
            0 <= i < changes(run_id, agent, prev).len() ==> tells(
                #[trigger] changes(run_id, agent, prev)[i],
                run_id,
                agent,
            ),
{
    let cur = snapshot(agent);
    let a = event_if(prev is None, spawned_event(run_id, agent));
    let b = event_if(prev is None || !same_status(prev->0, cur), status_event(run_id, agent));
    let c = event_if(prev is None || !same_tokens(prev->0, cur), tokens_event(run_id, agent));
    let d = event_if(
        prev is None || prev->0.context_tokens != cur.context_tokens,
        context_event(run_id, agent),
    );
    let e = event_if(
        cur.terminal && !was_terminal(prev),
        completed_event(run_id, agent),
    );
    lemma_turn_added(Seq::empty(), a, 0, run_id, agent);
    assert(Seq::<EventView>::empty() + a =~= a);
    lemma_turn_added(a, b, 1, run_id, agent);
    lemma_turn_added(a + b, c, 2, run_id, agent);
    lemma_turn_added(a + b + c, d, 3, run_id, agent);
    lemma_turn_added(a + b + c + d, e, 4, run_id, agent);
}

/// Some events come in turn, all before one, and say what an agent is.
pub open spec fn told_before(
    events: Seq<EventView>,
    turn: int,
    run_id: Seq<char>,
    agent: AgentView,
) -> bool {
    &&& in_turn(events)
    &&& forall|i: int|
        0 <= i < events.len() ==> turn_of(#[trigger] events[i]) < turn && tells(
            events[i],
            run_id,
            agent,
        )
}

/// An event of the next turn, where there is one, goes behind those before.
proof fn lemma_turn_added(
    events: Seq<EventView>,
    more: Seq<EventView>,
    turn: int,
    run_id: Seq<char>,
    agent: AgentView,
)
    requires
        told_before(events, turn, run_id, agent),
        more.len() <= 1,
        more.len() == 1 ==> turn_of(more[0]) == turn && tells(more[0], run_id, agent),
    ensures
        told_before(events + more, turn + 1, run_id, agent),
{
    let all = events + more;
    assert forall|i: int| 0 <= i < all.len() implies turn_of(#[trigger] all[i]) < turn + 1
        && tells(all[i], run_id, agent) by {
        if i < events.len() {
            assert(all[i] == events[i]);
        } else {
            assert(all[i] == more[0]);
        }
    }
    assert forall|i: int, j: int| 0 <= i < j < all.len() implies turn_of(#[trigger] all[i])
        < turn_of(#[trigger] all[j]) by {
        assert(all[i] == events[i]);
        if j < events.len() {
            assert(all[j] == events[j]);
        } else {
            assert(all[j] == more[0]);
        }
    }
}

/// A run that was not reported before is reported in full, and that it is over where it is.
pub proof fn law_first_report_is_full(run_id: Seq<char>, agent: AgentView)
    ensures
        ({
            let events = changes(run_id, agent, None);
            &&& events.len() >= 4
            &&& events[0] is Spawned
            &&& events[1] is Status
            &&& events[2] is Tokens
            &&& events[3] is Context
            &&& events.len() == 5 && events[4] is Completed <==> agent.state.status is Complete
                || agent.state.status is Error || agent.state.status is Cancelled
            &&& events.len() <= 5
        }),
{
}

/// A run that changed since it was last reported has exactly the reports that are due: its
/// status where that, the stage, the iteration, the number of tool calls or whether it takes
/// messages changed; its tokens where any count of them did; its context where its size did;
/// and that it is over where it came to be. That it appeared is not said again.
pub proof fn law_what_changed_is_reported(run_id: Seq<char>, before: AgentView, after: AgentView)
    requires
        before.totals is Some,
        after.totals is Some,
        before.window is Some,
        after.window is Some,
    ensures
        ({
            let events = changes(run_id, after, Some(snapshot(before)));
            let over = |agent: AgentView|
                agent.state.status is Complete || agent.state.status is Error
                    || agent.state.status is Cancelled;
            let spent = before.totals->0;
            let spends = after.totals->0;
            &&& !has_turn(events, 0)
            &&& has_turn(events, 1) <==> {
                ||| before.state.status.label_of() != after.state.status.label_of()
                ||| before.state.current_stage != after.state.current_stage
                ||| before.state.iteration != after.state.iteration
                ||| spent.tool_calls != spends.tool_calls
                ||| before.state.accepts_messages != after.state.accepts_messages
            }
            &&& has_turn(events, 2) <==> {
                ||| spent.prompt_tokens != spends.prompt_tokens
                ||| spent.completion_tokens != spends.completion_tokens
                ||| spent.cached_tokens != spends.cached_tokens
                ||| spent.cache_write_tokens != spends.cache_write_tokens
            }
            &&& has_turn(events, 3) <==> before.window->0.current_tokens
                != after.window->0.current_tokens
            &&& has_turn(events, 4) <==> over(after) && !over(before)
        }),
{
    let events = changes(run_id, after, Some(snapshot(before)));
    law_events_tell_what_the_agent_is(run_id, after, Some(snapshot(before)));
    let a = event_if(
        !same_status(snapshot(before), snapshot(after)),
        status_event(run_id, after),
    );
    let b = event_if(
        !same_tokens(snapshot(before), snapshot(after)),
        tokens_event(run_id, after),
    );
    let c = event_if(
        snapshot(before).context_tokens != snapshot(after).context_tokens,
        context_event(run_id, after),
    );
    let d = event_if(
        snapshot(after).terminal && !snapshot(before).terminal,
        completed_event(run_id, after),
    );
    assert(events =~= a + b + c + d);
    if a.len() > 0 {
        assert(events[0] == a[0]);
    }
    if b.len() > 0 {
        assert(events[a.len() as int] == b[0]);
    }
    if c.len() > 0 {
        assert(events[(a.len() + b.len()) as int] == c[0]);
    }
    if d.len() > 0 {
        assert(events[(a.len() + b.len() + c.len()) as int] == d[0]);
    }
}

/// A parent could be waiting for a run only while it is loaded and not over.
pub proof fn law_who_could_wait_for_a_run(world: Seq<Option<AgentView>>, agent: AgentView)
    ensures
        no_live_parent(world, agent) <==> !{
            &&& agent.parent is Some
            &&& agent.parent->0.parent_entity < world.len()
            &&& world[agent.parent->0.parent_entity as int] is Some
            &&& !(world[agent.parent->0.parent_entity as int]->0.state.status is Complete)
            &&& !(world[agent.parent->0.parent_entity as int]->0.state.status is Error)
            &&& !(world[agent.parent->0.parent_entity as int]->0.state.status is Cancelled)
        },
{
}

/// A run is unloaded while paused only where it can be loaded again as it is: it is written
/// down as paused, and belongs to no tree, waits for no workers and for no answer.
pub proof fn law_what_may_be_unloaded_while_paused(h: HostView, agent: AgentView)
    ensures
        can_park(h, agent) ==> {
            &&& h.can_reload
            &&& agent.state.status is Paused
            &&& agent.watermark is Some
            &&& agent.watermark->0.persisted_status == Some(RunStatus::Paused)
            &&& agent.parent is None
            &&& agent.children is None
            &&& agent.fan_out is None
            &&& !agent.awaiting_interaction_point
            &&& !agent.awaiting_interaction
        },
        h.can_reload && agent.state.status is Paused && agent.watermark is Some
            && agent.watermark->0.persisted_status == Some(RunStatus::Paused) && agent.parent is None
            && agent.children is None && agent.fan_out is None && !agent.awaiting_interaction_point
            && !agent.awaiting_interaction ==> can_park(h, agent),
{
}

/// A look at a run sets down what it shows now, adds what changed behind what other runs have
/// to tell, and lets it leave where it was already over when it was last reported.
pub proof fn law_look_sets_down_what_it_saw(
    h: HostView,
    p: PassView,
    run_id: Seq<char>,
    e: Entity,
    agent: AgentView,
    other: Seq<char>,
)
    ensures
        ({
            let after = looked_at(h, p, run_id, e, agent);
            let over = agent.state.status is Complete || agent.state.status is Error
                || agent.state.status is Cancelled;
            let leaves = over && lookup(p.emitted, run_id) is Some && lookup(
                p.emitted,
                run_id,
            )->0.terminal && no_live_parent(h.world, agent);
            &&& lookup(after.emitted, run_id) == Some(snapshot(agent))
            &&& other != run_id ==> lookup(after.emitted, other) == lookup(p.emitted, other)
            &&& after.events == p.events + changes(run_id, agent, lookup(p.emitted, run_id))
            &&& leaves ==> after.to_reap.len() == p.to_reap.len() + 1 && after.to_reap.drop_last()
                == p.to_reap && after.to_reap.last().0 == run_id && after.to_reap.last().1 == e
            &&& !leaves ==> after.to_reap == p.to_reap
            &&& can_park(h, agent) ==> after.to_park.len() == p.to_park.len() + 1
                && after.to_park.drop_last() == p.to_park && after.to_park.last().0 == run_id
                && after.to_park.last().1 == e
            &&& !can_park(h, agent) ==> after.to_park == p.to_park
            &&& snapshot(agent).terminal <==> over
        }),
{
    lemma_inserted(p.emitted, run_id, snapshot(agent), other);
    lemma_inserted(p.emitted, run_id, snapshot(agent), run_id);
    let after = looked_at(h, p, run_id, e, agent);
    if after.to_reap.len() > p.to_reap.len() {
        assert(after.to_reap.drop_last() =~= p.to_reap);
    }
    if after.to_park.len() > p.to_park.len() {
        assert(after.to_park.drop_last() =~= p.to_park);
    }
}

/// An unloaded run leaves an empty place and no name; every other agent stays in its place,
/// and every other run keeps its name and what was last reported of it.
pub proof fn law_unloading_takes_one_run(
    h: HostView,
    run_id: Seq<char>,
    e: Entity,
    other: Seq<char>,
    i: int,
)
    requires
        crate::table::names_unique(h.by_run_id),
        crate::table::names_unique(h.emitted),
    ensures
        ({
            let after = unloaded(h, run_id, e);
            &&& after.world.len() == h.world.len()
            &&& e < h.world.len() ==> after.world[e as int] is None
            &&& 0 <= i < h.world.len() && i != e ==> after.world[i] == h.world[i]
            &&& lookup(after.by_run_id, run_id) is None
            &&& lookup(after.emitted, run_id) is None
            &&& other != run_id ==> lookup(after.by_run_id, other) == lookup(h.by_run_id, other)
            &&& other != run_id ==> lookup(after.emitted, other) == lookup(h.emitted, other)
            &&& after.parked == h.parked
            &&& after.finished == h.finished
            &&& after.interactions == h.interactions
            &&& after.messages == h.messages
        }),
{
    lemma_removed(h.by_run_id, run_id, run_id);
    lemma_removed(h.by_run_id, run_id, other);
    lemma_removed(h.emitted, run_id, run_id);
    lemma_removed(h.emitted, run_id, other);
}

/// A question is announced when it is new, once, with the agent that asks it, in the order
/// in which the questions stand.
pub proof fn law_new_questions_are_announced(
    known: Seq<Seq<char>>,
    open: Seq<(Seq<char>, RequestView)>,
)
    ensures
        ({
            let (ids, events) = announced(known, open);
            &&& forall|i: int|
                0 <= i < events.len() ==> {
                    &&& (#[trigger] events[i]) is Interaction
                    &&& events[i]->Interaction_run_id == events[i]->Interaction_agent_id
                    &&& open.contains(
                        (events[i]->Interaction_agent_id, events[i]->Interaction_request),
                    )
                    &&& !known.contains(events[i]->Interaction_request.id)
                    &&& ids[known.len() + i] == events[i]->Interaction_request.id
                }
            &&& ids.len() == known.len() + events.len()
            &&& ids.take(known.len() as int) == known
            &&& forall|k: int| 0 <= k < open.len() ==> ids.contains((#[trigger] open[k]).1.id)
            &&& forall|i: int, j: int|
                0 <= i < j < events.len() ==> (#[trigger] events[i])->Interaction_request.id != (
                #[trigger] events[j])->Interaction_request.id
        }),
    decreases open.len(),
{
    if open.len() > 0 {
        let front = open.drop_last();
        law_new_questions_are_announced(known, front);
        let (ids, events) = announced(known, front);
        let (all, told) = announced(known, open);
        let (agent_id, request) = open.last();
        assert(open[open.len() - 1] == open.last());
        assert forall|i: int| 0 <= i < told.len() implies {
            &&& (#[trigger] told[i]) is Interaction
            &&& told[i]->Interaction_run_id == told[i]->Interaction_agent_id
            &&& open.contains((told[i]->Interaction_agent_id, told[i]->Interaction_request))
            &&& !known.contains(told[i]->Interaction_request.id)
            &&& all[known.len() + i] == told[i]->Interaction_request.id
        } by {
            if i < events.len() {
                assert(told[i] == events[i]);
                let question = (events[i]->Interaction_agent_id, events[i]->Interaction_request);
                assert(front.contains(question));
                let k = choose|k: int| 0 <= k < front.len() && front[k] == question;
                assert(open[k] == question);
            } else {
                if known.contains(request.id) {
                    let k = choose|k: int| 0 <= k < known.len() && known[k] == request.id;
                    assert(ids.take(known.len() as int)[k] == ids[k]);
                    assert(ids.contains(request.id));
                }
            }
        }
        assert forall|k: int| 0 <= k < open.len() implies all.contains(
            (#[trigger] open[k]).1.id,
        ) by {
            if k < front.len() {
                assert(open[k] == front[k]);
                let at = choose|at: int| 0 <= at < ids.len() && ids[at] == front[k].1.id;
                assert(all[at] == ids[at]);
            } else if !ids.contains(request.id) {
                assert(all[ids.len() as int] == request.id);
            }
        }
        assert(all.take(known.len() as int) =~= known) by {
            assert(all.take(known.len() as int) =~= ids.take(known.len() as int));
        }
        assert forall|i: int, j: int| 0 <= i < j < told.len() implies (
        #[trigger] told[i])->Interaction_request.id != (
        #[trigger] told[j])->Interaction_request.id by {
            assert(told[i] == events[i]);
            if j < events.len() {
                assert(told[j] == events[j]);
            } else {
                assert(ids[known.len() + i] == events[i]->Interaction_request.id);
                assert(ids.contains(events[i]->Interaction_request.id));
            }
        }
    } else {
        assert(known.take(known.len() as int) =~= known);
    }
}

/// Where all open questions are new and have ids of their own, each is announced, in their
/// order.
pub proof fn law_each_new_question_is_announced(
    known: Seq<Seq<char>>,
    open: Seq<(Seq<char>, RequestView)>,
    i: int,
)
    requires
        0 <= i < open.len(),
        forall|j: int| 0 <= j < open.len() ==> !known.contains((#[trigger] open[j]).1.id),
        forall|j: int, k: int|
            0 <= j < k < open.len() ==> (#[trigger] open[j]).1.id != (#[trigger] open[k]).1.id,
    ensures
        announced(known, open).1.len() == open.len(),
        announced(known, open).1[i] == (EventView::Interaction {
            run_id: open[i].0,
            agent_id: open[i].0,
            request: open[i].1,
        }),
    decreases open.len(),
{
    let front = open.drop_last();
    assert forall|j: int| 0 <= j < front.len() implies !known.contains(
        (#[trigger] front[j]).1.id,
    ) by {
        assert(front[j] == open[j]);
    }
    assert forall|j: int, k: int| 0 <= j < k < front.len() implies (#[trigger] front[j]).1.id != (
    #[trigger] front[k]).1.id by {
        assert(front[j] == open[j] && front[k] == open[k]);
    }
    if front.len() > 0 {
        let at = if i < front.len() {
            i
        } else {
            0
        };
        law_each_new_question_is_announced(known, front, at);
    }
    let (ids, events) = announced(known, front);
    law_new_questions_are_announced(known, front);
    let id = open.last().1.id;
    if ids.contains(id) {
        let at = choose|at: int| 0 <= at < ids.len() && ids[at] == id;
        assert(open[open.len() - 1].1.id == id);
        if at < known.len() {
            assert(ids.take(known.len() as int)[at] == ids[at]);
            assert(known.contains(id));
        } else {
            let e = events[at - known.len()];
            assert(ids[known.len() + (at - known.len())] == e->Interaction_request.id);
            let question = (e->Interaction_agent_id, e->Interaction_request);
            let k = choose|k: int| 0 <= k < front.len() && front[k] == question;
            assert(open[k].1.id == id);
        }
    }
}

/// What was announced is kept in mind exactly while the question is open.
pub proof fn law_closed_questions_are_forgotten(
    ids: Seq<Seq<char>>,
    open: Seq<(Seq<char>, RequestView)>,
)
    ensures
        still_open(ids, open) == ids.filter(
            |id: Seq<char>| exists|i: int| 0 <= i < open.len() && (#[trigger] open[i]).1.id == id,
        ),
    decreases ids.len(),
{
    reveal(Seq::filter);
    if ids.len() > 0 {
        law_closed_questions_are_forgotten(ids.drop_last(), open);
    }
}

/// Taking up the runs that are not registered registers them and does nothing else: agents,
/// questions, messages and what was reported stay, and so does the name of a run that no
/// agent says is its own.
pub proof fn law_adoption_only_registers(h: HostView, n: nat, run_id: Seq<char>)
    requires
        n <= h.world.len(),
        h.world.len() <= usize::MAX,
    ensures
        ({
            let after = adopted(h, n);
            &&& after.world == h.world
            &&& after.interactions == h.interactions
            &&& after.messages == h.messages
            &&& after.emitted == h.emitted
            &&& after.emitted_interactions == h.emitted_interactions
            &&& after.finished == h.finished
            &&& after.relief_granted == h.relief_granted
            &&& after.dead_cycles == h.dead_cycles
            &&& after.stopping == h.stopping
            &&& (forall|i: int|
                0 <= i < h.world.len() && (#[trigger] h.world[i]) is Some && h.world[i]->0.metadata
                    is Some ==> h.world[i]->0.metadata->0.run_id@ != run_id) ==> lookup(
                after.by_run_id,
                run_id,
            ) == lookup(h.by_run_id, run_id)
        }),
    decreases n,
{
    if n > 0 {
        law_adoption_only_registers(h, (n - 1) as nat, run_id);
        let before = adopted(h, (n - 1) as nat);
        let e = (n - 1) as usize;
        assert(agent_at(before.world, e) == h.world[n - 1]);
        if h.world[n - 1] is Some && h.world[n - 1]->0.metadata is Some {
            lemma_inserted(
                before.by_run_id,
                h.world[n - 1]->0.metadata->0.run_id@,
                e,
                run_id,
            );
        }
    }
}

/// A row shows what the agent is.
pub proof fn law_row_shows_the_agent(
    world: Seq<Option<AgentView>>,
    open: Seq<(Seq<char>, RequestView)>,
    run_id: Seq<char>,
    agent: AgentView,
)
    ensures
        ({
            let row = row_of(world, open, run_id, agent);
            &&& row.run_id == run_id
            &&& row.status == agent.state.status
            &&& row.stage == agent.state.current_stage
            &&& row.stage_index == agent.cursor
            &&& row.iteration == agent.state.iteration
            &&& row.has_final_output == (agent.final_output is Some)
            &&& agent.metadata is Some ==> {
                &&& row.num_stages == Some(agent.metadata->0.num_stages)
                &&& row.unattended == agent.metadata->0.unattended
                &&& row.read_paths == agent.metadata->0.read_paths
            }
            &&& agent.metadata is None ==> row.num_stages is None && !row.unattended
                && row.read_paths is None
            &&& agent.totals is Some ==> row.tool_calls == agent.totals->0.tool_calls
            &&& agent.totals is None ==> row.tool_calls == 0
            &&& agent.watermark is Some ==> row.last_progress_at
                == agent.watermark->0.last_progress_at
            &&& agent.watermark is None ==> row.last_progress_at is None
            &&& row.empty_output <==> {
                &&& agent.modified_nothing
                &&& agent.final_output is None
                &&& agent.state.status is Complete || agent.state.status is Error
                    || agent.state.status is Cancelled
            }
        }),
{
}

/// What a waiting agent waits for: a decision on a blocked call before anything else, then a
/// checkpoint of its stage, its workers, its children, and last an answer.
pub proof fn law_reason_says_what_is_waited_for(
    world: Seq<Option<AgentView>>,
    open: Seq<(Seq<char>, RequestView)>,
    agent: AgentView,
    k: int,
)
    requires
        agent.state.status is Waiting,
    ensures
        ({
            let reason = reason_for(world, open, agent);
            let gate = agent.awaiting_gate_prompt is Some;
            let point = agent.awaiting_interaction_point;
            let workers = agent.fan_out is Some;
            let children = agent.waiting_for_children;
            let answer = agent.awaiting_interaction;
            &&& gate ==> reason == Some(WaitReason::TaintGate)
            &&& !gate && point ==> reason == Some(WaitReason::InteractionPoint)
            &&& !gate && !point && workers && agent.fan_out->0.active.len()
                + agent.fan_out->0.pending.len() <= usize::MAX ==> reason == Some(
                WaitReason::FanOutWorkers {
                    outstanding: (agent.fan_out->0.active.len()
                        + agent.fan_out->0.pending.len()) as usize,
                },
            )
            &&& !gate && !point && !workers && children && agent.children is Some ==> reason
                == Some(
                WaitReason::Children {
                    outstanding: agent.children->0.children.filter(
                        |e: Entity|
                            e < world.len() && world[e as int] is Some && !(
                            world[e as int]->0.state.status is Complete
                                || world[e as int]->0.state.status is Error
                                || world[e as int]->0.state.status is Cancelled),
                    ).len() as usize,
                },
            )
            &&& !gate && !point && !workers && children && agent.children is None ==> reason
                == Some(WaitReason::Children { outstanding: 0 })
            &&& !gate && !point && !workers && !children && answer && 0 <= k < open.len()
                && open[k].0 == agent.state.agent_id && (forall|j: int|
                0 <= j < k ==> (#[trigger] open[j]).0 != agent.state.agent_id) ==> (reason == Some(
                WaitReason::ToolApproval,
            ) <==> open[k].1.kind == InteractionKind::ToolApproval) && (reason == Some(
                WaitReason::ToolApproval,
            ) || reason == Some(WaitReason::UserPrompt))
            &&& !gate && !point && !workers && !children && answer && (forall|j: int|
                0 <= j < open.len() ==> (#[trigger] open[j]).0 != agent.state.agent_id) ==> reason
                == Some(WaitReason::UserPrompt)
            &&& !gate && !point && !workers && !children && !answer ==> reason is None
        }),
{
    if agent.children is Some {
        lemma_running_is_filtered(world, agent.children->0.children);
    }
    lemma_first_asked(open, agent.state.agent_id, 0, k);
}

/// The running children are counted.
proof fn lemma_running_is_filtered(world: Seq<Option<AgentView>>, children: Seq<Entity>)
    ensures
        running_among(world, children) == children.filter(
            |e: Entity|
                e < world.len() && world[e as int] is Some && !(
                world[e as int]->0.state.status is Complete || world[e as int]->0.state.status
                    is Error || world[e as int]->0.state.status is Cancelled),
        ).len(),
    decreases children.len(),
{
    reveal(Seq::filter);
    if children.len() > 0 {
        lemma_running_is_filtered(world, children.drop_last());
    }
}

/// The first question of an agent says what kind of answer it waits for.
proof fn lemma_first_asked(
    open: Seq<(Seq<char>, RequestView)>,
    agent_id: Seq<char>,
    from: int,
    k: int,
)
    requires
        0 <= from,
    ensures
        from <= k < open.len() && open[k].0 == agent_id && (forall|j: int|
            from <= j < k ==> (#[trigger] open[j]).0 != agent_id) ==> asked_kind(
            open,
            agent_id,
            from,
        ) == Some(open[k].1.kind),
        (forall|j: int| from <= j < open.len() ==> (#[trigger] open[j]).0 != agent_id)
            ==> asked_kind(open, agent_id, from) is None,
    decreases open.len() - from,
{
    if from < open.len() && open[from].0 != agent_id {
        lemma_first_asked(open, agent_id, from + 1, k);
    }
}

/// The listing has a row for each loaded run, in the order in which they were registered, and
/// then one for each run that was unloaded while paused.
pub proof fn law_listing_has_a_row_for_each_run(h: HostView, runs: Seq<(Seq<char>, Entity)>, i: int)
    requires
        forall|j: int|
            0 <= j < runs.len() ==> (#[trigger] runs[j]).1 < h.world.len()
                && h.world[runs[j].1 as int] is Some,
        0 <= i < runs.len(),
    ensures
        live_rows(h, runs).len() == runs.len(),
        live_rows(h, runs)[i].run_id == runs[i].0,
        live_rows(h, runs)[i].status == h.world[runs[i].1 as int]->0.state.status,
        live_rows(h, runs)[i] == row_of(
            h.world,
            h.interactions,
            runs[i].0,
            h.world[runs[i].1 as int]->0,
        ),
    decreases runs.len(),
{
    reveal_with_fuel(live_rows, 2);
    let front = runs.drop_last();
    assert forall|j: int| 0 <= j < front.len() implies (#[trigger] front[j]).1 < h.world.len()
        && h.world[front[j].1 as int] is Some by {
        assert(front[j] == runs[j]);
    }
    assert(runs[runs.len() - 1] == runs.last());
    if front.len() > 0 {
        law_listing_has_a_row_for_each_run(
            h,
            front,
            if i < front.len() {
                i
            } else {
                0
            },
        );
    }
}

/// A run whose agent is gone has no row among the loaded, and the others keep theirs.
pub proof fn law_gone_run_has_no_row(h: HostView, runs: Seq<(Seq<char>, Entity)>)
    ensures
        live_rows(h, runs) == live_rows(
            h,
            runs.filter(
                |run: (Seq<char>, Entity)| run.1 < h.world.len() && h.world[run.1 as int] is Some,
            ),
        ),
    decreases runs.len(),
{
    reveal(Seq::filter);
    if runs.len() > 0 {
        let f = |run: (Seq<char>, Entity)|
            run.1 < h.world.len() && h.world[run.1 as int] is Some;
        law_gone_run_has_no_row(h, runs.drop_last());
        let kept = runs.drop_last().filter(f);
        if f(runs.last()) {
            assert(kept.push(runs.last()).drop_last() =~= kept);
        }
    }
}

/// Rows that were kept are listed as they were, one for each, in order.
pub proof fn law_kept_rows_are_listed(h: HostView)
    ensures
        parked_rows(h) == h.parked.map(|_i: int, run: (Seq<char>, RunEntryView)| run.1),
        finished_rows(h) == h.finished.map(|_i: int, run: (i64, RunEntryView)| run.1),
{
}

/// A finished run is set down as the newest, in place of what was there of it; the oldest go
/// where there would be more than are kept. Its time of progress is the end where none is
/// known.
pub proof fn law_finished_run_is_set_down(h: HostView, row: RunEntryView, at: i64)
    requires
        h.finished_retention_secs > 0,
    ensures
        ({
            let kept = h.finished.filter(|old: (i64, RunEntryView)| old.1.run_id != row.run_id);
            let after = recorded(h, row, at).finished;
            &&& kept.len() < 256 ==> after.len() == kept.len() + 1 && after.drop_last() == kept
            &&& kept.len() >= 256 ==> after.len() == 256 && after.drop_last() == kept.skip(
                kept.len() - 255,
            )
            &&& after.last().0 == at
            &&& after.last().1.run_id == row.run_id
            &&& after.last().1.status == row.status
            &&& after.last().1 == (RunEntryView {
                last_progress_at: after.last().1.last_progress_at,
                ..row
            })
            &&& row.last_progress_at is Some ==> after.last().1.last_progress_at
                == row.last_progress_at
            &&& row.last_progress_at is None ==> after.last().1.last_progress_at == Some(at)
            &&& recorded(h, row, at).world == h.world
            &&& recorded(h, row, at).by_run_id == h.by_run_id
            &&& recorded(h, row, at).parked == h.parked
        }),
{
    let kept = h.finished.filter(|old: (i64, RunEntryView)| old.1.run_id != row.run_id);
    lemma_without_run_is_filtered(h.finished, row.run_id);
    let all = kept.push((at, last_row(row, at)));
    let after = recorded(h, row, at).finished;
    if kept.len() < 256 {
        assert(all.drop_last() =~= kept);
    } else {
        assert(after =~= all.skip(all.len() - 256));
        assert(after.drop_last() =~= kept.skip(kept.len() - 255));
    }
}

/// What is left of the rows without a run's.
proof fn lemma_without_run_is_filtered(finished: Seq<(i64, RunEntryView)>, run_id: Seq<char>)
    ensures
        without_run(finished, run_id) == finished.filter(
            |old: (i64, RunEntryView)| old.1.run_id != run_id,
        ),
    decreases finished.len(),
{
    reveal(Seq::filter);
    if finished.len() > 0 {
        lemma_without_run_is_filtered(finished.drop_last(), run_id);
    }
}

/// Rows are dropped from the oldest on while they are older than the window: what is left is
/// a tail of what was there that starts with a row within it.
pub proof fn law_old_rows_are_dropped(h: HostView, now: i64)
    requires
        h.finished_retention_secs <= i64::MAX,
        forall|i: int|
            0 <= i < h.finished.len() ==> now - (#[trigger] h.finished[i]).0 <= i64::MAX,
    ensures
        ({
            let after = pruned(h, now).finished;
            let gone = h.finished.len() - after.len();
            &&& 0 <= gone
            &&& after == h.finished.skip(gone)
            &&& forall|i: int|
                0 <= i < gone ==> now - (#[trigger] h.finished[i]).0 > h.finished_retention_secs
            &&& after.len() > 0 ==> now - after[0].0 <= h.finished_retention_secs
            &&& pruned(h, now) == (HostView { finished: after, ..h })
        }),
{
    lemma_pruned_tail(h.finished, now, h.finished_retention_secs as int);
}

/// What pruning leaves of some rows.
proof fn lemma_pruned_tail(finished: Seq<(i64, RunEntryView)>, now: i64, window: int)
    requires
        forall|i: int| 0 <= i < finished.len() ==> now - (#[trigger] finished[i]).0 <= i64::MAX,
    ensures
        ({
            let after = pruned_rows(finished, now, window);
            let gone = finished.len() - after.len();
            &&& 0 <= gone
            &&& after == finished.skip(gone)
            &&& forall|i: int| 0 <= i < gone ==> now - (#[trigger] finished[i]).0 > window
            &&& after.len() > 0 ==> now - after[0].0 <= window
        }),
    decreases finished.len(),
{
    if finished.len() > 0 && now - finished[0].0 > window {
        let rest = finished.skip(1);
        assert forall|i: int| 0 <= i < rest.len() implies now - (#[trigger] rest[i]).0
            <= i64::MAX by {
            assert(rest[i] == finished[i + 1]);
        }
        lemma_pruned_tail(rest, now, window);
        let after = pruned_rows(rest, now, window);
        let gone = rest.len() - after.len();
        assert(rest.skip(gone) =~= finished.skip(gone + 1));
        assert forall|i: int| 0 <= i < gone + 1 implies now - (#[trigger] finished[i]).0
            > window by {
            if i > 0 {
                assert(rest[i - 1] == finished[i]);
            }
        }
    } else {
        assert(finished.skip(0) =~= finished);
    }
}

} // verus!
