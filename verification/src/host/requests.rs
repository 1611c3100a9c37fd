//! What a request to the host does, and when the tool lane is widened.

use crate::components::{AgentMessage, Entity, StatusView};
use crate::host::control::{
    asked_outside, found_at, paged_in, registered, reloaded_by, within_tree,
};
use crate::host::events::{
    adopted, all_parked, all_reaped, announced, changes, lemma_adopted, lemma_questions_kept, looked,
    report_events, reported, still_open, Leaving,
};
use crate::host::ops::{
    cancelled_anywhere, child_placed, child_spawned, finished_row, handled, health_of,
    killed_within, run_cancelled, run_paused, run_spawned, sent_to_run, sent_within, spawned_for,
    status_of, subagent_handled, terminated_by,
};
use crate::host::listing::{age, finished_rows, live_rows, parked_rows, pruned_rows};
use crate::host::relief::{
    health_counted, may_reclaim, progress_observed, reclaimed, relief_wanted, relieved, wedged,
};
use crate::host::reports::{
    law_closed_questions_are_forgotten, law_events_tell_what_the_agent_is,
    law_listing_has_a_row_for_each_run, law_new_questions_are_announced, tells,
};
use crate::host::tree::{child_of, is_descent, lemma_child_within, lemma_root_within, within};
use crate::host::types::{entry_views, RunEntryView};
use crate::host::{
    fresh_host, live, ControlOp, ControlReply, HostView, LaneSnapshot, ProviderCircuitState,
    SpawnArgs, SubAgentOp, SubAgentReply,
};
use crate::interaction::{law_closing_takes_one_question, law_question_is_found_by_its_id, RequestView};
use crate::table::{
    lemma_inserted, lemma_name_at, lemma_name_is, lemma_removed, lookup, names_unique,
};
use crate::text::decimal;
use crate::world::{agent_at, agent_cancelled, agent_paused, agent_resumed, Agent, AgentView, World};
use vstd::prelude::*;

verus! {

/// Whether a status is the end of a run.
pub open spec fn over(status: StatusView) -> bool {
    match status {
        StatusView::Complete => true,
        StatusView::Error { .. } => true,
        StatusView::Cancelled => true,
        _ => false,
    }
}

/// A run is found by its name where the first entry with the name says, while an agent is
/// there.
pub proof fn law_run_is_found_by_its_name(h: HostView, run_id: Seq<char>, i: int)
    ensures
        0 <= i < h.by_run_id.len() && h.by_run_id[i].0 == run_id && (forall|j: int|
            0 <= j < i ==> (#[trigger] h.by_run_id[j]).0 != run_id) ==> {
            let e = h.by_run_id[i].1;
            &&& e < h.world.len() && h.world[e as int] is Some ==> live(h, run_id) == Some(e)
            &&& e >= h.world.len() || h.world[e as int] is None ==> live(h, run_id) is None
        },
        (forall|j: int| 0 <= j < h.by_run_id.len() ==> (#[trigger] h.by_run_id[j]).0 != run_id)
            ==> live(h, run_id) is None,
{
    lemma_name_at(h.by_run_id, run_id);
}

/// A status is the end of a run or it is not, and each has a label of its own.
pub proof fn law_statuses_have_their_labels(a: StatusView)
    ensures
        a.terminal() == over(a),
        a is Idle ==> a.label_of() == "idle"@,
        a is Active ==> a.label_of() == "active"@,
        a is Waiting ==> a.label_of() == "waiting"@,
        a is Paused ==> a.label_of() == "paused"@,
        a is Complete ==> a.label_of() == "complete"@,
        a is Error ==> a.label_of() == "error"@,
        a is Cancelled ==> a.label_of() == "cancelled"@,
{
}

/// Pausing stops a run that is not over, resuming starts one that is paused, and cancelling
/// ends one that is not over and tells its work to stop. None touches anything else of the
/// agent, and none brings back a run that is over.
pub proof fn law_control_changes_the_status_only(agent: AgentView)
    ensures
        over(agent.state.status) ==> agent_paused(agent) == agent && agent_resumed(agent) == agent
            && agent_cancelled(agent) == agent,
        !over(agent.state.status) ==> agent_paused(agent).state.status is Paused,
        agent.state.status is Paused ==> agent_resumed(agent).state.status is Active,
        !(agent.state.status is Paused) ==> agent_resumed(agent) == agent,
        !over(agent.state.status) ==> agent_cancelled(agent).state.status is Cancelled,
        !over(agent.state.status) && agent.cancel_token is Some ==> agent_cancelled(
            agent,
        ).cancel_token == Some(true),
        agent.cancel_token is None ==> agent_cancelled(agent).cancel_token is None,
        ({
            let paused = agent_paused(agent);
            let resumed = agent_resumed(agent);
            let cancelled = agent_cancelled(agent);
            &&& (AgentView {
                state: (crate::components::AgentStateView {
                    status: agent.state.status,
                    ..paused.state
                }),
                ..paused
            }) == agent
            &&& (AgentView {
                state: (crate::components::AgentStateView {
                    status: agent.state.status,
                    ..resumed.state
                }),
                ..resumed
            }) == agent
            &&& (AgentView {
                state: (crate::components::AgentStateView {
                    status: agent.state.status,
                    ..cancelled.state
                }),
                cancel_token: agent.cancel_token,
                ..cancelled
            }) == agent
        }),
{
}

/// A request to pause or resume a live run changes that run alone, and is done unless the run
/// is over.
pub proof fn law_pause_reaches_one_run<R: Fn(&World, &str) -> Option<Agent>>(
    reloader: Option<&R>,
    h: HostView,
    run_id: Seq<char>,
    pause: bool,
    after: HostView,
    done: bool,
    e: Entity,
)
    requires
        run_paused(reloader, h, run_id, pause, after, done),
        live(h, run_id) == Some(e),
    ensures
        done == !over(h.world[e as int]->0.state.status),
        after.world.len() == h.world.len(),
        forall|i: int| 0 <= i < h.world.len() && i != e ==> #[trigger] after.world[i] == h.world[i],
        after.world[e as int] is Some,
        pause && !over(h.world[e as int]->0.state.status) ==> after.world[
            e as int
        ]->0.state.status is Paused,
        !pause && h.world[e as int]->0.state.status is Paused ==> after.world[
            e as int
        ]->0.state.status is Active,
        !pause && !(h.world[e as int]->0.state.status is Paused) ==> after.world[e as int]
            == h.world[e as int],
        over(h.world[e as int]->0.state.status) ==> after.world[e as int] == h.world[e as int],
        after == (HostView { world: after.world, ..h }),
{
}

/// A request about a run that is not live and cannot be loaded changes nothing.
pub proof fn law_unknown_run_is_not_done<R: Fn(&World, &str) -> Option<Agent>>(
    h: HostView,
    run_id: Seq<char>,
    pause: bool,
    after: HostView,
    done: bool,
)
    requires
        live(h, run_id) is None,
        run_paused(None::<&R>, h, run_id, pause, after, done) || run_cancelled(
            None::<&R>,
            h,
            run_id,
            after,
            done,
        ),
    ensures
        !done,
        after == h,
{
}

/// The agents of a tree are its root and whatever is among the children of one of them.
pub proof fn law_tree_is_what_is_linked(
    world: Seq<Option<AgentView>>,
    root: Entity,
    parent: Entity,
    e: Entity,
)
    ensures
        within(world, root, root),
        within(world, root, parent) && parent < world.len() && world[parent as int] is Some
            && world[parent as int]->0.children is Some
            && world[parent as int]->0.children->0.children.contains(e) ==> within(world, root, e),
        within(world, root, e) && e != root ==> exists|p: Entity|
            {
                &&& #[trigger] within(world, root, p)
                &&& p < world.len()
                &&& world[p as int] is Some
                &&& world[p as int]->0.children is Some
                &&& world[p as int]->0.children->0.children.contains(e)
            },
{
    lemma_root_within(world, root);
    if within(world, root, parent) && child_of(world, parent, e) {
        lemma_child_within(world, root, parent, e);
    }
    if within(world, root, e) && e != root {
        let path = choose|path: Seq<Entity>|
            #[trigger] is_descent(world, path) && path[0] == root && path.last() == e;
        let front = path.drop_last();
        assert forall|i: int| 0 <= i < front.len() - 1 implies child_of(
            world,
            #[trigger] front[i],
            front[i + 1],
        ) by {
            assert(front[i] == path[i] && front[i + 1] == path[i + 1]);
            assert(child_of(world, path[i], path[i + 1]));
        }
        assert(is_descent(world, front) && front[0] == root);
        let p = front.last();
        assert(within(world, root, p));
        assert(child_of(world, path[path.len() - 2], path[path.len() - 1]));
    }
}

/// Cancelling a live run ends every agent of its tree and no other, takes the questions of
/// those agents off the list and leaves the others, and changes no name, message or row.
pub proof fn law_cancel_ends_the_tree<R: Fn(&World, &str) -> Option<Agent>>(
    reloader: Option<&R>,
    h: HostView,
    run_id: Seq<char>,
    after: HostView,
    done: bool,
    root: Entity,
    i: int,
)
    requires
        run_cancelled(reloader, h, run_id, after, done),
        live(h, run_id) == Some(root),
    ensures
        done,
        after.world.len() == h.world.len(),
        0 <= i < h.world.len() && i <= usize::MAX && h.world[i] is Some ==> {
            &&& after.world[i] is Some
            &&& within(h.world, root, i as usize) && !over(h.world[i]->0.state.status)
                ==> after.world[i]->0.state.status is Cancelled && (h.world[i]->0.cancel_token
                is Some ==> after.world[i]->0.cancel_token == Some(true))
            &&& within(h.world, root, i as usize) && over(h.world[i]->0.state.status)
                ==> after.world[i] == h.world[i]
            &&& !within(h.world, root, i as usize) ==> after.world[i] == h.world[i]
        },
        0 <= i < h.world.len() && h.world[i] is None ==> after.world[i] is None,
        after.interactions == h.interactions.filter(
            |asked: (Seq<char>, RequestView)|
                !exists|e: Entity|
                    {
                        &&& e < h.world.len()
                        &&& #[trigger] within(h.world, root, e)
                        &&& h.world[e as int] is Some
                        &&& h.world[e as int]->0.state.agent_id == asked.0
                    },
        ),
        after.by_run_id == h.by_run_id,
        after.messages == h.messages,
        after.finished == h.finished,
        after.parked == h.parked,
        after.emitted == h.emitted,
        after.stopping == h.stopping,
{
    lemma_asked_outside_is_filtered(h.interactions, h.world, root);
}

/// The questions from outside a tree.
proof fn lemma_asked_outside_is_filtered(
    open: Seq<(Seq<char>, RequestView)>,
    world: Seq<Option<AgentView>>,
    root: Entity,
)
    ensures
        asked_outside(open, world, root) == open.filter(
            |asked: (Seq<char>, RequestView)|
                !exists|e: Entity|
                    {
                        &&& e < world.len()
                        &&& #[trigger] within(world, root, e)
                        &&& world[e as int] is Some
                        &&& world[e as int]->0.state.agent_id == asked.0
                    },
        ),
    decreases open.len(),
{
    reveal(Seq::filter);
    if open.len() > 0 {
        lemma_asked_outside_is_filtered(open.drop_last(), world, root);
    }
}

/// A message to a live run is queued behind those that wait, and nothing else changes; it is
/// not, where the queue is closed.
pub proof fn law_message_is_queued<R: Fn(&World, &str) -> Option<Agent>>(
    reloader: Option<&R>,
    h: HostView,
    message: AgentMessage,
    after: HostView,
    done: bool,
)
    requires
        sent_to_run(reloader, h, message, after, done),
        live(h, message.agent_id@) is Some,
    ensures
        done == h.messages_open,
        h.messages_open ==> after.messages.len() == h.messages.len() + 1
            && after.messages.drop_last() == h.messages && after.messages.last() == message,
        !h.messages_open ==> after.messages == h.messages,
        after == (HostView { messages: after.messages, ..h }),
{
    if h.messages_open {
        assert(after.messages.drop_last() =~= h.messages);
    }
}

/// Whether a live run is within the tree of another is read off the world, which stays.
pub proof fn law_own_tree_is_read_off<R: Fn(&World, &str) -> Option<Agent>>(
    reloader: Option<&R>,
    h: HostView,
    run_id: Seq<char>,
    ancestor: Seq<char>,
    after: HostView,
    b: bool,
)
    requires
        within_tree(reloader, h, run_id, ancestor, after, b),
        live(h, run_id) is Some,
        live(h, ancestor) is Some,
    ensures
        after == h,
        b == within(h.world, live(h, ancestor)->0, live(h, run_id)->0),
{
    if run_id == ancestor {
        lemma_root_within(h.world, live(h, run_id)->0);
    }
}

/// An agent reaches the runs of its own tree and no others: a message to one of them is
/// queued, and one of them is cancelled with its tree; for any other run nothing is done.
pub proof fn law_agents_reach_their_own_tree<
    S: Fn(&World, &SpawnArgs) -> Result<Agent, String>,
    R: Fn(&World, &str) -> Option<Agent>,
    D: Fn(&World, Entity, Agent) -> Agent,
>(
    spawner: Option<&S>,
    reloader: Option<&R>,
    seeder: Option<&D>,
    h: HostView,
    op: SubAgentOp,
    after: HostView,
    reply: SubAgentReply,
)
    requires
        subagent_handled(spawner, reloader, seeder, h, op, after, reply),
        match op {
            SubAgentOp::Send { run_id, caller_run_id, .. } => live(h, run_id@) is Some && live(
                h,
                caller_run_id@,
            ) is Some,
            SubAgentOp::Kill { run_id, caller_run_id } => live(h, run_id@) is Some && live(
                h,
                caller_run_id@,
            ) is Some,
            _ => false,
        },
    ensures
        match op {
            SubAgentOp::Send { run_id, caller_run_id, content, target_region } => {
                let own = within(h.world, live(h, caller_run_id@)->0, live(h, run_id@)->0);
                &&& reply == SubAgentReply::Done(own && h.messages_open)
                &&& own && h.messages_open ==> after.messages == h.messages.push(
                    AgentMessage { agent_id: run_id, content, target_region },
                )
                &&& !own || !h.messages_open ==> after == h
                &&& after.world == h.world
            },
            SubAgentOp::Kill { run_id, caller_run_id } => {
                let root = live(h, run_id@)->0;
                let own = within(h.world, live(h, caller_run_id@)->0, root);
                &&& reply == SubAgentReply::Done(own)
                &&& !own ==> after == h
                &&& own ==> forall|i: int|
                    0 <= i < h.world.len() && i <= usize::MAX && h.world[i] is Some
                        ==> over((#[trigger] after.world[i])->0.state.status) == (over(
                        h.world[i]->0.state.status,
                    ) || within(h.world, root, i as usize))
            },
            _ => true,
        },
{
    match op {
        SubAgentOp::Send { run_id, caller_run_id, content, target_region } => {
            let message = AgentMessage { agent_id: run_id, content, target_region };
            assert(sent_within(
                reloader,
                h,
                message,
                caller_run_id@,
                after,
                reply->Done_0,
            ));
            let (mid, inside) = choose|mid: HostView, inside: bool|
                {
                    &&& #[trigger] within_tree(
                        reloader,
                        h,
                        message.agent_id@,
                        caller_run_id@,
                        mid,
                        inside,
                    )
                    &&& if inside {
                        sent_to_run(reloader, mid, message, after, reply->Done_0)
                    } else {
                        after == mid && !reply->Done_0
                    }
                };
            law_own_tree_is_read_off(reloader, h, run_id@, caller_run_id@, mid, inside);
            if inside {
                law_message_is_queued(reloader, h, message, after, reply->Done_0);
                if h.messages_open {
                    assert(after.messages =~= h.messages.push(message));
                }
            }
        },
        SubAgentOp::Kill { run_id, caller_run_id } => {
            assert(killed_within(
                reloader,
                h,
                run_id@,
                caller_run_id@,
                after,
                reply->Done_0,
            ));
            let (mid, inside) = choose|mid: HostView, inside: bool|
                {
                    &&& #[trigger] within_tree(reloader, h, run_id@, caller_run_id@, mid, inside)
                    &&& if inside {
                        run_cancelled(reloader, mid, run_id@, after, reply->Done_0)
                    } else {
                        after == mid && !reply->Done_0
                    }
                };
            law_own_tree_is_read_off(reloader, h, run_id@, caller_run_id@, mid, inside);
            if inside {
                let root = live(h, run_id@)->0;
                law_cancel_ends_the_tree(reloader, h, run_id@, after, reply->Done_0, root, 0);
                assert forall|i: int|
                    0 <= i < h.world.len() && i <= usize::MAX && h.world[i] is Some implies over(
                    (#[trigger] after.world[i])->0.state.status,
                ) == (over(h.world[i]->0.state.status) || within(h.world, root, i as usize)) by {
                    law_cancel_ends_the_tree(reloader, h, run_id@, after, reply->Done_0, root, i);
                }
            }
        },
        _ => {},
    }
}

/// The status of a run is that of its agent while it is loaded, then that of the row it left
/// when it was unloaded: as paused first, as finished otherwise.
pub proof fn law_status_is_the_runs(h: HostView, run_id: Seq<char>, i: int)
    ensures
        live(h, run_id) is Some ==> status_of(h, run_id) == Some(
            h.world[live(h, run_id)->0 as int]->0.state.status,
        ),
        live(h, run_id) is None && 0 <= i < h.parked.len() && h.parked[i].0 == run_id && (forall|
            j: int,
        |
            0 <= j < i ==> (#[trigger] h.parked[j]).0 != run_id) ==> status_of(h, run_id) == Some(
            h.parked[i].1.status,
        ),
        live(h, run_id) is None && (forall|j: int|
            0 <= j < h.parked.len() ==> (#[trigger] h.parked[j]).0 != run_id) && 0 <= i
            < h.finished.len() && h.finished[i].1.run_id == run_id && (forall|j: int|
            0 <= j < i ==> (#[trigger] h.finished[j]).1.run_id != run_id) ==> status_of(h, run_id)
            == Some(h.finished[i].1.status),
        live(h, run_id) is None && (forall|j: int|
            0 <= j < h.parked.len() ==> (#[trigger] h.parked[j]).0 != run_id) && (forall|j: int|
            0 <= j < h.finished.len() ==> (#[trigger] h.finished[j]).1.run_id != run_id)
            ==> status_of(h, run_id) is None,
{
    lemma_name_at(h.parked, run_id);
    lemma_finished_row(h.finished, run_id, 0, i);
}

/// The first row of a finished run is found.
proof fn lemma_finished_row(
    finished: Seq<(i64, RunEntryView)>,
    run_id: Seq<char>,
    from: int,
    i: int,
)
    requires
        0 <= from,
    ensures
        from <= i < finished.len() && finished[i].1.run_id == run_id && (forall|j: int|
            from <= j < i ==> (#[trigger] finished[j]).1.run_id != run_id) ==> finished_row(
            finished,
            run_id,
            from,
        ) == Some(finished[i].1),
        (forall|j: int|
            from <= j < finished.len() ==> (#[trigger] finished[j]).1.run_id != run_id)
            ==> finished_row(finished, run_id, from) is None,
    decreases finished.len() - from,
{
    if from < finished.len() && finished[from].1.run_id != run_id {
        lemma_finished_row(finished, run_id, from + 1, i);
    }
}

/// A request that asks changes nothing, and is answered with what is there; one to stop is
/// noted.
pub proof fn law_questions_change_nothing<
    S: Fn(&World, &SpawnArgs) -> Result<Agent, String>,
    R: Fn(&World, &str) -> Option<Agent>,
    T: Fn(&str) -> bool,
>(
    spawner: Option<&S>,
    reloader: Option<&R>,
    terminator: Option<&T>,
    h: HostView,
    op: ControlOp,
    after: HostView,
    reply: ControlReply,
)
    requires
        handled(spawner, reloader, terminator, h, op, after, reply),
    ensures
        op is Status || op is Result || op is List || op is ListInteractions ==> after == h,
        op matches ControlOp::Status { run_id } ==> (reply matches ControlReply::Status(status) && {
            &&& live(h, run_id@) is Some ==> status is Some && status->0@
                == h.world[live(h, run_id@)->0 as int]->0.state.status
            &&& status is None ==> status_of(h, run_id@) is None
        }),
        op matches ControlOp::Result { run_id } ==> (reply matches ControlReply::Result(output) && {
            &&& live(h, run_id@) is Some ==> output
                == h.world[live(h, run_id@)->0 as int]->0.final_output
            &&& live(h, run_id@) is None ==> output is None
        }),
        op is ListInteractions ==> (reply matches ControlReply::Interactions(asked) && {
            &&& asked@.len() == h.interactions.len()
            &&& forall|i: int|
                0 <= i < h.interactions.len() ==> (#[trigger] asked@[i]).0@ == h.interactions[i].0
                    && asked@[i].1@ == h.interactions[i].1
        }),
        op is Shutdown ==> reply == ControlReply::Done(true) && after.stopping && after == (HostView {
            stopping: true,
            ..h
        }),
{
    if op is ListInteractions {
        let asked = reply->Interactions_0@;
        assert(crate::interaction::open_views(asked) == h.interactions);
        assert forall|i: int| 0 <= i < h.interactions.len() implies (#[trigger] asked[i]).0@
            == h.interactions[i].0 && asked[i].1@ == h.interactions[i].1 by {
            assert(crate::interaction::open_views(asked)[i] == h.interactions[i]);
        }
    }
}

/// An answer, or word that there will be none, closes the first question with the id and no
/// other; it is done exactly where one was open.
pub proof fn law_answer_closes_its_question<
    S: Fn(&World, &SpawnArgs) -> Result<Agent, String>,
    R: Fn(&World, &str) -> Option<Agent>,
    T: Fn(&str) -> bool,
>(
    spawner: Option<&S>,
    reloader: Option<&R>,
    terminator: Option<&T>,
    h: HostView,
    op: ControlOp,
    after: HostView,
    reply: ControlReply,
    id: Seq<char>,
    i: int,
)
    requires
        handled(spawner, reloader, terminator, h, op, after, reply),
        match op {
            ControlOp::AnswerInteraction { response } => response.request_id@ == id,
            ControlOp::CancelInteraction { request_id } => request_id@ == id,
            _ => false,
        },
    ensures
        0 <= i < h.interactions.len() && h.interactions[i].1.id == id && (forall|j: int|
            0 <= j < i ==> (#[trigger] h.interactions[j]).1.id != id) ==> {
            &&& reply == ControlReply::Done(true)
            &&& after.interactions == h.interactions.take(i) + h.interactions.skip(i + 1)
        },
        (forall|j: int|
            0 <= j < h.interactions.len() ==> (#[trigger] h.interactions[j]).1.id != id) ==> {
            &&& reply == ControlReply::Done(false)
            &&& after == h
        },
        after == (HostView { interactions: after.interactions, ..h }),
{
    law_closing_takes_one_question(h.interactions, id, i);
    law_question_is_found_by_its_id(h.interactions, id, 0);
}

/// A run that was asked for and built stands behind the agents that were there, live under
/// its id, which is the answer; where it cannot be built the answer says why and nothing
/// changes.
pub proof fn law_built_run_is_live<S: Fn(&World, &SpawnArgs) -> Result<Agent, String>>(
    spawner: Option<&S>,
    h: HostView,
    args: SpawnArgs,
    after: HostView,
    reply: Result<String, String>,
    other: Seq<char>,
)
    requires
        run_spawned(spawner, h, args, after, reply),
        h.world.len() < usize::MAX,
    ensures
        reply is Ok ==> {
            &&& reply->Ok_0@ == args.run_id@
            &&& after.world.len() == h.world.len() + 1
            &&& after.world.drop_last() == h.world
            &&& live(after, args.run_id@) == Some(h.world.len() as usize)
            &&& other != args.run_id@ ==> lookup(after.by_run_id, other) == lookup(
                h.by_run_id,
                other,
            )
            &&& exists|got: Result<Agent, String>|
                {
                    &&& #[trigger] spawned_for(*spawner->0, h.world, args, got)
                    &&& got is Ok
                    &&& after.world.last() == Some(got->Ok_0@)
                }
        },
        reply is Err ==> after == h,
        spawner is None ==> reply is Err && reply->Err_0@ == "this daemon cannot spawn agents"@,
{
    if reply is Ok {
        lemma_inserted(h.by_run_id, args.run_id@, h.world.len() as usize, other);
        lemma_inserted(h.by_run_id, args.run_id@, h.world.len() as usize, args.run_id@);
        assert(after.world.drop_last() =~= h.world);
    }
}

/// A child is not built for a parent that is not live or stands as deep as children may; the
/// answer says so and nothing changes.
pub proof fn law_child_needs_a_parent_with_depth_left<
    S: Fn(&World, &SpawnArgs) -> Result<Agent, String>,
    D: Fn(&World, Entity, Agent) -> Agent,
>(
    spawner: Option<&S>,
    seeder: Option<&D>,
    h: HostView,
    args: SpawnArgs,
    parent_run_id: Seq<char>,
    max_depth: usize,
    after: HostView,
    reply: Result<String, String>,
)
    requires
        child_spawned(spawner, seeder, h, args, parent_run_id, max_depth, after, reply),
    ensures
        live(h, parent_run_id) is None ==> after == h && reply is Err && reply->Err_0@
            == "parent run '"@ + parent_run_id + "' is not live"@,
        live(h, parent_run_id) is Some ==> {
            let of = h.world[live(h, parent_run_id)->0 as int]->0;
            let depth = if of.parent is Some {
                of.parent->0.depth
            } else {
                0
            };
            &&& depth >= max_depth ==> after == h && reply is Err && reply->Err_0@
                == "sub-agent depth limit ("@ + decimal(max_depth as nat)
                + ") reached; not spawning deeper"@
            &&& depth < max_depth && spawner is None ==> after == h && reply is Err
                && reply->Err_0@ == "this daemon cannot spawn agents"@
            &&& reply is Ok ==> depth < max_depth && reply->Ok_0@ == args.run_id@
        },
        reply is Err ==> after == h,
{
}

/// A child that was built is linked to its parent and its parent to it: it says where the
/// parent stands, under which id, and that it is one deeper; the parent has it as its last
/// child, by place and by id. Nothing else of either changes.
pub proof fn law_child_and_parent_know_each_other(
    h: HostView,
    parent: Entity,
    parent_run_id: Seq<char>,
    run_id: Seq<char>,
    max_depth: nat,
    agent: AgentView,
)
    requires
        agent_at(h.world, parent) is Some,
        h.world.len() < usize::MAX,
    ensures
        ({
            let of = h.world[parent as int]->0;
            let after = child_placed(h, parent, parent_run_id, run_id, max_depth, agent);
            let child = after.world[h.world.len() as int]->0;
            let now = after.world[parent as int]->0;
            &&& after.world.len() == h.world.len() + 1
            &&& child.parent is Some
            &&& child.parent->0.parent_entity == parent
            &&& child.parent->0.parent_agent_id == parent_run_id
            &&& of.parent is Some ==> child.parent->0.depth == of.parent->0.depth + 1
            &&& of.parent is None ==> child.parent->0.depth == 1
            &&& child == (AgentView { parent: child.parent, ..agent })
            &&& now.children is Some
            &&& now.children->0.children.last() == h.world.len()
            &&& of.children is Some ==> now.children->0.children.drop_last()
                == of.children->0.children && now.children->0.max_child_depth
                == of.children->0.max_child_depth
            &&& of.children is None ==> now.children->0.children.len() == 1
                && now.children->0.max_child_depth == max_depth
            &&& now.state.spawned_children_ids.drop_last() == of.state.spawned_children_ids
            &&& now.state.spawned_children_ids.len() == of.state.spawned_children_ids.len() + 1
            &&& now.state.spawned_children_ids.last() == run_id
            &&& now.state.status == of.state.status
            &&& now.window == of.window
            &&& now.parent == of.parent
            &&& live(after, run_id) == Some(h.world.len() as usize)
        }),
{
    let of = h.world[parent as int]->0;
    let after = child_placed(h, parent, parent_run_id, run_id, max_depth, agent);
    let now = after.world[parent as int]->0;
    lemma_inserted(h.by_run_id, run_id, h.world.len() as usize, run_id);
    assert(now.state.spawned_children_ids.drop_last() =~= of.state.spawned_children_ids);
    if of.children is Some {
        assert(now.children->0.children.drop_last() =~= of.children->0.children);
    }
}

/// Registering a run gives its name a place and takes its row off those of the unloaded; all
/// else stays.
pub proof fn law_registering_gives_a_name_a_place(
    h: HostView,
    run_id: Seq<char>,
    e: Entity,
    other: Seq<char>,
)
    requires
        names_unique(h.parked),
    ensures
        ({
            let after = registered(h, run_id, e);
            &&& lookup(after.by_run_id, run_id) == Some(e)
            &&& lookup(after.parked, run_id) is None
            &&& other != run_id ==> lookup(after.by_run_id, other) == lookup(h.by_run_id, other)
            &&& other != run_id ==> lookup(after.parked, other) == lookup(h.parked, other)
            &&& after == (HostView { by_run_id: after.by_run_id, parked: after.parked, ..h })
        }),
{
    lemma_inserted(h.by_run_id, run_id, e, run_id);
    lemma_inserted(h.by_run_id, run_id, e, other);
    lemma_removed(h.parked, run_id, run_id);
    lemma_removed(h.parked, run_id, other);
}

/// A cycle is dead where a lane was under pressure and what is reported of the runs is what
/// was there the last time: dead cycles are counted while they follow one another, and the
/// count starts anew with one that is not.
pub proof fn law_dead_cycles_are_counted(h: HostView, s: LaneSnapshot, i: int)
    requires
        names_unique(h.emitted),
    ensures
        ({
            let after = progress_observed(h, s);
            &&& s.under_pressure && h.last_progress == Some(h.emitted) && h.dead_cycles < u32::MAX
                ==> after.dead_cycles == h.dead_cycles + 1
            &&& !s.under_pressure ==> after.dead_cycles == 0
            &&& h.last_progress is None ==> after.dead_cycles == 0
            &&& h.last_progress is Some && h.last_progress->0.len() != h.emitted.len()
                ==> after.dead_cycles == 0
            &&& h.last_progress is Some && 0 <= i < h.emitted.len() && lookup(
                h.last_progress->0,
                h.emitted[i].0,
            ) != Some(h.emitted[i].1) ==> after.dead_cycles == 0
            &&& after.last_progress == Some(h.emitted)
            &&& after == (HostView {
                dead_cycles: after.dead_cycles,
                last_progress: after.last_progress,
                ..h
            })
        }),
{
    if h.last_progress == Some(h.emitted) {
        assert forall|k: int| 0 <= k < h.emitted.len() implies lookup(
            h.emitted,
            (#[trigger] h.emitted[k]).0,
        ) == Some(h.emitted[k].1) by {
            lemma_name_at(h.emitted, h.emitted[k].0);
            lemma_name_is(h.emitted, h.emitted[k].0, k);
        }
    }
}

/// The tool lane is widened where it is full and nothing has moved for as many cycles as are
/// allowed, by what is queued, and never to more than twice its own width.
pub proof fn law_lane_is_widened_when_stuck(h: HostView, s: LaneSnapshot, granted: usize)
    requires
        h.relief_granted * 2 <= s.tools_workers,
        granted <= relief_wanted(h, s),
    ensures
        wedged(h, s) <==> {
            &&& s.tools_saturated
            &&& h.dead_cycles_before_relief > 0
            &&& h.dead_cycles >= h.dead_cycles_before_relief
        },
        ({
            let own = s.tools_workers - h.relief_granted;
            let wanted = relief_wanted(h, s);
            &&& wanted <= s.tools_queued
            &&& h.relief_granted + wanted <= own
            &&& wanted == s.tools_queued || h.relief_granted + wanted == own
            &&& relieved(h, granted).relief_granted == h.relief_granted + granted
            &&& relieved(h, granted).dead_cycles == 0
            &&& relieved(h, granted) == (HostView {
                relief_granted: (h.relief_granted + granted) as usize,
                dead_cycles: 0,
                ..h
            })
        }),
{
}

/// What was granted is taken back after four cycles in a row in which nothing was dead and
/// nothing queued; the count of them starts anew with a cycle that was not.
pub proof fn law_lane_is_narrowed_when_well(h: HostView, s: LaneSnapshot)
    ensures
        ({
            let after = health_counted(h, s);
            &&& h.relief_granted > 0 && h.dead_cycles == 0 && s.tools_queued == 0
                && h.healthy_cycles < u32::MAX ==> after.healthy_cycles == h.healthy_cycles + 1
            &&& h.relief_granted == 0 || h.dead_cycles > 0 || s.tools_queued > 0
                ==> after.healthy_cycles == 0
            &&& after == (HostView { healthy_cycles: after.healthy_cycles, ..h })
            &&& may_reclaim(after) <==> h.relief_granted > 0 && after.healthy_cycles >= 4
            &&& h.relief_granted > 0 ==> reclaimed(h, 1).relief_granted == h.relief_granted - 1
            &&& reclaimed(h, 0) == h
        }),
{
}

/// What is said of the daemon's health is what the lanes hold and what the host counts.
pub proof fn law_health_says_what_is_counted(
    h: HostView,
    lanes: LaneSnapshot,
    providers_down: Vec<ProviderCircuitState>,
)
    ensures
        ({
            let health = health_of(h, lanes, providers_down);
            &&& health.agents == lanes.agents
            &&& health.inference == lanes.inference
            &&& health.tools_busy == lanes.tools_busy
            &&& health.tools_queued == lanes.tools_queued
            &&& health.tools_parked == lanes.tools_parked
            &&& health.tools_workers == lanes.tools_workers
            &&& health.dead_cycles == h.dead_cycles
            &&& health.relief_granted == h.relief_granted
            &&& health.redrive_secs == h.redrive.secs
            &&& health.providers_down == providers_down
        }),
{
}

/// A new host has no runs, messages or rows, re-drives itself twice a minute, grants relief
/// after ten dead cycles and keeps rows for five minutes.
pub proof fn law_new_host_is_empty(
    world: Seq<Option<AgentView>>,
    interactions: Seq<(Seq<char>, RequestView)>,
)
    ensures
        ({
            let h = fresh_host(world, interactions);
            &&& h.world == world
            &&& h.interactions == interactions
            &&& h.by_run_id.len() == 0
            &&& h.emitted.len() == 0
            &&& h.emitted_interactions.len() == 0
            &&& h.messages.len() == 0
            &&& h.messages_open
            &&& h.finished.len() == 0
            &&& h.parked.len() == 0
            &&& h.redrive.secs == 30
            &&& h.redrive.nanos == 0
            &&& h.dead_cycles_before_relief == 10
            &&& h.finished_retention_secs == 300
            &&& h.dead_cycles == 0
            &&& h.relief_granted == 0
            &&& h.healthy_cycles == 0
            &&& h.last_progress is None
            &&& !h.can_reload
            &&& !h.stopping
        }),
{
}

/// A look at runs tells of no question.
proof fn lemma_looks_ask_nothing(h: HostView, runs: Seq<(Seq<char>, Entity)>)
    ensures
        forall|i: int|
            0 <= i < looked(h, runs).events.len() ==> !((#[trigger] looked(h, runs).events[i])
                is Interaction),
    decreases runs.len(),
{
    if runs.len() > 0 {
        let front = runs.drop_last();
        lemma_looks_ask_nothing(h, front);
        let p = looked(h, front);
        match agent_at(h.world, runs.last().1) {
            Some(agent) => {
                let prev = lookup(p.emitted, runs.last().0);
                let news = changes(runs.last().0, agent, prev);
                law_events_tell_what_the_agent_is(runs.last().0, agent, prev);
                let all = looked(h, runs).events;
                assert forall|i: int| 0 <= i < all.len() implies !((#[trigger] all[i])
                    is Interaction) by {
                    if i < p.events.len() {
                        assert(all[i] == p.events[i]);
                    } else {
                        assert(all[i] == news[i - p.events.len()]);
                        assert(tells(news[i - p.events.len()], runs.last().0, agent));
                    }
                }
            },
            None => {},
        }
    }
}

/// A pass announces no question a second time.
pub proof fn law_pass_announces_no_question_again(h: HostView, i: int)
    requires
        0 <= i < report_events(h).len(),
        report_events(h)[i] is Interaction,
    ensures
        !h.emitted_interactions.contains(report_events(h)[i]->Interaction_request.id),
        h.interactions.contains(
            (report_events(h)[i]->Interaction_agent_id, report_events(h)[i]->Interaction_request),
        ),
{
    let known = adopted(h, h.world.len());
    let p = looked(known, known.by_run_id);
    let ids = if p.to_reap.len() > 0 {
        still_open(h.emitted_interactions, h.interactions)
    } else {
        h.emitted_interactions
    };
    lemma_looks_ask_nothing(known, known.by_run_id);
    law_new_questions_are_announced(ids, h.interactions);
    let events = announced(ids, h.interactions).1;
    assert(i >= p.events.len());
    let event = events[i - p.events.len()];
    assert(report_events(h)[i] == event);
    let id = event->Interaction_request.id;
    if h.emitted_interactions.contains(id) {
        law_closed_questions_are_forgotten(h.emitted_interactions, h.interactions);
        let asked = (event->Interaction_agent_id, event->Interaction_request);
        let k = choose|k: int| 0 <= k < h.interactions.len() && h.interactions[k] == asked;
        let f = |id: Seq<char>|
            exists|i: int|
                0 <= i < h.interactions.len() && (#[trigger] h.interactions[i]).1.id == id;
        assert(h.interactions[k].1.id == id);
        assert(f(id));
        let at = choose|at: int|
            0 <= at < h.emitted_interactions.len() && h.emitted_interactions[at] == id;
        h.emitted_interactions.lemma_filter_contains(f, at);
        assert(ids.contains(id));
    }
}

/// A pass announces every open question that was not announced before, and keeps in mind
/// that it did.
pub proof fn law_pass_announces_new_questions(h: HostView, now: i64, k: int)
    requires
        0 <= k < h.interactions.len(),
    ensures
        !h.emitted_interactions.contains(h.interactions[k].1.id) ==> exists|i: int|
            {
                &&& 0 <= i < report_events(h).len()
                &&& (#[trigger] report_events(h)[i]) is Interaction
                &&& report_events(h)[i]->Interaction_request.id == h.interactions[k].1.id
            },
        reported(h, now).emitted_interactions.contains(h.interactions[k].1.id),
{
    let known = adopted(h, h.world.len());
    let p = looked(known, known.by_run_id);
    let ids = if p.to_reap.len() > 0 {
        still_open(h.emitted_interactions, h.interactions)
    } else {
        h.emitted_interactions
    };
    let id = h.interactions[k].1.id;
    law_new_questions_are_announced(ids, h.interactions);
    let (all, events) = announced(ids, h.interactions);
    assert(all.contains(id));
    let at = choose|at: int| 0 <= at < all.len() && all[at] == id;
    if !h.emitted_interactions.contains(id) {
        law_closed_questions_are_forgotten(h.emitted_interactions, h.interactions);
        if at < ids.len() {
            assert(all.take(ids.len() as int)[at] == ids[at]);
            assert(ids.contains(id));
            let f = |id: Seq<char>|
                exists|i: int|
                    0 <= i < h.interactions.len() && (#[trigger] h.interactions[i]).1.id == id;
            h.emitted_interactions.lemma_filter_contains_rev(f, id);
            assert(false);
        }
        let i = at - ids.len();
        assert(events[i]->Interaction_request.id == all[ids.len() + i]);
        assert(report_events(h)[p.events.len() + i] == events[i]);
    }
    lemma_adopted(h, h.world.len());
    let seen = HostView { emitted: p.emitted, ..known };
    lemma_questions_kept(seen, p.to_reap, p.to_park, now);
    lemma_questions_kept(all_reaped(seen, p.to_reap, now), p.to_reap, p.to_park, now);
}

/// What each request about a live run does to it: one to pause pauses it and one to resume
/// starts it again, one to cancel ends its tree, and a message to it is queued.
pub proof fn law_requests_do_what_they_ask<
    S: Fn(&World, &SpawnArgs) -> Result<Agent, String>,
    R: Fn(&World, &str) -> Option<Agent>,
    T: Fn(&str) -> bool,
>(
    spawner: Option<&S>,
    reloader: Option<&R>,
    terminator: Option<&T>,
    h: HostView,
    op: ControlOp,
    after: HostView,
    reply: ControlReply,
    run_id: Seq<char>,
    e: Entity,
)
    requires
        handled(spawner, reloader, terminator, h, op, after, reply),
        live(h, run_id) == Some(e),
    ensures
        ({
            let was = h.world[e as int]->0;
            let now = after.world[e as int]->0;
            &&& op matches ControlOp::Pause { run_id: asked } ==> asked@ == run_id ==> {
                &&& reply == ControlReply::Done(!over(was.state.status))
                &&& !over(was.state.status) ==> now.state.status is Paused
                &&& over(was.state.status) ==> after == h
                &&& after.messages == h.messages
                &&& after.interactions == h.interactions
            }
            &&& op matches ControlOp::Resume { run_id: asked } ==> asked@ == run_id ==> {
                &&& reply == ControlReply::Done(!over(was.state.status))
                &&& was.state.status is Paused ==> now.state.status is Active
                &&& !(was.state.status is Paused) ==> after.world == h.world
                &&& after.messages == h.messages
                &&& after.interactions == h.interactions
            }
            &&& op matches ControlOp::Cancel { run_id: asked } ==> asked@ == run_id ==> {
                &&& reply == ControlReply::Done(true)
                &&& !over(was.state.status) ==> now.state.status is Cancelled
                &&& over(was.state.status) ==> now == was
                &&& after.messages == h.messages
            }
            &&& op matches ControlOp::Message { agent_id, content, target_region } ==> agent_id@
                == run_id ==> {
                &&& reply == ControlReply::Done(h.messages_open)
                &&& h.messages_open ==> after.messages == h.messages.push(
                    AgentMessage { agent_id, content, target_region },
                )
                &&& !h.messages_open ==> after == h
                &&& after.world == h.world
            }
        }),
{
    match op {
        ControlOp::Pause { run_id: asked } => {
            if asked@ == run_id {
                law_pause_reaches_one_run(reloader, h, run_id, true, after, reply->Done_0, e);
                if over(h.world[e as int]->0.state.status) {
                    assert(after.world =~= h.world);
                }
            }
        },
        ControlOp::Resume { run_id: asked } => {
            if asked@ == run_id {
                law_pause_reaches_one_run(reloader, h, run_id, false, after, reply->Done_0, e);
                if !(h.world[e as int]->0.state.status is Paused) {
                    assert(after.world =~= h.world);
                }
            }
        },
        ControlOp::Cancel { run_id: asked } => {
            if asked@ == run_id {
                let found = choose|found: bool|
                    {
                        &&& #[trigger] run_cancelled(reloader, h, run_id, after, found)
                        &&& if found {
                            reply->Done_0
                        } else {
                            terminated_by(terminator, run_id, reply->Done_0)
                        }
                    };
                law_cancel_ends_the_tree(reloader, h, run_id, after, found, e, e as int);
                lemma_root_within(h.world, e);
            }
        },
        ControlOp::Message { agent_id, content, target_region } => {
            if agent_id@ == run_id {
                let message = AgentMessage { agent_id, content, target_region };
                law_message_is_queued(reloader, h, message, after, reply->Done_0);
                if h.messages_open {
                    assert(after.messages =~= h.messages.push(message));
                }
            }
        },
        _ => {},
    }
}

/// A run that is not live and cannot be loaded is cancelled where it is stored, if anywhere:
/// what the terminator says is the answer, and the host stays as it is.
pub proof fn law_stored_run_is_cancelled_there<
    R: Fn(&World, &str) -> Option<Agent>,
    T: Fn(&str) -> bool,
>(
    terminator: Option<&T>,
    h: HostView,
    run_id: Seq<char>,
    after: HostView,
    done: bool,
)
    requires
        cancelled_anywhere(None::<&R>, terminator, h, run_id, after, done),
        live(h, run_id) is None,
    ensures
        after == h,
        terminator is None ==> !done,
        terminator is Some ==> exists|text: &str|
            text@ == run_id && #[trigger] call_ensures(*terminator->0, (text,), done),
{
}

/// The listing shows every loaded run first, in the order in which they were registered, each
/// under its id and with its status; then every run that was unloaded while paused, with the
/// row it had; and the finished runs apart, as they were set down.
pub proof fn law_list_shows_every_run<
    S: Fn(&World, &SpawnArgs) -> Result<Agent, String>,
    R: Fn(&World, &str) -> Option<Agent>,
    T: Fn(&str) -> bool,
>(
    spawner: Option<&S>,
    reloader: Option<&R>,
    terminator: Option<&T>,
    h: HostView,
    op: ControlOp,
    after: HostView,
    reply: ControlReply,
    i: int,
)
    requires
        handled(spawner, reloader, terminator, h, op, after, reply),
        op is List,
        forall|j: int|
            0 <= j < h.by_run_id.len() ==> (#[trigger] h.by_run_id[j]).1 < h.world.len()
                && h.world[h.by_run_id[j].1 as int] is Some,
    ensures
        reply is Listing,
        ({
            let runs = reply->Listing_0.runs@;
            let finished = reply->Listing_0.finished@;
            &&& runs.len() == h.by_run_id.len() + h.parked.len()
            &&& finished.len() == h.finished.len()
            &&& 0 <= i < h.by_run_id.len() ==> runs[i]@.run_id == h.by_run_id[i].0
                && runs[i]@.status == h.world[h.by_run_id[i].1 as int]->0.state.status
            &&& 0 <= i < h.parked.len() ==> runs[h.by_run_id.len() + i]@ == h.parked[i].1
            &&& 0 <= i < h.finished.len() ==> finished[i]@ == h.finished[i].1
            &&& reply->Listing_0.health.dead_cycles == h.dead_cycles
            &&& reply->Listing_0.health.relief_granted == h.relief_granted
        }),
{
    let runs = reply->Listing_0.runs@;
    let finished = reply->Listing_0.finished@;
    let rows = live_rows(h, h.by_run_id) + parked_rows(h);
    assert(entry_views(runs) == rows);
    assert(entry_views(finished) == finished_rows(h));
    assert(entry_views(runs).len() == runs.len());
    assert(entry_views(finished).len() == finished.len());
    if h.by_run_id.len() > 0 {
        law_listing_has_a_row_for_each_run(
            h,
            h.by_run_id,
            if 0 <= i < h.by_run_id.len() {
                i
            } else {
                0
            },
        );
    }
    assert(live_rows(h, h.by_run_id).len() == h.by_run_id.len());
    if 0 <= i < h.by_run_id.len() {
        assert(entry_views(runs)[i] == rows[i]);
    }
    if 0 <= i < h.parked.len() {
        assert(entry_views(runs)[h.by_run_id.len() + i] == rows[h.by_run_id.len() + i]);
    }
    if 0 <= i < h.finished.len() {
        assert(entry_views(finished)[i] == finished_rows(h)[i]);
    }
}

/// After a pass no row is left at the front that is older than the window.
pub proof fn law_pass_drops_old_rows(h: HostView, now: i64)
    requires
        h.finished_retention_secs <= i64::MAX,
    ensures
        ({
            let after = reported(h, now).finished;
            after.len() > 0 && now - after[0].0 <= i64::MAX ==> now - after[0].0
                <= h.finished_retention_secs
        }),
{
    let known = adopted(h, h.world.len());
    let p = looked(known, known.by_run_id);
    let seen = HostView { emitted: p.emitted, ..known };
    lemma_adopted(h, h.world.len());
    let out = all_reaped(seen, p.to_reap, now);
    lemma_window_stays(seen, p.to_reap, p.to_park, now);
    lemma_window_stays(out, p.to_reap, p.to_park, now);
    let left = all_parked(out, p.to_park);
    lemma_front_within(left.finished, now, h.finished_retention_secs as int);
}

/// Unloading runs leaves the retention window as it is.
proof fn lemma_window_stays(h: HostView, reap: Seq<Leaving>, park: Seq<Leaving>, now: i64)
    ensures
        all_reaped(h, reap, now).finished_retention_secs == h.finished_retention_secs,
        all_parked(h, park).finished_retention_secs == h.finished_retention_secs,
    decreases reap.len() + park.len(),
{
    if reap.len() > 0 {
        lemma_window_stays(h, reap.drop_last(), park, now);
    }
    if park.len() > 0 {
        lemma_window_stays(h, reap, park.drop_last(), now);
    }
}

/// What pruning leaves begins with a row within the window.
proof fn lemma_front_within(finished: Seq<(i64, RunEntryView)>, now: i64, window: int)
    ensures
        ({
            let after = pruned_rows(finished, now, window);
            after.len() > 0 && now - after[0].0 <= i64::MAX ==> now - after[0].0 <= window
        }),
    decreases finished.len(),
{
    if finished.len() > 0 && age(now, finished[0].0) > window {
        lemma_front_within(finished.skip(1), now, window);
    }
}

/// A pass in which a run leaves forgets the questions that are no longer open.
pub proof fn law_pass_forgets_closed_questions(h: HostView, now: i64, id: Seq<char>)
    requires
        looked(adopted(h, h.world.len()), adopted(h, h.world.len()).by_run_id).to_reap.len() > 0,
        reported(h, now).emitted_interactions.contains(id),
    ensures
        exists|k: int| 0 <= k < h.interactions.len() && (#[trigger] h.interactions[k]).1.id == id,
{
    let known = adopted(h, h.world.len());
    let p = looked(known, known.by_run_id);
    let seen = HostView { emitted: p.emitted, ..known };
    lemma_adopted(h, h.world.len());
    lemma_questions_kept(seen, p.to_reap, p.to_park, now);
    lemma_questions_kept(all_reaped(seen, p.to_reap, now), p.to_reap, p.to_park, now);
    let ids = still_open(h.emitted_interactions, h.interactions);
    law_new_questions_are_announced(ids, h.interactions);
    law_closed_questions_are_forgotten(h.emitted_interactions, h.interactions);
    let (all, events) = announced(ids, h.interactions);
    assert(reported(h, now).emitted_interactions == all);
    let at = choose|at: int| 0 <= at < all.len() && all[at] == id;
    if at < ids.len() {
        let f = |id: Seq<char>|
            exists|i: int|
                0 <= i < h.interactions.len() && (#[trigger] h.interactions[i]).1.id == id;
        assert(all.take(ids.len() as int)[at] == ids[at]);
        h.emitted_interactions.lemma_filter_pred(f, at);
        assert(f(id));
    } else {
        let event = events[at - ids.len()];
        assert(all[ids.len() + (at - ids.len())] == event->Interaction_request.id);
        let asked = (event->Interaction_agent_id, event->Interaction_request);
        let k = choose|k: int| 0 <= k < h.interactions.len() && h.interactions[k] == asked;
        assert(h.interactions[k].1.id == id);
    }
}

/// A run that is loaded again stands behind the agents that were there, and is found there
/// under its id; one that is live already is found where it is, and nothing changes.
pub proof fn law_loaded_run_is_found(
    h: HostView,
    run_id: Seq<char>,
    got: Option<AgentView>,
    other: Seq<char>,
)
    requires
        h.world.len() < usize::MAX,
    ensures
        ({
            let after = paged_in(h, run_id, got);
            let place = h.world.len() as usize;
            &&& got is Some ==> {
                &&& found_at(h, run_id, got) == Some(place)
                &&& after.world.len() == h.world.len() + 1
                &&& after.world.drop_last() == h.world
                &&& after.world.last() == got
                &&& live(after, run_id) == Some(place)
                &&& other != run_id ==> lookup(after.by_run_id, other) == lookup(
                    h.by_run_id,
                    other,
                )
            }
            &&& got is None ==> found_at(h, run_id, got) == live(h, run_id) && after == h
        }),
{
    let after = paged_in(h, run_id, got);
    if got is Some {
        lemma_inserted(h.by_run_id, run_id, h.world.len() as usize, run_id);
        lemma_inserted(h.by_run_id, run_id, h.world.len() as usize, other);
        assert(after.world.drop_last() =~= h.world);
    }
}

/// A live run is never loaded again, and nothing is loaded without a reloader.
pub proof fn law_live_run_is_not_loaded<R: Fn(&World, &str) -> Option<Agent>>(
    reloader: Option<&R>,
    h: HostView,
    run_id: Seq<char>,
    got: Option<Agent>,
)
    requires
        reloaded_by(reloader, h, run_id, got),
    ensures
        live(h, run_id) is Some ==> got is None,
        reloader is None ==> got is None,
        got is Some ==> exists|snapshot: World, text: &str|
            {
                &&& snapshot@ == h.world
                &&& text@ == run_id
                &&& #[trigger] call_ensures(*reloader->0, (&snapshot, text), got)
            },
{
}

} // verus!
