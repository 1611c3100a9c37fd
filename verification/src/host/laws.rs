//! What the host keeps, whatever it is asked to do.

use crate::components::{AgentMessage, Entity};
use crate::host::control::{
    cancelled_below, found_at, paged_in, placed_as, registered, reloaded_by, tree_cancel,
    within_found, within_tree,
};
use crate::host::events::{
    adopted, adopted_at, all_parked, all_reaped, announced, is_open, law_quiet_world_is_silent,
    looked, report_events, reported, snapshot, still_open, unloaded, Leaving,
};
use crate::host::listing::{
    law_finished_is_bounded_and_unique, live_rows, one_row_each, parked_rows, pruned, pruned_rows,
    window_of,
};
use crate::host::ops::{
    child_spawned, handled, message_sent, paused_at, resumed_at, run_cancelled, run_paused,
    sent_to_run, spawned_for, subagent_handled,
};
use crate::host::relief::{health_counted, progress_observed, reclaimed, relieved};
use crate::host::types::{EventView, RunEntryView};
use crate::host::{
    fresh_host, ControlOp, ControlReply, HostView, LaneSnapshot, SpawnArgs, SubAgentOp,
    SubAgentReply,
};
use crate::interaction::RequestView;
use crate::table::{
    lemma_inserted, lemma_lookup_at, lemma_name_at, lemma_removed, lookup, name_at, names_unique,
};
use crate::world::{agent_at, opt_view, Agent, AgentView, World};
use vstd::prelude::*;

verus! {

/// A host that has just taken over a world is whole.
pub proof fn law_fresh_host_is_whole(
    world: Seq<Option<AgentView>>,
    interactions: Seq<(Seq<char>, RequestView)>,
)
    ensures
        fresh_host(world, interactions).wf(),
{
}

/// Registering a run keeps a host whole.
pub proof fn law_registering_keeps_the_host_whole(h: HostView, run_id: Seq<char>, e: Entity)
    requires
        h.wf(),
    ensures
        registered(h, run_id, e).wf(),
{
    let after = registered(h, run_id, e);
    lemma_inserted(h.by_run_id, run_id, e, run_id);
    lemma_removed(h.parked, run_id, run_id);
    assert forall|name: Seq<char>| #[trigger] lookup(after.parked, name) is Some implies lookup(
        after.by_run_id,
        name,
    ) is None && lookup(after.parked, name)->0.run_id == name by {
        lemma_inserted(h.by_run_id, run_id, e, name);
        lemma_removed(h.parked, run_id, name);
        assert(lookup(h.parked, name) is Some);
    }
}

/// Registering the agents at the first places keeps a host whole.
proof fn lemma_adopting(h: HostView, n: nat)
    requires
        h.wf(),
    ensures
        adopted(h, n).wf(),
    decreases n,
{
    if n > 0 {
        lemma_adopting(h, (n - 1) as nat);
        let before = adopted(h, (n - 1) as nat);
        let e = (n - 1) as usize;
        if let Some(agent) = agent_at(before.world, e) {
            if let Some(metadata) = agent.metadata {
                law_registering_keeps_the_host_whole(before, metadata.run_id@, e);
            }
        }
        assert(adopted(h, n) == adopted_at(before, e));
    }
}

/// Whether each run that leaves takes its own row with it.
spec fn own_rows(runs: Seq<Leaving>) -> bool {
    forall|i: int| 0 <= i < runs.len() ==> (#[trigger] runs[i]).2.run_id == runs[i].0
}

/// Looking at runs notes each of them once.
proof fn lemma_looking(h: HostView, runs: Seq<(Seq<char>, Entity)>)
    requires
        h.wf(),
    ensures
        names_unique(looked(h, runs).emitted),
        own_rows(looked(h, runs).to_park),
    decreases runs.len(),
{
    if runs.len() > 0 {
        let front = runs.drop_last();
        lemma_looking(h, front);
        if let Some(agent) = agent_at(h.world, runs.last().1) {
            lemma_inserted(
                looked(h, front).emitted,
                runs.last().0,
                snapshot(agent),
                runs.last().0,
            );
        }
    }
}

/// What a pass of reporting starts from is whole, and so is what its look leaves.
pub proof fn lemma_passing(h: HostView)
    requires
        h.wf(),
    ensures
        ({
            let known = adopted(h, h.world.len());
            &&& known.wf()
            &&& known.emitted == h.emitted
            &&& names_unique(looked(known, known.by_run_id).emitted)
        }),
{
    lemma_adopting(h, h.world.len());
    lemma_adopting_alike(h, h, h.world.len());
    let known = adopted(h, h.world.len());
    lemma_looking(known, known.by_run_id);
}

/// Taking a run out of the world keeps a host whole.
proof fn lemma_unloading(h: HostView, run_id: Seq<char>, e: Entity)
    requires
        h.wf(),
    ensures
        unloaded(h, run_id, e).wf(),
{
    let after = unloaded(h, run_id, e);
    lemma_removed(h.by_run_id, run_id, run_id);
    lemma_removed(h.emitted, run_id, run_id);
    assert forall|name: Seq<char>| #[trigger] lookup(after.parked, name) is Some implies lookup(
        after.by_run_id,
        name,
    ) is None && lookup(after.parked, name)->0.run_id == name by {
        lemma_removed(h.by_run_id, run_id, name);
    }
}

/// Taking runs that are over out of the world keeps a host whole.
proof fn lemma_reaping(h: HostView, runs: Seq<Leaving>, now: i64)
    requires
        h.wf(),
    ensures
        all_reaped(h, runs, now).wf(),
    decreases runs.len(),
{
    if runs.len() > 0 {
        let last = runs.last();
        let before = all_reaped(h, runs.drop_last(), now);
        lemma_reaping(h, runs.drop_last(), now);
        lemma_unloading(before, last.0, last.1);
        law_finished_is_bounded_and_unique(unloaded(before, last.0, last.1), last.2, now);
    }
}

/// Paging runs out keeps a host whole.
proof fn lemma_parking(h: HostView, runs: Seq<Leaving>)
    requires
        h.wf(),
        own_rows(runs),
    ensures
        all_parked(h, runs).wf(),
    decreases runs.len(),
{
    if runs.len() > 0 {
        let last = runs.last();
        let front = runs.drop_last();
        let before = all_parked(h, front);
        assert forall|i: int| 0 <= i < front.len() implies (#[trigger] front[i]).2.run_id
            == front[i].0 by {
            assert(runs[i] == front[i]);
        }
        lemma_parking(h, front);
        lemma_unloading(before, last.0, last.1);
        let out = unloaded(before, last.0, last.1);
        let after = all_parked(h, runs);
        lemma_inserted(out.parked, last.0, last.2, last.0);
        lemma_removed(before.by_run_id, last.0, last.0);
        assert forall|name: Seq<char>| #[trigger] lookup(after.parked, name)
            is Some implies lookup(after.by_run_id, name) is None && lookup(
            after.parked,
            name,
        )->0.run_id == name by {
            lemma_inserted(out.parked, last.0, last.2, name);
            assert(runs[runs.len() - 1] == last);
            if name != last.0 {
                assert(lookup(out.parked, name) is Some);
            }
        }
    }
}

/// Dropping rows at the front keeps one row for each run.
proof fn lemma_pruning(finished: Seq<(i64, RunEntryView)>, now: i64, window: int)
    requires
        one_row_each(finished),
    ensures
        one_row_each(pruned_rows(finished, now, window)),
        pruned_rows(finished, now, window).len() <= finished.len(),
    decreases finished.len(),
{
    if finished.len() > 0 && crate::host::listing::age(now, finished[0].0) > window {
        let rest = finished.skip(1);
        assert forall|i: int, j: int| 0 <= i < j < rest.len() implies (#[trigger] rest[i]).1.run_id
            != (#[trigger] rest[j]).1.run_id by {
            assert(rest[i] == finished[i + 1] && rest[j] == finished[j + 1]);
        }
        lemma_pruning(rest, now, window);
    }
}

/// The ids of open questions among some that stand once stand once.
proof fn lemma_forgetting(ids: Seq<Seq<char>>, open: Seq<(Seq<char>, RequestView)>)
    requires
        ids.no_duplicates(),
    ensures
        still_open(ids, open).no_duplicates(),
        forall|id: Seq<char>| #[trigger]
            still_open(ids, open).contains(id) ==> ids.contains(id),
    decreases ids.len(),
{
    if ids.len() > 0 {
        let front = ids.drop_last();
        lemma_forgetting(front, open);
        let kept = still_open(front, open);
        let left = still_open(ids, open);
        assert forall|id: Seq<char>| #[trigger] left.contains(id) implies ids.contains(id) by {
            let k = choose|k: int| 0 <= k < left.len() && left[k] == id;
            if k < kept.len() {
                assert(kept[k] == id);
                assert(kept.contains(id));
                let m = choose|m: int| 0 <= m < front.len() && front[m] == id;
                assert(ids[m] == id);
            } else {
                assert(ids[ids.len() - 1] == id);
            }
        }
        if is_open(open, ids.last()) {
            if kept.contains(ids.last()) {
                let m = choose|m: int| 0 <= m < front.len() && front[m] == ids.last();
                assert(ids[m] == ids[ids.len() - 1]);
            }
            assert forall|i: int, j: int| 0 <= i < j < left.len() implies left[i] != left[j] by {
                assert(left[i] == kept[i]);
                if j < kept.len() {
                    assert(left[j] == kept[j]);
                } else {
                    assert(kept.contains(kept[i]));
                }
            }
        }
    }
}

/// Reporting questions notes each of them once, and every one that is open.
proof fn lemma_announcing(known: Seq<Seq<char>>, open: Seq<(Seq<char>, RequestView)>)
    ensures
        known.no_duplicates() ==> announced(known, open).0.no_duplicates(),
        forall|id: Seq<char>| #[trigger]
            known.contains(id) ==> announced(known, open).0.contains(id),
        forall|i: int|
            0 <= i < open.len() ==> announced(known, open).0.contains((#[trigger] open[i]).1.id),
    decreases open.len(),
{
    if open.len() > 0 {
        let front = open.drop_last();
        lemma_announcing(known, front);
        let ids = announced(known, front).0;
        let after = announced(known, open).0;
        assert forall|id: Seq<char>| #[trigger] ids.contains(id) implies after.contains(id) by {
            let k = choose|k: int| 0 <= k < ids.len() && ids[k] == id;
            assert(after[k] == id);
        }
        let id = open.last().1.id;
        if !ids.contains(id) {
            assert(after[after.len() - 1] == id);
            if known.no_duplicates() {
                assert forall|i: int, j: int| 0 <= i < j < after.len() implies after[i]
                    != after[j] by {
                    assert(after[i] == ids[i]);
                    if j < ids.len() {
                        assert(after[j] == ids[j]);
                    } else {
                        assert(ids.contains(ids[i]));
                    }
                }
            }
        }
        assert forall|i: int| 0 <= i < open.len() implies after.contains(
            (#[trigger] open[i]).1.id,
        ) by {
            if i < front.len() {
                assert(front[i] == open[i]);
                assert(ids.contains(front[i].1.id));
            }
        }
    }
}

/// A pass of reporting keeps a host whole.
pub proof fn law_reporting_keeps_the_host_whole(h: HostView, now: i64)
    requires
        h.wf(),
    ensures
        reported(h, now).wf(),
{
    lemma_adopting(h, h.world.len());
    let known = adopted(h, h.world.len());
    let p = looked(known, known.by_run_id);
    lemma_looking(known, known.by_run_id);
    let seen = HostView { emitted: p.emitted, ..known };
    lemma_reaping(seen, p.to_reap, now);
    let out = all_reaped(seen, p.to_reap, now);
    lemma_parking(out, p.to_park);
    let left = all_parked(out, p.to_park);
    lemma_pruning(left.finished, now, window_of(left.finished_retention_secs));
    let kept = pruned(left, now);
    lemma_forgetting(kept.emitted_interactions, kept.interactions);
    lemma_announcing(kept.emitted_interactions, kept.interactions);
    lemma_announcing(
        still_open(kept.emitted_interactions, kept.interactions),
        kept.interactions,
    );
}

/// Looking at runs, each under its own name, brings what is reported of them up to date.
pub proof fn law_look_brings_reports_up_to_date(h: HostView, runs: Seq<(Seq<char>, Entity)>)
    requires
        names_unique(runs),
    ensures
        forall|i: int|
            0 <= i < runs.len() && agent_at(h.world, (#[trigger] runs[i]).1) is Some ==> lookup(
                looked(h, runs).emitted,
                runs[i].0,
            ) == Some(snapshot(agent_at(h.world, runs[i].1)->0)),
    decreases runs.len(),
{
    if runs.len() > 0 {
        let front = runs.drop_last();
        assert forall|i: int, j: int| 0 <= i < j < front.len() implies (#[trigger] front[i]).0 != (
        #[trigger] front[j]).0 by {
            assert(runs[i] == front[i] && runs[j] == front[j]);
        }
        law_look_brings_reports_up_to_date(h, front);
        let p = looked(h, front);
        let (name, e) = runs.last();
        assert forall|i: int|
            0 <= i < runs.len() && agent_at(h.world, (#[trigger] runs[i]).1)
                is Some implies lookup(looked(h, runs).emitted, runs[i].0) == Some(
            snapshot(agent_at(h.world, runs[i].1)->0),
        ) by {
            if i < front.len() {
                assert(front[i] == runs[i]);
                assert(runs[i].0 != runs[runs.len() - 1].0);
            }
            if let Some(agent) = agent_at(h.world, e) {
                lemma_inserted(p.emitted, name, snapshot(agent), runs[i].0);
            }
        }
    }
}

/// Which runs are registered depends on the world and on those that were.
pub proof fn lemma_adopting_alike(a: HostView, b: HostView, n: nat)
    requires
        a.world == b.world,
        a.by_run_id == b.by_run_id,
        a.parked == b.parked,
    ensures
        adopted(a, n) == (HostView {
            by_run_id: adopted(a, n).by_run_id,
            parked: adopted(a, n).parked,
            ..a
        }),
        adopted(b, n) == (HostView {
            by_run_id: adopted(a, n).by_run_id,
            parked: adopted(a, n).parked,
            ..b
        }),
    decreases n,
{
    if n > 0 {
        lemma_adopting_alike(a, b, (n - 1) as nat);
    }
}

/// What was reported is not reported again: where every agent is known and no run leaves,
/// a second pass right after a first one reports nothing.
pub proof fn law_nothing_is_reported_twice(h: HostView, now: i64)
    requires
        h.wf(),
        adopted(h, h.world.len()) == h,
        looked(h, h.by_run_id).to_reap.len() == 0,
        looked(h, h.by_run_id).to_park.len() == 0,
    ensures
        report_events(reported(h, now)) == Seq::<EventView>::empty(),
{
    let after = reported(h, now);
    lemma_adopting_alike(h, after, h.world.len());
    law_look_brings_reports_up_to_date(h, h.by_run_id);
    lemma_announcing(h.emitted_interactions, h.interactions);
    law_quiet_world_is_silent(after);
}

/// Paging a run in keeps a host whole.
proof fn lemma_paging_in(h: HostView, run_id: Seq<char>, got: Option<AgentView>)
    requires
        h.wf(),
    ensures
        paged_in(h, run_id, got).wf(),
{
    if let Some(agent) = got {
        let here = HostView { world: h.world.push(Some(agent)), ..h };
        law_registering_keeps_the_host_whole(here, run_id, h.world.len() as usize);
    }
}

/// Cancelling a tree keeps a host whole.
proof fn lemma_cancelling(h: HostView, root: Entity)
    requires
        h.wf(),
    ensures
        cancelled_below(h, root).wf(),
{
    lemma_forgetting(
        h.emitted_interactions,
        crate::host::control::asked_outside(h.interactions, h.world, root),
    );
}

/// Looking for a run and its would-be ancestor keeps a host whole.
proof fn lemma_looking_up<R: Fn(&World, &str) -> Option<Agent>>(
    reloader: Option<&R>,
    h: HostView,
    run_id: Seq<char>,
    ancestor: Seq<char>,
    after: HostView,
    b: bool,
)
    requires
        h.wf(),
        within_tree(reloader, h, run_id, ancestor, after, b),
    ensures
        after.wf(),
{
    if run_id != ancestor {
        let got = choose|got: Option<Agent>|
            {
                &&& #[trigger] reloaded_by(reloader, h, run_id, got)
                &&& within_found(
                    reloader,
                    paged_in(h, run_id, opt_view(got)),
                    found_at(h, run_id, opt_view(got)),
                    ancestor,
                    after,
                    b,
                )
            };
        let here = paged_in(h, run_id, opt_view(got));
        lemma_paging_in(h, run_id, opt_view(got));
        let above = choose|above: Option<Agent>|
            {
                &&& #[trigger] reloaded_by(reloader, here, ancestor, above)
                &&& after == paged_in(here, ancestor, opt_view(above))
            };
        lemma_paging_in(here, ancestor, opt_view(above));
    }
}

/// Cancelling a run and its tree keeps a host whole.
proof fn lemma_run_cancelled<R: Fn(&World, &str) -> Option<Agent>>(
    reloader: Option<&R>,
    h: HostView,
    run_id: Seq<char>,
    after: HostView,
    done: bool,
)
    requires
        h.wf(),
        run_cancelled(reloader, h, run_id, after, done),
    ensures
        after.wf(),
{
    let got = choose|got: Option<Agent>|
        {
            &&& #[trigger] reloaded_by(reloader, h, run_id, got)
            &&& tree_cancel(h, run_id, opt_view(got), after, done)
        };
    let here = paged_in(h, run_id, opt_view(got));
    lemma_paging_in(h, run_id, opt_view(got));
    if let Some(root) = found_at(h, run_id, opt_view(got)) {
        lemma_cancelling(here, root);
    }
}

/// Sending a message to a run keeps a host whole.
proof fn lemma_sent<R: Fn(&World, &str) -> Option<Agent>>(
    reloader: Option<&R>,
    h: HostView,
    message: AgentMessage,
    after: HostView,
    done: bool,
)
    requires
        h.wf(),
        sent_to_run(reloader, h, message, after, done),
    ensures
        after.wf(),
{
    let got = choose|got: Option<Agent>|
        {
            &&& #[trigger] reloaded_by(reloader, h, message.agent_id@, got)
            &&& after == message_sent(paged_in(h, message.agent_id@, opt_view(got)), message)
        };
    lemma_paging_in(h, message.agent_id@, opt_view(got));
}

/// Pausing or resuming a run keeps a host whole.
proof fn lemma_paused<R: Fn(&World, &str) -> Option<Agent>>(
    reloader: Option<&R>,
    h: HostView,
    run_id: Seq<char>,
    pause: bool,
    after: HostView,
    done: bool,
)
    requires
        h.wf(),
        run_paused(reloader, h, run_id, pause, after, done),
    ensures
        after.wf(),
{
    let got = choose|got: Option<Agent>|
        {
            let here = paged_in(h, run_id, opt_view(got));
            let e = found_at(h, run_id, opt_view(got));
            &&& #[trigger] reloaded_by(reloader, h, run_id, got)
            &&& after == if pause {
                paused_at(here, e)
            } else {
                resumed_at(here, e)
            }
        };
    lemma_paging_in(h, run_id, opt_view(got));
}

/// Whatever control operation is handled, and however its hooks answer, the host stays
/// whole.
pub proof fn law_operations_keep_the_host_whole<
    S: Fn(&World, &SpawnArgs) -> Result<Agent, String>,
    R: Fn(&World, &str) -> Option<Agent>,
    T: Fn(&str) -> bool,
>(
    spawner: Option<&S>,
    reloader: Option<&R>,
    terminator: Option<&T>,
    h: HostView,
    op: ControlOp,
    after: HostView,
    reply: ControlReply,
)
    requires
        h.wf(),
        handled(spawner, reloader, terminator, h, op, after, reply),
    ensures
        after.wf(),
{
    match op {
        ControlOp::Spawn { args } => {
            if let Some(s) = spawner {
                let got = choose|got: Result<Agent, String>|
                    {
                        &&& #[trigger] spawned_for(*s, h.world, args, got)
                        &&& match got {
                            Ok(agent) => after == placed_as(h, args.run_id@, agent@),
                            Err(_) => after == h,
                        }
                    };
                if let Ok(agent) = got {
                    lemma_paging_in(h, args.run_id@, Some(agent@));
                }
            }
        },
        ControlOp::Pause { run_id } => {
            lemma_paused(reloader, h, run_id@, true, after, reply->Done_0);
        },
        ControlOp::Resume { run_id } => {
            lemma_paused(reloader, h, run_id@, false, after, reply->Done_0);
        },
        ControlOp::Cancel { run_id } => {
            let found = choose|found: bool| #[trigger]
                run_cancelled(reloader, h, run_id@, after, found);
            lemma_run_cancelled(reloader, h, run_id@, after, found);
        },
        ControlOp::Message { agent_id, content, target_region } => {
            let message = AgentMessage { agent_id, content, target_region };
            lemma_sent(reloader, h, message, after, reply->Done_0);
        },
        _ => {},
    }
}

/// Spawning a child keeps a host whole.
proof fn lemma_child_spawned<
    S: Fn(&World, &SpawnArgs) -> Result<Agent, String>,
    D: Fn(&World, Entity, Agent) -> Agent,
>(
    spawner: Option<&S>,
    seeder: Option<&D>,
    h: HostView,
    args: SpawnArgs,
    parent_run_id: Seq<char>,
    max_depth: usize,
    after: HostView,
    reply: Result<String, String>,
)
    requires
        h.wf(),
        child_spawned(spawner, seeder, h, args, parent_run_id, max_depth, after, reply),
    ensures
        after.wf(),
{
    if after != h {
        let here = HostView { world: after.world, ..h };
        law_registering_keeps_the_host_whole(here, args.run_id@, h.world.len() as usize);
    }
}

/// Whatever an agent's tool lane asks for, and however the hooks answer, the host stays
/// whole.
pub proof fn law_requests_keep_the_host_whole<
    S: Fn(&World, &SpawnArgs) -> Result<Agent, String>,
    R: Fn(&World, &str) -> Option<Agent>,
    D: Fn(&World, Entity, Agent) -> Agent,
>(
    spawner: Option<&S>,
    reloader: Option<&R>,
    seeder: Option<&D>,
    h: HostView,
    op: SubAgentOp,
    after: HostView,
    reply: SubAgentReply,
)
    requires
        h.wf(),
        subagent_handled(spawner, reloader, seeder, h, op, after, reply),
    ensures
        after.wf(),
{
    match op {
        SubAgentOp::Spawn { args, parent_run_id, max_depth } => {
            lemma_child_spawned(
                spawner,
                seeder,
                h,
                args,
                parent_run_id@,
                max_depth,
                after,
                reply->Spawned_0,
            );
        },
        SubAgentOp::Check { run_id } => {},
        SubAgentOp::Send { run_id, caller_run_id, content, target_region } => {
            let message = AgentMessage { agent_id: run_id, content, target_region };
            let (mid, inside) = choose|mid: HostView, inside: bool|
                {
                    &&& #[trigger] within_tree(reloader, h, run_id@, caller_run_id@, mid, inside)
                    &&& if inside {
                        sent_to_run(reloader, mid, message, after, reply->Done_0)
                    } else {
                        after == mid
                    }
                };
            lemma_looking_up(reloader, h, run_id@, caller_run_id@, mid, inside);
            if inside {
                lemma_sent(reloader, mid, message, after, reply->Done_0);
            }
        },
        SubAgentOp::Kill { run_id, caller_run_id } => {
            let (mid, inside) = choose|mid: HostView, inside: bool|
                {
                    &&& #[trigger] within_tree(reloader, h, run_id@, caller_run_id@, mid, inside)
                    &&& if inside {
                        run_cancelled(reloader, mid, run_id@, after, reply->Done_0)
                    } else {
                        after == mid
                    }
                };
            lemma_looking_up(reloader, h, run_id@, caller_run_id@, mid, inside);
            if inside {
                lemma_run_cancelled(reloader, mid, run_id@, after, reply->Done_0);
            }
        },
    }
}

/// The rows of runs that are in the world are those of the runs, each under its own name.
proof fn lemma_live_rows(h: HostView, runs: Seq<(Seq<char>, Entity)>)
    requires
        names_unique(runs),
    ensures
        forall|i: int|
            0 <= i < live_rows(h, runs).len() ==> lookup(
                runs,
                (#[trigger] live_rows(h, runs)[i]).run_id,
            ) is Some,
        forall|i: int, j: int|
            0 <= i < j < live_rows(h, runs).len() ==> (#[trigger] live_rows(h, runs)[i]).run_id != (
            #[trigger] live_rows(h, runs)[j]).run_id,
    decreases runs.len(),
{
    if runs.len() > 0 {
        let front = runs.drop_last();
        assert forall|i: int, j: int| 0 <= i < j < front.len() implies (#[trigger] front[i]).0 != (
        #[trigger] front[j]).0 by {
            assert(runs[i] == front[i] && runs[j] == front[j]);
        }
        lemma_live_rows(h, front);
        let rows = live_rows(h, runs);
        let kept = live_rows(h, front);
        lemma_name_at(front, runs.last().0);
        if let Some(k) = name_at(front, runs.last().0) {
            assert(runs[k] == front[k]);
            assert(runs[runs.len() - 1] == runs.last());
        }
        assert forall|i: int, j: int| 0 <= i < j < rows.len() implies (#[trigger] rows[i]).run_id
            != (#[trigger] rows[j]).run_id by {
            assert(rows[i] == kept[i]);
            if j < kept.len() {
                assert(rows[j] == kept[j]);
            }
        }
        assert forall|i: int| 0 <= i < rows.len() implies lookup(
            runs,
            (#[trigger] rows[i]).run_id,
        ) is Some by {
            if i < kept.len() {
                assert(rows[i] == kept[i]);
            }
        }
    }
}

/// No two rows of the listing are of the same run: a run that is in the world is not
/// also listed as paged out.
pub proof fn law_no_run_is_listed_twice(h: HostView)
    requires
        h.wf(),
    ensures
        ({
            let rows = live_rows(h, h.by_run_id) + parked_rows(h);
            forall|i: int, j: int|
                0 <= i < j < rows.len() ==> (#[trigger] rows[i]).run_id != (
                #[trigger] rows[j]).run_id
        }),
{
    let here = live_rows(h, h.by_run_id);
    let out = parked_rows(h);
    let rows = here + out;
    lemma_live_rows(h, h.by_run_id);
    assert forall|i: int, j: int| 0 <= i < j < rows.len() implies (#[trigger] rows[i]).run_id != (
    #[trigger] rows[j]).run_id by {
        if j < here.len() {
            assert(rows[i] == here[i] && rows[j] == here[j]);
        } else {
            let b = j - here.len();
            assert(rows[j] == h.parked[b].1);
            lemma_lookup_at(h.parked, b);
            assert(lookup(h.parked, h.parked[b].0) is Some);
            if i < here.len() {
                assert(rows[i] == here[i]);
            } else {
                let a = i - here.len();
                assert(rows[i] == h.parked[a].1);
                lemma_lookup_at(h.parked, a);
                assert(lookup(h.parked, h.parked[a].0) is Some);
            }
        }
    }
}

/// Whether runs stand at different places.
pub open spec fn places_differ(runs: Seq<Leaving>) -> bool {
    forall|i: int, j: int|
        0 <= i < j < runs.len() ==> (#[trigger] runs[i]).1 != (#[trigger] runs[j]).1
}

/// When a reaper is called for a run, its agent is still in the world, as it was when the
/// runs that leave were picked.
pub proof fn law_reaper_finds_the_agent(h: HostView, runs: Seq<Leaving>, now: i64, i: int)
    requires
        places_differ(runs),
        0 <= i < runs.len(),
    ensures
        agent_at(all_reaped(h, runs.take(i), now).world, runs[i].1) == agent_at(
            h.world,
            runs[i].1,
        ),
        agent_at(all_parked(h, runs.take(i)).world, runs[i].1) == agent_at(h.world, runs[i].1),
{
    lemma_others_stay(h, runs.take(i), now, runs[i].1);
}

/// Taking runs out of the world leaves every agent at another place.
proof fn lemma_others_stay(h: HostView, runs: Seq<Leaving>, now: i64, e: Entity)
    requires
        forall|i: int| 0 <= i < runs.len() ==> (#[trigger] runs[i]).1 != e,
    ensures
        agent_at(all_reaped(h, runs, now).world, e) == agent_at(h.world, e),
        agent_at(all_parked(h, runs).world, e) == agent_at(h.world, e),
    decreases runs.len(),
{
    if runs.len() > 0 {
        let front = runs.drop_last();
        assert forall|i: int| 0 <= i < front.len() implies (#[trigger] front[i]).1 != e by {
            assert(runs[i] == front[i]);
        }
        assert(runs[runs.len() - 1] == runs.last());
        lemma_others_stay(h, front, now, e);
    }
}

/// Watching the lanes keeps a host whole.
pub proof fn law_watching_keeps_the_host_whole(h: HostView, s: LaneSnapshot, permits: usize)
    requires
        h.wf(),
    ensures
        progress_observed(h, s).wf(),
        relieved(h, permits).wf(),
        health_counted(h, s).wf(),
        reclaimed(h, permits).wf(),
{
}

} // verus!
