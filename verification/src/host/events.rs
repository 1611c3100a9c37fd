//! What the host reports of the runs, and which of them it unloads.

use crate::components::{AgentStatus, Entity, FinalOutput, RunStatus};
use crate::host::control::registered;
use crate::host::listing::{pruned, recorded, row_of};
use crate::host::types::{event_views, EventView, RunEntryView};
use crate::host::{
    live, status_str, Emitted, EmittedView, HostView, RunListEntry, WorldEvent, WorldHost,
};
use crate::interaction::RequestView;
use crate::table::{inserted, lookup, modelled, removed};
use crate::text::{same_text, texts};
use crate::world::{agent_at, Agent, AgentView, World};
use vstd::prelude::*;

verus! {

/// What is reported of an agent.
pub open spec fn snapshot(agent: AgentView) -> EmittedView {
    EmittedView {
        status: agent.state.status.label_of(),
        stage: agent.state.current_stage,
        iteration: agent.state.iteration,
        tool_calls: match agent.totals {
            Some(totals) => totals.tool_calls,
            None => 0,
        },
        accepts_messages: agent.state.accepts_messages,
        prompt_tokens: match agent.totals {
            Some(totals) => totals.prompt_tokens,
            None => 0,
        },
        completion_tokens: match agent.totals {
            Some(totals) => totals.completion_tokens,
            None => 0,
        },
        cached_tokens: match agent.totals {
            Some(totals) => totals.cached_tokens,
            None => 0,
        },
        cache_write_tokens: match agent.totals {
            Some(totals) => totals.cache_write_tokens,
            None => 0,
        },
        context_tokens: match agent.window {
            Some(window) => window.current_tokens,
            None => 0,
        },
        terminal: agent.state.status.terminal(),
    }
}

/// Whether two snapshots agree in what a status event carries.
pub open spec fn same_status(a: EmittedView, b: EmittedView) -> bool {
    &&& a.status == b.status
    &&& a.stage == b.stage
    &&& a.iteration == b.iteration
    &&& a.tool_calls == b.tool_calls
    &&& a.accepts_messages == b.accepts_messages
}

/// Whether two snapshots agree in what a token event carries.
pub open spec fn same_tokens(a: EmittedView, b: EmittedView) -> bool {
    &&& a.prompt_tokens == b.prompt_tokens
    &&& a.completion_tokens == b.completion_tokens
    &&& a.cached_tokens == b.cached_tokens
    &&& a.cache_write_tokens == b.cache_write_tokens
}

/// Whether a run was at its end when it was last reported.
pub open spec fn was_terminal(prev: Option<EmittedView>) -> bool {
    prev is Some && prev->0.terminal
}

/// One event, or none.
pub open spec fn event_if(b: bool, event: EventView) -> Seq<EventView> {
    if b {
        seq![event]
    } else {
        Seq::empty()
    }
}

/// That a run appeared.
pub open spec fn spawned_event(run_id: Seq<char>, agent: AgentView) -> EventView {
    EventView::Spawned {
        run_id,
        agent_id: agent.state.agent_id,
        blueprint: match agent.metadata {
            Some(metadata) => metadata.agent_name@,
            None => Seq::empty(),
        },
    }
}

/// The status of a run.
pub open spec fn status_event(run_id: Seq<char>, agent: AgentView) -> EventView {
    let cur = snapshot(agent);
    EventView::Status {
        run_id,
        agent_id: agent.state.agent_id,
        status: cur.status,
        stage: cur.stage,
        iteration: cur.iteration,
        tool_calls: cur.tool_calls,
        accepts_messages: cur.accepts_messages,
    }
}

/// The token totals of a run.
pub open spec fn tokens_event(run_id: Seq<char>, agent: AgentView) -> EventView {
    let cur = snapshot(agent);
    EventView::Tokens {
        run_id,
        agent_id: agent.state.agent_id,
        prompt_tokens: cur.prompt_tokens,
        completion_tokens: cur.completion_tokens,
        cached_tokens: cur.cached_tokens,
        cache_write_tokens: cur.cache_write_tokens,
    }
}

/// The context-window usage of a run.
pub open spec fn context_event(run_id: Seq<char>, agent: AgentView) -> EventView {
    EventView::Context {
        run_id,
        agent_id: agent.state.agent_id,
        total_tokens: snapshot(agent).context_tokens,
        max_tokens: match agent.window {
            Some(window) => window.max_tokens,
            None => 0,
        },
    }
}

/// That a run reached its end.
pub open spec fn completed_event(run_id: Seq<char>, agent: AgentView) -> EventView {
    EventView::Completed {
        run_id,
        agent_id: agent.state.agent_id,
        status: snapshot(agent).status,
        final_output: agent.final_output,
    }
}

/// The events that tell what changed of a run since it was last reported.
pub open spec fn changes(run_id: Seq<char>, agent: AgentView, prev: Option<EmittedView>) -> Seq<
    EventView,
> {
    let cur = snapshot(agent);
    event_if(prev is None, spawned_event(run_id, agent)) + event_if(
        prev is None || !same_status(prev->0, cur),
        status_event(run_id, agent),
    ) + event_if(
        prev is None || !same_tokens(prev->0, cur),
        tokens_event(run_id, agent),
    ) + event_if(
        prev is None || prev->0.context_tokens != cur.context_tokens,
        context_event(run_id, agent),
    ) + event_if(cur.terminal && !was_terminal(prev), completed_event(run_id, agent))
}

/// The snapshot of an agent.
fn take_snapshot(agent: &Agent) -> (cur: Emitted)
    ensures
        cur@ == snapshot(agent@),
{
    let (tool_calls, prompt_tokens, completion_tokens, cached_tokens, cache_write_tokens): (
        usize,
        usize,
        usize,
        usize,
        usize,
    ) = match &agent.totals {
        Some(t) => (
            t.tool_calls,
            t.prompt_tokens,
            t.completion_tokens,
            t.cached_tokens,
            t.cache_write_tokens,
        ),
        None => (0, 0, 0, 0, 0),
    };
    Emitted {
        status: status_str(&agent.state.status),
        stage: agent.state.current_stage.clone(),
        iteration: agent.state.iteration,
        tool_calls,
        accepts_messages: agent.state.accepts_messages,
        prompt_tokens,
        completion_tokens,
        cached_tokens,
        cache_write_tokens,
        context_tokens: match &agent.window {
            Some(window) => window.current_tokens,
            None => 0,
        },
        terminal: agent.state.status.is_terminal(),
    }
}

/// Whether two snapshots agree in what a status event carries.
fn status_unchanged(a: &Emitted, b: &Emitted) -> (same: bool)
    ensures
        same == same_status(a@, b@),
{
    same_text(a.status, b.status) && same_text(a.stage.as_str(), b.stage.as_str()) && a.iteration
        == b.iteration && a.tool_calls == b.tool_calls && a.accepts_messages == b.accepts_messages
}

/// Whether two snapshots agree in what a token event carries.
fn tokens_unchanged(a: &Emitted, b: &Emitted) -> (same: bool)
    ensures
        same == same_tokens(a@, b@),
{
    a.prompt_tokens == b.prompt_tokens && a.completion_tokens == b.completion_tokens
        && a.cached_tokens == b.cached_tokens && a.cache_write_tokens == b.cache_write_tokens
}

/// Appends an event.
fn push_event(events: &mut Vec<WorldEvent>, event: WorldEvent)
    ensures
        event_views(final(events)@) == event_views(old(events)@).push(event@),
{
    events.push(event);
    proof {
        assert(event_views(events@) =~= event_views(old(events)@).push(event@));
    }
}

/// That a run appeared.
fn make_spawned(run_id: &str, agent: &Agent) -> (event: WorldEvent)
    ensures
        event@ == spawned_event(run_id@, agent@),
{
    WorldEvent::Spawned {
        run_id: run_id.to_owned(),
        agent_id: agent.state.agent_id.clone(),
        blueprint: match &agent.metadata {
            Some(metadata) => metadata.agent_name.clone(),
            None => String::new(),
        },
    }
}

/// That a run reached its end.
fn make_completed(run_id: &str, agent: &Agent) -> (event: WorldEvent)
    ensures
        event@ == completed_event(run_id@, agent@),
{
    let final_output: Option<FinalOutput> = match &agent.final_output {
        Some(output) => Some(output.clone()),
        None => None,
    };
    WorldEvent::Completed {
        run_id: run_id.to_owned(),
        agent_id: agent.state.agent_id.clone(),
        status: status_str(&agent.state.status).to_owned(),
        final_output,
    }
}

/// Appends the status of a run, if it is due.
fn push_status(
    events: &mut Vec<WorldEvent>,
    run_id: &str,
    agent: &Agent,
    cur: &Emitted,
    due: bool,
)
    requires
        cur@ == snapshot(agent@),
    ensures
        event_views(final(events)@) == event_views(old(events)@) + event_if(
            due,
            status_event(run_id@, agent@),
        ),
{
    let ghost before = event_views(events@);
    if due {
        let event = WorldEvent::Status {
            run_id: run_id.to_owned(),
            agent_id: agent.state.agent_id.clone(),
            status: cur.status.to_owned(),
            stage: cur.stage.clone(),
            iteration: cur.iteration,
            tool_calls: cur.tool_calls,
            accepts_messages: cur.accepts_messages,
        };
        push_event(events, event);
    }
    assert(event_views(events@) =~= before + event_if(due, status_event(run_id@, agent@)));
}

/// Appends the token totals of a run, if they are due.
fn push_tokens(
    events: &mut Vec<WorldEvent>,
    run_id: &str,
    agent: &Agent,
    cur: &Emitted,
    due: bool,
)
    requires
        cur@ == snapshot(agent@),
    ensures
        event_views(final(events)@) == event_views(old(events)@) + event_if(
            due,
            tokens_event(run_id@, agent@),
        ),
{
    let ghost before = event_views(events@);
    if due {
        let event = WorldEvent::Tokens {
            run_id: run_id.to_owned(),
            agent_id: agent.state.agent_id.clone(),
            prompt_tokens: cur.prompt_tokens,
            completion_tokens: cur.completion_tokens,
            cached_tokens: cur.cached_tokens,
            cache_write_tokens: cur.cache_write_tokens,
        };
        push_event(events, event);
    }
    assert(event_views(events@) =~= before + event_if(due, tokens_event(run_id@, agent@)));
}

/// Appends the context-window usage of a run, if it is due.
fn push_context(
    events: &mut Vec<WorldEvent>,
    run_id: &str,
    agent: &Agent,
    cur: &Emitted,
    due: bool,
)
    requires
        cur@ == snapshot(agent@),
    ensures
        event_views(final(events)@) == event_views(old(events)@) + event_if(
            due,
            context_event(run_id@, agent@),
        ),
{
    let ghost before = event_views(events@);
    if due {
        let max_tokens: usize = match &agent.window {
            Some(window) => window.max_tokens,
            None => 0,
        };
        let event = WorldEvent::Context {
            run_id: run_id.to_owned(),
            agent_id: agent.state.agent_id.clone(),
            total_tokens: cur.context_tokens,
            max_tokens,
        };
        push_event(events, event);
    }
    assert(event_views(events@) =~= before + event_if(due, context_event(run_id@, agent@)));
}

/// Appends the events that tell what changed of a run since it was last reported.
fn push_changes(
    events: &mut Vec<WorldEvent>,
    run_id: &str,
    agent: &Agent,
    cur: &Emitted,
    prev: Option<&Emitted>,
)
    requires
        cur@ == snapshot(agent@),
    ensures
        event_views(final(events)@) == event_views(old(events)@) + changes(
            run_id@,
            agent@,
            match prev {
                Some(p) => Some(p@),
                None => None,
            },
        ),
{
    let ghost before = event_views(events@);
    let ghost last = match prev {
        Some(p) => Some(p@),
        None => None,
    };
    let (status_due, tokens_due, context_due, ended): (bool, bool, bool, bool) = match prev {
        Some(p) => (
            !status_unchanged(p, cur),
            !tokens_unchanged(p, cur),
            p.context_tokens != cur.context_tokens,
            p.terminal,
        ),
        None => (true, true, true, false),
    };
    if prev.is_none() {
        push_event(events, make_spawned(run_id, agent));
    }
    assert(event_views(events@) =~= before + event_if(
        last is None,
        spawned_event(run_id@, agent@),
    ));
    push_status(events, run_id, agent, cur, status_due);
    push_tokens(events, run_id, agent, cur, tokens_due);
    push_context(events, run_id, agent, cur, context_due);
    if cur.terminal && !ended {
        push_event(events, make_completed(run_id, agent));
    }
    proof {
        assert(event_views(events@) =~= before + changes(run_id@, agent@, last));
    }
}

/// The host after the agent at a place is known by its run id.
pub open spec fn adopted_at(h: HostView, e: Entity) -> HostView {
    match agent_at(h.world, e) {
        Some(agent) => match agent.metadata {
            Some(metadata) => if live(h, metadata.run_id@) != Some(e) {
                registered(h, metadata.run_id@, e)
            } else {
                h
            },
            None => h,
        },
        None => h,
    }
}

/// The host after the agents at the first places are known by their run ids.
pub open spec fn adopted(h: HostView, n: nat) -> HostView
    decreases n,
{
    if n == 0 {
        h
    } else {
        adopted_at(adopted(h, (n - 1) as nat), (n - 1) as usize)
    }
}

/// Whether an agent has no parent that could still be waiting for it.
pub open spec fn no_live_parent(world: Seq<Option<AgentView>>, agent: AgentView) -> bool {
    match agent.parent {
        None => true,
        Some(parent) => match agent_at(world, parent.parent_entity) {
            None => true,
            Some(of) => of.state.status.terminal(),
        },
    }
}

/// Whether a paused agent is safe to page out: its pause is written, it stands
/// alone, and nothing is open for it. Where nothing can be paged in again, nothing
/// is paged out.
pub open spec fn can_park(h: HostView, agent: AgentView) -> bool {
    &&& agent.state.status is Paused
    &&& h.can_reload
    &&& agent.watermark is Some
    &&& agent.watermark->0.persisted_status == Some(RunStatus::Paused)
    &&& agent.parent is None
    &&& agent.children is None
    &&& agent.fan_out is None
    &&& !agent.awaiting_interaction_point
    &&& !agent.awaiting_interaction
}

/// A run that leaves the world: its id, its place and its last row.
pub type Leaving = (Seq<char>, Entity, RunEntryView);

/// What a look at the runs gives: the events, what is now reported, and which runs
/// leave the world because they are over or paused.
pub struct PassView {
    pub events: Seq<EventView>,
    pub emitted: Seq<(Seq<char>, EmittedView)>,
    pub to_reap: Seq<Leaving>,
    pub to_park: Seq<Leaving>,
}

/// A look at one run. A run that is over leaves once its end was reported by an
/// earlier look and no parent waits for it.
pub open spec fn looked_at(
    h: HostView,
    p: PassView,
    run_id: Seq<char>,
    e: Entity,
    agent: AgentView,
) -> PassView {
    let prev = lookup(p.emitted, run_id);
    let cur = snapshot(agent);
    let row = row_of(h.world, h.interactions, run_id, agent);
    PassView {
        events: p.events + changes(run_id, agent, prev),
        emitted: inserted(p.emitted, run_id, cur),
        to_reap: if cur.terminal && was_terminal(prev) && no_live_parent(h.world, agent) {
            p.to_reap.push((run_id, e, row))
        } else {
            p.to_reap
        },
        to_park: if can_park(h, agent) {
            p.to_park.push((run_id, e, row))
        } else {
            p.to_park
        },
    }
}

/// A look at several runs; those no longer in the world are passed over.
pub open spec fn looked(h: HostView, runs: Seq<(Seq<char>, Entity)>) -> PassView
    decreases runs.len(),
{
    if runs.len() == 0 {
        PassView {
            events: Seq::empty(),
            emitted: h.emitted,
            to_reap: Seq::empty(),
            to_park: Seq::empty(),
        }
    } else {
        let p = looked(h, runs.drop_last());
        match agent_at(h.world, runs.last().1) {
            Some(agent) => looked_at(h, p, runs.last().0, runs.last().1, agent),
            None => p,
        }
    }
}

/// The world without the agent at a place.
pub open spec fn emptied(world: Seq<Option<AgentView>>, e: Entity) -> Seq<Option<AgentView>> {
    if e < world.len() {
        world.update(e as int, None)
    } else {
        world
    }
}

/// The host once a run is out of the world.
pub open spec fn unloaded(h: HostView, run_id: Seq<char>, e: Entity) -> HostView {
    HostView {
        world: emptied(h.world, e),
        by_run_id: removed(h.by_run_id, run_id),
        emitted: removed(h.emitted, run_id),
        ..h
    }
}

/// The host once runs that are over are out of the world and in the listing of
/// those that finished.
pub open spec fn all_reaped(h: HostView, runs: Seq<Leaving>, now: i64) -> HostView
    decreases runs.len(),
{
    if runs.len() == 0 {
        h
    } else {
        let last = runs.last();
        recorded(unloaded(all_reaped(h, runs.drop_last(), now), last.0, last.1), last.2, now)
    }
}

/// The host once paused runs are out of the world, each keeping its row.
pub open spec fn all_parked(h: HostView, runs: Seq<Leaving>) -> HostView
    decreases runs.len(),
{
    if runs.len() == 0 {
        h
    } else {
        let last = runs.last();
        let out = unloaded(all_parked(h, runs.drop_last()), last.0, last.1);
        HostView { parked: inserted(out.parked, last.0, last.2), ..out }
    }
}

/// Whether a reaper was called for the agent at a place of a world.
pub open spec fn reaper_told<R: Fn(&World, Entity)>(
    reaper: R,
    world: Seq<Option<AgentView>>,
    e: Entity,
) -> bool {
    exists|w: World| w@ == world && #[trigger] call_ensures(reaper, (&w, e), ())
}

/// Whether a reaper was called for each run that is over, just before it left the world.
pub open spec fn told_of_reaped<R: Fn(&World, Entity)>(
    reaper: R,
    h: HostView,
    runs: Seq<Leaving>,
    now: i64,
) -> bool {
    forall|i: int|
        0 <= i < runs.len() ==> reaper_told(
            reaper,
            all_reaped(h, runs.take(i), now).world,
            (#[trigger] runs[i]).1,
        )
}

/// Whether a reaper was called for each paused run, just before it left the world.
pub open spec fn told_of_parked<R: Fn(&World, Entity)>(
    reaper: R,
    h: HostView,
    runs: Seq<Leaving>,
) -> bool {
    forall|i: int|
        0 <= i < runs.len() ==> reaper_told(
            reaper,
            all_parked(h, runs.take(i)).world,
            (#[trigger] runs[i]).1,
        )
}

/// Whether a reaper was called for every run that leaves the world in a pass of
/// reporting, each just before it left.
pub open spec fn told_of_leaving<R: Fn(&World, Entity)>(reaper: R, h: HostView, now: i64) -> bool {
    let known = adopted(h, h.world.len());
    let p = looked(known, known.by_run_id);
    let seen = HostView { emitted: p.emitted, ..known };
    &&& told_of_reaped(reaper, seen, p.to_reap, now)
    &&& told_of_parked(reaper, all_reaped(seen, p.to_reap, now), p.to_park)
}

/// Whether a question with this id is open.
pub open spec fn is_open(open: Seq<(Seq<char>, RequestView)>, id: Seq<char>) -> bool {
    exists|i: int| 0 <= i < open.len() && (#[trigger] open[i]).1.id == id
}

/// The ids among some that are of open questions.
pub open spec fn still_open(ids: Seq<Seq<char>>, open: Seq<(Seq<char>, RequestView)>) -> Seq<
    Seq<char>,
>
    decreases ids.len(),
{
    if ids.len() == 0 {
        Seq::empty()
    } else {
        let front = still_open(ids.drop_last(), open);
        if is_open(open, ids.last()) {
            front.push(ids.last())
        } else {
            front
        }
    }
}

/// The host once ids of questions that are no longer open are forgotten.
pub open spec fn questions_pruned(h: HostView) -> HostView {
    HostView {
        emitted_interactions: still_open(h.emitted_interactions, h.interactions),
        ..h
    }
}

/// What is reported after looking at the first open questions: the ids that were
/// reported, and the events.
pub open spec fn announced(
    known: Seq<Seq<char>>,
    open: Seq<(Seq<char>, RequestView)>,
) -> (Seq<Seq<char>>, Seq<EventView>)
    decreases open.len(),
{
    if open.len() == 0 {
        (known, Seq::empty())
    } else {
        let (ids, events) = announced(known, open.drop_last());
        let (agent_id, request) = open.last();
        if ids.contains(request.id) {
            (ids, events)
        } else {
            (
                ids.push(request.id),
                events.push(EventView::Interaction { run_id: agent_id, agent_id, request }),
            )
        }
    }
}

/// The host after one pass of reporting.
pub open spec fn reported(h: HostView, now: i64) -> HostView {
    let known = adopted(h, h.world.len());
    let p = looked(known, known.by_run_id);
    let seen = HostView { emitted: p.emitted, ..known };
    let left = all_parked(all_reaped(seen, p.to_reap, now), p.to_park);
    let kept = pruned(left, now);
    let open = if p.to_reap.len() > 0 {
        questions_pruned(kept)
    } else {
        kept
    };
    HostView {
        emitted_interactions: announced(open.emitted_interactions, open.interactions).0,
        ..open
    }
}

/// The events of one pass of reporting: what changed of the runs, and then the
/// questions that are new.
pub open spec fn report_events(h: HostView) -> Seq<EventView> {
    let known = adopted(h, h.world.len());
    let p = looked(known, known.by_run_id);
    let ids = if p.to_reap.len() > 0 {
        still_open(h.emitted_interactions, h.interactions)
    } else {
        h.emitted_interactions
    };
    p.events + announced(ids, h.interactions).1
}

/// What a look at the runs gives.
pub struct Pass {
    pub events: Vec<WorldEvent>,
    pub to_reap: Vec<(String, Entity, RunListEntry)>,
    pub to_park: Vec<(String, Entity, RunListEntry)>,
}

/// Runs that leave the world, as models.
pub open spec fn leaving_views(runs: Seq<(String, Entity, RunListEntry)>) -> Seq<Leaving> {
    Seq::new(runs.len(), |i: int| (runs[i].0@, runs[i].1, runs[i].2@))
}

/// What a look at the runs gives, as a model, with what is now reported.
pub open spec fn pass_view(pass: Pass, emitted: Seq<(Seq<char>, EmittedView)>) -> PassView {
    PassView {
        events: event_views(pass.events@),
        emitted,
        to_reap: leaving_views(pass.to_reap@),
        to_park: leaving_views(pass.to_park@),
    }
}

/// Appends a run that leaves the world.
fn push_leaving(
    runs: &mut Vec<(String, Entity, RunListEntry)>,
    run_id: &str,
    e: Entity,
    row: RunListEntry,
)
    ensures
        leaving_views(final(runs)@) == leaving_views(old(runs)@).push((run_id@, e, row@)),
{
    runs.push((run_id.to_owned(), e, row));
    proof {
        assert(leaving_views(runs@) =~= leaving_views(old(runs)@).push((run_id@, e, row@)));
    }
}

impl WorldHost {
    /// Registers the agent at a place under its run id, if another stands under it
    /// or none.
    fn adopt_at(&mut self, e: Entity)
        ensures
            final(self)@ == adopted_at(old(self)@, e),
    {
        let found: Option<String> = match self.world.get(e) {
            Some(agent) => match &agent.metadata {
                Some(metadata) => Some(metadata.run_id.clone()),
                None => None,
            },
            None => None,
        };
        if let Some(run_id) = found {
            let known = match self.live_entity(run_id.as_str()) {
                Some(at) => at == e,
                None => false,
            };
            if !known {
                self.register(run_id, e);
            }
        }
    }

    /// Registers every agent that is in the world but not known by its run id, so
    /// that the host's view is the world's.
    pub fn adopt_unregistered_runs(&mut self)
        ensures
            final(self)@ == adopted(old(self)@, old(self)@.world.len()),
    {
        let ghost before = self@;
        let n: usize = self.world.agents.len();
        let mut i: usize = 0;
        while i < n
            invariant
                i <= n,
                self@ == adopted(before, i as nat),
            decreases n - i,
        {
            self.adopt_at(i);
            i = i + 1;
        }
    }

    /// Whether an agent has no parent that could still be waiting for it.
    pub fn no_live_parent(&self, agent: &Agent) -> (b: bool)
        ensures
            b == no_live_parent(self@.world, agent@),
    {
        match &agent.parent {
            None => true,
            Some(parent) => match self.world.get(parent.parent_entity) {
                None => true,
                Some(of) => of.state.status.is_terminal(),
            },
        }
    }

    /// Whether a paused agent is safe to page out.
    pub fn parkable(&self, agent: &Agent) -> (b: bool)
        ensures
            b == can_park(self@, agent@),
    {
        let paused = match &agent.state.status {
            AgentStatus::Paused => true,
            _ => false,
        };
        let written = match &agent.watermark {
            Some(watermark) => match watermark.persisted_status {
                Some(RunStatus::Paused) => true,
                _ => false,
            },
            None => false,
        };
        paused && self.can_reload && written && agent.parent.is_none() && agent.children.is_none()
            && agent.fan_out.is_none() && !agent.awaiting_interaction_point
            && !agent.awaiting_interaction
    }

    /// Looks at one run.
    fn look_at(&mut self, run_id: &str, e: Entity, pass: &mut Pass)
        ensures
            ({
                let h = old(self)@;
                let before = pass_view(*old(pass), h.emitted);
                let after = match agent_at(h.world, e) {
                    Some(agent) => looked_at(h, before, run_id@, e, agent),
                    None => before,
                };
                &&& final(self)@ == (HostView { emitted: after.emitted, ..h })
                &&& pass_view(*final(pass), final(self)@.emitted) == after
            }),
    {
        let ghost h = self@;
        let mut reported: Option<Emitted> = None;
        if let Some(agent) = self.world.get(e) {
            let cur = take_snapshot(agent);
            let prev = self.emitted.get(run_id);
            proof {
                crate::table::lemma_modelled(self.emitted@, run_id@, cur);
            }
            push_changes(&mut pass.events, run_id, agent, &cur, prev);
            let ended = match prev {
                Some(p) => p.terminal,
                None => false,
            };
            if cur.terminal && ended && self.no_live_parent(agent) {
                push_leaving(&mut pass.to_reap, run_id, e, self.entry_for(run_id, agent));
            }
            if self.parkable(agent) {
                push_leaving(&mut pass.to_park, run_id, e, self.entry_for(run_id, agent));
            }
            reported = Some(cur);
        }
        if let Some(cur) = reported {
            self.emitted.insert(run_id.to_owned(), cur);
        }
    }
}

/// Equal pairs of run id and place, in the same order.
fn copy_runs(runs: &Vec<(String, Entity)>) -> (copy: Vec<(String, Entity)>)
    ensures
        copy@.len() == runs@.len(),
        forall|i: int|
            0 <= i < runs@.len() ==> (#[trigger] copy@[i]).0@ == runs@[i].0@ && copy@[i].1
                == runs@[i].1,
{
    let mut copy: Vec<(String, Entity)> = Vec::new();
    let mut i: usize = 0;
    while i < runs.len()
        invariant
            i <= runs@.len(),
            copy@.len() == i,
            forall|j: int|
                0 <= j < i ==> (#[trigger] copy@[j]).0@ == runs@[j].0@ && copy@[j].1 == runs@[j].1,
        decreases runs.len() - i,
    {
        copy.push((runs[i].0.clone(), runs[i].1));
        i = i + 1;
    }
    copy
}

/// Registering runs touches nothing but the run-id map and the rows of paged-out runs.
pub proof fn lemma_adopted(h: HostView, n: nat)
    ensures
        adopted(h, n) == (HostView {
            by_run_id: adopted(h, n).by_run_id,
            parked: adopted(h, n).parked,
            ..h
        }),
    decreases n,
{
    if n > 0 {
        lemma_adopted(h, (n - 1) as nat);
    }
}

/// Unloading runs leaves the questions alone.
pub proof fn lemma_questions_kept(h: HostView, reap: Seq<Leaving>, park: Seq<Leaving>, now: i64)
    ensures
        all_reaped(h, reap, now).interactions == h.interactions,
        all_reaped(h, reap, now).emitted_interactions == h.emitted_interactions,
        all_parked(h, park).interactions == h.interactions,
        all_parked(h, park).emitted_interactions == h.emitted_interactions,
    decreases reap.len() + park.len(),
{
    if reap.len() > 0 {
        lemma_questions_kept(h, reap.drop_last(), park, now);
    }
    if park.len() > 0 {
        lemma_questions_kept(h, reap, park.drop_last(), now);
    }
}

impl WorldHost {
    /// Looks at every run that is known.
    fn look(&mut self) -> (pass: Pass)
        ensures
            ({
                let h = old(self)@;
                let p = looked(h, h.by_run_id);
                &&& final(self)@ == (HostView { emitted: p.emitted, ..h })
                &&& pass_view(pass, final(self)@.emitted) == p
            }),
    {
        let ghost h = self@;
        let ghost runs = h.by_run_id;
        let pairs = copy_runs(&self.by_run_id.entries);
        let mut pass = Pass { events: Vec::new(), to_reap: Vec::new(), to_park: Vec::new() };
        let mut i: usize = 0;
        proof {
            assert(runs.take(0) =~= Seq::empty());
            assert(event_views(pass.events@) =~= Seq::empty());
            assert(leaving_views(pass.to_reap@) =~= Seq::empty());
            assert(leaving_views(pass.to_park@) =~= Seq::empty());
        }
        while i < pairs.len()
            invariant
                i <= pairs@.len(),
                pairs@.len() == runs.len(),
                forall|j: int|
                    0 <= j < pairs@.len() ==> (#[trigger] pairs@[j]).0@ == runs[j].0 && pairs@[j].1
                        == runs[j].1,
                self@ == (HostView { emitted: looked(h, runs.take(i as int)).emitted, ..h }),
                pass_view(pass, self@.emitted) == looked(h, runs.take(i as int)),
            decreases pairs.len() - i,
        {
            let ghost here = self@;
            let ghost before = looked(h, runs.take(i as int));
            proof {
                assert(runs.take(i + 1).drop_last() =~= runs.take(i as int));
                assert(runs.take(i + 1).last() == runs[i as int]);
            }
            self.look_at(pairs[i].0.as_str(), pairs[i].1, &mut pass);
            proof {
                let e = runs[i as int].1;
                match agent_at(h.world, e) {
                    Some(agent) => {
                        assert(looked_at(here, before, runs[i as int].0, e, agent) == looked_at(
                            h,
                            before,
                            runs[i as int].0,
                            e,
                            agent,
                        ));
                    },
                    None => {},
                }
            }
            i = i + 1;
        }
        proof {
            assert(runs.take(i as int) =~= runs);
        }
        pass
    }

    /// Takes a run out of the world.
    fn unload(&mut self, run_id: &str, e: Entity)
        ensures
            final(self)@ == unloaded(old(self)@, run_id@, e),
    {
        let ghost before = self.emitted@;
        self.world.despawn(e);
        let _ = self.by_run_id.remove(run_id);
        proof {
            if before.len() > 0 {
                crate::table::lemma_modelled(before, run_id@, before[0].1);
            }
        }
        let _ = self.emitted.remove(run_id);
        proof {
            if before.len() == 0 {
                assert(modelled(before) =~= Seq::empty());
                assert(modelled(self.emitted@) =~= removed(modelled(before), run_id@));
            }
        }
    }

    /// Takes the runs that are over out of the world. `reaper` is called for each
    /// while it is still there.
    fn reap<R: Fn(&World, Entity)>(
        &mut self,
        runs: Vec<(String, Entity, RunListEntry)>,
        now: i64,
        reaper: Option<&R>,
    )
        requires
            reaper is Some ==> forall|w: &World, e: Entity|
                call_requires(*reaper->0, (w, e)),
        ensures
            final(self)@ == all_reaped(old(self)@, leaving_views(runs@), now),
            reaper is Some ==> told_of_reaped(
                *reaper->0,
                old(self)@,
                leaving_views(runs@),
                now,
            ),
    {
        let ghost h = self@;
        let ghost all = runs@;
        let ghost views = leaving_views(all);
        proof {
            assert(views.take(0) =~= Seq::empty());
        }
        for run in it: runs
            invariant
                it.seq() == all,
                views == leaving_views(all),
                reaper is Some ==> forall|w: &World, e: Entity|
                    call_requires(*reaper->0, (w, e)),
                self@ == all_reaped(h, views.take(it.index() as int), now),
                reaper is Some ==> told_of_reaped(*reaper->0, h, views.take(it.index() as int), now),
        {
            let ghost here = self@.world;
            if let Some(hook) = reaper {
                hook(&self.world, run.1);
                assert(reaper_told(*hook, here, run.1));
            }
            proof {
                let n = it.index() as int;
                let more = views.take(n + 1);
                assert(more.drop_last() =~= views.take(n));
                if reaper is Some {
                    assert forall|i: int| 0 <= i < more.len() implies reaper_told(
                        *reaper->0,
                        all_reaped(h, more.take(i), now).world,
                        (#[trigger] more[i]).1,
                    ) by {
                        if i < n {
                            assert(more.take(i) =~= views.take(n).take(i));
                            assert(views.take(n)[i] == more[i]);
                        } else {
                            assert(more.take(i) =~= views.take(n));
                        }
                    }
                }
            }
            self.unload(run.0.as_str(), run.1);
            self.record_finished(run.2, now);
        }
        proof {
            assert(views.take(views.len() as int) =~= views);
        }
    }

    /// Takes the paused runs out of the world, each keeping its row. `reaper` is
    /// called for each while it is still there.
    fn park<R: Fn(&World, Entity)>(
        &mut self,
        runs: Vec<(String, Entity, RunListEntry)>,
        reaper: Option<&R>,
    )
        requires
            reaper is Some ==> forall|w: &World, e: Entity|
                call_requires(*reaper->0, (w, e)),
        ensures
            final(self)@ == all_parked(old(self)@, leaving_views(runs@)),
            reaper is Some ==> told_of_parked(*reaper->0, old(self)@, leaving_views(runs@)),
    {
        let ghost h = self@;
        let ghost all = runs@;
        let ghost views = leaving_views(all);
        proof {
            assert(views.take(0) =~= Seq::empty());
        }
        for run in it: runs
            invariant
                it.seq() == all,
                views == leaving_views(all),
                reaper is Some ==> forall|w: &World, e: Entity|
                    call_requires(*reaper->0, (w, e)),
                self@ == all_parked(h, views.take(it.index() as int)),
                reaper is Some ==> told_of_parked(*reaper->0, h, views.take(it.index() as int)),
        {
            let ghost here = self@.world;
            if let Some(hook) = reaper {
                hook(&self.world, run.1);
                assert(reaper_told(*hook, here, run.1));
            }
            proof {
                let n = it.index() as int;
                let more = views.take(n + 1);
                assert(more.drop_last() =~= views.take(n));
                if reaper is Some {
                    assert forall|i: int| 0 <= i < more.len() implies reaper_told(
                        *reaper->0,
                        all_parked(h, more.take(i)).world,
                        (#[trigger] more[i]).1,
                    ) by {
                        if i < n {
                            assert(more.take(i) =~= views.take(n).take(i));
                            assert(views.take(n)[i] == more[i]);
                        } else {
                            assert(more.take(i) =~= views.take(n));
                        }
                    }
                }
            }
            self.unload(run.0.as_str(), run.1);
            proof {
                crate::table::lemma_modelled(self.parked@, run.0@, run.2);
            }
            self.parked.insert(run.0, run.2);
        }
        proof {
            assert(views.take(views.len() as int) =~= views);
        }
    }

    /// Whether a question with this id is open.
    fn question_open(&self, id: &str) -> (b: bool)
        ensures
            b == is_open(self@.interactions, id@),
    {
        let mut i: usize = 0;
        while i < self.interactions.open.len()
            invariant
                i <= self.interactions@.len(),
                forall|j: int| 0 <= j < i ==> (#[trigger] self.interactions@[j]).1.id != id@,
            decreases self.interactions@.len() - i,
        {
            if same_text(self.interactions.open[i].1.id.as_str(), id) {
                proof {
                    assert(self.interactions@[i as int].1.id == id@);
                }
                return true;
            }
            i = i + 1;
        }
        false
    }

    /// Forgets the ids of reported questions that are no longer open.
    pub fn prune_questions(&mut self)
        ensures
            final(self)@ == questions_pruned(old(self)@),
    {
        let ghost h = self@;
        let mut ids: Vec<String> = Vec::new();
        std::mem::swap(&mut ids, &mut self.emitted_interactions);
        let ghost all = ids@;
        let ghost views = texts(all);
        proof {
            assert(views.take(0) =~= Seq::empty());
            assert(texts(self.emitted_interactions@) =~= Seq::empty());
        }
        for id in it: ids
            invariant
                it.seq() == all,
                views == texts(all),
                views == h.emitted_interactions,
                self@ == (HostView {
                    emitted_interactions: still_open(
                        views.take(it.index() as int),
                        h.interactions,
                    ),
                    ..h
                }),
        {
            let ghost before = self.emitted_interactions@;
            proof {
                let n = it.index() as int;
                assert(views.take(n + 1).drop_last() =~= views.take(n));
            }
            if self.question_open(id.as_str()) {
                self.emitted_interactions.push(id);
                proof {
                    assert(texts(self.emitted_interactions@) =~= texts(before).push(id@));
                }
            }
        }
        proof {
            assert(views.take(views.len() as int) =~= views);
        }
    }

    /// Reports the open questions that were not reported yet.
    fn announce(&mut self, events: &mut Vec<WorldEvent>)
        ensures
            ({
                let h = old(self)@;
                let (ids, new) = announced(h.emitted_interactions, h.interactions);
                &&& final(self)@ == (HostView { emitted_interactions: ids, ..h })
                &&& event_views(final(events)@) == event_views(old(events)@) + new
            }),
    {
        let ghost h = self@;
        let ghost before = event_views(events@);
        let ghost open = h.interactions;
        let mut i: usize = 0;
        proof {
            assert(open.take(0) =~= Seq::empty());
            assert(before =~= before + Seq::<EventView>::empty());
        }
        while i < self.interactions.open.len()
            invariant
                i <= open.len(),
                open == h.interactions,
                self.interactions@ == open,
                self@ == (HostView {
                    emitted_interactions: announced(
                        h.emitted_interactions,
                        open.take(i as int),
                    ).0,
                    ..h
                }),
                event_views(events@) == before + announced(
                    h.emitted_interactions,
                    open.take(i as int),
                ).1,
            decreases open.len() - i,
        {
            let ghost ids = self.emitted_interactions@;
            let ghost so_far = announced(h.emitted_interactions, open.take(i as int));
            proof {
                assert(open.take(i + 1).drop_last() =~= open.take(i as int));
                assert(open.take(i + 1).last() == open[i as int]);
            }
            let agent_id = self.interactions.open[i].0.clone();
            let request = self.interactions.open[i].1.clone();
            if !crate::blueprint::names(&self.emitted_interactions, request.id.as_str()) {
                self.emitted_interactions.push(request.id.clone());
                proof {
                    assert(texts(self.emitted_interactions@) =~= texts(ids).push(request.id@));
                }
                let run_id = agent_id.clone();
                let event = WorldEvent::Interaction { run_id, agent_id, request };
                let ghost told = event@;
                push_event(events, event);
                proof {
                    assert(event_views(events@) =~= before + so_far.1.push(told));
                }
            }
            i = i + 1;
        }
        proof {
            assert(open.take(i as int) =~= open);
        }
    }

    /// Reports what changed of every run since it was last reported, and every new
    /// question. Runs that are over leave the world once their end was reported, and
    /// paused ones once their pause is written; `reaper` is called for each while it
    /// is still there.
    pub fn emit_events<R: Fn(&World, Entity)>(&mut self, now: i64, reaper: Option<&R>) -> (events:
        Vec<WorldEvent>)
        requires
            reaper is Some ==> forall|w: &World, e: Entity|
                call_requires(*reaper->0, (w, e)),
        ensures
            final(self)@ == reported(old(self)@, now),
            event_views(events@) == report_events(old(self)@),
            reaper is Some ==> told_of_leaving(*reaper->0, old(self)@, now),
    {
        let ghost h = self@;
        proof {
            lemma_adopted(h, h.world.len());
        }
        self.adopt_unregistered_runs();
        let pass = self.look();
        proof {
            lemma_questions_kept(self@, leaving_views(pass.to_reap@), Seq::empty(), now);
        }
        let mut events = pass.events;
        let reaped_any = pass.to_reap.len() > 0;
        self.reap(pass.to_reap, now, reaper);
        proof {
            lemma_questions_kept(self@, Seq::empty(), leaving_views(pass.to_park@), now);
        }
        self.park(pass.to_park, reaper);
        self.prune_finished(now);
        if reaped_any {
            self.prune_questions();
        }
        self.announce(&mut events);
        events
    }
}

/// A run that looks as it did when it was last reported is not reported again.
pub proof fn law_unchanged_run_is_silent(run_id: Seq<char>, agent: AgentView)
    ensures
        changes(run_id, agent, Some(snapshot(agent))) == Seq::<EventView>::empty(),
{
    assert(changes(run_id, agent, Some(snapshot(agent))) =~= Seq::empty());
}

/// No change goes unreported: where anything that is reported of a run differs from the
/// last report, there is an event.
pub proof fn law_every_change_is_reported(run_id: Seq<char>, before: AgentView, after: AgentView)
    ensures
        snapshot(before) != snapshot(after) ==> changes(
            run_id,
            after,
            Some(snapshot(before)),
        ).len() > 0,
{
    reveal_strlit("idle");
    reveal_strlit("active");
    reveal_strlit("waiting");
    reveal_strlit("paused");
    reveal_strlit("complete");
    reveal_strlit("error");
    reveal_strlit("cancelled");
    if before.state.status.label_of() == after.state.status.label_of() {
        assert(before.state.status.label_of().len() == after.state.status.label_of().len());
        assert(before.state.status.terminal() == after.state.status.terminal());
    }
}

/// Every event about a run names that run.
pub proof fn law_events_name_their_run(
    run_id: Seq<char>,
    agent: AgentView,
    prev: Option<EmittedView>,
)
    ensures
        forall|i: int|
            0 <= i < changes(run_id, agent, prev).len() ==> (#[trigger] changes(
                run_id,
                agent,
                prev,
            )[i]).run() == run_id,
{
}

/// A run's end is reported exactly once: when it is over and the last report said
/// otherwise. After that report it no longer is.
pub proof fn law_end_is_reported_once(run_id: Seq<char>, agent: AgentView, prev: Option<EmittedView>)
    ensures
        changes(run_id, agent, prev).contains(completed_event(run_id, agent)) <==> (
        agent.state.status.terminal() && !was_terminal(prev)),
        was_terminal(Some(snapshot(agent))) == agent.state.status.terminal(),
{
    let all = changes(run_id, agent, prev);
    if agent.state.status.terminal() && !was_terminal(prev) {
        assert(all.last() == completed_event(run_id, agent));
    }
}

/// No run leaves the world before its end was reported, nor while a parent could
/// still be waiting for it; and no run that is waiting leaves at all.
pub proof fn law_only_settled_runs_leave(
    h: HostView,
    p: PassView,
    run_id: Seq<char>,
    e: Entity,
    agent: AgentView,
)
    ensures
        ({
            let after = looked_at(h, p, run_id, e, agent);
            &&& after.to_reap != p.to_reap ==> agent.state.status.terminal() && was_terminal(
                lookup(p.emitted, run_id),
            ) && no_live_parent(h.world, agent)
            &&& after.to_park != p.to_park ==> agent.state.status is Paused && h.can_reload
            &&& agent.state.status is Waiting ==> after.to_reap == p.to_reap && after.to_park
                == p.to_park
        }),
{
}

/// A run that is paged out keeps its row, under its run id.
pub proof fn law_parked_run_keeps_its_row(h: HostView, runs: Seq<Leaving>, run: Leaving)
    ensures
        lookup(all_parked(h, runs.push(run)).parked, run.0) == Some(run.2),
{
    assert(runs.push(run).drop_last() =~= runs);
    let out = unloaded(all_parked(h, runs), run.0, run.1);
    crate::table::lemma_inserted(out.parked, run.0, run.2, run.0);
}

/// Whether what was last reported of every run is how it is now.
pub open spec fn up_to_date(h: HostView) -> bool {
    forall|i: int|
        0 <= i < h.by_run_id.len() && agent_at(h.world, (#[trigger] h.by_run_id[i]).1) is Some
            ==> lookup(h.emitted, h.by_run_id[i].0) == Some(
            snapshot(agent_at(h.world, h.by_run_id[i].1)->0),
        )
}

/// Looking at runs of which nothing changed gives no event.
proof fn lemma_silent_look(h: HostView, runs: Seq<(Seq<char>, Entity)>)
    requires
        forall|i: int|
            0 <= i < runs.len() && agent_at(h.world, (#[trigger] runs[i]).1) is Some ==> lookup(
                h.emitted,
                runs[i].0,
            ) == Some(snapshot(agent_at(h.world, runs[i].1)->0)),
    ensures
        looked(h, runs).events == Seq::<EventView>::empty(),
        forall|asked: Seq<char>|
            lookup(#[trigger] looked(h, runs).emitted, asked) == #[trigger] lookup(
                h.emitted,
                asked,
            ),
    decreases runs.len(),
{
    if runs.len() > 0 {
        let front = runs.drop_last();
        assert forall|i: int|
            0 <= i < front.len() && agent_at(h.world, (#[trigger] front[i]).1)
                is Some implies lookup(h.emitted, front[i].0) == Some(
            snapshot(agent_at(h.world, front[i].1)->0),
        ) by {
            assert(runs[i] == front[i]);
        }
        lemma_silent_look(h, front);
        let p = looked(h, front);
        let (run_id, e) = runs.last();
        assert(runs[runs.len() - 1] == runs.last());
        match agent_at(h.world, e) {
            Some(agent) => {
                assert(lookup(p.emitted, run_id) == lookup(h.emitted, run_id));
                law_unchanged_run_is_silent(run_id, agent);
                assert(looked(h, runs).events =~= Seq::empty());
                assert forall|asked: Seq<char>|
                    lookup(#[trigger] looked(h, runs).emitted, asked) == #[trigger] lookup(
                        h.emitted,
                        asked,
                    ) by {
                    crate::table::lemma_inserted(p.emitted, run_id, snapshot(agent), asked);
                    assert(lookup(p.emitted, asked) == lookup(h.emitted, asked));
                }
            },
            None => {},
        }
    }
}

/// Forgetting closed questions keeps the open ones.
proof fn lemma_still_open(ids: Seq<Seq<char>>, open: Seq<(Seq<char>, RequestView)>, id: Seq<char>)
    requires
        ids.contains(id),
        is_open(open, id),
    ensures
        still_open(ids, open).contains(id),
    decreases ids.len(),
{
    let left = still_open(ids, open);
    let front = ids.drop_last();
    let k = choose|k: int| 0 <= k < ids.len() && ids[k] == id;
    if k == ids.len() - 1 {
        assert(left[left.len() - 1] == id);
    } else {
        assert(front[k] == id);
        lemma_still_open(front, open, id);
        let m = choose|m: int|
            0 <= m < still_open(front, open).len() && still_open(front, open)[m] == id;
        assert(left[m] == id);
    }
}

/// Questions that were all reported are not reported again.
proof fn lemma_silent_questions(known: Seq<Seq<char>>, open: Seq<(Seq<char>, RequestView)>)
    requires
        forall|i: int| 0 <= i < open.len() ==> known.contains((#[trigger] open[i]).1.id),
    ensures
        announced(known, open) == (known, Seq::<EventView>::empty()),
    decreases open.len(),
{
    if open.len() > 0 {
        let front = open.drop_last();
        assert forall|i: int| 0 <= i < front.len() implies known.contains(
            (#[trigger] front[i]).1.id,
        ) by {
            assert(open[i] == front[i]);
        }
        lemma_silent_questions(known, front);
        assert(open[open.len() - 1] == open.last());
    }
}

/// A pass over a world in which nothing changed reports nothing.
pub proof fn law_quiet_world_is_silent(h: HostView)
    requires
        adopted(h, h.world.len()) == h,
        up_to_date(h),
        forall|i: int|
            0 <= i < h.interactions.len() ==> h.emitted_interactions.contains(
                (#[trigger] h.interactions[i]).1.id,
            ),
    ensures
        report_events(h) == Seq::<EventView>::empty(),
{
    lemma_silent_look(h, h.by_run_id);
    let left = still_open(h.emitted_interactions, h.interactions);
    assert forall|i: int| 0 <= i < h.interactions.len() implies left.contains(
        (#[trigger] h.interactions[i]).1.id,
    ) by {
        assert(is_open(h.interactions, h.interactions[i].1.id));
        lemma_still_open(h.emitted_interactions, h.interactions, h.interactions[i].1.id);
    }
    lemma_silent_questions(left, h.interactions);
    lemma_silent_questions(h.emitted_interactions, h.interactions);
    assert(report_events(h) =~= Seq::empty());
}

/// The run id of the agent at a place, where it has one.
pub open spec fn run_at(world: Seq<Option<AgentView>>, e: Entity) -> Option<Seq<char>> {
    match agent_at(world, e) {
        Some(agent) => match agent.metadata {
            Some(metadata) => Some(metadata.run_id@),
            None => None,
        },
        None => None,
    }
}

/// After runs are registered, an agent is found under its run id however it came
/// into the world, unless another agent claims the same id.
pub proof fn law_every_agent_is_known(h: HostView, n: nat, e: Entity)
    requires
        e < n <= h.world.len(),
        h.world.len() <= usize::MAX,
        run_at(h.world, e) is Some,
        forall|other: Entity| other != e ==> run_at(h.world, other) != run_at(h.world, e),
    ensures
        live(adopted(h, n), run_at(h.world, e)->0) == Some(e),
    decreases n,
{
    let run_id = run_at(h.world, e)->0;
    let before = adopted(h, (n - 1) as nat);
    lemma_adopted(h, (n - 1) as nat);
    if e < n - 1 {
        law_every_agent_is_known(h, (n - 1) as nat, e);
        let other = (n - 1) as usize;
        assert(run_at(h.world, other) != run_at(h.world, e));
        if run_at(h.world, other) is Some {
            crate::table::lemma_inserted(
                before.by_run_id,
                run_at(h.world, other)->0,
                other,
                run_id,
            );
        }
    } else {
        crate::table::lemma_inserted(before.by_run_id, run_id, e, run_id);
    }
}

} // verus!
