//! Driving a parked fan-out parent: finished workers are reaped, pending ones
//! started, and the results handed to the parent once nothing is left to wait for.

use vstd::prelude::*;

use crate::blueprint::{stage_at, FanOutConfig, WorkerFailurePolicy};
use crate::components::{
    AgentStatus, Entity, ParentRef, ParentRefView, RunMetadata, RunStatus, StatusView,
    SubAgentChildren, SubAgentChildrenView,
};
use crate::context::{region_at, WindowView};
use crate::fanout::split_parse::{WorkItem, WorkItemView};
use crate::fanout::{
    add_results, build_report, pair_views, report, with_results, worker_views, ActiveWorker,
    ActiveWorkerView, FanOutWaiting, FanOutWaitingView, DEFAULT_FANOUT_DEPTH,
};
use crate::json::Json;
use crate::stages::{enter_stage, entered, prompted};
use crate::text::{decimal, decimal_text};
use crate::world::{agent_at, agent_with_status, opt_view, Agent, AgentView, World};
use vstd::multiset::Multiset;

verus! {

/// Whether the stage an agent sits in demands a final output.
pub open spec fn owes_output(agent: AgentView) -> bool {
    match (agent.blueprint, agent.cursor) {
        (Some(blueprint), Some(index)) => index < blueprint.stages@.len()
            && blueprint.stages@[index as int].require_output,
        _ => false,
    }
}

/// What a worker that is done contributes: its answer, or why it failed. `None`
/// while it is still running.
pub open spec fn terminal_result(agent: Option<AgentView>) -> Option<
    Result<Seq<char>, Seq<char>>,
> {
    match agent {
        None => Some(Err("worker vanished"@)),
        Some(agent) => match agent.state.status {
            StatusView::Complete => Some(
                match agent.final_output {
                    Some(output) => Ok(output.content@),
                    None => if owes_output(agent) {
                        Err("worker finished without the final output its stage requires"@)
                    } else {
                        match agent.inference {
                            Some(inference) => Ok(inference.response),
                            None => Ok(Seq::empty()),
                        }
                    },
                },
            ),
            StatusView::Error { message } => Some(Err(message)),
            StatusView::Cancelled => Some(Err("worker cancelled"@)),
            _ => None,
        },
    }
}

/// Whether the stage this worker sits in demands a final output.
pub fn worker_requires_output(world: &World, worker: Entity) -> (b: bool)
    ensures
        b == match agent_at(world@, worker) {
            Some(agent) => owes_output(agent),
            None => false,
        },
{
    match world.get(worker) {
        Some(agent) => match (&agent.blueprint, agent.cursor) {
            (Some(blueprint), Some(index)) => index < blueprint.stages.len()
                && blueprint.stages[index].require_output,
            _ => false,
        },
        None => false,
    }
}

/// What a worker that is done contributes: its answer, or why it failed.
pub fn worker_terminal_result(world: &World, worker: Entity) -> (result: Option<
    Result<String, String>,
>)
    ensures
        match (result, terminal_result(agent_at(world@, worker))) {
            (None, None) => true,
            (Some(Ok(content)), Some(Ok(text))) => content@ == text,
            (Some(Err(reason)), Some(Err(text))) => reason@ == text,
            _ => false,
        },
{
    match world.get(worker) {
        None => Some(Err("worker vanished".to_owned())),
        Some(agent) => match &agent.state.status {
            AgentStatus::Complete => match &agent.final_output {
                Some(output) => Some(Ok(output.content.clone())),
                None => if worker_requires_output(world, worker) {
                    Some(
                        Err(
                            "worker finished without the final output its stage requires".to_owned(),
                        ),
                    )
                } else {
                    match &agent.inference {
                        Some(inference) => Some(Ok(inference.response.clone())),
                        None => Some(Ok(String::new())),
                    }
                },
            },
            AgentStatus::Error { message } => Some(Err(message.clone())),
            AgentStatus::Cancelled => Some(Err("worker cancelled".to_owned())),
            _ => None,
        },
    }
}

/// The world after a worker's result is consumed.
pub open spec fn marked(world: Seq<Option<AgentView>>, e: Entity) -> Seq<Option<AgentView>> {
    match agent_at(world, e) {
        Some(agent) => world.update(
            e as int,
            Some(AgentView { merged_worker: true, ..agent }),
        ),
        None => world,
    }
}

/// Marks a worker whose result is consumed.
fn mark_merged(world: &mut World, e: Entity)
    ensures
        final(world)@ == marked(old(world)@, e),
{
    if e < world.agents.len() {
        if let Some(agent) = &mut world.agents[e] {
            agent.merged_worker = true;
        }
    }
    proof {
        assert(world@ =~= marked(old(world)@, e));
    }
}

impl FanOutWaitingView {
    /// With one more running worker.
    pub open spec fn running(self, worker: ActiveWorkerView) -> FanOutWaitingView {
        FanOutWaitingView { active: self.active.push(worker), ..self }
    }

    /// With one more answer.
    pub open spec fn succeeding(self, id: Seq<char>, content: Seq<char>) -> FanOutWaitingView {
        FanOutWaitingView { summaries: self.summaries.push((id, content)), ..self }
    }

    /// With one more failure.
    pub open spec fn failing(self, id: Seq<char>, reason: Seq<char>) -> FanOutWaitingView {
        FanOutWaitingView { failures: self.failures.push((id, reason)), ..self }
    }
}

/// The world and the parent's record after some of its workers were looked at:
/// those that are done have handed in their result, the others go on running.
pub open spec fn reaped(
    world: Seq<Option<AgentView>>,
    w: FanOutWaitingView,
    workers: Seq<ActiveWorkerView>,
) -> (Seq<Option<AgentView>>, FanOutWaitingView)
    decreases workers.len(),
{
    if workers.len() == 0 {
        (world, FanOutWaitingView { active: Seq::empty(), ..w })
    } else {
        let (world, w) = reaped(world, w, workers.drop_last());
        let worker = workers.last();
        match terminal_result(agent_at(world, worker.entity)) {
            None => (world, w.running(worker)),
            Some(Ok(content)) => (
                marked(world, worker.entity),
                w.succeeding(worker.item_id, content),
            ),
            Some(Err(reason)) => (marked(world, worker.entity), w.failing(worker.item_id, reason)),
        }
    }
}

/// Reaps the workers that are done.
pub fn reap_workers(world: &mut World, w: &mut FanOutWaiting)
    ensures
        (final(world)@, final(w)@) == reaped(old(world)@, old(w)@, old(w)@.active),
{
    let ghost world0 = world@;
    let ghost w0 = w@;
    let mut workers: Vec<ActiveWorker> = Vec::new();
    std::mem::swap(&mut w.active, &mut workers);
    let ghost all = workers@;
    let ghost views = worker_views(all);
    proof {
        assert(views.take(0) =~= Seq::empty());
        assert(worker_views(w.active@) =~= Seq::empty());
    }
    for worker in it: workers
        invariant
            it.seq() == all,
            views == worker_views(all),
            (world@, w@) == reaped(world0, w0, views.take(it.index() as int)),
    {
        let ghost n = it.index() as int;
        let ghost before = *w;
        proof {
            assert(views.take(n + 1).drop_last() =~= views.take(n));
            assert(views.take(n + 1).last() == worker@);
        }
        let entity: usize = worker.entity;
        match worker_terminal_result(world, entity) {
            Some(Ok(content)) => {
                w.summaries.push((worker.item_id, content));
                proof {
                    assert(pair_views(w.summaries@) =~= pair_views(before.summaries@).push(
                        (worker.item_id@, content@),
                    ));
                }
                mark_merged(world, entity);
            },
            Some(Err(reason)) => {
                w.failures.push((worker.item_id, reason));
                proof {
                    assert(pair_views(w.failures@) =~= pair_views(before.failures@).push(
                        (worker.item_id@, reason@),
                    ));
                }
                mark_merged(world, entity);
            },
            None => {
                w.active.push(worker);
                proof {
                    assert(worker_views(w.active@) =~= worker_views(before.active@).push(worker@));
                }
            },
        }
    }
    proof {
        assert(views.take(views.len() as int) =~= views);
    }
}

/// A worker that was made for a work item: its record, and what its launch says
/// of its run.
pub struct NewWorker {
    pub agent: Agent,
    pub metadata: RunMetadata,
}

/// Makes the worker for a fan-out work item. Which blueprint the worker runs is
/// the implementor's to resolve, from the configuration's agent, stage or query;
/// placing the worker in the world and linking it to its parent is not.
pub trait FanOutSpawner {
    /// The worker for an item, or a human-readable reason why there is none.
    fn spawn_worker(
        &self,
        world: &World,
        parent: Entity,
        config: &FanOutConfig,
        item_id: &str,
        item_context: &Json,
    ) -> (worker: Result<NewWorker, String>);

    /// The worker with its context seeded from its parent's, as their blueprints declare.
    fn seed_worker(&self, world: &World, parent: Entity, worker: Agent) -> (seeded: Agent);
}

/// How deep below the root an agent's children may be.
pub open spec fn child_limit(parent: AgentView) -> nat {
    match parent.children {
        Some(children) => children.max_child_depth,
        None => match parent.blueprint {
            Some(blueprint) => match blueprint.max_child_depth {
                Some(depth) => depth as nat,
                None => DEFAULT_FANOUT_DEPTH as nat,
            },
            None => DEFAULT_FANOUT_DEPTH as nat,
        },
    }
}

/// How deep below the root an agent is.
pub open spec fn depth_of(agent: AgentView) -> nat {
    match agent.parent {
        Some(parent) => parent.depth,
        None => 0,
    }
}

/// Why no worker is started below a parent that is as deep as it may be.
pub open spec fn depth_refusal(limit: nat) -> Seq<char> {
    "fan-out worker depth limit ("@ + decimal(limit) + ") reached; not spawning"@
}

/// The record of a worker below its parent.
pub open spec fn adopted(worker: NewWorker, parent: Entity, of: AgentView) -> AgentView {
    AgentView {
        metadata: Some(worker.metadata),
        parent: Some(
            ParentRefView {
                parent_entity: parent,
                parent_agent_id: of.state.agent_id,
                depth: depth_of(of) + 1,
            },
        ),
        ..worker.agent@
    }
}

/// The record of a parent with one more child.
pub open spec fn with_child(parent: AgentView, child: Entity, run_id: Seq<char>) -> AgentView {
    AgentView {
        children: Some(
            SubAgentChildrenView {
                children: match parent.children {
                    Some(children) => children.children.push(child),
                    None => seq![child],
                },
                max_child_depth: child_limit(parent),
            },
        ),
        state: crate::components::AgentStateView {
            spawned_children_ids: parent.state.spawned_children_ids.push(run_id),
            ..parent.state
        },
        ..parent
    }
}

/// The world with a new worker below a parent.
pub open spec fn linked(
    world: Seq<Option<AgentView>>,
    parent: Entity,
    worker: NewWorker,
) -> Seq<Option<AgentView>> {
    let of = world[parent as int]->0;
    world.update(
        parent as int,
        Some(with_child(of, world.len() as usize, worker.metadata.run_id@)),
    ).push(Some(adopted(worker, parent, of)))
}

/// How deep below the root an agent's children may be.
fn child_depth_limit(parent: &Agent) -> (limit: usize)
    ensures
        limit == child_limit(parent@),
{
    match &parent.children {
        Some(children) => children.max_child_depth,
        None => match &parent.blueprint {
            Some(blueprint) => match blueprint.max_child_depth {
                Some(depth) => depth,
                None => DEFAULT_FANOUT_DEPTH,
            },
            None => DEFAULT_FANOUT_DEPTH,
        },
    }
}

/// How deep below the root an agent is.
fn agent_depth(agent: &Agent) -> (depth: usize)
    ensures
        depth == depth_of(agent@),
{
    match &agent.parent {
        Some(parent) => parent.depth,
        None => 0,
    }
}

/// Records a child in its parent.
fn add_child(parent: &mut Agent, child: Entity, run_id: String)
    ensures
        final(parent)@ == with_child(old(parent)@, child, run_id@),
{
    let ghost before = parent@;
    let limit: usize = child_depth_limit(parent);
    let mut children: Vec<Entity> = match parent.children.take() {
        Some(children) => children.children,
        None => Vec::new(),
    };
    children.push(child);
    proof {
        assert(children@ =~= match before.children {
            Some(c) => c.children.push(child),
            None => seq![child],
        });
    }
    parent.children = Some(SubAgentChildren { children, max_child_depth: limit });
    let ghost ids = parent.state.spawned_children_ids@;
    parent.state.spawned_children_ids.push(run_id);
    proof {
        assert(crate::text::texts(parent.state.spawned_children_ids@) =~= crate::text::texts(
            ids,
        ).push(run_id@));
    }
}

/// Places a new worker in the world and links it to its parent, both ways. The
/// worker's run id is kept with the parent's state, so that the tree can be
/// rebuilt after a restart.
pub fn link_worker(world: &mut World, parent: Entity, worker: NewWorker) -> (child: Entity)
    requires
        agent_at(old(world)@, parent) is Some,
        depth_of(agent_at(old(world)@, parent)->0) < usize::MAX,
    ensures
        child == old(world)@.len(),
        final(world)@ == linked(old(world)@, parent, worker),
{
    let ghost before = world@;
    let child: usize = world.agents.len();
    let mut agent = worker.agent;
    let ghost made = agent@;
    let run_id = worker.metadata.run_id.clone();
    agent.metadata = Some(worker.metadata);
    if let Some(of) = &mut world.agents[parent] {
        let link = ParentRef {
            parent_entity: parent,
            parent_agent_id: of.state.agent_id.clone(),
            depth: agent_depth(of) + 1,
        };
        agent.parent = Some(link);
        add_child(of, child, run_id);
    }
    proof {
        assert(agent@ =~= adopted(worker, parent, before[parent as int]->0));
    }
    world.agents.push(Some(agent));
    proof {
        assert(world@ =~= linked(before, parent, worker));
    }
    child
}

/// Whether a spawner may seed a worker this way.
pub open spec fn worker_seeded<S: FanOutSpawner>(
    spawner: S,
    world: Seq<Option<AgentView>>,
    parent: Entity,
    worker: NewWorker,
    seeded: NewWorker,
) -> bool {
    &&& seeded.metadata == worker.metadata
    &&& exists|snapshot: World|
        {
            &&& snapshot@ == world
            &&& #[trigger] call_ensures(
                S::seed_worker,
                (&spawner, &snapshot, parent, worker.agent),
                seeded.agent,
            )
        }
}

/// Whether a spawner, asked for the worker of an item, may answer `made` before the
/// worker is seeded.
pub open spec fn answered_by<S: FanOutSpawner>(
    spawner: S,
    world: Seq<Option<AgentView>>,
    parent: Entity,
    config: FanOutConfig,
    item: WorkItemView,
    made: Result<NewWorker, String>,
) -> bool {
    exists|snapshot: World, id: &str, context: Json|
        {
            &&& snapshot@ == world
            &&& id@ == item.id
            &&& context@ == item.context
            &&& #[trigger] call_ensures(
                S::spawn_worker,
                (&spawner, &snapshot, parent, &config, id, &context),
                made,
            )
        }
}

/// Whether a spawner, asked for the worker of an item and then to seed it, may have given
/// `made`.
pub open spec fn spawned_by<S: FanOutSpawner>(
    spawner: S,
    world: Seq<Option<AgentView>>,
    parent: Entity,
    config: FanOutConfig,
    item: WorkItemView,
    made: Result<NewWorker, String>,
) -> bool {
    match made {
        Ok(seeded) => exists|worker: NewWorker|
            {
                &&& #[trigger] worker_seeded(spawner, world, parent, worker, seeded)
                &&& answered_by(
                    spawner,
                    world,
                    parent,
                    config,
                    item,
                    Ok::<NewWorker, String>(worker),
                )
            },
        Err(_) => answered_by(spawner, world, parent, config, item, made),
    }
}

/// Whether a parent is as deep as a parent may be.
pub open spec fn too_deep(parent: AgentView) -> bool {
    depth_of(parent) >= child_limit(parent)
}

/// How one attempt to start a worker went.
pub enum Started {
    /// The parent may have no children.
    TooDeep,
    /// There is nothing that makes workers.
    NoSpawner,
    /// The spawner was asked.
    Asked(Result<NewWorker, String>),
}

/// Whether an attempt to start the worker of an item may go this way.
pub open spec fn attempt<S: FanOutSpawner>(
    spawner: Option<&S>,
    world: Seq<Option<AgentView>>,
    parent: Entity,
    config: FanOutConfig,
    item: WorkItemView,
    started: Started,
) -> bool {
    if too_deep(world[parent as int]->0) {
        started is TooDeep
    } else {
        match spawner {
            None => started is NoSpawner,
            Some(s) => started is Asked && spawned_by(
                *s,
                world,
                parent,
                config,
                item,
                started->Asked_0,
            ),
        }
    }
}

/// The world after an attempt to start a worker.
pub open spec fn placed(
    world: Seq<Option<AgentView>>,
    parent: Entity,
    started: Started,
) -> Seq<Option<AgentView>> {
    match started {
        Started::Asked(Ok(worker)) => linked(world, parent, worker),
        _ => world,
    }
}

/// Why an attempt to start a worker failed, if it did.
pub open spec fn refusal(parent: AgentView, started: Started) -> Option<Seq<char>> {
    match started {
        Started::TooDeep => Some(depth_refusal(child_limit(parent))),
        Started::NoSpawner => Some("no fan-out spawner installed"@),
        Started::Asked(Err(reason)) => Some(reason@),
        Started::Asked(Ok(_)) => None,
    }
}

/// Starts the worker of an item below a parent, unless the parent is as deep as it
/// may be. The worker's place is returned, or why there is none.
pub fn start_worker<S: FanOutSpawner>(
    world: &mut World,
    parent: Entity,
    config: &FanOutConfig,
    item: &WorkItem,
    spawner: Option<&S>,
) -> (child: Result<Entity, String>)
    requires
        agent_at(old(world)@, parent) is Some,
    ensures
        exists|started: Started|
            {
                &&& #[trigger] attempt(spawner, old(world)@, parent, *config, item@, started)
                &&& final(world)@ == placed(old(world)@, parent, started)
                &&& match child {
                    Ok(e) => e == old(world)@.len() && refusal(
                        old(world)@[parent as int]->0,
                        started,
                    ) is None,
                    Err(reason) => refusal(old(world)@[parent as int]->0, started) == Some(reason@),
                }
            },
{
    let ghost before = world@;
    let (limit, depth): (usize, usize) = match world.get(parent) {
        Some(agent) => (child_depth_limit(agent), agent_depth(agent)),
        None => (0, 0),
    };
    if depth >= limit {
        let mut message = "fan-out worker depth limit (".to_owned();
        message.append(decimal_text(limit as u64).as_str());
        message.append(") reached; not spawning");
        assert(attempt(spawner, before, parent, *config, item@, Started::TooDeep));
        return Err(message);
    }
    match spawner {
        None => {
            assert(attempt(spawner, before, parent, *config, item@, Started::NoSpawner));
            Err("no fan-out spawner installed".to_owned())
        },
        Some(s) => {
            let made = s.spawn_worker(world, parent, config, item.id.as_str(), &item.context);
            assert(answered_by(*s, before, parent, *config, item@, made));
            match made {
                Ok(worker) => {
                    let ghost bare = worker;
                    let agent = s.seed_worker(world, parent, worker.agent);
                    let seeded = NewWorker { agent, metadata: worker.metadata };
                    let ghost went = Started::Asked(Ok(seeded));
                    assert(worker_seeded(*s, before, parent, bare, seeded));
                    assert(attempt(spawner, before, parent, *config, item@, went));
                    Ok(link_worker(world, parent, seeded))
                },
                Err(reason) => {
                    assert(attempt(spawner, before, parent, *config, item@, Started::Asked(made)));
                    Err(reason)
                },
            }
        },
    }
}

/// The world and the parent's record after an attempt to start the worker that is
/// first in line.
pub open spec fn after_start(
    world: Seq<Option<AgentView>>,
    parent: Entity,
    w: FanOutWaitingView,
    started: Started,
) -> (Seq<Option<AgentView>>, FanOutWaitingView) {
    let id = w.pending[0].id;
    let rest = FanOutWaitingView { pending: w.pending.skip(1), ..w };
    (
        placed(world, parent, started),
        match refusal(world[parent as int]->0, started) {
            Some(reason) => rest.failing(id, reason),
            None => rest.running(
                ActiveWorkerView {
                    item_id: id,
                    entity: world.len() as usize,
                    run_id: started->Asked_0->Ok_0.metadata.run_id@,
                },
            ),
        },
    )
}

/// The world and the parent's record after several attempts, one after the other.
pub open spec fn after_starts(
    world: Seq<Option<AgentView>>,
    parent: Entity,
    w: FanOutWaitingView,
    attempts: Seq<Started>,
) -> (Seq<Option<AgentView>>, FanOutWaitingView)
    decreases attempts.len(),
{
    if attempts.len() == 0 {
        (world, w)
    } else {
        let (world, w) = after_starts(world, parent, w, attempts.drop_last());
        after_start(world, parent, w, attempts.last())
    }
}

/// Whether there is an item to start and a free place for its worker.
pub open spec fn may_start(w: FanOutWaitingView) -> bool {
    w.active.len() < w.max_workers && w.pending.len() > 0
}

/// Whether the attempt at a position was due, and may have gone as it did.
pub open spec fn attempt_due<S: FanOutSpawner>(
    spawner: Option<&S>,
    world: Seq<Option<AgentView>>,
    parent: Entity,
    w: FanOutWaitingView,
    attempts: Seq<Started>,
    i: int,
) -> bool {
    let (world, w) = after_starts(world, parent, w, attempts.take(i));
    may_start(w) && attempt(spawner, world, parent, w.config, w.pending[0], attempts[i])
}

/// Whether these are the attempts of one pass: as many as there are free places
/// and items for them.
pub open spec fn attempts_of_pass<S: FanOutSpawner>(
    spawner: Option<&S>,
    world: Seq<Option<AgentView>>,
    parent: Entity,
    w: FanOutWaitingView,
    attempts: Seq<Started>,
) -> bool {
    &&& forall|i: int|
        0 <= i < attempts.len() ==> #[trigger] attempt_due(spawner, world, parent, w, attempts, i)
    &&& !may_start(after_starts(world, parent, w, attempts).1)
}

/// Starts pending workers while there are free places.
pub fn start_pending<S: FanOutSpawner>(
    world: &mut World,
    parent: Entity,
    w: &mut FanOutWaiting,
    spawner: Option<&S>,
)
    requires
        agent_at(old(world)@, parent) is Some,
    ensures
        agent_at(final(world)@, parent) is Some,
        exists|attempts: Seq<Started>|
            {
                &&& #[trigger] attempts_of_pass(spawner, old(world)@, parent, old(w)@, attempts)
                &&& (final(world)@, final(w)@) == after_starts(
                    old(world)@,
                    parent,
                    old(w)@,
                    attempts,
                )
            },
{
    let ghost world0 = world@;
    let ghost w0 = w@;
    let ghost mut attempts: Seq<Started> = Seq::empty();
    while w.active.len() < w.max_workers && w.pending.len() > 0
        invariant
            agent_at(world@, parent) is Some,
            (world@, w@) == after_starts(world0, parent, w0, attempts),
            forall|i: int|
                0 <= i < attempts.len() ==> #[trigger] attempt_due(
                    spawner,
                    world0,
                    parent,
                    w0,
                    attempts,
                    i,
                ),
        decreases w.pending@.len(),
    {
        let ghost before = *w;
        let ghost here = world@;
        if let Some(item) = w.pending.pop_front() {
            let config = w.config.clone();
            let child = start_worker(world, parent, &config, &item, spawner);
            let ghost went = choose|started: Started|
                {
                    &&& #[trigger] attempt(spawner, here, parent, config, item@, started)
                    &&& world@ == placed(here, parent, started)
                    &&& match child {
                        Ok(e) => e == here.len() && refusal(here[parent as int]->0, started)
                            is None,
                        Err(reason) => refusal(here[parent as int]->0, started) == Some(reason@),
                    }
                };
            proof {
                let more = attempts.push(went);
                assert(more.drop_last() =~= attempts);
                assert forall|i: int| 0 <= i < more.len() implies #[trigger] attempt_due(
                    spawner,
                    world0,
                    parent,
                    w0,
                    more,
                    i,
                ) by {
                    if i < attempts.len() {
                        assert(more.take(i) =~= attempts.take(i));
                        assert(attempt_due(spawner, world0, parent, w0, attempts, i));
                    } else {
                        assert(more.take(i) =~= attempts);
                        assert(before@.pending[0] == item@);
                    }
                }
                attempts = more;
                assert(w@.pending =~= before@.pending.skip(1));
            }
            match child {
                Ok(entity) => {
                    let run_id = match world.get(entity) {
                        Some(agent) => match &agent.metadata {
                            Some(metadata) => metadata.run_id.clone(),
                            None => String::new(),
                        },
                        None => String::new(),
                    };
                    w.active.push(ActiveWorker { item_id: item.id, entity, run_id });
                    proof {
                        assert(worker_views(w.active@) =~= worker_views(before.active@).push(
                            w.active@.last()@,
                        ));
                    }
                },
                Err(reason) => {
                    w.failures.push((item.id, reason));
                    proof {
                        assert(pair_views(w.failures@) =~= pair_views(before.failures@).push(
                            (item.id@, reason@),
                        ));
                    }
                },
            }
        }
    }
    assert(attempts_of_pass(spawner, world0, parent, w0, attempts));
}

/// The budget of a region, where there is one of that name.
pub open spec fn region_budget(window: Option<WindowView>, region: Seq<char>) -> Option<usize> {
    match window {
        Some(w) => match region_at(w.regions, region) {
            Some(i) => Some(w.regions[i].max_tokens as usize),
            None => None,
        },
        None => None,
    }
}

/// The region that a fan-out's results are meant for.
pub open spec fn results_region(config: FanOutConfig) -> Seq<char> {
    match config.results_region {
        Some(name) => name@,
        None => "conversation"@,
    }
}

/// The position of the stage that reads a fan-out's results, if there is one.
pub open spec fn merge_position(parent: AgentView, config: FanOutConfig) -> Option<int> {
    match (config.merge_stage, parent.blueprint) {
        (Some(name), Some(blueprint)) => stage_at(blueprint.stages@, name@),
        _ => None,
    }
}

/// Why a run fails whose workers must all succeed.
pub open spec fn fail_all_reason(failures: nat) -> Seq<char> {
    "fan_out: "@ + decimal(failures) + " worker(s) failed (on_worker_failure = fail_all)"@
}

/// A parent that has the consolidated report and is to run again.
pub open spec fn told(parent: AgentView, w: FanOutWaitingView) -> AgentView {
    let region = results_region(w.config);
    let text = report(w.summaries, w.failures, region_budget(parent.window, region));
    AgentView {
        window: match parent.window {
            Some(window) => Some(with_results(window, region, text)),
            None => None,
        },
        ..agent_with_status(parent, StatusView::Active)
    }
}

/// A parent once nothing is left to wait for. Where every worker had to succeed
/// and one did not, the parent fails. Otherwise it has the consolidated report,
/// and goes on: in the merge stage, or wherever its own transition leads.
pub open spec fn finished(parent: AgentView, w: FanOutWaitingView) -> AgentView {
    if w.failures.len() > 0 && w.config.on_worker_failure == WorkerFailurePolicy::FailAll {
        agent_with_status(
            parent,
            StatusView::Error { message: fail_all_reason(w.failures.len()) },
        )
    } else {
        match merge_position(parent, w.config) {
            Some(i) => entered(told(parent, w), i as usize),
            None => AgentView { resolve_transition: true, ..told(parent, w) },
        }
    }
}

/// Hands the results to a parent, which is to run again.
fn tell(parent: &mut Agent, w: &FanOutWaiting)
    ensures
        final(parent)@ == told(old(parent)@, w@),
{
    let ghost before = parent@;
    let region = match &w.config.results_region {
        Some(name) => name.as_str(),
        None => "conversation",
    };
    let budget: Option<usize> = match &parent.window {
        Some(window) => match window.get_region(region) {
            Some(r) => Some(r.max_tokens),
            None => None,
        },
        None => None,
    };
    let text = build_report(&w.summaries, &w.failures, budget);
    if let Some(window) = &mut parent.window {
        add_results(window, region, text.as_str());
    }
    parent.state.status = AgentStatus::Active;
    assert(parent@ =~= told(before, w@));
}

/// The position of the stage that reads a fan-out's results, if there is one.
fn find_merge_stage(parent: &Agent, config: &FanOutConfig) -> (found: Option<usize>)
    ensures
        match found {
            Some(i) => merge_position(parent@, *config) == Some(i as int),
            None => merge_position(parent@, *config) is None,
        },
{
    match (&config.merge_stage, &parent.blueprint) {
        (Some(name), Some(blueprint)) => blueprint.stage_index(name.as_str()),
        _ => None,
    }
}

/// Applies the failure policy, hands over the consolidated report and moves the
/// parent on.
pub fn finish_fan_out(parent: &mut Agent, w: FanOutWaiting)
    ensures
        final(parent)@ == finished(old(parent)@, w@),
{
    let fail_all = match w.config.on_worker_failure {
        WorkerFailurePolicy::FailAll => true,
        WorkerFailurePolicy::Continue => false,
    };
    if w.failures.len() > 0 && fail_all {
        let mut message = "fan_out: ".to_owned();
        message.append(decimal_text(w.failures.len() as u64).as_str());
        message.append(" worker(s) failed (on_worker_failure = fail_all)");
        parent.state.status = AgentStatus::Error { message };
        return ;
    }
    let merge: Option<usize> = find_merge_stage(parent, &w.config);
    tell(parent, &w);
    match merge {
        Some(i) => {
            enter_stage(parent, i);
        },
        None => {
            parent.resolve_transition = true;
        },
    }
}

/// The agent without its fan-out record.
pub open spec fn unparked(agent: AgentView) -> AgentView {
    AgentView { fan_out: None, ..agent }
}

/// Whether nothing is left to wait for.
pub open spec fn all_done(w: FanOutWaitingView) -> bool {
    w.active.len() == 0 && w.pending.len() == 0
}

/// A parent after its workers were reaped and started: finished where all are
/// done, parked again otherwise.
pub open spec fn resumed(agent: AgentView, w: FanOutWaitingView) -> AgentView {
    if all_done(w) {
        finished(agent, w)
    } else {
        AgentView { fan_out: Some(w), ..agent }
    }
}

/// The world after the workers of a parent were reaped and started.
pub open spec fn settled(
    world: Seq<Option<AgentView>>,
    parent: Entity,
    w: FanOutWaitingView,
) -> Seq<Option<AgentView>> {
    world.update(parent as int, Some(resumed(world[parent as int]->0, w)))
}

/// Whether `after` is the world once a parked parent has been driven. A parent
/// that no longer waits abandons its fan-out.
pub open spec fn driven<S: FanOutSpawner>(
    spawner: Option<&S>,
    world: Seq<Option<AgentView>>,
    parent: Entity,
    after: Seq<Option<AgentView>>,
) -> bool {
    let agent = world[parent as int]->0;
    let w = agent.fan_out->0;
    let taken = world.update(parent as int, Some(unparked(agent)));
    if !(agent.state.status is Waiting) {
        after == taken
    } else {
        let (world1, w1) = reaped(taken, w, w.active);
        exists|attempts: Seq<Started>|
            {
                &&& #[trigger] attempts_of_pass(spawner, world1, parent, w1, attempts)
                &&& ({
                    let (world2, w2) = after_starts(world1, parent, w1, attempts);
                    after == settled(world2, parent, w2)
                })
            }
    }
}

/// Reaping empties no place of the world and fills none.
proof fn lemma_reaped(
    world: Seq<Option<AgentView>>,
    w: FanOutWaitingView,
    workers: Seq<ActiveWorkerView>,
)
    ensures
        reaped(world, w, workers).0.len() == world.len(),
        forall|i: int|
            0 <= i < world.len() ==> ((#[trigger] reaped(world, w, workers).0[i]) is Some)
                == (world[i] is Some),
    decreases workers.len(),
{
    if workers.len() > 0 {
        lemma_reaped(world, w, workers.drop_last());
    }
}

/// Takes the fan-out record of a parent out of the world.
fn take_waiting(world: &mut World, parent: Entity) -> (taken: Option<FanOutWaiting>)
    requires
        agent_at(old(world)@, parent) is Some,
    ensures
        opt_view(taken) == old(world)@[parent as int]->0.fan_out,
        final(world)@ == old(world)@.update(
            parent as int,
            Some(unparked(old(world)@[parent as int]->0)),
        ),
{
    let ghost before = world@;
    let mut taken: Option<FanOutWaiting> = None;
    if let Some(agent) = &mut world.agents[parent] {
        taken = agent.fan_out.take();
    }
    proof {
        assert(world@ =~= before.update(
            parent as int,
            Some(unparked(before[parent as int]->0)),
        ));
    }
    taken
}

/// Finishes a parent whose workers are all done, and parks any other again.
fn resume(agent: &mut Agent, w: FanOutWaiting)
    ensures
        final(agent)@ == resumed(old(agent)@, w@),
{
    if w.active.len() == 0 && w.pending.len() == 0 {
        finish_fan_out(agent, w);
    } else {
        agent.fan_out = Some(w);
    }
}

/// Finishes the parent at a place, or parks it again.
fn settle(world: &mut World, parent: Entity, w: FanOutWaiting)
    requires
        agent_at(old(world)@, parent) is Some,
    ensures
        final(world)@ == settled(old(world)@, parent, w@),
{
    let ghost before = world@;
    if let Some(agent) = &mut world.agents[parent] {
        resume(agent, w);
    }
    proof {
        let want = settled(before, parent, w@);
        assert(world@.len() == want.len());
        assert forall|k: int| 0 <= k < want.len() implies #[trigger] world@[k] == want[k] by {}
        assert(world@ =~= want);
    }
}

/// Drives one parked parent: reaps the workers that are done, starts those that
/// are pending while there are free places, and finishes the fan-out once nothing
/// is left to wait for.
pub fn drive_parent<S: FanOutSpawner>(world: &mut World, parent: Entity, spawner: Option<&S>)
    requires
        agent_at(old(world)@, parent) is Some,
        agent_at(old(world)@, parent)->0.fan_out is Some,
    ensures
        driven(spawner, old(world)@, parent, final(world)@),
{
    let waiting = match world.agent_status(parent) {
        Some(AgentStatus::Waiting) => true,
        _ => false,
    };
    if let Some(w) = take_waiting(world, parent) {
        if waiting {
            let mut w = w;
            proof {
                lemma_reaped(world@, w@, w@.active);
            }
            reap_workers(world, &mut w);
            start_pending(world, parent, &mut w, spawner);
            settle(world, parent, w);
        }
    }
}

/// Whether one place of the world was driven, if a parked parent stands there.
pub open spec fn place_driven<S: FanOutSpawner>(
    spawner: Option<&S>,
    world: Seq<Option<AgentView>>,
    i: int,
    after: Seq<Option<AgentView>>,
) -> bool {
    if i < world.len() && world[i] is Some && world[i]->0.fan_out is Some {
        driven(spawner, world, i as usize, after)
    } else {
        after == world
    }
}

/// Whether the worlds are those of one pass over the first places, each after the
/// one before.
pub open spec fn pass<S: FanOutSpawner>(
    spawner: Option<&S>,
    worlds: Seq<Seq<Option<AgentView>>>,
) -> bool {
    forall|i: int|
        0 <= i < worlds.len() - 1 ==> place_driven(
            spawner,
            #[trigger] worlds[i],
            i,
            worlds[i + 1],
        )
}

/// Drives every parked parent, once each. Workers that are started take places
/// behind all those the world had.
pub fn fan_out_collect<S: FanOutSpawner>(world: &mut World, spawner: Option<&S>)
    ensures
        exists|worlds: Seq<Seq<Option<AgentView>>>|
            {
                &&& #[trigger] pass(spawner, worlds)
                &&& worlds.len() == old(world)@.len() + 1
                &&& worlds[0] == old(world)@
                &&& worlds.last() == final(world)@
            },
{
    let n: usize = world.agents.len();
    let ghost mut worlds: Seq<Seq<Option<AgentView>>> = seq![world@];
    let mut i: usize = 0;
    while i < n
        invariant
            i <= n,
            worlds.len() == i + 1,
            worlds[0] == old(world)@,
            worlds.last() == world@,
            pass(spawner, worlds),
        decreases n - i,
    {
        let ghost before = world@;
        let parked = match world.get(i) {
            Some(agent) => agent.fan_out.is_some(),
            None => false,
        };
        if parked {
            drive_parent(world, i, spawner);
        }
        proof {
            let more = worlds.push(world@);
            assert forall|k: int| 0 <= k < more.len() - 1 implies place_driven(
                spawner,
                #[trigger] more[k],
                k,
                more[k + 1],
            ) by {
                if k < worlds.len() - 1 {
                    assert(worlds[k] == more[k]);
                } else {
                    assert(more[k] == before);
                }
            }
            worlds = more;
        }
        i = i + 1;
    }
}

/// Whether what was last written of a run is its end.
pub open spec fn end_persisted(agent: AgentView) -> bool {
    match agent.watermark {
        Some(watermark) => match watermark.persisted_status {
            Some(status) => status is Complete || status is Error || status is Cancelled,
            None => false,
        },
        None => false,
    }
}

/// A merged worker once its end is written: without what only a running agent
/// needs.
pub open spec fn slimmed(agent: AgentView) -> AgentView {
    if agent.merged_worker && end_persisted(agent) {
        AgentView {
            window: None,
            inference: None,
            setups: None,
            blueprint: None,
            merged_worker: false,
            ..agent
        }
    } else {
        agent
    }
}

/// The world with its merged workers slimmed.
pub open spec fn all_slimmed(world: Seq<Option<AgentView>>) -> Seq<Option<AgentView>> {
    Seq::new(
        world.len(),
        |i: int|
            match world[i] {
                Some(agent) => Some(slimmed(agent)),
                None => None,
            },
    )
}

/// Drops the heavy parts of every merged worker whose end is written.
pub fn slim_merged_workers(world: &mut World)
    ensures
        final(world)@ == all_slimmed(old(world)@),
{
    let ghost before = world@;
    let mut i: usize = 0;
    while i < world.agents.len()
        invariant
            i <= world@.len(),
            world@.len() == before.len(),
            forall|k: int| 0 <= k < i ==> #[trigger] world@[k] == all_slimmed(before)[k],
            forall|k: int| i <= k < before.len() ==> #[trigger] world@[k] == before[k],
        decreases before.len() - i,
    {
        let ghost here = world@;
        assert(here[i as int] == before[i as int]);
        if let Some(agent) = &mut world.agents[i] {
            let ended = match &agent.watermark {
                Some(watermark) => match watermark.persisted_status {
                    Some(RunStatus::Complete) => true,
                    Some(RunStatus::Error) => true,
                    Some(RunStatus::Cancelled) => true,
                    _ => false,
                },
                None => false,
            };
            if agent.merged_worker && ended {
                agent.window = None;
                agent.inference = None;
                agent.setups = None;
                agent.blueprint = None;
                agent.merged_worker = false;
            }
        }
        proof {
            assert forall|k: int| 0 <= k < before.len() && k != i implies #[trigger] world@[k]
                == here[k] by {}
            assert(world@[i as int] == all_slimmed(before)[i as int]);
        }
        i = i + 1;
    }
    proof {
        assert(world@ =~= all_slimmed(before));
    }
}

/// The ids of pairs.
pub open spec fn ids_of_pairs(pairs: Seq<(Seq<char>, Seq<char>)>) -> Seq<Seq<char>> {
    Seq::new(pairs.len(), |i: int| pairs[i].0)
}

/// The ids of work items.
pub open spec fn ids_of_items(items: Seq<WorkItemView>) -> Seq<Seq<char>> {
    Seq::new(items.len(), |i: int| items[i].id)
}

/// The ids of workers' items.
pub open spec fn ids_of_workers(workers: Seq<ActiveWorkerView>) -> Seq<Seq<char>> {
    Seq::new(workers.len(), |i: int| workers[i].item_id)
}

/// The ids of all items of a fan-out: those waiting, running, done and failed.
pub open spec fn item_ids(w: FanOutWaitingView) -> Multiset<Seq<char>> {
    ids_of_items(w.pending).to_multiset().add(ids_of_workers(w.active).to_multiset()).add(
        ids_of_pairs(w.summaries).to_multiset(),
    ).add(ids_of_pairs(w.failures).to_multiset())
}

/// A record with one more worker, answer or failure has one more id.
proof fn lemma_one_more(
    w: FanOutWaitingView,
    worker: ActiveWorkerView,
    id: Seq<char>,
    text: Seq<char>,
)
    ensures
        item_ids(w.running(worker)) == item_ids(w).insert(worker.item_id),
        item_ids(w.succeeding(id, text)) == item_ids(w).insert(id),
        item_ids(w.failing(id, text)) == item_ids(w).insert(id),
{
    broadcast use vstd::seq_lib::group_to_multiset_ensures;

    assert(ids_of_workers(w.active.push(worker)) =~= ids_of_workers(w.active).push(worker.item_id));
    assert(ids_of_pairs(w.summaries.push((id, text))) =~= ids_of_pairs(w.summaries).push(id));
    assert(ids_of_pairs(w.failures.push((id, text))) =~= ids_of_pairs(w.failures).push(id));
    assert(item_ids(w.running(worker)) =~= item_ids(w).insert(worker.item_id));
    assert(item_ids(w.succeeding(id, text)) =~= item_ids(w).insert(id));
    assert(item_ids(w.failing(id, text)) =~= item_ids(w).insert(id));
}

/// Reaping some workers moves their ids, and no others.
proof fn lemma_reaped_ids(
    world: Seq<Option<AgentView>>,
    w: FanOutWaitingView,
    workers: Seq<ActiveWorkerView>,
)
    ensures
        item_ids(reaped(world, w, workers).1) == item_ids(
            FanOutWaitingView { active: Seq::empty(), ..w },
        ).add(ids_of_workers(workers).to_multiset()),
    decreases workers.len(),
{
    broadcast use vstd::seq_lib::group_to_multiset_ensures;

    let bare = FanOutWaitingView { active: Seq::empty(), ..w };
    if workers.len() == 0 {
        assert(ids_of_workers(workers) =~= Seq::empty());
        assert(item_ids(bare) =~= item_ids(bare).add(ids_of_workers(workers).to_multiset()));
    } else {
        let front = workers.drop_last();
        let worker = workers.last();
        lemma_reaped_ids(world, w, front);
        let (world1, w1) = reaped(world, w, front);
        assert(ids_of_workers(workers) =~= ids_of_workers(front).push(worker.item_id));
        let text = match terminal_result(agent_at(world1, worker.entity)) {
            Some(Ok(content)) => content,
            Some(Err(reason)) => reason,
            None => Seq::empty(),
        };
        lemma_one_more(w1, worker, worker.item_id, text);
        assert(item_ids(reaped(world, w, workers).1) =~= item_ids(bare).add(
            ids_of_workers(workers).to_multiset(),
        ));
    }
}

/// Reaping loses no work item and invents none: each stays running, or moves to
/// the answers or the failures.
pub proof fn law_reaping_keeps_every_item(world: Seq<Option<AgentView>>, w: FanOutWaitingView)
    ensures
        item_ids(reaped(world, w, w.active).1) == item_ids(w),
{
    lemma_reaped_ids(world, w, w.active);
    broadcast use vstd::seq_lib::group_to_multiset_ensures;

    let bare = FanOutWaitingView { active: Seq::empty(), ..w };
    assert(ids_of_workers(bare.active) =~= Seq::empty());
    assert(item_ids(w) =~= item_ids(bare).add(ids_of_workers(w.active).to_multiset()));
}

/// Starting workers loses no work item and invents none: each item that leaves the
/// line is running or has failed.
pub proof fn law_starting_keeps_every_item<S: FanOutSpawner>(
    spawner: Option<&S>,
    world: Seq<Option<AgentView>>,
    parent: Entity,
    w: FanOutWaitingView,
    attempts: Seq<Started>,
)
    requires
        forall|i: int|
            0 <= i < attempts.len() ==> #[trigger] attempt_due(
                spawner,
                world,
                parent,
                w,
                attempts,
                i,
            ),
    ensures
        item_ids(after_starts(world, parent, w, attempts).1) == item_ids(w),
    decreases attempts.len(),
{
    if attempts.len() > 0 {
        broadcast use vstd::seq_lib::group_to_multiset_ensures;

        let front = attempts.drop_last();
        let last = attempts.len() - 1;
        assert forall|i: int| 0 <= i < front.len() implies #[trigger] attempt_due(
            spawner,
            world,
            parent,
            w,
            front,
            i,
        ) by {
            assert(attempt_due(spawner, world, parent, w, attempts, i));
            assert(front.take(i) =~= attempts.take(i));
        }
        law_starting_keeps_every_item(spawner, world, parent, w, front);
        assert(attempt_due(spawner, world, parent, w, attempts, last));
        assert(attempts.take(last) =~= front);
        let (world1, w1) = after_starts(world, parent, w, front);
        let id = w1.pending[0].id;
        let rest = FanOutWaitingView { pending: w1.pending.skip(1), ..w1 };
        assert(ids_of_items(w1.pending) =~= seq![id] + ids_of_items(rest.pending));
        vstd::seq_lib::lemma_multiset_commutative(seq![id], ids_of_items(rest.pending));
        assert(seq![id] =~= Seq::<Seq<char>>::empty().push(id));
        assert(item_ids(w1) =~= item_ids(rest).insert(id));
        let after = after_start(world1, parent, w1, attempts.last()).1;
        let text = match refusal(world1[parent as int]->0, attempts.last()) {
            Some(reason) => reason,
            None => Seq::empty(),
        };
        let worker = ActiveWorkerView {
            item_id: id,
            entity: world1.len() as usize,
            run_id: attempts.last()->Asked_0->Ok_0.metadata.run_id@,
        };
        lemma_one_more(rest, worker, id, text);
        assert(item_ids(after) == item_ids(rest).insert(id));
    }
}

/// How many workers may run at once, or the number that did, where that is larger: a
/// parent that was restored may have more than it may start.
pub open spec fn worker_bound(w: FanOutWaitingView) -> nat {
    if w.active.len() <= w.max_workers {
        w.max_workers
    } else {
        w.active.len()
    }
}

/// Starting keeps to the number of workers that may run at once.
proof fn lemma_starts_within_cap<S: FanOutSpawner>(
    spawner: Option<&S>,
    world: Seq<Option<AgentView>>,
    parent: Entity,
    w: FanOutWaitingView,
    attempts: Seq<Started>,
)
    requires
        forall|i: int|
            0 <= i < attempts.len() ==> #[trigger] attempt_due(
                spawner,
                world,
                parent,
                w,
                attempts,
                i,
            ),
    ensures
        ({
            let after = after_starts(world, parent, w, attempts).1;
            after.active.len() <= worker_bound(w) && after.max_workers == w.max_workers
        }),
    decreases attempts.len(),
{
    if attempts.len() > 0 {
        let front = attempts.drop_last();
        let last = attempts.len() - 1;
        assert forall|i: int| 0 <= i < front.len() implies #[trigger] attempt_due(
            spawner,
            world,
            parent,
            w,
            front,
            i,
        ) by {
            assert(attempt_due(spawner, world, parent, w, attempts, i));
            assert(front.take(i) =~= attempts.take(i));
        }
        lemma_starts_within_cap(spawner, world, parent, w, front);
        assert(attempt_due(spawner, world, parent, w, attempts, last));
        assert(attempts.take(last) =~= front);
    }
}

/// A pass never has more workers running than may run at once, or than ran before, and
/// never leaves work in line while a place is free: whatever is still pending waits for a
/// running worker.
pub proof fn law_pass_fills_the_free_places<S: FanOutSpawner>(
    spawner: Option<&S>,
    world: Seq<Option<AgentView>>,
    parent: Entity,
    w: FanOutWaitingView,
    attempts: Seq<Started>,
)
    requires
        attempts_of_pass(spawner, world, parent, w, attempts),
    ensures
        ({
            let after = after_starts(world, parent, w, attempts).1;
            &&& after.active.len() <= worker_bound(w)
            &&& after.max_workers == w.max_workers
            &&& after.pending.len() == 0 || after.active.len() >= after.max_workers
            &&& after.max_workers > 0 && !all_done(after) ==> after.active.len() > 0
        }),
{
    lemma_starts_within_cap(spawner, world, parent, w, attempts);
}

/// Reaping starts nothing: it leaves at most as many workers running as there were,
/// and the line as it was.
pub proof fn law_reaping_only_shrinks(
    world: Seq<Option<AgentView>>,
    w: FanOutWaitingView,
    workers: Seq<ActiveWorkerView>,
)
    ensures
        ({
            let after = reaped(world, w, workers).1;
            &&& after.active.len() <= workers.len()
            &&& after.pending == w.pending
            &&& after.max_workers == w.max_workers
            &&& after.config == w.config
        }),
    decreases workers.len(),
{
    if workers.len() > 0 {
        law_reaping_only_shrinks(world, w, workers.drop_last());
    }
}

/// A parent is finished exactly when nothing runs and nothing is pending; until
/// then it stays parked.
pub proof fn law_parked_until_done(agent: AgentView, w: FanOutWaitingView)
    requires
        agent.fan_out is None,
    ensures
        resumed(agent, w).fan_out is Some <==> w.active.len() + w.pending.len() > 0,
        resumed(agent, w).fan_out is Some ==> resumed(agent, w).fan_out->0 == w,
{
}

/// A parent whose workers must all succeed never reaches its merge stage past a
/// failure. Any other one goes on whatever failed: by its own transition, or in its merge
/// stage, unless that stage cannot be entered.
pub proof fn law_failure_policy(parent: AgentView, w: FanOutWaitingView)
    ensures
        ({
            let after = finished(parent, w);
            if w.failures.len() > 0 && w.config.on_worker_failure == WorkerFailurePolicy::FailAll {
                after.state.status is Error && after.cursor == parent.cursor && after.window
                    == parent.window
            } else {
                match merge_position(parent, w.config) {
                    None => after.state.status is Active && after.resolve_transition,
                    Some(i) => after.cursor == Some(i as usize) && if prompted(
                        told(parent, w),
                        i as usize as int,
                    ) is Some {
                        after.state.status is Active && after.ready_to_infer
                    } else {
                        after.state.status is Error
                    },
                }
            }
        }),
{
}

/// Shedding its heavy parts leaves a worker's identity, state and links alone, and
/// happens only to a worker whose result is consumed and whose end is written.
pub proof fn law_slimming_is_safe(agent: AgentView)
    ensures
        slimmed(agent) != agent ==> agent.merged_worker && end_persisted(agent),
        slimmed(agent).state == agent.state,
        slimmed(agent).metadata == agent.metadata,
        slimmed(agent).parent == agent.parent,
        slimmed(agent).final_output == agent.final_output,
{
}

} // verus!
