//! The control operations and the requests of agents' tool lanes.

use crate::components::{
    AgentMessage, AgentStatus, Entity, FinalOutput, ParentRef, ParentRefView, StatusView,
    SubAgentChildren, SubAgentChildrenView,
};
use crate::fanout::collect::depth_of;
use crate::host::control::{
    found_at, paged_in, placed_as, registered, reloaded_by, tree_cancel, within_tree,
};
use crate::host::listing::{finished_rows, live_rows, parked_rows};
use crate::host::types::{entry_views, RunEntryView};
use crate::host::{
    live, ControlOp, ControlReply, DaemonHealth, HostView, LaneSnapshot, ProviderCircuitState,
    RunListing, SpawnArgs, SubAgentOp, SubAgentReply, SubAgentReport, WorldHost,
};
use crate::interaction::{closed, open_views, question_at};
use crate::table::lookup;
use crate::text::{decimal, decimal_text, same_text, texts};
use crate::world::{
    agent_at, agent_paused, agent_resumed, opt_view, with_agent, Agent, AgentView, World,
};
use vstd::prelude::*;

verus! {

/// Whether a spawner, asked for the agent of a request, may answer `got`.
pub open spec fn spawned_for<S: Fn(&World, &SpawnArgs) -> Result<Agent, String>>(
    spawner: S,
    world: Seq<Option<AgentView>>,
    args: SpawnArgs,
    got: Result<Agent, String>,
) -> bool {
    exists|snapshot: World|
        {
            &&& snapshot@ == world
            &&& #[trigger] call_ensures(spawner, (&snapshot, &args), got)
        }
}

/// Whether a request is another one with a parent named.
pub open spec fn args_with_parent(args: SpawnArgs, parent: Seq<char>, with: SpawnArgs) -> bool {
    &&& with.parent_run_id is Some
    &&& with.parent_run_id->0@ == parent
    &&& with == (SpawnArgs { parent_run_id: with.parent_run_id, ..args })
}

/// Whether a seeder, asked to fill the context of a new child from its parent's, may
/// give `seeded`. Without one the child stays as it was made.
pub open spec fn seeded_by<D: Fn(&World, Entity, Agent) -> Agent>(
    seeder: Option<&D>,
    world: Seq<Option<AgentView>>,
    parent: Entity,
    agent: Agent,
    seeded: Agent,
) -> bool {
    match seeder {
        None => seeded == agent,
        Some(d) => exists|snapshot: World|
            {
                &&& snapshot@ == world
                &&& #[trigger] call_ensures(*d, (&snapshot, parent, agent), seeded)
            },
    }
}

/// The record of a child below its parent.
pub open spec fn child_record(
    agent: AgentView,
    parent: Entity,
    parent_run_id: Seq<char>,
    of: AgentView,
) -> AgentView {
    AgentView {
        parent: Some(
            ParentRefView {
                parent_entity: parent,
                parent_agent_id: parent_run_id,
                depth: depth_of(of) + 1,
            },
        ),
        ..agent
    }
}

/// The record of a parent with one more child.
pub open spec fn parent_record(
    of: AgentView,
    child: Entity,
    run_id: Seq<char>,
    max_depth: nat,
) -> AgentView {
    AgentView {
        children: Some(
            match of.children {
                Some(children) => SubAgentChildrenView {
                    children: children.children.push(child),
                    ..children
                },
                None => SubAgentChildrenView { children: seq![child], max_child_depth: max_depth },
            },
        ),
        state: crate::components::AgentStateView {
            spawned_children_ids: of.state.spawned_children_ids.push(run_id),
            ..of.state
        },
        ..of
    }
}

/// The host with a child placed below a parent, the two being linked both ways.
pub open spec fn child_placed(
    h: HostView,
    parent: Entity,
    parent_run_id: Seq<char>,
    run_id: Seq<char>,
    max_depth: nat,
    agent: AgentView,
) -> HostView {
    let of = h.world[parent as int]->0;
    let child = h.world.len() as usize;
    registered(
        HostView {
            world: h.world.update(
                parent as int,
                Some(parent_record(of, child, run_id, max_depth)),
            ).push(Some(child_record(agent, parent, parent_run_id, of))),
            ..h
        },
        run_id,
        child,
    )
}

/// Why no child is spawned below a run that is not in the world.
pub open spec fn parent_not_live(parent_run_id: Seq<char>) -> Seq<char> {
    "parent run '"@ + parent_run_id + "' is not live"@
}

/// Why no child is spawned deeper than allowed.
pub open spec fn depth_limit_reached(max_depth: nat) -> Seq<char> {
    "sub-agent depth limit ("@ + decimal(max_depth) + ") reached; not spawning deeper"@
}

/// Whether a request to spawn a child went this way.
pub open spec fn child_spawned<
    S: Fn(&World, &SpawnArgs) -> Result<Agent, String>,
    D: Fn(&World, Entity, Agent) -> Agent,
>(
    spawner: Option<&S>,
    seeder: Option<&D>,
    h: HostView,
    args: SpawnArgs,
    parent_run_id: Seq<char>,
    max_depth: usize,
    after: HostView,
    reply: Result<String, String>,
) -> bool {
    match live(h, parent_run_id) {
        None => after == h && reply is Err && reply->Err_0@ == parent_not_live(parent_run_id),
        Some(parent) => if depth_of(h.world[parent as int]->0) >= max_depth {
            after == h && reply is Err && reply->Err_0@ == depth_limit_reached(max_depth as nat)
        } else {
            match spawner {
                None => after == h && reply is Err && reply->Err_0@
                    == "this daemon cannot spawn agents"@,
                Some(s) => exists|with: SpawnArgs, got: Result<Agent, String>|
                    {
                        &&& #[trigger] args_with_parent(args, parent_run_id, with)
                        &&& #[trigger] spawned_for(*s, h.world, with, got)
                        &&& match got {
                            Ok(agent) => {
                                &&& reply is Ok
                                &&& reply->Ok_0@ == args.run_id@
                                &&& exists|seeded: Agent|
                                    {
                                        &&& #[trigger] seeded_by(
                                            seeder,
                                            h.world,
                                            parent,
                                            agent,
                                            seeded,
                                        )
                                        &&& after == child_placed(
                                            h,
                                            parent,
                                            parent_run_id,
                                            args.run_id@,
                                            max_depth as nat,
                                            seeded@,
                                        )
                                    }
                            },
                            Err(e) => after == h && reply is Err && reply->Err_0@ == e@,
                        }
                    },
            }
        },
    }
}

/// Records a child in its parent.
fn add_child(of: &mut Agent, child: Entity, run_id: String, max_depth: usize)
    ensures
        final(of)@ == parent_record(old(of)@, child, run_id@, max_depth as nat),
{
    let ghost before = of@;
    match of.children.take() {
        Some(children) => {
            let mut children = children;
            children.children.push(child);
            of.children = Some(children);
        },
        None => {
            let mut children: Vec<Entity> = Vec::new();
            children.push(child);
            proof {
                assert(children@ =~= seq![child]);
            }
            of.children = Some(SubAgentChildren { children, max_child_depth: max_depth });
        },
    }
    let ghost ids = of.state.spawned_children_ids@;
    of.state.spawned_children_ids.push(run_id);
    proof {
        assert(texts(of.state.spawned_children_ids@) =~= texts(ids).push(run_id@));
    }
}

/// Records a child in its parent, in the world.
fn record_child(world: &mut World, parent: Entity, child: Entity, run_id: String, max_depth: usize)
    requires
        agent_at(old(world)@, parent) is Some,
    ensures
        final(world)@ == old(world)@.update(
            parent as int,
            Some(
                parent_record(
                    old(world)@[parent as int]->0,
                    child,
                    run_id@,
                    max_depth as nat,
                ),
            ),
        ),
{
    let ghost before = world@;
    if let Some(of) = &mut world.agents[parent] {
        add_child(of, child, run_id, max_depth);
    }
    proof {
        let want = before.update(
            parent as int,
            Some(parent_record(before[parent as int]->0, child, run_id@, max_depth as nat)),
        );
        assert forall|k: int| 0 <= k < want.len() implies #[trigger] world@[k] == want[k] by {}
        assert(world@ =~= want);
    }
}

/// The agent, linked to its parent.
fn below(agent: Agent, parent: Entity, parent_run_id: &str, depth: usize) -> (child: Agent)
    ensures
        child@ == (AgentView {
            parent: Some(
                ParentRefView {
                    parent_entity: parent,
                    parent_agent_id: parent_run_id@,
                    depth: depth as nat,
                },
            ),
            ..agent@
        }),
{
    let mut child = agent;
    child.parent =
        Some(
            ParentRef {
                parent_entity: parent,
                parent_agent_id: parent_run_id.to_owned(),
                depth,
            },
        );
    child
}

impl WorldHost {
    /// Places a child below a parent and links the two, both ways.
    pub fn link_child(
        &mut self,
        parent: Entity,
        parent_run_id: &str,
        run_id: &str,
        max_depth: usize,
        agent: Agent,
    )
        requires
            agent_at(old(self)@.world, parent) is Some,
            depth_of(old(self)@.world[parent as int]->0) < usize::MAX,
        ensures
            final(self)@ == child_placed(
                old(self)@,
                parent,
                parent_run_id@,
                run_id@,
                max_depth as nat,
                agent@,
            ),
    {
        let child: usize = self.world.agents.len();
        let depth: usize = match self.world.get(parent) {
            Some(of) => match &of.parent {
                Some(link) => link.depth,
                None => 0,
            },
            None => 0,
        };
        let agent = below(agent, parent, parent_run_id, depth + 1);
        record_child(&mut self.world, parent, child, run_id.to_owned(), max_depth);
        let _ = self.world.spawn(agent);
        self.register(run_id.to_owned(), child);
    }

    /// Spawns a child below a run, its context seeded from its parent's. Refused where the
    /// parent is not in the world, where the child would be deeper than allowed, and where
    /// the spawner refuses.
    pub fn spawn_child<
        S: Fn(&World, &SpawnArgs) -> Result<Agent, String>,
        D: Fn(&World, Entity, Agent) -> Agent,
    >(
        &mut self,
        args: SpawnArgs,
        parent_run_id: &str,
        max_depth: usize,
        spawner: Option<&S>,
        seeder: Option<&D>,
    ) -> (reply: Result<String, String>)
        requires
            spawner is Some ==> forall|w: &World, a: &SpawnArgs|
                call_requires(*spawner->0, (w, a)),
            seeder is Some ==> forall|w: &World, e: Entity, a: Agent|
                call_requires(*seeder->0, (w, e, a)),
        ensures
            child_spawned(
                spawner,
                seeder,
                old(self)@,
                args,
                parent_run_id@,
                max_depth,
                final(self)@,
                reply,
            ),
    {
        let ghost given = args;
        let mut args = args;
        args.parent_run_id = Some(parent_run_id.to_owned());
        assert(args_with_parent(given, parent_run_id@, args));
        let parent: usize = match self.live_entity(parent_run_id) {
            Some(e) => e,
            None => {
                let mut message = "parent run '".to_owned();
                message.append(parent_run_id);
                message.append("' is not live");
                return Err(message);
            },
        };
        let depth: usize = match self.world.get(parent) {
            Some(of) => match &of.parent {
                Some(link) => link.depth,
                None => 0,
            },
            None => 0,
        };
        if depth >= max_depth {
            let mut message = "sub-agent depth limit (".to_owned();
            message.append(decimal_text(max_depth as u64).as_str());
            message.append(") reached; not spawning deeper");
            return Err(message);
        }
        match spawner {
            None => Err("this daemon cannot spawn agents".to_owned()),
            Some(spawn) => {
                let got = spawn(&self.world, &args);
                assert(spawned_for(*spawn, self@.world, args, got));
                match got {
                    Ok(agent) => {
                        let ghost made = agent;
                        let seeded = match seeder {
                            Some(seed) => seed(&self.world, parent, agent),
                            None => agent,
                        };
                        assert(seeded_by(seeder, self@.world, parent, made, seeded));
                        self.link_child(
                            parent,
                            parent_run_id,
                            args.run_id.as_str(),
                            max_depth,
                            seeded,
                        );
                        Ok(args.run_id)
                    },
                    Err(e) => Err(e),
                }
            },
        }
    }
}

/// What a run handed back, if it is in the world.
pub open spec fn output_of(h: HostView, run_id: Seq<char>) -> Option<FinalOutput> {
    match live(h, run_id) {
        Some(e) => h.world[e as int]->0.final_output,
        None => None,
    }
}

/// The first row of a run among those that finished, at or after `from`.
pub open spec fn finished_row(
    finished: Seq<(i64, RunEntryView)>,
    run_id: Seq<char>,
    from: int,
) -> Option<RunEntryView>
    decreases finished.len() - from,
{
    if from < 0 || from >= finished.len() {
        None
    } else if finished[from].1.run_id == run_id {
        Some(finished[from].1)
    } else {
        finished_row(finished, run_id, from + 1)
    }
}

/// The status of a run: as it is in the world, or as it was when it was paged out or
/// finished.
pub open spec fn status_of(h: HostView, run_id: Seq<char>) -> Option<StatusView> {
    match live(h, run_id) {
        Some(e) => Some(h.world[e as int]->0.state.status),
        None => match lookup(h.parked, run_id) {
            Some(row) => Some(row.status),
            None => match finished_row(h.finished, run_id, 0) {
                Some(row) => Some(row.status),
                None => None,
            },
        },
    }
}

/// The host with one more message on its way.
pub open spec fn message_sent(h: HostView, message: AgentMessage) -> HostView {
    if h.messages_open {
        HostView { messages: h.messages.push(message), ..h }
    } else {
        h
    }
}

impl WorldHost {
    /// What a run handed back, if it is in the world.
    pub fn result(&self, run_id: &str) -> (output: Option<FinalOutput>)
        ensures
            output == output_of(self@, run_id@),
    {
        match self.live_entity(run_id) {
            Some(e) => match self.world.get(e) {
                Some(agent) => match &agent.final_output {
                    Some(output) => Some(output.clone()),
                    None => None,
                },
                None => None,
            },
            None => None,
        }
    }

    /// The status with which a run finished, if it did so recently.
    fn finished_status(&self, run_id: &str) -> (status: Option<AgentStatus>)
        ensures
            opt_view(status) == match finished_row(self@.finished, run_id@, 0) {
                Some(row) => Some(row.status),
                None => None,
            },
    {
        let mut i: usize = 0;
        while i < self.finished.len()
            invariant
                i <= self.finished@.len(),
                finished_row(self@.finished, run_id@, 0) == finished_row(
                    self@.finished,
                    run_id@,
                    i as int,
                ),
            decreases self.finished@.len() - i,
        {
            if same_text(self.finished[i].1.run_id.as_str(), run_id) {
                return Some(self.finished[i].1.status.clone());
            }
            i = i + 1;
        }
        None
    }

    /// The status of a run, in the world or as it was last known.
    pub fn status(&self, run_id: &str) -> (status: Option<AgentStatus>)
        ensures
            opt_view(status) == status_of(self@, run_id@),
    {
        if let Some(e) = self.live_entity(run_id) {
            return self.world.agent_status(e);
        }
        match self.parked.get(run_id) {
            Some(row) => {
                proof {
                    crate::table::lemma_modelled(self.parked@, run_id@, *row);
                }
                Some(row.status.clone())
            },
            None => {
                proof {
                    if self.parked@.len() > 0 {
                        crate::table::lemma_modelled(
                            self.parked@,
                            run_id@,
                            self.parked@[0].1,
                        );
                    } else {
                        assert(crate::table::name_at(self@.parked, run_id@) is None);
                    }
                }
                self.finished_status(run_id)
            },
        }
    }

    /// Sends a message, and says whether messages are still taken.
    pub fn send_message(&mut self, message: AgentMessage) -> (sent: bool)
        ensures
            final(self)@ == message_sent(old(self)@, message),
            sent == old(self)@.messages_open,
    {
        if self.messages_open {
            self.messages.push(message);
        }
        self.messages_open
    }

    /// What a parent learns of a run in the world.
    pub fn check(&self, run_id: &str) -> (report: Option<SubAgentReport>)
        ensures
            report is Some <==> live(self@, run_id@) is Some,
            report is Some ==> report->0.status@
                == self@.world[live(self@, run_id@)->0 as int]->0.state.status,
            report is Some ==> report->0.final_output == output_of(self@, run_id@),
    {
        match self.live_entity(run_id) {
            Some(e) => match self.world.agent_status(e) {
                Some(status) => Some(
                    SubAgentReport { status, final_output: self.result(run_id) },
                ),
                None => None,
            },
            None => None,
        }
    }

    /// Everything one request for the listing is answered with.
    pub fn listing(&self, lanes: LaneSnapshot, providers_down: Vec<ProviderCircuitState>) -> (out:
        RunListing)
        ensures
            entry_views(out.runs@) == live_rows(self@, self@.by_run_id) + parked_rows(self@),
            entry_views(out.finished@) == finished_rows(self@),
            out.health == health_of(self@, lanes, providers_down),
    {
        RunListing {
            runs: self.list(),
            finished: self.finished(),
            health: self.health(lanes, providers_down),
        }
    }
}

/// The daemon's own health.
pub open spec fn health_of(
    h: HostView,
    lanes: LaneSnapshot,
    providers_down: Vec<ProviderCircuitState>,
) -> DaemonHealth {
    DaemonHealth {
        agents: lanes.agents,
        inference: lanes.inference,
        tools_busy: lanes.tools_busy,
        tools_queued: lanes.tools_queued,
        tools_parked: lanes.tools_parked,
        tools_workers: lanes.tools_workers,
        dead_cycles: h.dead_cycles,
        relief_granted: h.relief_granted,
        redrive_secs: h.redrive.secs,
        providers_down,
    }
}

/// Whether a message for a run within the sender's tree went this way: refused
/// outside the tree, and otherwise sent once the run is paged in.
pub open spec fn sent_within<R: Fn(&World, &str) -> Option<Agent>>(
    reloader: Option<&R>,
    h: HostView,
    message: AgentMessage,
    caller: Seq<char>,
    after: HostView,
    done: bool,
) -> bool {
    let to = message.agent_id@;
    exists|mid: HostView, inside: bool|
        {
            &&& #[trigger] within_tree(reloader, h, to, caller, mid, inside)
            &&& if inside {
                sent_to_run(reloader, mid, message, after, done)
            } else {
                after == mid && !done
            }
        }
}

/// Whether a message for a run went this way: the run is paged in where it has left
/// the world, and the message is on its way unless none are taken any more.
pub open spec fn sent_to_run<R: Fn(&World, &str) -> Option<Agent>>(
    reloader: Option<&R>,
    h: HostView,
    message: AgentMessage,
    after: HostView,
    done: bool,
) -> bool {
    exists|got: Option<Agent>|
        {
            let here = paged_in(h, message.agent_id@, opt_view(got));
            &&& #[trigger] reloaded_by(reloader, h, message.agent_id@, got)
            &&& after == message_sent(here, message)
            &&& done == here.messages_open
        }
}

/// Whether a request to cancel a run within the caller's tree went this way.
pub open spec fn killed_within<R: Fn(&World, &str) -> Option<Agent>>(
    reloader: Option<&R>,
    h: HostView,
    run_id: Seq<char>,
    caller: Seq<char>,
    after: HostView,
    done: bool,
) -> bool {
    exists|mid: HostView, inside: bool|
        {
            &&& #[trigger] within_tree(reloader, h, run_id, caller, mid, inside)
            &&& if inside {
                run_cancelled(reloader, mid, run_id, after, done)
            } else {
                after == mid && !done
            }
        }
}

/// Whether a cancel of a run and its tree went this way.
pub open spec fn run_cancelled<R: Fn(&World, &str) -> Option<Agent>>(
    reloader: Option<&R>,
    h: HostView,
    run_id: Seq<char>,
    after: HostView,
    done: bool,
) -> bool {
    exists|got: Option<Agent>|
        {
            &&& #[trigger] reloaded_by(reloader, h, run_id, got)
            &&& tree_cancel(h, run_id, opt_view(got), after, done)
        }
}

/// Whether a request of a tool lane went this way.
pub open spec fn subagent_handled<
    S: Fn(&World, &SpawnArgs) -> Result<Agent, String>,
    R: Fn(&World, &str) -> Option<Agent>,
    D: Fn(&World, Entity, Agent) -> Agent,
>(
    spawner: Option<&S>,
    reloader: Option<&R>,
    seeder: Option<&D>,
    h: HostView,
    op: SubAgentOp,
    after: HostView,
    reply: SubAgentReply,
) -> bool {
    match op {
        SubAgentOp::Spawn { args, parent_run_id, max_depth } => reply is Spawned && child_spawned(
            spawner,
            seeder,
            h,
            args,
            parent_run_id@,
            max_depth,
            after,
            reply->Spawned_0,
        ),
        SubAgentOp::Check { run_id } => {
            &&& after == h
            &&& reply is Checked
            &&& match (live(h, run_id@), reply->Checked_0) {
                (Some(e), Some(report)) => {
                    &&& report.status@ == h.world[e as int]->0.state.status
                    &&& report.final_output == h.world[e as int]->0.final_output
                },
                (None, None) => true,
                _ => false,
            }
        },
        SubAgentOp::Send { run_id, caller_run_id, content, target_region } => reply is Done
            && sent_within(
            reloader,
            h,
            AgentMessage { agent_id: run_id, content, target_region },
            caller_run_id@,
            after,
            reply->Done_0,
        ),
        SubAgentOp::Kill { run_id, caller_run_id } => reply is Done && killed_within(
            reloader,
            h,
            run_id@,
            caller_run_id@,
            after,
            reply->Done_0,
        ),
    }
}

impl WorldHost {
    /// Sends a message to a run, paging it in first where it has left the world.
    pub fn message_run<R: Fn(&World, &str) -> Option<Agent>>(
        &mut self,
        message: AgentMessage,
        reloader: Option<&R>,
    ) -> (sent: bool)
        requires
            reloader is Some ==> forall|w: &World, text: &str|
                call_requires(*reloader->0, (w, text)),
        ensures
            sent_to_run(reloader, old(self)@, message, final(self)@, sent),
    {
        let _ = self.resolve_or_reload(message.agent_id.as_str(), reloader);
        self.send_message(message)
    }

    /// Sends a message to a run within the tree of the one that sends it.
    fn message_within<R: Fn(&World, &str) -> Option<Agent>>(
        &mut self,
        message: AgentMessage,
        caller: &str,
        reloader: Option<&R>,
    ) -> (sent: bool)
        requires
            reloader is Some ==> forall|w: &World, text: &str|
                call_requires(*reloader->0, (w, text)),
        ensures
            sent_within(reloader, old(self)@, message, caller@, final(self)@, sent),
    {
        let inside = self.is_within_tree(message.agent_id.as_str(), caller, reloader);
        if !inside {
            return false;
        }
        self.message_run(message, reloader)
    }

    /// Serves one request of a tool lane. An agent may only send to and cancel runs
    /// within its own tree.
    pub fn handle_subagent<
        S: Fn(&World, &SpawnArgs) -> Result<Agent, String>,
        R: Fn(&World, &str) -> Option<Agent>,
        D: Fn(&World, Entity, Agent) -> Agent,
    >(
        &mut self,
        op: SubAgentOp,
        spawner: Option<&S>,
        reloader: Option<&R>,
        seeder: Option<&D>,
    ) -> (reply: SubAgentReply)
        requires
            spawner is Some ==> forall|w: &World, a: &SpawnArgs|
                call_requires(*spawner->0, (w, a)),
            reloader is Some ==> forall|w: &World, text: &str|
                call_requires(*reloader->0, (w, text)),
            seeder is Some ==> forall|w: &World, e: Entity, a: Agent|
                call_requires(*seeder->0, (w, e, a)),
        ensures
            subagent_handled(spawner, reloader, seeder, old(self)@, op, final(self)@, reply),
    {
        match op {
            SubAgentOp::Spawn { args, parent_run_id, max_depth } => SubAgentReply::Spawned(
                self.spawn_child(args, parent_run_id.as_str(), max_depth, spawner, seeder),
            ),
            SubAgentOp::Check { run_id } => SubAgentReply::Checked(self.check(run_id.as_str())),
            SubAgentOp::Send { run_id, caller_run_id, content, target_region } => {
                let message = AgentMessage { agent_id: run_id, content, target_region };
                SubAgentReply::Done(
                    self.message_within(message, caller_run_id.as_str(), reloader),
                )
            },
            SubAgentOp::Kill { run_id, caller_run_id } => {
                let inside = self.is_within_tree(
                    run_id.as_str(),
                    caller_run_id.as_str(),
                    reloader,
                );
                if !inside {
                    return SubAgentReply::Done(false);
                }
                SubAgentReply::Done(self.cancel_tree(run_id.as_str(), reloader))
            },
        }
    }
}

/// Whether a request to spawn a run went this way.
pub open spec fn run_spawned<S: Fn(&World, &SpawnArgs) -> Result<Agent, String>>(
    spawner: Option<&S>,
    h: HostView,
    args: SpawnArgs,
    after: HostView,
    reply: Result<String, String>,
) -> bool {
    match spawner {
        None => after == h && reply is Err && reply->Err_0@ == "this daemon cannot spawn agents"@,
        Some(s) => exists|got: Result<Agent, String>|
            {
                &&& #[trigger] spawned_for(*s, h.world, args, got)
                &&& match got {
                    Ok(agent) => {
                        &&& reply is Ok
                        &&& reply->Ok_0@ == args.run_id@
                        &&& after == placed_as(h, args.run_id@, agent@)
                    },
                    Err(e) => after == h && reply is Err && reply->Err_0@ == e@,
                }
            },
    }
}

/// The host with the agent at a place paused.
pub open spec fn paused_at(h: HostView, e: Option<Entity>) -> HostView {
    match e {
        Some(e) => HostView {
            world: with_agent(h.world, e, agent_paused(h.world[e as int]->0)),
            ..h
        },
        None => h,
    }
}

/// The host with the agent at a place resumed.
pub open spec fn resumed_at(h: HostView, e: Option<Entity>) -> HostView {
    match e {
        Some(e) => HostView {
            world: with_agent(h.world, e, agent_resumed(h.world[e as int]->0)),
            ..h
        },
        None => h,
    }
}

/// Whether a place holds an agent that is not over.
pub open spec fn still_live(h: HostView, e: Option<Entity>) -> bool {
    e is Some && !h.world[e->0 as int]->0.state.status.terminal()
}

/// Whether a pause or a resume of a run went this way.
pub open spec fn run_paused<R: Fn(&World, &str) -> Option<Agent>>(
    reloader: Option<&R>,
    h: HostView,
    run_id: Seq<char>,
    pause: bool,
    after: HostView,
    done: bool,
) -> bool {
    exists|got: Option<Agent>|
        {
            let here = paged_in(h, run_id, opt_view(got));
            let e = found_at(h, run_id, opt_view(got));
            &&& #[trigger] reloaded_by(reloader, h, run_id, got)
            &&& done == still_live(here, e)
            &&& after == if pause {
                paused_at(here, e)
            } else {
                resumed_at(here, e)
            }
        }
}

/// Whether a terminator, asked to end a run on disk, may answer `done`.
pub open spec fn terminated_by<T: Fn(&str) -> bool>(
    terminator: Option<&T>,
    run_id: Seq<char>,
    done: bool,
) -> bool {
    match terminator {
        None => !done,
        Some(t) => exists|text: &str|
            text@ == run_id && #[trigger] call_ensures(*t, (text,), done),
    }
}

/// Whether an unconditional cancel of a run went this way: in the world where the run
/// can be held there, and on disk otherwise.
pub open spec fn cancelled_anywhere<R: Fn(&World, &str) -> Option<Agent>, T: Fn(&str) -> bool>(
    reloader: Option<&R>,
    terminator: Option<&T>,
    h: HostView,
    run_id: Seq<char>,
    after: HostView,
    done: bool,
) -> bool {
    exists|found: bool|
        {
            &&& #[trigger] run_cancelled(reloader, h, run_id, after, found)
            &&& if found {
                done
            } else {
                terminated_by(terminator, run_id, done)
            }
        }
}

/// Whether a control operation went this way.
pub open spec fn handled<
    S: Fn(&World, &SpawnArgs) -> Result<Agent, String>,
    R: Fn(&World, &str) -> Option<Agent>,
    T: Fn(&str) -> bool,
>(
    spawner: Option<&S>,
    reloader: Option<&R>,
    terminator: Option<&T>,
    h: HostView,
    op: ControlOp,
    after: HostView,
    reply: ControlReply,
) -> bool {
    match op {
        ControlOp::Spawn { args } => reply is Spawned && run_spawned(
            spawner,
            h,
            args,
            after,
            reply->Spawned_0,
        ),
        ControlOp::Status { run_id } => after == h && reply is Status && opt_view(reply->Status_0)
            == status_of(h, run_id@),
        ControlOp::Result { run_id } => after == h && reply is Result && reply->Result_0
            == output_of(h, run_id@),
        ControlOp::Pause { run_id } => reply is Done && run_paused(
            reloader,
            h,
            run_id@,
            true,
            after,
            reply->Done_0,
        ),
        ControlOp::Resume { run_id } => reply is Done && run_paused(
            reloader,
            h,
            run_id@,
            false,
            after,
            reply->Done_0,
        ),
        ControlOp::Cancel { run_id } => reply is Done && cancelled_anywhere(
            reloader,
            terminator,
            h,
            run_id@,
            after,
            reply->Done_0,
        ),
        ControlOp::List { lanes, providers_down } => {
            &&& after == h
            &&& reply is Listing
            &&& entry_views(reply->Listing_0.runs@) == live_rows(h, h.by_run_id) + parked_rows(h)
            &&& entry_views(reply->Listing_0.finished@) == finished_rows(h)
            &&& reply->Listing_0.health == health_of(h, lanes, providers_down)
        },
        ControlOp::Message { agent_id, content, target_region } => reply is Done && sent_to_run(
            reloader,
            h,
            AgentMessage { agent_id, content, target_region },
            after,
            reply->Done_0,
        ),
        ControlOp::ListInteractions => after == h && reply is Interactions && open_views(
            reply->Interactions_0@,
        ) == h.interactions,
        ControlOp::AnswerInteraction { response } => {
            &&& reply is Done
            &&& reply->Done_0 == question_at(h.interactions, response.request_id@, 0) is Some
            &&& after == (HostView {
                interactions: closed(h.interactions, response.request_id@),
                ..h
            })
        },
        ControlOp::CancelInteraction { request_id } => {
            &&& reply is Done
            &&& reply->Done_0 == question_at(h.interactions, request_id@, 0) is Some
            &&& after == (HostView { interactions: closed(h.interactions, request_id@), ..h })
        },
        ControlOp::Shutdown => reply is Done && reply->Done_0 && after == (HostView {
            stopping: true,
            ..h
        }),
    }
}

impl WorldHost {
    /// Spawns a run.
    pub fn spawn_run<S: Fn(&World, &SpawnArgs) -> Result<Agent, String>>(
        &mut self,
        args: SpawnArgs,
        spawner: Option<&S>,
    ) -> (reply: Result<String, String>)
        requires
            spawner is Some ==> forall|w: &World, a: &SpawnArgs|
                call_requires(*spawner->0, (w, a)),
        ensures
            run_spawned(spawner, old(self)@, args, final(self)@, reply),
    {
        match spawner {
            None => Err("this daemon cannot spawn agents".to_owned()),
            Some(spawn) => {
                let got = spawn(&self.world, &args);
                assert(spawned_for(*spawn, self@.world, args, got));
                match got {
                    Ok(agent) => {
                        let e: usize = self.world.spawn(agent);
                        self.register(args.run_id.clone(), e);
                        Ok(args.run_id)
                    },
                    Err(e) => Err(e),
                }
            },
        }
    }

    /// Pauses or resumes a run, paging it in first where it has left the world. Says
    /// whether there is such a run that is not over.
    pub fn pause_run<R: Fn(&World, &str) -> Option<Agent>>(
        &mut self,
        run_id: &str,
        pause: bool,
        reloader: Option<&R>,
    ) -> (done: bool)
        requires
            reloader is Some ==> forall|w: &World, text: &str|
                call_requires(*reloader->0, (w, text)),
        ensures
            run_paused(reloader, old(self)@, run_id@, pause, final(self)@, done),
    {
        let ghost h = self@;
        let found = self.resolve_or_reload(run_id, reloader);
        let ghost got = choose|got: Option<Agent>|
            {
                &&& #[trigger] reloaded_by(reloader, h, run_id@, got)
                &&& self@ == paged_in(h, run_id@, opt_view(got))
                &&& found == found_at(h, run_id@, opt_view(got))
            };
        let done = match found {
            Some(e) => if pause {
                self.world.pause(e)
            } else {
                self.world.resume(e)
            },
            None => false,
        };
        assert(reloaded_by(reloader, h, run_id@, got));
        done
    }

    /// Cancels a run wherever it is: in the world with its whole tree where it can be
    /// held there, and through the terminator otherwise.
    pub fn cancel_run<R: Fn(&World, &str) -> Option<Agent>, T: Fn(&str) -> bool>(
        &mut self,
        run_id: &str,
        reloader: Option<&R>,
        terminator: Option<&T>,
    ) -> (done: bool)
        requires
            reloader is Some ==> forall|w: &World, text: &str|
                call_requires(*reloader->0, (w, text)),
            terminator is Some ==> forall|text: &str| call_requires(*terminator->0, (text,)),
        ensures
            cancelled_anywhere(
                reloader,
                terminator,
                old(self)@,
                run_id@,
                final(self)@,
                done,
            ),
    {
        let ghost h = self@;
        let found = self.cancel_tree(run_id, reloader);
        assert(run_cancelled(reloader, h, run_id@, self@, found));
        if found {
            return true;
        }
        match terminator {
            Some(terminate) => terminate(run_id),
            None => false,
        }
    }

    /// Applies one control operation.
    pub fn handle<
        S: Fn(&World, &SpawnArgs) -> Result<Agent, String>,
        R: Fn(&World, &str) -> Option<Agent>,
        T: Fn(&str) -> bool,
    >(
        &mut self,
        op: ControlOp,
        spawner: Option<&S>,
        reloader: Option<&R>,
        terminator: Option<&T>,
    ) -> (reply: ControlReply)
        requires
            spawner is Some ==> forall|w: &World, a: &SpawnArgs|
                call_requires(*spawner->0, (w, a)),
            reloader is Some ==> forall|w: &World, text: &str|
                call_requires(*reloader->0, (w, text)),
            terminator is Some ==> forall|text: &str| call_requires(*terminator->0, (text,)),
        ensures
            handled(spawner, reloader, terminator, old(self)@, op, final(self)@, reply),
    {
        match op {
            ControlOp::Spawn { args } => ControlReply::Spawned(self.spawn_run(args, spawner)),
            ControlOp::Status { run_id } => ControlReply::Status(self.status(run_id.as_str())),
            ControlOp::Result { run_id } => ControlReply::Result(self.result(run_id.as_str())),
            ControlOp::Pause { run_id } => ControlReply::Done(
                self.pause_run(run_id.as_str(), true, reloader),
            ),
            ControlOp::Resume { run_id } => ControlReply::Done(
                self.pause_run(run_id.as_str(), false, reloader),
            ),
            ControlOp::Cancel { run_id } => ControlReply::Done(
                self.cancel_run(run_id.as_str(), reloader, terminator),
            ),
            ControlOp::List { lanes, providers_down } => ControlReply::Listing(
                self.listing(lanes, providers_down),
            ),
            ControlOp::Message { agent_id, content, target_region } => ControlReply::Done(
                self.message_run(AgentMessage { agent_id, content, target_region }, reloader),
            ),
            ControlOp::ListInteractions => ControlReply::Interactions(self.interactions.pending()),
            ControlOp::AnswerInteraction { response } => ControlReply::Done(
                self.interactions.answer(response),
            ),
            ControlOp::CancelInteraction { request_id } => ControlReply::Done(
                self.interactions.close(request_id.as_str()),
            ),
            ControlOp::Shutdown => {
                self.stopping = true;
                ControlReply::Done(true)
            },
        }
    }
}

/// A message to a run outside the sender's tree is not sent: whatever had to be paged
/// in to find that out, the messages on their way are as they were.
pub proof fn law_stray_message_is_not_sent<R: Fn(&World, &str) -> Option<Agent>>(
    reloader: Option<&R>,
    h: HostView,
    message: AgentMessage,
    caller: Seq<char>,
    after: HostView,
)
    requires
        sent_within(reloader, h, message, caller, after, false),
        h.messages_open,
    ensures
        after.messages == h.messages,
        after.interactions == h.interactions,
{
}

/// A run may always message and cancel itself.
pub proof fn law_own_tree_includes_itself<R: Fn(&World, &str) -> Option<Agent>>(
    reloader: Option<&R>,
    h: HostView,
    run_id: Seq<char>,
    after: HostView,
    b: bool,
)
    requires
        within_tree(reloader, h, run_id, run_id, after, b),
    ensures
        b && after == h,
{
}

/// A run that has left the world can still say how it is: a paused one what it was
/// paged out with, a finished one how it ended.
pub proof fn law_unloaded_run_keeps_its_status(h: HostView, run_id: Seq<char>)
    requires
        live(h, run_id) is None,
    ensures
        lookup(h.parked, run_id) is Some ==> status_of(h, run_id) == Some(
            lookup(h.parked, run_id)->0.status,
        ),
        lookup(h.parked, run_id) is None && finished_row(h.finished, run_id, 0) is Some
            ==> status_of(h, run_id) == Some(finished_row(h.finished, run_id, 0)->0.status),
{
}

/// A child stands one level below its parent, the two know of each other, and no other
/// agent is touched.
pub proof fn law_child_is_linked_both_ways(
    h: HostView,
    parent: Entity,
    parent_run_id: Seq<char>,
    run_id: Seq<char>,
    max_depth: nat,
    agent: AgentView,
)
    requires
        agent_at(h.world, parent) is Some,
        h.world.len() < usize::MAX,
    ensures
        ({
            let after = child_placed(h, parent, parent_run_id, run_id, max_depth, agent);
            let child = h.world.len() as usize;
            &&& after.world[child as int]->0.parent->0.parent_entity == parent
            &&& depth_of(after.world[child as int]->0) == depth_of(h.world[parent as int]->0) + 1
            &&& crate::host::tree::child_of(after.world, parent, child)
            &&& live(after, run_id) == Some(child)
            &&& forall|i: int|
                0 <= i < h.world.len() && i != parent ==> #[trigger] after.world[i] == h.world[i]
        }),
{
    let after = child_placed(h, parent, parent_run_id, run_id, max_depth, agent);
    let child = h.world.len() as usize;
    crate::table::lemma_inserted(h.by_run_id, run_id, child, run_id);
    let children = after.world[parent as int]->0.children->0.children;
    assert(children.last() == child);
}

} // verus!
