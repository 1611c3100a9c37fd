//! The table of agents.

use crate::blueprint::Blueprint;
use crate::components::{
    setup_views, AgentMessage, AgentState, AgentStateView, AgentStatus, Entity, FinalOutput, InferenceResult,
    InferenceResultView, ParentRef, ParentRefView, PersistWatermark, RoutingView, RunMetadata,
    StageSetup, StageSetupView, StatusView, SubAgentChildren, SubAgentChildrenView, TokenTotals,
    ToolResultRouting,
};
use crate::context::{ContextWindow, WindowView};
use crate::fanout::{FanOutWaiting, FanOutWaitingView, SplitAttempts};
use crate::gate_prompt::{AwaitingGatePrompt, GateResolved, GateResolvedView};
use vstd::prelude::*;

verus! {

/// Everything the runtime holds of one agent. What an agent may lack is optional;
/// a marker is a `bool`.
pub struct Agent {
    pub state: AgentState,
    pub window: Option<ContextWindow>,
    pub inbox: Option<Vec<AgentMessage>>,
    /// Whether the agent's cancellation token is set, where it has one.
    pub cancel_token: Option<bool>,
    pub blueprint: Option<Blueprint>,
    /// The stage the agent is in, as a position among the blueprint's stages.
    pub cursor: Option<usize>,
    pub inference: Option<InferenceResult>,
    pub routing: Option<ToolResultRouting>,
    /// What the agent takes up in each stage, by the stage's position.
    pub setups: Option<Vec<StageSetup>>,
    pub parent: Option<ParentRef>,
    pub children: Option<SubAgentChildren>,
    pub metadata: Option<RunMetadata>,
    pub totals: Option<TokenTotals>,
    pub final_output: Option<FinalOutput>,
    pub watermark: Option<PersistWatermark>,
    /// Whether the run has stopped having modified nothing, when its blueprint
    /// gave it a way to.
    pub modified_nothing: bool,
    pub fan_out: Option<FanOutWaiting>,
    /// How many corrections the agent's split has had.
    pub split_attempts: Option<SplitAttempts>,
    /// How many gate prompts the agent's tool batch is held for.
    pub awaiting_gate_prompt: Option<AwaitingGatePrompt>,
    pub gate_resolved: Option<GateResolved>,
    pub process_response: bool,
    pub ready_to_infer: bool,
    pub ready_for_tools: bool,
    pub resolve_transition: bool,
    pub merged_worker: bool,
    pub waiting_for_children: bool,
    pub awaiting_interaction: bool,
    pub awaiting_interaction_point: bool,
}

/// The model of an [`Agent`].
#[verifier::ext_equal]
pub struct AgentView {
    pub state: AgentStateView,
    pub window: Option<WindowView>,
    pub inbox: Option<Seq<AgentMessage>>,
    pub cancel_token: Option<bool>,
    pub blueprint: Option<Blueprint>,
    pub cursor: Option<usize>,
    pub inference: Option<InferenceResultView>,
    pub routing: Option<RoutingView>,
    pub setups: Option<Seq<StageSetupView>>,
    pub parent: Option<ParentRefView>,
    pub children: Option<SubAgentChildrenView>,
    pub metadata: Option<RunMetadata>,
    pub totals: Option<TokenTotals>,
    pub final_output: Option<FinalOutput>,
    pub watermark: Option<PersistWatermark>,
    pub modified_nothing: bool,
    pub fan_out: Option<FanOutWaitingView>,
    pub split_attempts: Option<SplitAttempts>,
    pub awaiting_gate_prompt: Option<AwaitingGatePrompt>,
    pub gate_resolved: Option<GateResolvedView>,
    pub process_response: bool,
    pub ready_to_infer: bool,
    pub ready_for_tools: bool,
    pub resolve_transition: bool,
    pub merged_worker: bool,
    pub waiting_for_children: bool,
    pub awaiting_interaction: bool,
    pub awaiting_interaction_point: bool,
}

/// The model of an optional value.
pub open spec fn opt_view<T: View>(v: Option<T>) -> Option<T::V> {
    match v {
        Some(x) => Some(x@),
        None => None,
    }
}

impl View for Agent {
    type V = AgentView;

    open spec fn view(&self) -> AgentView {
        AgentView {
            state: self.state@,
            window: opt_view(self.window),
            inbox: opt_view(self.inbox),
            cancel_token: self.cancel_token,
            blueprint: self.blueprint,
            cursor: self.cursor,
            inference: opt_view(self.inference),
            routing: opt_view(self.routing),
            setups: match self.setups {
                Some(setups) => Some(setup_views(setups@)),
                None => None,
            },
            parent: opt_view(self.parent),
            children: opt_view(self.children),
            metadata: self.metadata,
            totals: self.totals,
            final_output: self.final_output,
            watermark: self.watermark,
            modified_nothing: self.modified_nothing,
            fan_out: opt_view(self.fan_out),
            split_attempts: self.split_attempts,
            awaiting_gate_prompt: self.awaiting_gate_prompt,
            gate_resolved: opt_view(self.gate_resolved),
            process_response: self.process_response,
            ready_to_infer: self.ready_to_infer,
            ready_for_tools: self.ready_for_tools,
            resolve_transition: self.resolve_transition,
            merged_worker: self.merged_worker,
            waiting_for_children: self.waiting_for_children,
            awaiting_interaction: self.awaiting_interaction,
            awaiting_interaction_point: self.awaiting_interaction_point,
        }
    }
}

/// The agents of a runtime. An agent keeps its place for good; the place of one
/// that is gone stays empty.
pub struct World {
    pub agents: Vec<Option<Agent>>,
}

/// The models of some places of a world.
pub open spec fn agent_views(agents: Seq<Option<Agent>>) -> Seq<Option<AgentView>> {
    Seq::new(agents.len(), |i: int| opt_view(agents[i]))
}

impl View for World {
    type V = Seq<Option<AgentView>>;

    open spec fn view(&self) -> Seq<Option<AgentView>> {
        agent_views(self.agents@)
    }
}

/// The agent at a place, if there is one.
pub open spec fn agent_at(world: Seq<Option<AgentView>>, e: Entity) -> Option<AgentView> {
    if e < world.len() {
        world[e as int]
    } else {
        None
    }
}

impl World {
    /// A world without agents.
    pub fn new() -> (world: World)
        ensures
            world@ == Seq::<Option<AgentView>>::empty(),
    {
        let world = World { agents: Vec::new() };
        proof {
            assert(world@ =~= Seq::empty());
        }
        world
    }

    /// The agent at a place.
    pub fn get(&self, e: Entity) -> (found: Option<&Agent>)
        ensures
            match found {
                Some(agent) => agent_at(self@, e) == Some(agent@) && e < self.agents@.len()
                    && self.agents@[e as int] == Some(*agent),
                None => agent_at(self@, e) is None,
            },
    {
        if e < self.agents.len() {
            match &self.agents[e] {
                Some(agent) => Some(agent),
                None => None,
            }
        } else {
            None
        }
    }

    /// Adds an agent and says where it stands.
    pub fn spawn(&mut self, agent: Agent) -> (e: Entity)
        ensures
            e == old(self)@.len(),
            final(self)@ == old(self)@.push(Some(agent@)),
    {
        let e: usize = self.agents.len();
        self.agents.push(Some(agent));
        proof {
            assert(self@ =~= old(self)@.push(Some(agent@)));
        }
        e
    }

    /// Empties a place.
    pub fn despawn(&mut self, e: Entity)
        ensures
            final(self)@ == if e < old(self)@.len() {
                old(self)@.update(e as int, None)
            } else {
                old(self)@
            },
    {
        if e < self.agents.len() {
            self.agents[e] = None;
        }
        proof {
            assert(self@ =~= if e < old(self)@.len() {
                old(self)@.update(e as int, None)
            } else {
                old(self)@
            });
        }
    }

    /// The status of the agent at a place.
    pub fn agent_status(&self, e: Entity) -> (status: Option<AgentStatus>)
        ensures
            opt_view(status) == match agent_at(self@, e) {
                Some(agent) => Some(agent.state.status),
                None => None,
            },
    {
        match self.get(e) {
            Some(agent) => Some(agent.state.status.clone()),
            None => None,
        }
    }

    /// Gives the agent at a place a status; nothing happens where there is none.
    pub fn set_status(&mut self, e: Entity, status: AgentStatus)
        ensures
            final(self)@ == with_status(old(self)@, e, status@),
    {
        if e < self.agents.len() {
            if let Some(agent) = &mut self.agents[e] {
                agent.state.status = status;
            }
        }
        proof {
            assert(self@ =~= with_status(old(self)@, e, status@));
        }
    }
}

/// The agent with another status.
pub open spec fn agent_with_status(agent: AgentView, status: StatusView) -> AgentView {
    AgentView { state: crate::components::AgentStateView { status, ..agent.state }, ..agent }
}

/// The world after the agent at a place is given a status.
pub open spec fn with_status(
    world: Seq<Option<AgentView>>,
    e: Entity,
    status: StatusView,
) -> Seq<Option<AgentView>> {
    match agent_at(world, e) {
        Some(agent) => world.update(e as int, Some(agent_with_status(agent, status))),
        None => world,
    }
}

/// An agent after it is paused; one that is over is left alone.
pub open spec fn agent_paused(agent: AgentView) -> AgentView {
    if agent.state.status.terminal() {
        agent
    } else {
        agent_with_status(agent, StatusView::Paused)
    }
}

/// An agent after it is resumed; one that is not paused is left alone.
pub open spec fn agent_resumed(agent: AgentView) -> AgentView {
    if agent.state.status is Paused {
        agent_with_status(agent, StatusView::Active)
    } else {
        agent
    }
}

/// An agent after it is cancelled; one that is over is left alone.
pub open spec fn agent_cancelled(agent: AgentView) -> AgentView {
    if agent.state.status.terminal() {
        agent
    } else {
        AgentView {
            cancel_token: match agent.cancel_token {
                Some(_) => Some(true),
                None => None,
            },
            ..agent_with_status(agent, StatusView::Cancelled)
        }
    }
}

/// The world with another record at a place where there is an agent.
pub open spec fn with_agent(
    world: Seq<Option<AgentView>>,
    e: Entity,
    agent: AgentView,
) -> Seq<Option<AgentView>> {
    if agent_at(world, e) is Some {
        world.update(e as int, Some(agent))
    } else {
        world
    }
}

/// An agent that has nothing but its state.
pub open spec fn bare_agent(state: AgentStateView) -> AgentView {
    AgentView {
        state,
        window: None,
        inbox: None,
        cancel_token: None,
        blueprint: None,
        cursor: None,
        inference: None,
        routing: None,
        setups: None,
        parent: None,
        children: None,
        metadata: None,
        totals: None,
        final_output: None,
        watermark: None,
        modified_nothing: false,
        fan_out: None,
        split_attempts: None,
        awaiting_gate_prompt: None,
        gate_resolved: None,
        process_response: false,
        ready_to_infer: false,
        ready_for_tools: false,
        resolve_transition: false,
        merged_worker: false,
        waiting_for_children: false,
        awaiting_interaction: false,
        awaiting_interaction_point: false,
    }
}

impl Agent {
    /// An agent that has nothing but its state.
    pub fn new(state: AgentState) -> (agent: Agent)
        ensures
            agent@ == bare_agent(state@),
    {
        Agent {
            state,
            window: None,
            inbox: None,
            cancel_token: None,
            blueprint: None,
            cursor: None,
            inference: None,
            routing: None,
            setups: None,
            parent: None,
            children: None,
            metadata: None,
            totals: None,
            final_output: None,
            watermark: None,
            modified_nothing: false,
            fan_out: None,
            split_attempts: None,
            awaiting_gate_prompt: None,
            gate_resolved: None,
            process_response: false,
            ready_to_infer: false,
            ready_for_tools: false,
            resolve_transition: false,
            merged_worker: false,
            waiting_for_children: false,
            awaiting_interaction: false,
            awaiting_interaction_point: false,
        }
    }

    /// Pauses the agent, and says whether it could still be.
    pub fn pause(&mut self) -> (live: bool)
        ensures
            final(self)@ == agent_paused(old(self)@),
            live == !old(self)@.state.status.terminal(),
    {
        if self.state.status.is_terminal() {
            return false;
        }
        self.state.status = AgentStatus::Paused;
        true
    }

    /// Resumes the agent, and says whether it could still be.
    pub fn resume(&mut self) -> (live: bool)
        ensures
            final(self)@ == agent_resumed(old(self)@),
            live == !old(self)@.state.status.terminal(),
    {
        if self.state.status.is_terminal() {
            return false;
        }
        match &self.state.status {
            AgentStatus::Paused => {
                self.state.status = AgentStatus::Active;
            },
            _ => {},
        }
        true
    }

    /// Cancels the agent, unless it is over.
    pub fn cancel(&mut self)
        ensures
            final(self)@ == agent_cancelled(old(self)@),
    {
        if !self.state.status.is_terminal() {
            self.state.status = AgentStatus::Cancelled;
            if self.cancel_token.is_some() {
                self.cancel_token = Some(true);
            }
        }
    }
}

impl World {
    /// Pauses the agent at a place, and says whether there is one that is not over.
    pub fn pause(&mut self, e: Entity) -> (live: bool)
        ensures
            match agent_at(old(self)@, e) {
                Some(agent) => live == !agent.state.status.terminal() && final(self)@ == with_agent(
                    old(self)@,
                    e,
                    agent_paused(agent),
                ),
                None => !live && final(self)@ == old(self)@,
            },
    {
        let ghost before = self@;
        let mut live = false;
        if e < self.agents.len() {
            if let Some(agent) = &mut self.agents[e] {
                live = agent.pause();
            }
        }
        proof {
            assert(self@ =~= match agent_at(before, e) {
                Some(agent) => with_agent(before, e, agent_paused(agent)),
                None => before,
            });
        }
        live
    }

    /// Resumes the agent at a place, and says whether there is one that is not over.
    pub fn resume(&mut self, e: Entity) -> (live: bool)
        ensures
            match agent_at(old(self)@, e) {
                Some(agent) => live == !agent.state.status.terminal() && final(self)@ == with_agent(
                    old(self)@,
                    e,
                    agent_resumed(agent),
                ),
                None => !live && final(self)@ == old(self)@,
            },
    {
        let ghost before = self@;
        let mut live = false;
        if e < self.agents.len() {
            if let Some(agent) = &mut self.agents[e] {
                live = agent.resume();
            }
        }
        proof {
            assert(self@ =~= match agent_at(before, e) {
                Some(agent) => with_agent(before, e, agent_resumed(agent)),
                None => before,
            });
        }
        live
    }
}

/// An agent is found at its place while there is one, and setting a status changes that alone.
pub proof fn law_status_is_set_in_one_place(
    world: Seq<Option<AgentView>>,
    e: Entity,
    status: StatusView,
    i: int,
)
    requires
        0 <= i < world.len(),
    ensures
        ({
            let after = with_status(world, e, status);
            &&& after.len() == world.len()
            &&& i != e ==> after[i] == world[i]
            &&& i == e && world[i] is None ==> after[i] is None
            &&& i == e && world[i] is Some ==> after[i] is Some && after[i]->0.state.status == status
                && after[i]->0.window == world[i]->0.window && after[i]->0.inbox
                == world[i]->0.inbox && after[i]->0.state.agent_id == world[i]->0.state.agent_id
                && after[i]->0.state.iteration == world[i]->0.state.iteration
        }),
        e < world.len() ==> agent_at(world, e) == world[e as int],
        e >= world.len() ==> agent_at(world, e) is None,
{
}

/// A new agent has its state and nothing else: nothing is due, awaited or known of it.
pub proof fn law_new_agent_is_bare(state: AgentStateView)
    ensures
        ({
            let agent = bare_agent(state);
            &&& agent.state == state
            &&& agent.window is None && agent.inbox is None && agent.inference is None
            &&& agent.parent is None && agent.children is None && agent.fan_out is None
            &&& agent.final_output is None && agent.totals is None && agent.cancel_token is None
            &&& agent.awaiting_gate_prompt is None && agent.gate_resolved is None
            &&& !agent.ready_to_infer && !agent.ready_for_tools && !agent.process_response
            &&& !agent.resolve_transition && !agent.merged_worker && !agent.waiting_for_children
            &&& !agent.awaiting_interaction && !agent.awaiting_interaction_point
        }),
{
}

} // verus!
