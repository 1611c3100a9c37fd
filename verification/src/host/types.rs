//! The plain values that go in and out of the world host.

use crate::components::{AgentStatus, FinalOutput, ReadPathGrantCounts, StatusView};
use crate::interaction::{InteractionRequest, InteractionResponse, RequestView};
use crate::json::Json;
use crate::table::NameTable;
use vstd::prelude::*;

verus! {

/// The shape a caller wants a run's final output in.
pub struct OutputSpec {
    pub format: Option<String>,
    pub schema: Option<Json>,
}

/// The parameters for spawning an agent.
pub struct SpawnArgs {
    /// The run id to give the new agent.
    pub run_id: String,
    /// Path to the agent manifest directory or bundle.
    pub blueprint_path: String,
    pub task: String,
    /// Literal seed content for caller-input regions, by the region's input name.
    pub regions: NameTable<String>,
    pub model: Option<String>,
    pub workdir: String,
    pub metadata: NameTable<String>,
    pub callback_url: Option<String>,
    pub callback_secret: Option<String>,
    /// Run without a person: approve every tool call and answer the agent's own
    /// prompts.
    pub yolo: bool,
    /// Refuse this run's command seeds.
    pub no_seed_commands: bool,
    /// Tools to allow outright for this run.
    pub allow: Vec<String>,
    pub max_depth: Option<usize>,
    /// The run id of the agent's parent, where it has one.
    pub parent_run_id: Option<String>,
    pub output: Option<OutputSpec>,
}

/// Why an agent is waiting.
#[derive(Clone, Copy, Debug, PartialEq, Eq, Structural)]
pub enum WaitReason {
    /// A blocked call waits for a person to decide.
    TaintGate,
    /// A stage checkpoint waits for a person.
    InteractionPoint,
    /// Fan-out workers are running or still to be started.
    FanOutWorkers { outstanding: usize },
    /// Children are running.
    Children { outstanding: usize },
    /// A tool call waits for approval.
    ToolApproval,
    /// A question of the agent's waits for an answer.
    UserPrompt,
}

/// One row of a run listing.
#[derive(Debug)]
pub struct RunListEntry {
    pub run_id: String,
    pub status: AgentStatus,
    /// Why the status is waiting; `None` for every other status.
    pub wait_reason: Option<WaitReason>,
    pub stage: String,
    pub stage_index: Option<usize>,
    pub num_stages: Option<usize>,
    pub iteration: usize,
    pub tool_calls: usize,
    /// Unix seconds when this run last actually moved.
    pub last_progress_at: Option<i64>,
    pub unattended: bool,
    /// Whether the run stopped with no work to show for it.
    pub empty_output: bool,
    pub read_paths: Option<ReadPathGrantCounts>,
    /// Whether the run has submitted a final output.
    pub has_final_output: bool,
}

/// The model of a [`RunListEntry`].
pub struct RunEntryView {
    pub run_id: Seq<char>,
    pub status: StatusView,
    pub wait_reason: Option<WaitReason>,
    pub stage: Seq<char>,
    pub stage_index: Option<usize>,
    pub num_stages: Option<usize>,
    pub iteration: nat,
    pub tool_calls: usize,
    pub last_progress_at: Option<i64>,
    pub unattended: bool,
    pub empty_output: bool,
    pub read_paths: Option<ReadPathGrantCounts>,
    pub has_final_output: bool,
}

impl View for RunListEntry {
    type V = RunEntryView;

    open spec fn view(&self) -> RunEntryView {
        RunEntryView {
            run_id: self.run_id@,
            status: self.status@,
            wait_reason: self.wait_reason,
            stage: self.stage@,
            stage_index: self.stage_index,
            num_stages: self.num_stages,
            iteration: self.iteration as nat,
            tool_calls: self.tool_calls,
            last_progress_at: self.last_progress_at,
            unattended: self.unattended,
            empty_output: self.empty_output,
            read_paths: self.read_paths,
            has_final_output: self.has_final_output,
        }
    }
}

impl Clone for RunListEntry {
    fn clone(&self) -> (copy: Self)
        ensures
            copy@ == self@,
    {
        RunListEntry {
            run_id: self.run_id.clone(),
            status: self.status.clone(),
            wait_reason: self.wait_reason,
            stage: self.stage.clone(),
            stage_index: self.stage_index,
            num_stages: self.num_stages,
            iteration: self.iteration,
            tool_calls: self.tool_calls,
            last_progress_at: self.last_progress_at,
            unattended: self.unattended,
            empty_output: self.empty_output,
            read_paths: self.read_paths,
            has_final_output: self.has_final_output,
        }
    }
}

/// The models of several rows.
pub open spec fn entry_views(rows: Seq<RunListEntry>) -> Seq<RunEntryView> {
    Seq::new(rows.len(), |i: int| rows[i]@)
}

/// Loaded agents by status.
#[derive(Clone, Copy, Debug, PartialEq, Eq, Structural)]
pub struct AgentCounts {
    pub active: usize,
    pub waiting: usize,
    pub paused: usize,
    pub idle: usize,
    pub terminal: usize,
}

/// How full the inference pool of one model is.
#[derive(Debug)]
pub struct PoolOccupancy {
    pub model: String,
    pub in_flight: usize,
    pub queued: usize,
    pub capacity: usize,
}

impl Clone for PoolOccupancy {
    fn clone(&self) -> (copy: Self)
        ensures
            copy == *self,
    {
        PoolOccupancy {
            model: self.model.clone(),
            in_flight: self.in_flight,
            queued: self.queued,
            capacity: self.capacity,
        }
    }
}

/// A provider that is out of service.
#[derive(Debug)]
pub struct ProviderCircuitState {
    pub provider: String,
    pub reason: String,
    pub consecutive_failures: u32,
    pub retry_in_secs: u64,
}

/// What the lanes hold at one moment.
#[derive(Debug)]
pub struct LaneSnapshot {
    pub agents: AgentCounts,
    pub inference: Vec<PoolOccupancy>,
    pub tools_busy: usize,
    pub tools_queued: usize,
    pub tools_parked: usize,
    /// The tool lane's width, with any relief granted.
    pub tools_workers: usize,
    pub tools_saturated: bool,
    /// Whether some lane is at capacity with work queued behind it.
    pub under_pressure: bool,
}

/// The daemon's own health, alongside the run listing.
#[derive(Debug)]
pub struct DaemonHealth {
    pub agents: AgentCounts,
    pub inference: Vec<PoolOccupancy>,
    /// Tool batches holding lane capacity and running.
    pub tools_busy: usize,
    /// Tool batches waiting for lane capacity.
    pub tools_queued: usize,
    /// Tool batches parked on an unbounded wait, holding no capacity.
    pub tools_parked: usize,
    /// The tool lane's concurrency cap, with any relief granted.
    pub tools_workers: usize,
    /// Consecutive re-drives that found a lane at capacity and no run moving.
    pub dead_cycles: u32,
    /// How many extra tool-lane permits are handed out.
    pub relief_granted: usize,
    /// How often the daemon re-drives itself.
    pub redrive_secs: u64,
    /// Providers currently out of service.
    pub providers_down: Vec<ProviderCircuitState>,
}

/// The answer to a request for the run listing.
#[derive(Debug)]
pub struct RunListing {
    /// One entry per run the daemon is hosting.
    pub runs: Vec<RunListEntry>,
    /// Runs unloaded within the retention window, oldest first.
    pub finished: Vec<RunListEntry>,
    pub health: DaemonHealth,
}

/// A request from an agent's tool lane.
pub enum SubAgentOp {
    /// Spawn a child of `parent_run_id`, unless it would be deeper than
    /// `max_depth`.
    Spawn { args: SpawnArgs, parent_run_id: String, max_depth: usize },
    /// Report a run's status and answer.
    Check { run_id: String },
    /// Deliver a message to a run within the caller's tree.
    Send {
        run_id: String,
        caller_run_id: String,
        content: String,
        target_region: Option<String>,
    },
    /// Cancel a run within the caller's tree, with its whole sub-tree.
    Kill { run_id: String, caller_run_id: String },
}

/// What a parent learns when it checks on a child.
#[derive(Debug)]
pub struct SubAgentReport {
    pub status: AgentStatus,
    /// What the child submitted, if anything.
    pub final_output: Option<FinalOutput>,
}

/// The answer to a [`SubAgentOp`].
pub enum SubAgentReply {
    Spawned(Result<String, String>),
    Checked(Option<SubAgentReport>),
    Done(bool),
}

/// A control operation. Agents are addressed by run id.
pub enum ControlOp {
    Spawn { args: SpawnArgs },
    Status { run_id: String },
    /// What a run handed back.
    Result { run_id: String },
    Pause { run_id: String },
    Resume { run_id: String },
    Cancel { run_id: String },
    /// The run listing, with what the lanes hold and which providers are down.
    List { lanes: LaneSnapshot, providers_down: Vec<ProviderCircuitState> },
    Message { agent_id: String, content: String, target_region: Option<String> },
    ListInteractions,
    AnswerInteraction { response: InteractionResponse },
    CancelInteraction { request_id: String },
    Shutdown,
}

/// The answer to a [`ControlOp`].
pub enum ControlReply {
    Spawned(Result<String, String>),
    Status(Option<AgentStatus>),
    Result(Option<FinalOutput>),
    Done(bool),
    Listing(RunListing),
    Interactions(Vec<(String, InteractionRequest)>),
}

/// A change in the world.
#[non_exhaustive]
pub enum WorldEvent {
    /// A run first appeared in the world.
    Spawned { run_id: String, agent_id: String, blueprint: String },
    /// A run's status, stage, iteration or tool-call count changed.
    Status {
        run_id: String,
        agent_id: String,
        status: String,
        stage: String,
        iteration: usize,
        tool_calls: usize,
        accepts_messages: bool,
    },
    /// A run's token totals changed.
    Tokens {
        run_id: String,
        agent_id: String,
        prompt_tokens: usize,
        completion_tokens: usize,
        cached_tokens: usize,
        cache_write_tokens: usize,
    },
    /// A run's context-window usage changed.
    Context { run_id: String, agent_id: String, total_tokens: usize, max_tokens: usize },
    /// A run raised a new interaction awaiting an answer.
    Interaction { run_id: String, agent_id: String, request: InteractionRequest },
    /// A run reached a terminal status.
    Completed {
        run_id: String,
        agent_id: String,
        status: String,
        final_output: Option<FinalOutput>,
    },
    /// A run moved from one stage to another.
    StageTransition {
        run_id: String,
        agent_id: String,
        from: String,
        to: String,
        iteration: usize,
    },
    /// A tool call was handed to the tool lane.
    ToolCallStarted { run_id: String, agent_id: String, call_id: String, tool: String },
    /// A tool call returned.
    ToolCallFinished {
        run_id: String,
        agent_id: String,
        call_id: String,
        tool: String,
        ok: bool,
        summary: String,
    },
    /// A run produced a line of output.
    Log { run_id: String, agent_id: String, line: String },
}

/// The model of a [`WorldEvent`].
pub enum EventView {
    Spawned { run_id: Seq<char>, agent_id: Seq<char>, blueprint: Seq<char> },
    Status {
        run_id: Seq<char>,
        agent_id: Seq<char>,
        status: Seq<char>,
        stage: Seq<char>,
        iteration: nat,
        tool_calls: usize,
        accepts_messages: bool,
    },
    Tokens {
        run_id: Seq<char>,
        agent_id: Seq<char>,
        prompt_tokens: usize,
        completion_tokens: usize,
        cached_tokens: usize,
        cache_write_tokens: usize,
    },
    Context { run_id: Seq<char>, agent_id: Seq<char>, total_tokens: nat, max_tokens: nat },
    Interaction { run_id: Seq<char>, agent_id: Seq<char>, request: RequestView },
    Completed {
        run_id: Seq<char>,
        agent_id: Seq<char>,
        status: Seq<char>,
        final_output: Option<FinalOutput>,
    },
    StageTransition {
        run_id: Seq<char>,
        agent_id: Seq<char>,
        from: Seq<char>,
        to: Seq<char>,
        iteration: nat,
    },
    ToolCallStarted {
        run_id: Seq<char>,
        agent_id: Seq<char>,
        call_id: Seq<char>,
        tool: Seq<char>,
    },
    ToolCallFinished {
        run_id: Seq<char>,
        agent_id: Seq<char>,
        call_id: Seq<char>,
        tool: Seq<char>,
        ok: bool,
        summary: Seq<char>,
    },
    Log { run_id: Seq<char>, agent_id: Seq<char>, line: Seq<char> },
}

impl View for WorldEvent {
    type V = EventView;

    open spec fn view(&self) -> EventView {
        match *self {
            WorldEvent::Spawned { run_id, agent_id, blueprint } => EventView::Spawned {
                run_id: run_id@,
                agent_id: agent_id@,
                blueprint: blueprint@,
            },
            WorldEvent::Status {
                run_id,
                agent_id,
                status,
                stage,
                iteration,
                tool_calls,
                accepts_messages,
            } => EventView::Status {
                run_id: run_id@,
                agent_id: agent_id@,
                status: status@,
                stage: stage@,
                iteration: iteration as nat,
                tool_calls,
                accepts_messages,
            },
            WorldEvent::Tokens {
                run_id,
                agent_id,
                prompt_tokens,
                completion_tokens,
                cached_tokens,
                cache_write_tokens,
            } => EventView::Tokens {
                run_id: run_id@,
                agent_id: agent_id@,
                prompt_tokens,
                completion_tokens,
                cached_tokens,
                cache_write_tokens,
            },
            WorldEvent::Context { run_id, agent_id, total_tokens, max_tokens } => {
                EventView::Context {
                    run_id: run_id@,
                    agent_id: agent_id@,
                    total_tokens: total_tokens as nat,
                    max_tokens: max_tokens as nat,
                }
            },
            WorldEvent::Interaction { run_id, agent_id, request } => EventView::Interaction {
                run_id: run_id@,
                agent_id: agent_id@,
                request: request@,
            },
            WorldEvent::Completed { run_id, agent_id, status, final_output } => {
                EventView::Completed {
                    run_id: run_id@,
                    agent_id: agent_id@,
                    status: status@,
                    final_output,
                }
            },
            WorldEvent::StageTransition { run_id, agent_id, from, to, iteration } => {
                EventView::StageTransition {
                    run_id: run_id@,
                    agent_id: agent_id@,
                    from: from@,
                    to: to@,
                    iteration: iteration as nat,
                }
            },
            WorldEvent::ToolCallStarted { run_id, agent_id, call_id, tool } => {
                EventView::ToolCallStarted {
                    run_id: run_id@,
                    agent_id: agent_id@,
                    call_id: call_id@,
                    tool: tool@,
                }
            },
            WorldEvent::ToolCallFinished { run_id, agent_id, call_id, tool, ok, summary } => {
                EventView::ToolCallFinished {
                    run_id: run_id@,
                    agent_id: agent_id@,
                    call_id: call_id@,
                    tool: tool@,
                    ok,
                    summary: summary@,
                }
            },
            WorldEvent::Log { run_id, agent_id, line } => EventView::Log {
                run_id: run_id@,
                agent_id: agent_id@,
                line: line@,
            },
        }
    }
}

/// The models of several events.
pub open spec fn event_views(events: Seq<WorldEvent>) -> Seq<EventView> {
    Seq::new(events.len(), |i: int| events[i]@)
}

impl EventView {
    /// The run an event belongs to.
    pub open spec fn run(self) -> Seq<char> {
        match self {
            EventView::Spawned { run_id, .. } => run_id,
            EventView::Status { run_id, .. } => run_id,
            EventView::Tokens { run_id, .. } => run_id,
            EventView::Context { run_id, .. } => run_id,
            EventView::Interaction { run_id, .. } => run_id,
            EventView::Completed { run_id, .. } => run_id,
            EventView::StageTransition { run_id, .. } => run_id,
            EventView::ToolCallStarted { run_id, .. } => run_id,
            EventView::ToolCallFinished { run_id, .. } => run_id,
            EventView::Log { run_id, .. } => run_id,
        }
    }
}

impl WorldEvent {
    /// The run this event belongs to.
    pub fn run_id(&self) -> (id: &str)
        ensures
            id@ == self@.run(),
    {
        match self {
            WorldEvent::Spawned { run_id, .. } => run_id.as_str(),
            WorldEvent::Status { run_id, .. } => run_id.as_str(),
            WorldEvent::Tokens { run_id, .. } => run_id.as_str(),
            WorldEvent::Context { run_id, .. } => run_id.as_str(),
            WorldEvent::Interaction { run_id, .. } => run_id.as_str(),
            WorldEvent::Completed { run_id, .. } => run_id.as_str(),
            WorldEvent::StageTransition { run_id, .. } => run_id.as_str(),
            WorldEvent::ToolCallStarted { run_id, .. } => run_id.as_str(),
            WorldEvent::ToolCallFinished { run_id, .. } => run_id.as_str(),
            WorldEvent::Log { run_id, .. } => run_id.as_str(),
        }
    }
}

} // verus!
