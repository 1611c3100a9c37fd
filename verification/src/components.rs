//! The plain data that describes an agent.

use crate::json::{Json, JsonView};
use crate::table::{modelled, NameTable};
use crate::text::texts;
use vstd::prelude::*;

verus! {

/// Where an agent stands in the world's table.
pub type Entity = usize;

/// What an agent is doing.
#[derive(Debug)]
pub enum AgentStatus {
    Idle,
    Active,
    Waiting,
    Paused,
    Complete,
    Error { message: String },
    Cancelled,
}

/// The model of an [`AgentStatus`].
pub enum StatusView {
    Idle,
    Active,
    Waiting,
    Paused,
    Complete,
    Error { message: Seq<char> },
    Cancelled,
}

impl View for AgentStatus {
    type V = StatusView;

    open spec fn view(&self) -> StatusView {
        match *self {
            AgentStatus::Idle => StatusView::Idle,
            AgentStatus::Active => StatusView::Active,
            AgentStatus::Waiting => StatusView::Waiting,
            AgentStatus::Paused => StatusView::Paused,
            AgentStatus::Complete => StatusView::Complete,
            AgentStatus::Error { message } => StatusView::Error { message: message@ },
            AgentStatus::Cancelled => StatusView::Cancelled,
        }
    }
}

impl StatusView {
    /// Whether nothing will drive the agent any further.
    pub open spec fn terminal(self) -> bool {
        self is Complete || self is Error || self is Cancelled
    }

    /// The short, stable name of a status.
    pub open spec fn label_of(self) -> Seq<char> {
        match self {
            StatusView::Idle => "idle"@,
            StatusView::Active => "active"@,
            StatusView::Waiting => "waiting"@,
            StatusView::Paused => "paused"@,
            StatusView::Complete => "complete"@,
            StatusView::Error { .. } => "error"@,
            StatusView::Cancelled => "cancelled"@,
        }
    }
}

impl AgentStatus {
    /// Whether nothing will drive the agent any further.
    pub fn is_terminal(&self) -> (b: bool)
        ensures
            b == self@.terminal(),
    {
        match self {
            AgentStatus::Complete => true,
            AgentStatus::Error { .. } => true,
            AgentStatus::Cancelled => true,
            _ => false,
        }
    }

    /// The short, stable name of the status.
    pub fn label(&self) -> (name: &'static str)
        ensures
            name@ == self@.label_of(),
    {
        match self {
            AgentStatus::Idle => "idle",
            AgentStatus::Active => "active",
            AgentStatus::Waiting => "waiting",
            AgentStatus::Paused => "paused",
            AgentStatus::Complete => "complete",
            AgentStatus::Error { .. } => "error",
            AgentStatus::Cancelled => "cancelled",
        }
    }
}

impl Clone for AgentStatus {
    fn clone(&self) -> (copy: Self)
        ensures
            copy == *self,
    {
        match self {
            AgentStatus::Idle => AgentStatus::Idle,
            AgentStatus::Active => AgentStatus::Active,
            AgentStatus::Waiting => AgentStatus::Waiting,
            AgentStatus::Paused => AgentStatus::Paused,
            AgentStatus::Complete => AgentStatus::Complete,
            AgentStatus::Error { message } => AgentStatus::Error { message: message.clone() },
            AgentStatus::Cancelled => AgentStatus::Cancelled,
        }
    }
}

/// An owned copy of an optional string.
pub fn copy_text(s: &Option<String>) -> (copy: Option<String>)
    ensures
        copy == *s,
{
    match s {
        Some(text) => Some(text.clone()),
        None => None,
    }
}

/// One tool call of a model's response.
pub struct ToolCall {
    pub id: String,
    pub name: String,
    pub arguments: Json,
}

/// The model of a [`ToolCall`].
pub struct ToolCallView {
    pub id: Seq<char>,
    pub name: Seq<char>,
    pub arguments: JsonView,
}

impl View for ToolCall {
    type V = ToolCallView;

    open spec fn view(&self) -> ToolCallView {
        ToolCallView { id: self.id@, name: self.name@, arguments: self.arguments@ }
    }
}

/// The models of several tool calls.
pub open spec fn call_views(calls: Seq<ToolCall>) -> Seq<ToolCallView> {
    Seq::new(calls.len(), |i: int| calls[i]@)
}

/// What one inference call used.
#[derive(Clone, Copy, Debug, PartialEq, Eq, Structural)]
pub struct TokenUsage {
    pub prompt_tokens: usize,
    pub completion_tokens: usize,
    pub total_tokens: usize,
    pub cached_tokens: usize,
    pub cache_write_tokens: usize,
}

impl ToolCall {
    /// An equal call.
    pub fn copy(&self) -> (out: ToolCall)
        ensures
            out@ == self@,
    {
        ToolCall { id: self.id.clone(), name: self.name.clone(), arguments: self.arguments.copy() }
    }
}

/// Equal calls, in the same order.
pub fn copy_calls(calls: &Vec<ToolCall>) -> (out: Vec<ToolCall>)
    ensures
        call_views(out@) == call_views(calls@),
{
    let mut out: Vec<ToolCall> = Vec::new();
    let mut i: usize = 0;
    while i < calls.len()
        invariant
            i <= calls.len(),
            out.len() == i,
            forall|j: int| 0 <= j < i ==> (#[trigger] out@[j])@ == calls@[j]@,
        decreases calls.len() - i,
    {
        out.push(calls[i].copy());
        i = i + 1;
    }
    proof {
        assert(call_views(out@) =~= call_views(calls@));
    }
    out
}

/// Who an agent is and what it is doing.
pub struct AgentState {
    pub agent_id: String,
    pub current_stage: String,
    pub iteration: usize,
    pub status: AgentStatus,
    /// The run ids of the agents it has started.
    pub spawned_children_ids: Vec<String>,
    /// Whether the current stage takes messages.
    pub accepts_messages: bool,
}

/// The model of an [`AgentState`].
pub struct AgentStateView {
    pub agent_id: Seq<char>,
    pub current_stage: Seq<char>,
    pub iteration: nat,
    pub status: StatusView,
    pub spawned_children_ids: Seq<Seq<char>>,
    pub accepts_messages: bool,
}

impl View for AgentState {
    type V = AgentStateView;

    open spec fn view(&self) -> AgentStateView {
        AgentStateView {
            agent_id: self.agent_id@,
            current_stage: self.current_stage@,
            iteration: self.iteration as nat,
            status: self.status@,
            spawned_children_ids: texts(self.spawned_children_ids@),
            accepts_messages: self.accepts_messages,
        }
    }
}

/// The link from an agent to the one that started it.
pub struct ParentRef {
    pub parent_entity: Entity,
    pub parent_agent_id: String,
    /// How far below the root the agent is.
    pub depth: usize,
}

/// The model of a [`ParentRef`].
pub struct ParentRefView {
    pub parent_entity: Entity,
    pub parent_agent_id: Seq<char>,
    pub depth: nat,
}

impl View for ParentRef {
    type V = ParentRefView;

    open spec fn view(&self) -> ParentRefView {
        ParentRefView {
            parent_entity: self.parent_entity,
            parent_agent_id: self.parent_agent_id@,
            depth: self.depth as nat,
        }
    }
}

/// The links from an agent to those it started.
pub struct SubAgentChildren {
    pub children: Vec<Entity>,
    pub max_child_depth: usize,
}

/// The model of [`SubAgentChildren`].
pub struct SubAgentChildrenView {
    pub children: Seq<Entity>,
    pub max_child_depth: nat,
}

impl View for SubAgentChildren {
    type V = SubAgentChildrenView;

    open spec fn view(&self) -> SubAgentChildrenView {
        SubAgentChildrenView {
            children: self.children@,
            max_child_depth: self.max_child_depth as nat,
        }
    }
}

/// A message for an agent.
pub struct AgentMessage {
    pub agent_id: String,
    pub content: String,
    /// The region it goes to; the conversation where none is named.
    pub target_region: Option<String>,
}

/// What the last inference of an agent gave.
pub struct InferenceResult {
    pub response: String,
    pub tool_calls: Vec<ToolCall>,
    pub tokens_used: usize,
    /// Unix seconds.
    pub timestamp: i64,
}

/// The model of an [`InferenceResult`].
pub struct InferenceResultView {
    pub response: Seq<char>,
    pub tool_calls: Seq<ToolCallView>,
    pub tokens_used: nat,
    pub timestamp: i64,
}

impl View for InferenceResult {
    type V = InferenceResultView;

    open spec fn view(&self) -> InferenceResultView {
        InferenceResultView {
            response: self.response@,
            tool_calls: call_views(self.tool_calls@),
            tokens_used: self.tokens_used as nat,
            timestamp: self.timestamp,
        }
    }
}

/// A model's response to an inference request.
pub struct InferenceResponse {
    pub content: String,
    pub tool_calls: Vec<ToolCall>,
    pub tokens_used: TokenUsage,
    /// Why the model stopped, as the provider names it.
    pub finish_reason: String,
}

/// The model of an [`InferenceResponse`].
pub struct InferenceResponseView {
    pub content: Seq<char>,
    pub tool_calls: Seq<ToolCallView>,
    pub tokens_used: TokenUsage,
    pub finish_reason: Seq<char>,
}

impl View for InferenceResponse {
    type V = InferenceResponseView;

    open spec fn view(&self) -> InferenceResponseView {
        InferenceResponseView {
            content: self.content@,
            tool_calls: call_views(self.tool_calls@),
            tokens_used: self.tokens_used,
            finish_reason: self.finish_reason@,
        }
    }
}

/// Where the results of tool calls go.
pub struct ToolResultRouting {
    pub default_region: String,
    /// The region of a tool's results, by the tool's name.
    pub tool_overrides: NameTable<String>,
    /// Whether results are kept; those that are not go to a scratch region.
    pub persist: bool,
    /// The longest result that is kept whole.
    pub max_result_tokens: Option<usize>,
}

/// The model of a [`ToolResultRouting`].
pub struct RoutingView {
    pub default_region: Seq<char>,
    pub tool_overrides: Seq<(Seq<char>, Seq<char>)>,
    pub persist: bool,
    pub max_result_tokens: Option<usize>,
}

impl View for ToolResultRouting {
    type V = RoutingView;

    open spec fn view(&self) -> RoutingView {
        RoutingView {
            default_region: self.default_region@,
            tool_overrides: modelled(self.tool_overrides@),
            persist: self.persist,
            max_result_tokens: self.max_result_tokens,
        }
    }
}

impl ToolResultRouting {
    /// An equal routing.
    pub fn copy(&self) -> (copy: ToolResultRouting)
        ensures
            copy@ == self@,
    {
        let mut entries: Vec<(String, String)> = Vec::new();
        let mut i: usize = 0;
        while i < self.tool_overrides.entries.len()
            invariant
                i <= self.tool_overrides.entries@.len(),
                entries@.len() == i,
                forall|k: int|
                    0 <= k < i ==> #[trigger] entries@[k] == self.tool_overrides.entries@[k],
            decreases self.tool_overrides.entries@.len() - i,
        {
            let pair = &self.tool_overrides.entries[i];
            entries.push((pair.0.clone(), pair.1.clone()));
            i = i + 1;
        }
        let copy = ToolResultRouting {
            default_region: self.default_region.clone(),
            tool_overrides: NameTable { entries },
            persist: self.persist,
            max_result_tokens: self.max_result_tokens,
        };
        proof {
            assert(copy.tool_overrides@ =~= self.tool_overrides@);
        }
        copy
    }
}

/// What an agent takes up when it enters a stage.
pub struct StageSetup {
    pub routing: Option<ToolResultRouting>,
    pub accepts_messages: bool,
    pub system_prompt: Option<String>,
}

/// The model of a [`StageSetup`].
pub struct StageSetupView {
    pub routing: Option<RoutingView>,
    pub accepts_messages: bool,
    pub system_prompt: Option<Seq<char>>,
}

impl View for StageSetup {
    type V = StageSetupView;

    open spec fn view(&self) -> StageSetupView {
        StageSetupView {
            routing: match self.routing {
                Some(routing) => Some(routing@),
                None => None,
            },
            accepts_messages: self.accepts_messages,
            system_prompt: match self.system_prompt {
                Some(prompt) => Some(prompt@),
                None => None,
            },
        }
    }
}

/// The models of several setups.
pub open spec fn setup_views(setups: Seq<StageSetup>) -> Seq<StageSetupView> {
    Seq::new(setups.len(), |i: int| setups[i]@)
}

/// How much of a run's declared read paths were granted.
#[derive(Clone, Copy, Debug, PartialEq, Eq, Structural)]
pub struct ReadPathGrantCounts {
    pub declared: usize,
    pub granted: usize,
}

/// What is known of a run from its launch.
pub struct RunMetadata {
    pub run_id: String,
    pub agent_name: String,
    pub num_stages: usize,
    pub unattended: bool,
    pub read_paths: Option<ReadPathGrantCounts>,
}

/// What a run has used so far.
#[derive(Clone, Copy, Debug, PartialEq, Eq, Structural)]
pub struct TokenTotals {
    pub prompt_tokens: usize,
    pub completion_tokens: usize,
    pub cached_tokens: usize,
    pub cache_write_tokens: usize,
    pub tool_calls: usize,
}

/// What a run handed back.
#[derive(Debug)]
pub struct FinalOutput {
    pub content: String,
    pub format: Option<String>,
    pub stage: String,
    pub submitted_at: i64,
    pub truncated: bool,
}

impl Clone for FinalOutput {
    fn clone(&self) -> (copy: Self)
        ensures
            copy == *self,
    {
        FinalOutput {
            content: self.content.clone(),
            format: copy_text(&self.format),
            stage: self.stage.clone(),
            submitted_at: self.submitted_at,
            truncated: self.truncated,
        }
    }
}

/// The status a run has on disk.
#[derive(Clone, Copy, Debug, PartialEq, Eq, Structural)]
pub enum RunStatus {
    Running,
    Waiting,
    Paused,
    Complete,
    Error,
    Cancelled,
}

/// What has last been written of a run.
#[derive(Clone, Copy, Debug, PartialEq, Eq, Structural)]
pub struct PersistWatermark {
    pub persisted_status: Option<RunStatus>,
    /// Unix seconds when the run last moved.
    pub last_progress_at: Option<i64>,
}

/// How contexts are summarized.
pub struct CompactionConfig {
    pub provider: String,
    pub model: String,
    pub max_summary_tokens: usize,
}

} // verus!
