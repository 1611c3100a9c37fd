//! The split of a fan-out stage: one response becomes the work items of a parked
//! parent, or is sent back to the model with a correction.

use vstd::prelude::*;

use crate::blueprint::{Blueprint, FanOutConfig, StageMode};
use crate::components::{AgentStatus, StatusView};
use crate::context::{public_entry, ContextWindow, EntryKind, EntryKindView, WindowView};
use crate::fanout::split_parse::{item_views, WorkItem, WorkItemView};
use crate::fanout::{
    correction, pair_views, parse_work_items, parsed_with, response_snippet, snippet,
    split_correction, worker_views, FanOutWaiting, FanOutWaitingView, SplitAttempts,
    MAX_SPLIT_RETRIES,
};
use crate::text::{decimal, decimal_text, estimate_tokens, tokens_of};
use crate::world::{agent_with_status, Agent, AgentView, World};
use std::collections::VecDeque;

verus! {

/// The configuration of the fan-out stage that a blueprint has at a position.
pub open spec fn fan_out_at(blueprint: Blueprint, index: usize) -> Option<FanOutConfig> {
    match blueprint.stages@[index as int].mode {
        StageMode::FanOut { config } => Some(config),
        StageMode::Standard => None,
    }
}

/// Whether an agent holds a response that a stage is to read.
pub open spec fn has_response(agent: AgentView) -> bool {
    &&& agent.process_response
    &&& agent.state.status is Active
    &&& agent.inference is Some
    &&& agent.blueprint is Some
    &&& agent.cursor is Some
}

/// Whether the stage that is to read an agent's response exists.
pub open spec fn stage_exists(agent: AgentView) -> bool {
    has_response(agent) ==> agent.cursor->0 < agent.blueprint->0.stages@.len()
}

/// The fan-out stage that takes an agent's response as its split, if one does.
pub open spec fn splits(agent: AgentView) -> Option<FanOutConfig> {
    if has_response(agent) {
        fan_out_at(agent.blueprint->0, agent.cursor->0)
    } else {
        None
    }
}

/// The agent once its response is taken.
pub open spec fn consumed(agent: AgentView) -> AgentView {
    AgentView { process_response: false, inference: None, ..agent }
}

/// The work items that a stage keeps: the first ones, where there are too many.
pub open spec fn kept_items(items: Seq<WorkItemView>, max_items: Option<usize>) -> Seq<
    WorkItemView,
> {
    match max_items {
        Some(cap) => if items.len() > cap {
            items.take(cap as int)
        } else {
            items
        },
        None => items,
    }
}

/// A parent whose workers are all still to be started.
pub open spec fn parked(config: FanOutConfig, items: Seq<WorkItemView>) -> FanOutWaitingView {
    FanOutWaitingView {
        config,
        max_workers: match config.cap() {
            Some(cap) => cap as nat,
            None => usize::MAX as nat,
        },
        pending: kept_items(items, config.max_items),
        active: Seq::empty(),
        summaries: Seq::empty(),
        failures: Seq::empty(),
    }
}

/// A system message as it stands in a conversation.
pub open spec fn system_message(text: Seq<char>) -> Seq<char> {
    "[System] "@ + text
}

/// The window after a response could not be used: what the model said, and then
/// what was wrong with it.
pub open spec fn corrected(w: WindowView, response: Seq<char>, reason: Seq<char>) -> WindowView {
    let said = w.offered(
        "conversation"@,
        public_entry(
            EntryKindView::AssistantTurn { tool_calls: Seq::empty() },
            response,
            tokens_of(response),
        ),
    );
    let message = system_message(correction(reason));
    said.offered(
        "conversation"@,
        public_entry(EntryKindView::UserMessage, message, tokens_of(message)),
    )
}

/// Why a run fails whose split never came right.
pub open spec fn split_failure(attempts: nat, reason: Seq<char>, response: Seq<char>) -> Seq<char> {
    "fan_out split failed after "@ + decimal(attempts) + " correction(s): "@ + reason + " ("@
        + snippet(response) + ")"@
}

/// How many corrections an agent's split has had.
pub open spec fn attempts_of(agent: AgentView) -> usize {
    match agent.split_attempts {
        Some(attempts) => attempts.0,
        None => 0,
    }
}

/// The agent after a split that could not be read: asked again while corrections
/// are left and there is a window to put one in, failed otherwise.
pub open spec fn split_refused(agent: AgentView, response: Seq<char>, reason: Seq<char>) -> AgentView {
    let attempts = attempts_of(agent);
    if attempts < MAX_SPLIT_RETRIES && agent.window is Some {
        AgentView {
            window: Some(corrected(agent.window->0, response, reason)),
            split_attempts: Some(SplitAttempts((attempts + 1) as usize)),
            ready_to_infer: true,
            ..consumed(agent)
        }
    } else {
        agent_with_status(
            consumed(agent),
            StatusView::Error { message: split_failure(attempts as nat, reason, response) },
        )
    }
}

/// The agent after a split that gave work items: parked until its workers are done.
pub open spec fn split_taken(agent: AgentView, config: FanOutConfig, items: Seq<WorkItemView>) -> AgentView {
    AgentView {
        fan_out: Some(parked(config, items)),
        ..agent_with_status(consumed(agent), StatusView::Waiting)
    }
}

/// The agent after its response was read as a split, given what it was read as.
pub open spec fn split_outcome(
    agent: AgentView,
    config: FanOutConfig,
    response: Seq<char>,
    parsed: Result<Vec<WorkItem>, String>,
) -> AgentView {
    match parsed {
        Ok(items) => split_taken(agent, config, item_views(items@)),
        Err(reason) => split_refused(agent, response, reason@),
    }
}

/// The first work items, in a queue.
fn queue_items(items: Vec<WorkItem>, max_items: Option<usize>) -> (queue: VecDeque<WorkItem>)
    ensures
        item_views(queue@) == kept_items(item_views(items@), max_items),
{
    let cap: usize = match max_items {
        Some(cap) => cap,
        None => usize::MAX,
    };
    let ghost all = items@;
    let mut queue: VecDeque<WorkItem> = VecDeque::new();
    let total: usize = items.len();
    for item in it: items
        invariant
            it.seq() == all,
            total == all.len(),
            queue@.len() == if it.index() < cap {
                it.index() as int
            } else {
                cap as int
            },
            forall|j: int| 0 <= j < queue@.len() ==> #[trigger] queue@[j] == all[j],
    {
        if queue.len() < cap {
            queue.push_back(item);
        }
    }
    proof {
        assert(item_views(queue@) =~= kept_items(item_views(all), max_items));
    }
    queue
}

/// Puts a response that could not be used, and the correction, into a window.
pub fn correct_split(window: &mut ContextWindow, response: &str, reason: &str)
    ensures
        final(window)@ == corrected(old(window)@, response@, reason@),
{
    let tokens: usize = estimate_tokens(response);
    let turn = EntryKind::AssistantTurn { tool_calls: Vec::new() };
    proof {
        assert(turn@->tool_calls =~= Seq::empty());
    }
    let _ = window.add_typed_entry("conversation", turn, response.to_owned(), tokens);
    let mut message = "[System] ".to_owned();
    message.append(split_correction(reason).as_str());
    let tokens: usize = estimate_tokens(message.as_str());
    let _ = window.add_typed_entry("conversation", EntryKind::UserMessage, message, tokens);
}

/// Why a run fails whose split never came right.
fn split_failure_text(attempts: usize, reason: &str, response: &str) -> (message: String)
    ensures
        message@ == split_failure(attempts as nat, reason@, response@),
{
    let mut message = "fan_out split failed after ".to_owned();
    message.append(decimal_text(attempts as u64).as_str());
    message.append(" correction(s): ");
    message.append(reason);
    message.append(" (");
    message.append(response_snippet(response).as_str());
    message.append(")");
    message
}

/// Takes back a response that could not be read as a split.
pub fn refuse_split(agent: &mut Agent, response: &str, reason: &str)
    ensures
        final(agent)@ == split_refused(old(agent)@, response@, reason@),
{
    agent.process_response = false;
    agent.inference = None;
    let attempts: usize = match agent.split_attempts {
        Some(attempts) => attempts.0,
        None => 0,
    };
    if attempts < MAX_SPLIT_RETRIES && agent.window.is_some() {
        if let Some(window) = &mut agent.window {
            correct_split(window, response, reason);
        }
        agent.split_attempts = Some(SplitAttempts(attempts + 1));
        agent.ready_to_infer = true;
    } else {
        agent.state.status =
            AgentStatus::Error { message: split_failure_text(attempts, reason, response) };
    }
}

/// A parent whose workers are all still to be started.
fn park(config: FanOutConfig, items: Vec<WorkItem>) -> (waiting: FanOutWaiting)
    ensures
        waiting@ == parked(config, item_views(items@)),
{
    let max_workers: usize = match config.worker_cap() {
        Some(cap) => cap,
        None => usize::MAX,
    };
    let pending = queue_items(items, config.max_items);
    let waiting = FanOutWaiting {
        config,
        max_workers,
        pending,
        active: Vec::new(),
        summaries: Vec::new(),
        failures: Vec::new(),
    };
    proof {
        assert(worker_views(waiting.active@) =~= Seq::empty());
        assert(pair_views(waiting.summaries@) =~= Seq::empty());
        assert(pair_views(waiting.failures@) =~= Seq::empty());
    }
    waiting
}

/// Applies what a fan-out stage read in its agent's response.
pub fn apply_split(
    agent: &mut Agent,
    config: FanOutConfig,
    response: &str,
    parsed: Result<Vec<WorkItem>, String>,
)
    ensures
        final(agent)@ == split_outcome(old(agent)@, config, response@, parsed),
{
    match parsed {
        Ok(items) => {
            agent.process_response = false;
            agent.inference = None;
            agent.fan_out = Some(park(config, items));
            agent.state.status = AgentStatus::Waiting;
        },
        Err(reason) => refuse_split(agent, response, reason.as_str()),
    }
}

/// The response of an agent that a fan-out stage takes as its split, and the
/// stage's configuration.
fn split_due(agent: &Agent) -> (due: Option<(String, FanOutConfig)>)
    requires
        stage_exists(agent@),
    ensures
        match due {
            Some((response, config)) => splits(agent@) == Some(config) && agent@.inference is Some
                && response@ == agent@.inference->0.response,
            None => splits(agent@) is None,
        },
{
    if !agent.process_response {
        return None;
    }
    match &agent.state.status {
        AgentStatus::Active => {},
        _ => return None,
    }
    match (&agent.blueprint, agent.cursor, &agent.inference) {
        (Some(blueprint), Some(index), Some(inference)) => match &blueprint.stages[index].mode {
            StageMode::FanOut { config } => Some((inference.response.clone(), config.clone())),
            StageMode::Standard => None,
        },
        _ => None,
    }
}

/// Whether `after` is what becomes of an agent when its response is due as a
/// split, `parse` reading the work items.
pub open spec fn split_agent<F: Fn(&str) -> Result<Vec<WorkItem>, String>>(
    parse: F,
    agent: AgentView,
    after: AgentView,
) -> bool {
    match splits(agent) {
        None => after == agent,
        Some(config) => {
            let response = agent.inference->0.response;
            exists|parsed: Result<Vec<WorkItem>, String>|
                {
                    &&& #[trigger] parsed_with(parse, response, parsed)
                    &&& after == split_outcome(agent, config, response, parsed)
                }
        },
    }
}

/// Whether `after` is what becomes of a place of the world.
pub open spec fn split_place<F: Fn(&str) -> Result<Vec<WorkItem>, String>>(
    parse: F,
    place: Option<AgentView>,
    after: Option<AgentView>,
) -> bool {
    match place {
        Some(agent) => after is Some && split_agent(parse, agent, after->0),
        None => after is None,
    }
}

/// Takes every response that is due as a split. An agent whose response gives
/// work items is parked; one whose response does not is asked again, or fails.
/// `parse` reads the text between the outermost brackets as work items.
pub fn fan_out_split<F: Fn(&str) -> Result<Vec<WorkItem>, String>>(world: &mut World, parse: &F)
    requires
        forall|text: &str| call_requires(*parse, (text,)),
        forall|i: int|
            0 <= i < old(world)@.len() && (#[trigger] old(world)@[i]) is Some ==> stage_exists(
                old(world)@[i]->0,
            ),
    ensures
        final(world)@.len() == old(world)@.len(),
        forall|i: int|
            0 <= i < old(world)@.len() ==> split_place(
                *parse,
                old(world)@[i],
                #[trigger] final(world)@[i],
            ),
{
    let ghost before = world@;
    let mut i: usize = 0;
    while i < world.agents.len()
        invariant
            i <= world@.len(),
            world@.len() == before.len(),
            world.agents@.len() == before.len(),
            forall|text: &str| call_requires(*parse, (text,)),
            forall|k: int|
                0 <= k < before.len() && (#[trigger] before[k]) is Some ==> stage_exists(
                    before[k]->0,
                ),
            forall|k: int| i <= k < before.len() ==> #[trigger] world@[k] == before[k],
            forall|k: int| 0 <= k < i ==> split_place(*parse, before[k], #[trigger] world@[k]),
        decreases before.len() - i,
    {
        let ghost here = world@;
        assert(here[i as int] == before[i as int]);
        let due = match &world.agents[i] {
            Some(agent) => split_due(agent),
            None => None,
        };
        if let Some((response, config)) = due {
            let parsed = parse_work_items(response.as_str(), parse);
            if let Some(agent) = &mut world.agents[i] {
                apply_split(agent, config, response.as_str(), parsed);
            }
        }
        proof {
            assert forall|k: int| 0 <= k < before.len() && k != i implies #[trigger] world@[k]
                == here[k] by {}
            assert(split_place(*parse, before[i as int], world@[i as int]));
        }
        i = i + 1;
    }
}

/// A model that cannot produce the shape does not loop for ever: each refusal uses
/// up a correction or ends the run, and once the corrections are spent the next
/// refusal ends it.
pub proof fn law_corrections_are_bounded(agent: AgentView, response: Seq<char>, reason: Seq<char>)
    ensures
        ({
            let after = split_refused(agent, response, reason);
            &&& after.state.status is Error || (attempts_of(after) == attempts_of(agent) + 1
                && attempts_of(after) <= MAX_SPLIT_RETRIES && after.ready_to_infer)
            &&& attempts_of(agent) >= MAX_SPLIT_RETRIES ==> after.state.status is Error
        }),
{
}

/// A split never starts more work than its stage allows, and what it keeps is the
/// beginning of what the model produced.
pub proof fn law_split_keeps_the_first_items(config: FanOutConfig, items: Seq<WorkItemView>)
    ensures
        parked(config, items).pending.is_prefix_of(items),
        config.max_items is Some ==> parked(config, items).pending.len() <= config.max_items->0,
        config.max_items is None || items.len() <= config.max_items->0 ==> parked(
            config,
            items,
        ).pending == items,
{
}

/// Whatever a response was read as, it is read only once.
pub proof fn law_split_consumes_the_response(
    agent: AgentView,
    config: FanOutConfig,
    response: Seq<char>,
    parsed: Result<Vec<WorkItem>, String>,
)
    ensures
        splits(split_outcome(agent, config, response, parsed)) is None,
{
}

} // verus!
