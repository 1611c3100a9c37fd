//! Entering a stage.

use crate::components::{AgentStateView, AgentStatus, Entity, StageSetupView, StatusView};
use crate::context::{
    public_entry, region_views, ContextWindow, EntryKindView, RegionKind, RegionView, WindowView,
};
use crate::text::{estimate_tokens, tokens_of};
use crate::world::{agent_at, agent_with_status, opt_view, Agent, AgentView, World};
use vstd::prelude::*;

verus! {

/// What an agent takes up in the stage at a position.
pub open spec fn setup_at(agent: AgentView, index: int) -> Option<StageSetupView> {
    match agent.setups {
        Some(setups) => if 0 <= index < setups.len() {
            Some(setups[index])
        } else {
            None
        },
        None => None,
    }
}

/// The name of the stage at a position; the current one's where there is none.
pub open spec fn stage_name(agent: AgentView, index: int) -> Seq<char> {
    match agent.blueprint {
        Some(blueprint) => if 0 <= index < blueprint.stages@.len() {
            blueprint.stages@[index].name@
        } else {
            agent.state.current_stage
        },
        None => agent.state.current_stage,
    }
}

/// The name of the first pinned region.
pub open spec fn pinned_region(regions: Seq<RegionView>) -> Option<Seq<char>>
    decreases regions.len(),
{
    if regions.len() == 0 {
        None
    } else if regions[0].kind is Pinned {
        Some(regions[0].name)
    } else {
        pinned_region(regions.skip(1))
    }
}

/// The window with a stage's system prompt in its first pinned region, unless the prompt
/// does not fit there. A window without a pinned region stays as it is.
pub open spec fn with_prompt(w: WindowView, prompt: Seq<char>) -> Option<WindowView> {
    match pinned_region(w.regions) {
        Some(name) => match w.adding(
            name,
            public_entry(EntryKindView::Text, prompt, tokens_of(prompt)),
        ) {
            Ok(after) => Some(after),
            Err(_) => None,
        },
        None => Some(w),
    }
}

/// Why an agent fails whose stage has a system prompt that does not fit.
pub open spec fn prompt_overflow(stage: Seq<char>) -> Seq<char> {
    "the system prompt of stage '"@ + stage + "' does not fit its region"@
}

/// The agent with its cursor in a stage, and with what it takes up there but for the
/// system prompt.
pub open spec fn moved_to(agent: AgentView, index: usize) -> AgentView {
    let setup = setup_at(agent, index as int);
    AgentView {
        cursor: Some(index),
        state: AgentStateView {
            current_stage: stage_name(agent, index as int),
            accepts_messages: match setup {
                Some(setup) => setup.accepts_messages,
                None => agent.state.accepts_messages,
            },
            ..agent.state
        },
        routing: match setup {
            Some(setup) => setup.routing,
            None => agent.routing,
        },
        ..agent
    }
}

/// The window an agent has in a stage; `None` where the stage's system prompt does not
/// fit it.
pub open spec fn prompted(agent: AgentView, index: int) -> Option<Option<WindowView>> {
    match (setup_at(agent, index), agent.window) {
        (Some(setup), Some(w)) => match setup.system_prompt {
            Some(prompt) => match with_prompt(w, prompt) {
                Some(after) => Some(Some(after)),
                None => None,
            },
            None => Some(agent.window),
        },
        _ => Some(agent.window),
    }
}

/// An agent once it has entered a stage: ready to infer there, or failed, where the
/// stage's system prompt does not fit its window.
pub open spec fn entered(agent: AgentView, index: usize) -> AgentView {
    match prompted(agent, index as int) {
        Some(window) => AgentView { window, ready_to_infer: true, ..moved_to(agent, index) },
        None => agent_with_status(
            moved_to(agent, index),
            StatusView::Error { message: prompt_overflow(stage_name(agent, index as int)) },
        ),
    }
}

/// The name of the first pinned region.
fn find_pinned(window: &ContextWindow) -> (name: Option<String>)
    ensures
        match name {
            Some(name) => pinned_region(window@.regions) == Some(name@),
            None => pinned_region(window@.regions) is None,
        },
{
    let ghost all = window@.regions;
    let mut i: usize = 0;
    proof {
        assert(all.skip(0) =~= all);
    }
    while i < window.regions.len()
        invariant
            i <= window.regions@.len(),
            all == region_views(window.regions@),
            pinned_region(all) == pinned_region(all.skip(i as int)),
        decreases window.regions@.len() - i,
    {
        proof {
            assert(all.skip(i as int).skip(1) =~= all.skip(i + 1));
            assert(all.skip(i as int)[0] == window.regions@[i as int]@);
        }
        let pinned = match &window.regions[i].kind {
            RegionKind::Pinned => true,
            _ => false,
        };
        if pinned {
            return Some(window.regions[i].name.clone());
        }
        i = i + 1;
    }
    None
}

/// Puts a stage's system prompt into a window. Says whether it fits.
fn add_prompt(window: &mut ContextWindow, prompt: &str) -> (fits: bool)
    ensures
        match with_prompt(old(window)@, prompt@) {
            Some(after) => fits && final(window)@ == after,
            None => !fits && final(window)@ == old(window)@,
        },
{
    match find_pinned(window) {
        Some(name) => window.add_to_region(
            name.as_str(),
            prompt.to_owned(),
            estimate_tokens(prompt),
        ).is_ok(),
        None => true,
    }
}

/// The name of the stage at a position; the current one's where there is none.
fn name_of_stage(agent: &Agent, index: usize) -> (name: String)
    ensures
        name@ == stage_name(agent@, index as int),
{
    match &agent.blueprint {
        Some(blueprint) => if index < blueprint.stages.len() {
            blueprint.stages[index].name.clone()
        } else {
            agent.state.current_stage.clone()
        },
        None => agent.state.current_stage.clone(),
    }
}

/// The system prompt of the stage at a position.
fn prompt_of_stage(agent: &Agent, index: usize) -> (prompt: Option<String>)
    ensures
        opt_view(prompt) == match setup_at(agent@, index as int) {
            Some(setup) => setup.system_prompt,
            None => None,
        },
{
    match &agent.setups {
        Some(setups) => if index < setups.len() {
            match &setups[index].system_prompt {
                Some(prompt) => Some(prompt.clone()),
                None => None,
            }
        } else {
            None
        },
        None => None,
    }
}

/// Moves an agent's cursor to a stage, and takes up what the stage sets.
fn move_to(agent: &mut Agent, index: usize)
    ensures
        final(agent)@ == moved_to(old(agent)@, index),
{
    let ghost before = agent@;
    let stage = name_of_stage(agent, index);
    agent.cursor = Some(index);
    agent.state.current_stage = stage;
    if let Some(setups) = &agent.setups {
        if index < setups.len() {
            let setup = &setups[index];
            agent.state.accepts_messages = setup.accepts_messages;
            agent.routing =
                match &setup.routing {
                    Some(routing) => Some(routing.copy()),
                    None => None,
                };
        }
    }
    assert(agent@ =~= moved_to(before, index));
}

/// Moves an agent to a stage: its cursor, the stage's name, where its tool results go and
/// whether it takes messages, and the stage's system prompt in its window. Where the prompt
/// does not fit, the agent fails; otherwise it is ready to infer.
pub fn enter_stage(agent: &mut Agent, index: usize)
    ensures
        final(agent)@ == entered(old(agent)@, index),
{
    let ghost before = agent@;
    let prompt = prompt_of_stage(agent, index);
    let stage = name_of_stage(agent, index);
    move_to(agent, index);
    let ghost moved = agent@;
    let fits = match &prompt {
        Some(text) => match &mut agent.window {
            Some(window) => add_prompt(window, text.as_str()),
            None => true,
        },
        None => true,
    };
    assert(fits == prompted(before, index as int) is Some);
    if fits {
        assert(agent@ =~= AgentView { window: prompted(before, index as int)->0, ..moved });
        agent.ready_to_infer = true;
    } else {
        assert(agent@ =~= moved);
        let mut message = "the system prompt of stage '".to_owned();
        message.append(stage.as_str());
        message.append("' does not fit its region");
        agent.state.status = AgentStatus::Error { message };
    }
}

/// Moves the agent at a place to a stage, whatever edges lead there. Where there is no
/// agent, nothing happens.
pub fn force_transition(world: &mut World, e: Entity, index: usize)
    ensures
        final(world)@ == match agent_at(old(world)@, e) {
            Some(agent) => old(world)@.update(e as int, Some(entered(agent, index))),
            None => old(world)@,
        },
{
    let ghost before = world@;
    if e < world.agents.len() {
        if let Some(agent) = &mut world.agents[e] {
            enter_stage(agent, index);
        }
    }
    proof {
        let want = match agent_at(before, e) {
            Some(agent) => before.update(e as int, Some(entered(agent, index))),
            None => before,
        };
        assert forall|k: int| 0 <= k < want.len() implies #[trigger] world@[k] == want[k] by {}
        assert(world@ =~= want);
    }
}

/// Entering a stage always ends in one of two ways: the agent is ready to infer, with its
/// status as it was and the stage's routing, or it has failed and its window is as it was.
pub proof fn law_stage_is_entered_or_the_agent_fails(agent: AgentView, index: usize)
    ensures
        ({
            let after = entered(agent, index);
            &&& after.cursor == Some(index)
            &&& setup_at(agent, index as int) is Some ==> after.routing == setup_at(
                agent,
                index as int,
            )->0.routing
            &&& if prompted(agent, index as int) is Some {
                after.ready_to_infer && after.state.status == agent.state.status
            } else {
                after.state.status is Error && after.window == agent.window
                    && after.ready_to_infer == agent.ready_to_infer
            }
        }),
{
}

/// What entering a stage does: the agent stands at it under its name, takes messages and routes
/// results as the stage is set up, and is ready to infer with its status kept; its system
/// prompt, where it has one, stands behind what the first pinned region holds.
pub proof fn law_entering_sets_the_agent_up(agent: AgentView, index: usize, p: int)
    requires
        agent.window is Some,
        agent.setups is Some,
        index < agent.setups->0.len(),
        agent.setups->0[index as int].system_prompt is Some,
        0 <= p < agent.window->0.regions.len(),
        agent.window->0.regions[p].kind is Pinned,
        forall|j: int|
            0 <= j < p ==> !((#[trigger] agent.window->0.regions[j]).kind is Pinned)
                && agent.window->0.regions[j].name != agent.window->0.regions[p].name,
        agent.window->0.regions[p].current_tokens + tokens_of(
            agent.setups->0[index as int].system_prompt->0,
        ) <= agent.window->0.regions[p].max_tokens,
    ensures
        ({
            let setup = agent.setups->0[index as int];
            let was = agent.window->0.regions;
            let after = entered(agent, index);
            let now = after.window->0.regions;
            &&& after.cursor == Some(index)
            &&& after.ready_to_infer
            &&& after.state.status == agent.state.status
            &&& after.state.accepts_messages == setup.accepts_messages
            &&& after.routing == setup.routing
            &&& agent.blueprint is Some && index < agent.blueprint->0.stages@.len()
                ==> after.state.current_stage == agent.blueprint->0.stages@[index as int].name@
            &&& after.window is Some
            &&& now.len() == was.len()
            &&& now[p].content.len() == was[p].content.len() + 1
            &&& now[p].content.drop_last() == was[p].content
            &&& now[p].content.last().content == setup.system_prompt->0
            &&& now[p].content.last().kind is Text
            &&& forall|j: int| 0 <= j < was.len() && j != p ==> #[trigger] now[j] == was[j]
            &&& after.inbox == agent.inbox
            &&& after.children == agent.children
            &&& after.parent == agent.parent
            &&& after.metadata == agent.metadata
            &&& after.totals == agent.totals
        }),
{
    let w = agent.window->0;
    lemma_first_pinned(w.regions, p);
    crate::context::lemma_region_at(w.regions, w.regions[p].name);
    let after = entered(agent, index);
    assert(after.window->0.regions[p].content.drop_last() =~= w.regions[p].content);
}

/// The first pinned region is found.
proof fn lemma_first_pinned(regions: Seq<RegionView>, p: int)
    requires
        0 <= p < regions.len(),
        regions[p].kind is Pinned,
        forall|j: int| 0 <= j < p ==> !((#[trigger] regions[j]).kind is Pinned),
    ensures
        pinned_region(regions) == Some(regions[p].name),
    decreases p,
{
    if p > 0 {
        assert(!(regions[0].kind is Pinned));
        let rest = regions.skip(1);
        assert forall|j: int| 0 <= j < p - 1 implies !((#[trigger] rest[j]).kind is Pinned) by {
            assert(rest[j] == regions[j + 1]);
        }
        lemma_first_pinned(rest, p - 1);
    }
}

/// A stage without a system prompt leaves the window as it is, and so does one that is not set
/// up; the agent is ready to infer.
pub proof fn law_entering_without_a_prompt_keeps_the_window(agent: AgentView, index: usize)
    requires
        agent.setups is None || index >= agent.setups->0.len()
            || agent.setups->0[index as int].system_prompt is None,
    ensures
        ({
            let after = entered(agent, index);
            &&& after.window == agent.window
            &&& after.ready_to_infer
            &&& after.cursor == Some(index)
            &&& after.state.status == agent.state.status
            &&& agent.setups is None || index >= agent.setups->0.len() ==> after.routing
                == agent.routing && after.state.accepts_messages == agent.state.accepts_messages
            &&& agent.setups is Some && index < agent.setups->0.len() ==> after.routing
                == agent.setups->0[index as int].routing && after.state.accepts_messages
                == agent.setups->0[index as int].accepts_messages
            &&& agent.blueprint is Some && index < agent.blueprint->0.stages@.len()
                ==> after.state.current_stage == agent.blueprint->0.stages@[index as int].name@
            &&& agent.blueprint is None || index >= agent.blueprint->0.stages@.len()
                ==> after.state.current_stage == agent.state.current_stage
        }),
{
}

/// An agent whose stage's prompt does not fit the first pinned region has failed, with its
/// window as it was.
pub proof fn law_prompt_that_does_not_fit_fails_the_agent(agent: AgentView, index: usize, p: int)
    requires
        agent.window is Some,
        agent.setups is Some,
        index < agent.setups->0.len(),
        agent.setups->0[index as int].system_prompt is Some,
        0 <= p < agent.window->0.regions.len(),
        agent.window->0.regions[p].kind is Pinned,
        forall|j: int|
            0 <= j < p ==> !((#[trigger] agent.window->0.regions[j]).kind is Pinned)
                && agent.window->0.regions[j].name != agent.window->0.regions[p].name,
        agent.window->0.regions[p].current_tokens + tokens_of(
            agent.setups->0[index as int].system_prompt->0,
        ) > agent.window->0.regions[p].max_tokens,
    ensures
        entered(agent, index).state.status is Error,
        agent.blueprint is Some && index < agent.blueprint->0.stages@.len() ==> entered(
            agent,
            index,
        ).state.status->message == "the system prompt of stage '"@ + agent.blueprint->0.stages@[
            index as int
        ].name@ + "' does not fit its region"@,
        entered(agent, index).window == agent.window,
        entered(agent, index).ready_to_infer == agent.ready_to_infer,
{
    let w = agent.window->0;
    lemma_first_pinned(w.regions, p);
    crate::context::lemma_region_at(w.regions, w.regions[p].name);
}

/// A prompt has no place in a window without a pinned region, nor without a window: the stage
/// is entered all the same, with the window as it was.
pub proof fn law_prompt_needs_a_pinned_region(agent: AgentView, index: usize)
    requires
        agent.window is None || forall|j: int|
            0 <= j < agent.window->0.regions.len() ==> !((
            #[trigger] agent.window->0.regions[j]).kind is Pinned),
    ensures
        entered(agent, index).window == agent.window,
        entered(agent, index).ready_to_infer,
        entered(agent, index).cursor == Some(index),
        entered(agent, index).state.status == agent.state.status,
{
    if agent.window is Some {
        lemma_none_pinned(agent.window->0.regions);
    }
}

/// No pinned region is found where none is.
proof fn lemma_none_pinned(regions: Seq<RegionView>)
    requires
        forall|j: int| 0 <= j < regions.len() ==> !((#[trigger] regions[j]).kind is Pinned),
    ensures
        pinned_region(regions) is None,
    decreases regions.len(),
{
    if regions.len() > 0 {
        let rest = regions.skip(1);
        assert forall|j: int| 0 <= j < rest.len() implies !((#[trigger] rest[j]).kind is Pinned) by {
            assert(rest[j] == regions[j + 1]);
        }
        lemma_none_pinned(rest);
    }
}

} // verus!
