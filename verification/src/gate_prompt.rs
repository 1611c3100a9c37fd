//! The taint-gate prompt: a person decides on an outbound call that would leak
//! data above its channel's clearance.

pub mod laws;

use crate::components::Entity;
use crate::context::TaintLevel;
use crate::interaction::{InteractionKind, InteractionRequest, InteractionResponse, RequestView};
use crate::table::{inserted, lemma_modelled, lookup, modelled, NameTable};
use crate::text::texts;
use crate::world::{agent_at, Agent, AgentView, World};
use vstd::prelude::*;

verus! {

/// How a blocked call is resolved.
#[derive(Clone, Copy, Debug, PartialEq, Eq, Structural)]
pub enum GateResolution {
    /// The call runs, this once.
    AllowOnce,
    /// The call runs, and the tool is not asked about again.
    AlwaysAllow,
    /// The call is answered with a blocked result.
    Deny,
}

/// An agent holding its tool batch while this many gate prompts are outstanding.
#[derive(Clone, Copy, Debug, PartialEq, Eq, Structural)]
pub struct AwaitingGatePrompt(pub usize);

/// Which blocked calls of an agent's tool batch have been resolved, and how.
pub struct GateResolved {
    /// The ids of the calls that were allowed, each once.
    pub approved: Vec<String>,
    /// The ids of the calls that were denied, each with its block message.
    pub denied: NameTable<String>,
}

/// The model of a [`GateResolved`].
pub struct GateResolvedView {
    pub approved: Seq<Seq<char>>,
    pub denied: Seq<(Seq<char>, Seq<char>)>,
}

impl View for GateResolved {
    type V = GateResolvedView;

    open spec fn view(&self) -> GateResolvedView {
        GateResolvedView { approved: texts(self.approved@), denied: modelled(self.denied@) }
    }
}

impl GateResolved {
    /// Nothing resolved yet.
    pub fn new() -> (resolved: GateResolved)
        ensures
            resolved@ == (GateResolvedView { approved: Seq::empty(), denied: Seq::empty() }),
    {
        let resolved = GateResolved { approved: Vec::new(), denied: NameTable::new() };
        proof {
            assert(resolved@.approved =~= Seq::empty());
            assert(resolved@.denied =~= Seq::empty());
        }
        resolved
    }
}

/// One resolved gate prompt.
pub struct GatePromptOutcome {
    /// The agent the call belongs to.
    pub entity: Entity,
    pub tool_id: String,
    pub tool_name: String,
    /// The level that caused the block.
    pub taint: TaintLevel,
    /// The level the tool is cleared for.
    pub clearance: TaintLevel,
    pub resolution: GateResolution,
}

/// The resolution that a choice stands for. Anything but a choice to allow is a
/// denial.
pub open spec fn resolution_of(choice: Option<usize>) -> GateResolution {
    if choice == Some(0usize) {
        GateResolution::AllowOnce
    } else if choice == Some(1usize) {
        GateResolution::AlwaysAllow
    } else {
        GateResolution::Deny
    }
}

/// Maps a multiple-choice answer to a resolution.
pub fn resolution_from_answer(resp: &InteractionResponse) -> (resolution: GateResolution)
    ensures
        resolution == resolution_of(resp.choice_index),
{
    match resp.choice_index {
        Some(0) => GateResolution::AllowOnce,
        Some(1) => GateResolution::AlwaysAllow,
        _ => GateResolution::Deny,
    }
}

/// How a blocked call is resolved: as was decided, and with a denial where there was
/// nobody to ask.
pub fn resolution_or_deny(decided: Option<GateResolution>) -> (resolution: GateResolution)
    ensures
        resolution == match decided {
            Some(r) => r,
            None => GateResolution::Deny,
        },
{
    match decided {
        Some(r) => r,
        None => GateResolution::Deny,
    }
}

/// The name of a level.
pub open spec fn level_name(level: TaintLevel) -> Seq<char> {
    match level {
        TaintLevel::Public => "Public"@,
        TaintLevel::Internal => "Internal"@,
        TaintLevel::Private => "Private"@,
    }
}

/// The name of a level.
fn level_text(level: TaintLevel) -> (name: &'static str)
    ensures
        name@ == level_name(level),
{
    match level {
        TaintLevel::Public => "Public",
        TaintLevel::Internal => "Internal",
        TaintLevel::Private => "Private",
    }
}

/// What a person is asked about a blocked call.
pub open spec fn gate_question(tool_name: Seq<char>, taint: TaintLevel, clearance: TaintLevel) -> Seq<
    char,
> {
    "Tool '"@ + tool_name + "' would send "@ + level_name(taint)
        + "-level data over a channel cleared only for "@ + level_name(clearance) + ". Allow it?"@
}

/// The answers a person can choose from.
pub open spec fn gate_options() -> Seq<Seq<char>> {
    seq!["Allow once"@, "Allow for this session"@, "Deny"@]
}

/// Builds the prompt that asks how to resolve a blocked call.
pub fn build_gate_request(
    id: String,
    tool_name: &str,
    taint: TaintLevel,
    clearance: TaintLevel,
) -> (req: InteractionRequest)
    ensures
        req@ == (RequestView {
            id: id@,
            kind: InteractionKind::MultipleChoice,
            prompt: gate_question(tool_name@, taint, clearance),
            options: gate_options(),
            source: "taint_gate"@,
        }),
{
    let mut prompt = "Tool '".to_owned();
    prompt.append(tool_name);
    prompt.append("' would send ");
    prompt.append(level_text(taint));
    prompt.append("-level data over a channel cleared only for ");
    prompt.append(level_text(clearance));
    prompt.append(". Allow it?");
    let mut options: Vec<String> = Vec::new();
    options.push("Allow once".to_owned());
    options.push("Allow for this session".to_owned());
    options.push("Deny".to_owned());
    proof {
        assert(texts(options@) =~= gate_options());
    }
    InteractionRequest::multiple_choice(id, prompt, options, "taint_gate")
}

/// The prompt for a blocked tool call, under an id made of the call's own.
pub fn gate_prompt_for(tool_id: &str, tool_name: &str, taint: TaintLevel, clearance: TaintLevel) -> (req:
    InteractionRequest)
    ensures
        req@ == (RequestView {
            id: "gate-"@ + tool_id@,
            kind: InteractionKind::MultipleChoice,
            prompt: gate_question(tool_name@, taint, clearance),
            options: gate_options(),
            source: "taint_gate"@,
        }),
{
    let mut id = "gate-".to_owned();
    id.append(tool_id);
    build_gate_request(id, tool_name, taint, clearance)
}

/// What a person's answer makes of a blocked call.
pub fn gate_outcome(
    entity: Entity,
    tool_id: String,
    tool_name: String,
    taint: TaintLevel,
    clearance: TaintLevel,
    answer: &InteractionResponse,
) -> (outcome: GatePromptOutcome)
    ensures
        outcome == (GatePromptOutcome {
            entity,
            tool_id,
            tool_name,
            taint,
            clearance,
            resolution: resolution_of(answer.choice_index),
        }),
{
    GatePromptOutcome {
        entity,
        tool_id,
        tool_name,
        taint,
        clearance,
        resolution: resolution_from_answer(answer),
    }
}

/// Names with one more, where it is not among them yet.
pub open spec fn with_name(names: Seq<Seq<char>>, name: Seq<char>) -> Seq<Seq<char>> {
    if names.contains(name) {
        names
    } else {
        names.push(name)
    }
}

/// The block message of a denied call: the one that came with the denial, or else a
/// fixed one.
pub open spec fn block_message(message: Option<String>) -> Seq<char> {
    match message {
        Some(text) => text@,
        None => "[blocked] the call was denied"@,
    }
}

/// What is resolved of a batch after one more outcome. A denied call stands under its
/// id with its block message. Only a call that is allowed counts as approved.
pub open spec fn resolved_with(
    resolved: GateResolvedView,
    out: GatePromptOutcome,
    message: Option<String>,
) -> GateResolvedView {
    if out.resolution is Deny {
        GateResolvedView {
            denied: inserted(resolved.denied, out.tool_id@, block_message(message)),
            ..resolved
        }
    } else {
        GateResolvedView { approved: with_name(resolved.approved, out.tool_id@), ..resolved }
    }
}

/// One fewer, and never less than none.
pub open spec fn one_less(n: usize) -> usize {
    if n == 0 {
        0
    } else {
        (n - 1) as usize
    }
}

/// How many gate prompts an agent is waiting for.
pub open spec fn outstanding_prompts(agent: AgentView) -> usize {
    match agent.awaiting_gate_prompt {
        Some(awaiting) => awaiting.0,
        None => 0,
    }
}

/// Whether an agent is waiting for gate prompts.
pub open spec fn awaits(agent: AgentView) -> bool {
    agent.awaiting_gate_prompt is Some && agent.gate_resolved is Some
}

/// The agent after an outcome is noted.
pub open spec fn noted(agent: AgentView, out: GatePromptOutcome, message: Option<String>) -> AgentView {
    AgentView {
        gate_resolved: Some(resolved_with(agent.gate_resolved->0, out, message)),
        awaiting_gate_prompt: Some(AwaitingGatePrompt(one_less(outstanding_prompts(agent)))),
        ..agent
    }
}

/// The agent once no prompt is outstanding: its tool batch is due again.
pub open spec fn rearmed(agent: AgentView) -> AgentView {
    AgentView { awaiting_gate_prompt: None, ready_for_tools: true, ..agent }
}

/// The world after an outcome is noted; one for an agent that no longer waits is
/// dropped.
pub open spec fn with_outcome(
    world: Seq<Option<AgentView>>,
    out: (GatePromptOutcome, Option<String>),
) -> Seq<Option<AgentView>> {
    match agent_at(world, out.0.entity) {
        Some(agent) => if awaits(agent) {
            world.update(out.0.entity as int, Some(noted(agent, out.0, out.1)))
        } else {
            world
        },
        None => world,
    }
}

/// The world after several outcomes are noted, one after the other.
pub open spec fn with_outcomes(
    world: Seq<Option<AgentView>>,
    outs: Seq<(GatePromptOutcome, Option<String>)>,
) -> Seq<Option<AgentView>>
    decreases outs.len(),
{
    if outs.len() == 0 {
        world
    } else {
        with_outcome(with_outcomes(world, outs.drop_last()), outs.last())
    }
}

/// The world after an agent is looked at whose outcomes may all be in.
pub open spec fn released(world: Seq<Option<AgentView>>, e: Entity) -> Seq<Option<AgentView>> {
    match agent_at(world, e) {
        Some(agent) => if awaits(agent) && outstanding_prompts(agent) == 0 {
            world.update(e as int, Some(rearmed(agent)))
        } else {
            world
        },
        None => world,
    }
}

/// The world after every agent is looked at that some outcomes were for.
pub open spec fn all_released(
    world: Seq<Option<AgentView>>,
    outs: Seq<(GatePromptOutcome, Option<String>)>,
) -> Seq<Option<AgentView>>
    decreases outs.len(),
{
    if outs.len() == 0 {
        world
    } else {
        released(all_released(world, outs.drop_last()), outs.last().0.entity)
    }
}

/// Adds a name, where it is not among the others yet.
fn add_name(names: &mut Vec<String>, name: String)
    ensures
        texts(final(names)@) == with_name(texts(old(names)@), name@),
{
    if !crate::blueprint::names(names, name.as_str()) {
        names.push(name);
        proof {
            assert(texts(names@) =~= texts(old(names)@).push(name@));
        }
    }
}

/// Notes a resolution.
fn record(resolved: &mut GateResolved, tool_id: String, resolution: GateResolution, message: Option<
    String,
>)
    ensures
        forall|out: GatePromptOutcome|
            out.tool_id == tool_id && out.resolution == resolution ==> final(resolved)@
                == #[trigger] resolved_with(old(resolved)@, out, message),
{
    match resolution {
        GateResolution::Deny => {
            let text = match message {
                Some(text) => text,
                None => "[blocked] the call was denied".to_owned(),
            };
            proof {
                lemma_modelled(resolved.denied@, tool_id@, text);
            }
            resolved.denied.insert(tool_id, text);
        },
        _ => {
            add_name(&mut resolved.approved, tool_id);
        },
    }
}

/// Notes an outcome with the agent it is for, if the agent still waits for it.
fn note(agent: &mut Agent, out: GatePromptOutcome, message: Option<String>)
    ensures
        final(agent)@ == if awaits(old(agent)@) {
            noted(old(agent)@, out, message)
        } else {
            old(agent)@
        },
{
    match (agent.awaiting_gate_prompt, &mut agent.gate_resolved) {
        (Some(AwaitingGatePrompt(n)), Some(resolved)) => {
            record(resolved, out.tool_id, out.resolution, message);
            agent.awaiting_gate_prompt =
                Some(
                    AwaitingGatePrompt(
                        if n == 0 {
                            0
                        } else {
                            n - 1
                        },
                    ),
                );
        },
        _ => {},
    }
}

/// Makes an agent's tool batch due again, if all its prompts are resolved.
fn release(agent: &mut Agent)
    ensures
        final(agent)@ == if awaits(old(agent)@) && outstanding_prompts(old(agent)@) == 0 {
            rearmed(old(agent)@)
        } else {
            old(agent)@
        },
{
    let done = match agent.awaiting_gate_prompt {
        Some(AwaitingGatePrompt(n)) => n == 0 && agent.gate_resolved.is_some(),
        None => false,
    };
    if done {
        agent.awaiting_gate_prompt = None;
        agent.ready_for_tools = true;
    }
}

/// Notes an outcome in the world.
fn note_outcome(world: &mut World, out: GatePromptOutcome, message: Option<String>)
    ensures
        final(world)@ == with_outcome(old(world)@, (out, message)),
{
    let ghost before = world@;
    let e: usize = out.entity;
    if e < world.agents.len() {
        if let Some(agent) = &mut world.agents[e] {
            note(agent, out, message);
        }
    }
    proof {
        let want = with_outcome(before, (out, message));
        assert forall|k: int| 0 <= k < want.len() implies #[trigger] world@[k] == want[k] by {}
        assert(world@ =~= want);
    }
}

/// Looks whether the prompts of the agent at a place are all resolved.
fn release_at(world: &mut World, e: Entity)
    ensures
        final(world)@ == released(old(world)@, e),
{
    let ghost before = world@;
    if e < world.agents.len() {
        if let Some(agent) = &mut world.agents[e] {
            release(agent);
        }
    }
    proof {
        let want = released(before, e);
        assert forall|k: int| 0 <= k < want.len() implies #[trigger] world@[k] == want[k] by {}
        assert(world@ =~= want);
    }
}

/// Applies resolved gate prompts, and makes the tool batch of each agent due again
/// once none of its prompts is outstanding. Each outcome may come with the message
/// that a denied call is answered with; a denied call is never approved.
pub fn collect_gate_prompt(world: &mut World, outcomes: Vec<(GatePromptOutcome, Option<String>)>)
    ensures
        final(world)@ == all_released(with_outcomes(old(world)@, outcomes@), outcomes@),
{
    let ghost before = world@;
    let ghost all = outcomes@;
    let mut entities: Vec<Entity> = Vec::new();
    proof {
        assert(all.take(0) =~= Seq::empty());
    }
    for out in it: outcomes
        invariant
            it.seq() == all,
            world@ == with_outcomes(before, all.take(it.index() as int)),
            entities@.len() == it.index(),
            forall|k: int| 0 <= k < it.index() ==> #[trigger] entities@[k] == all[k].0.entity,
    {
        proof {
            let n = it.index() as int;
            assert(all.take(n + 1).drop_last() =~= all.take(n));
        }
        entities.push(out.0.entity);
        note_outcome(world, out.0, out.1);
    }
    let ghost noted_world = world@;
    proof {
        assert(all.take(all.len() as int) =~= all);
    }
    let mut i: usize = 0;
    while i < entities.len()
        invariant
            i <= entities@.len(),
            entities@.len() == all.len(),
            forall|k: int| 0 <= k < all.len() ==> #[trigger] entities@[k] == all[k].0.entity,
            world@ == all_released(noted_world, all.take(i as int)),
        decreases entities.len() - i,
    {
        proof {
            assert(all.take(i + 1).drop_last() =~= all.take(i as int));
        }
        release_at(world, entities[i]);
        i = i + 1;
    }
}

/// Only a choice to allow lets a blocked call through: no answer, and any other
/// choice, is a denial.
pub proof fn law_denial_is_the_default(choice: Option<usize>)
    ensures
        !(resolution_of(choice) is Deny) ==> choice is Some && choice->0 <= 1,
        choice is None ==> resolution_of(choice) is Deny,
{
}

/// No outcome is lost: an allowed call is approved, and a denied one has its block
/// message under its id. A denial approves nothing, with a message or without.
pub proof fn law_every_outcome_is_recorded(
    resolved: GateResolvedView,
    out: GatePromptOutcome,
    message: Option<String>,
)
    ensures
        ({
            let after = resolved_with(resolved, out, message);
            if out.resolution is Deny {
                lookup(after.denied, out.tool_id@) == Some(block_message(message))
                    && after.approved == resolved.approved
            } else {
                after.approved.contains(out.tool_id@) && after.denied == resolved.denied
            }
        }),
{
    if out.resolution is Deny {
        crate::table::lemma_inserted(
            resolved.denied,
            out.tool_id@,
            block_message(message),
            out.tool_id@,
        );
    } else if !resolved.approved.contains(out.tool_id@) {
        assert(resolved.approved.push(out.tool_id@).last() == out.tool_id@);
    }
}

/// How many outcomes are for the agent at a place.
pub open spec fn outcomes_for(outs: Seq<(GatePromptOutcome, Option<String>)>, e: Entity) -> nat
    decreases outs.len(),
{
    if outs.len() == 0 {
        0
    } else {
        outcomes_for(outs.drop_last(), e) + if outs.last().0.entity == e {
            1nat
        } else {
            0nat
        }
    }
}

/// Each outcome for an agent settles one of its prompts.
pub proof fn lemma_outstanding(
    world: Seq<Option<AgentView>>,
    outs: Seq<(GatePromptOutcome, Option<String>)>,
    e: Entity,
)
    requires
        agent_at(world, e) is Some,
        awaits(agent_at(world, e)->0),
    ensures
        ({
            let after = agent_at(with_outcomes(world, outs), e);
            let had = outstanding_prompts(agent_at(world, e)->0);
            &&& with_outcomes(world, outs).len() == world.len()
            &&& after is Some
            &&& awaits(after->0)
            &&& outstanding_prompts(after->0) == if had >= outcomes_for(outs, e) {
                had - outcomes_for(outs, e)
            } else {
                0
            }
        }),
    decreases outs.len(),
{
    if outs.len() > 0 {
        lemma_outstanding(world, outs.drop_last(), e);
    }
}

/// Looking at agents releases one exactly if it is among them and has no prompt
/// outstanding.
pub proof fn lemma_released(
    world: Seq<Option<AgentView>>,
    outs: Seq<(GatePromptOutcome, Option<String>)>,
    e: Entity,
)
    requires
        agent_at(world, e) is Some,
        awaits(agent_at(world, e)->0),
    ensures
        ({
            let agent = agent_at(world, e)->0;
            let after = agent_at(all_released(world, outs), e);
            &&& all_released(world, outs).len() == world.len()
            &&& after == Some(
                if outcomes_for(outs, e) > 0 && outstanding_prompts(agent) == 0 {
                    rearmed(agent)
                } else {
                    agent
                },
            )
        }),
    decreases outs.len(),
{
    if outs.len() > 0 {
        lemma_released(world, outs.drop_last(), e);
    }
}

/// A held tool batch is due again exactly when every prompt it was held for is
/// resolved, and stays held until then.
pub proof fn law_batch_is_held_until_all_resolved(
    world: Seq<Option<AgentView>>,
    outs: Seq<(GatePromptOutcome, Option<String>)>,
    e: Entity,
)
    requires
        agent_at(world, e) is Some,
        awaits(agent_at(world, e)->0),
        outstanding_prompts(agent_at(world, e)->0) > 0,
    ensures
        ({
            let before = agent_at(world, e)->0;
            let after = agent_at(all_released(with_outcomes(world, outs), outs), e);
            &&& after is Some
            &&& after->0.awaiting_gate_prompt is None <==> outcomes_for(outs, e)
                >= outstanding_prompts(before)
            &&& after->0.awaiting_gate_prompt is None ==> after->0.ready_for_tools
        }),
{
    lemma_outstanding(world, outs, e);
    lemma_released(with_outcomes(world, outs), outs, e);
}

} // verus!
