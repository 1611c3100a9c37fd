//! What people's answers to taint-gate prompts come to.

use super::{
    all_released, block_message, gate_options, gate_question, lemma_outstanding, lemma_released,
    outcomes_for, outstanding_prompts, resolution_of, resolved_with, with_outcomes,
    AwaitingGatePrompt, GatePromptOutcome, GateResolvedView,
};
use crate::components::Entity;
use crate::context::TaintLevel;
use crate::table::{lemma_inserted, lookup};
use crate::world::AgentView;
use vstd::prelude::*;

verus! {

/// The first choice allows a call once, the second always, and anything else denies it.
pub proof fn law_choices_mean_what_they_say(n: usize)
    ensures
        resolution_of(Some(0)) is AllowOnce,
        resolution_of(Some(1)) is AlwaysAllow,
        n >= 2 ==> resolution_of(Some(n)) is Deny,
        resolution_of(None) is Deny,
        gate_options().len() == 3,
        gate_options()[0] == "Allow once"@,
        gate_options()[1] == "Allow for this session"@,
        gate_options()[2] == "Deny"@,
{
}

/// Noting an outcome keeps every earlier one: the calls that were approved still are, and
/// every other call that was denied still is, with its own message. It adds the call that it
/// is about, to the denied with the message where it is a denial and to the approved where it
/// is not, and no other call.
pub proof fn law_outcomes_add_up(
    resolved: GateResolvedView,
    out: GatePromptOutcome,
    message: Option<String>,
    id: Seq<char>,
)
    ensures
        ({
            let after = resolved_with(resolved, out, message);
            &&& out.resolution is Deny ==> {
                &&& lookup(after.denied, out.tool_id@) is Some
                &&& message is Some ==> lookup(after.denied, out.tool_id@) == Some(message->0@)
                &&& message is None ==> lookup(after.denied, out.tool_id@) == Some(
                    "[blocked] the call was denied"@,
                )
                &&& after.approved == resolved.approved
            }
            &&& !(out.resolution is Deny) ==> {
                &&& after.approved.contains(out.tool_id@)
                &&& after.denied == resolved.denied
            }
            &&& resolved.approved.contains(id) ==> after.approved.contains(id)
            &&& id != out.tool_id@ ==> {
                &&& lookup(after.denied, id) == lookup(resolved.denied, id)
                &&& after.approved.contains(id) ==> resolved.approved.contains(id)
            }
        }),
{
    let after = resolved_with(resolved, out, message);
    if out.resolution is Deny {
        lemma_inserted(resolved.denied, out.tool_id@, block_message(message), id);
        lemma_inserted(resolved.denied, out.tool_id@, block_message(message), out.tool_id@);
    } else if !resolved.approved.contains(out.tool_id@) {
        assert(after.approved[resolved.approved.len() as int] == out.tool_id@);
        if resolved.approved.contains(id) {
            let i = choose|i: int|
                0 <= i < resolved.approved.len() && resolved.approved[i] == id;
            assert(after.approved[i] == id);
        }
        if after.approved.contains(id) && id != out.tool_id@ {
            let i = choose|i: int| 0 <= i < after.approved.len() && after.approved[i] == id;
            assert(resolved.approved[i] == id);
        }
    }
}

/// Whether one of some outcomes allows a call of the agent at a place.
pub open spec fn allowed_in(
    outs: Seq<(GatePromptOutcome, Option<String>)>,
    e: Entity,
    id: Seq<char>,
) -> bool {
    exists|k: int|
        {
            &&& 0 <= k < outs.len()
            &&& (#[trigger] outs[k]).0.entity == e
            &&& outs[k].0.tool_id@ == id
            &&& !(outs[k].0.resolution is Deny)
        }
}

/// Whether one of some outcomes denies a call of the agent at a place.
pub open spec fn denied_in(
    outs: Seq<(GatePromptOutcome, Option<String>)>,
    e: Entity,
    id: Seq<char>,
) -> bool {
    exists|k: int|
        {
            &&& 0 <= k < outs.len()
            &&& (#[trigger] outs[k]).0.entity == e
            &&& outs[k].0.tool_id@ == id
            &&& outs[k].0.resolution is Deny
        }
}

/// Noting outcomes, one after the other, approves and denies exactly what they say.
proof fn lemma_noted(
    world: Seq<Option<AgentView>>,
    outs: Seq<(GatePromptOutcome, Option<String>)>,
    e: Entity,
    id: Seq<char>,
)
    requires
        e < world.len(),
        world[e as int] is Some,
        world[e as int]->0.awaiting_gate_prompt is Some,
        world[e as int]->0.gate_resolved is Some,
    ensures
        ({
            let before = world[e as int]->0.gate_resolved->0;
            let after = with_outcomes(world, outs);
            let now = after[e as int]->0.gate_resolved->0;
            &&& after.len() == world.len()
            &&& after[e as int] is Some
            &&& after[e as int]->0.awaiting_gate_prompt is Some
            &&& after[e as int]->0.gate_resolved is Some
            &&& now.approved.contains(id) <==> before.approved.contains(id) || allowed_in(
                outs,
                e,
                id,
            )
            &&& lookup(now.denied, id) is Some <==> lookup(before.denied, id) is Some
                || denied_in(outs, e, id)
            &&& !denied_in(outs, e, id) ==> lookup(now.denied, id) == lookup(before.denied, id)
            &&& after[e as int]->0 == (AgentView {
                gate_resolved: after[e as int]->0.gate_resolved,
                awaiting_gate_prompt: after[e as int]->0.awaiting_gate_prompt,
                ..world[e as int]->0
            })
        }),
    decreases outs.len(),
{
    if outs.len() > 0 {
        let front = outs.drop_last();
        let (out, message) = outs.last();
        lemma_noted(world, front, e, id);
        let mid = with_outcomes(world, front);
        let after = with_outcomes(world, outs);
        if out.entity == e {
            law_outcomes_add_up(mid[e as int]->0.gate_resolved->0, out, message, id);
        }
        assert(outs[outs.len() - 1] == outs.last());
        if allowed_in(front, e, id) {
            let k = choose|k: int|
                {
                    &&& 0 <= k < front.len()
                    &&& (#[trigger] front[k]).0.entity == e
                    &&& front[k].0.tool_id@ == id
                    &&& !(front[k].0.resolution is Deny)
                };
            assert(outs[k] == front[k]);
        }
        if allowed_in(outs, e, id) && !(out.entity == e && out.tool_id@ == id && !(out.resolution
            is Deny)) {
            let k = choose|k: int|
                {
                    &&& 0 <= k < outs.len()
                    &&& (#[trigger] outs[k]).0.entity == e
                    &&& outs[k].0.tool_id@ == id
                    &&& !(outs[k].0.resolution is Deny)
                };
            assert(front[k] == outs[k]);
        }
        if denied_in(front, e, id) {
            let k = choose|k: int|
                {
                    &&& 0 <= k < front.len()
                    &&& (#[trigger] front[k]).0.entity == e
                    &&& front[k].0.tool_id@ == id
                    &&& front[k].0.resolution is Deny
                };
            assert(outs[k] == front[k]);
        }
        if denied_in(outs, e, id) && !(out.entity == e && out.tool_id@ == id && out.resolution
            is Deny) {
            let k = choose|k: int|
                {
                    &&& 0 <= k < outs.len()
                    &&& (#[trigger] outs[k]).0.entity == e
                    &&& outs[k].0.tool_id@ == id
                    &&& outs[k].0.resolution is Deny
                };
            assert(front[k] == outs[k]);
        }
    }
}

/// Releasing batches changes nothing of what is resolved, nor anything else but that a batch
/// waits no longer and is due.
proof fn lemma_release_keeps(
    world: Seq<Option<AgentView>>,
    outs: Seq<(GatePromptOutcome, Option<String>)>,
    i: int,
)
    requires
        0 <= i < world.len(),
    ensures
        ({
            let after = all_released(world, outs);
            &&& after.len() == world.len()
            &&& world[i] is None ==> after[i] is None
            &&& world[i] is Some ==> after[i] is Some && after[i]->0 == (AgentView {
                awaiting_gate_prompt: after[i]->0.awaiting_gate_prompt,
                ready_for_tools: after[i]->0.ready_for_tools,
                ..world[i]->0
            })
            &&& (forall|k: int| 0 <= k < outs.len() ==> (#[trigger] outs[k]).0.entity != i)
                ==> after[i] == world[i]
        }),
    decreases outs.len(),
{
    if outs.len() > 0 {
        let front = outs.drop_last();
        lemma_release_keeps(world, front, i);
        if forall|k: int| 0 <= k < outs.len() ==> (#[trigger] outs[k]).0.entity != i {
            assert forall|k: int| 0 <= k < front.len() implies (#[trigger] front[k]).0.entity
                != i by {
                assert(outs[k] == front[k]);
            }
            assert(outs[outs.len() - 1] == outs.last());
        }
    }
}

/// Every outcome of a batch is in what is resolved of it: each call that was allowed is
/// approved, and each that was denied has a block message; what was resolved before still is,
/// and nothing else is. But for that and for being released, the agent is as it was.
pub proof fn law_every_outcome_of_a_batch_is_kept(
    world: Seq<Option<AgentView>>,
    outs: Seq<(GatePromptOutcome, Option<String>)>,
    e: Entity,
    id: Seq<char>,
)
    requires
        e < world.len(),
        world[e as int] is Some,
        world[e as int]->0.awaiting_gate_prompt is Some,
        world[e as int]->0.gate_resolved is Some,
    ensures
        ({
            let before = world[e as int]->0.gate_resolved->0;
            let after = all_released(with_outcomes(world, outs), outs);
            let now = after[e as int]->0.gate_resolved->0;
            &&& after.len() == world.len()
            &&& after[e as int] is Some
            &&& after[e as int]->0.gate_resolved is Some
            &&& now.approved.contains(id) <==> before.approved.contains(id) || allowed_in(
                outs,
                e,
                id,
            )
            &&& lookup(now.denied, id) is Some <==> lookup(before.denied, id) is Some
                || denied_in(outs, e, id)
            &&& !denied_in(outs, e, id) ==> lookup(now.denied, id) == lookup(before.denied, id)
            &&& after[e as int]->0 == (AgentView {
                gate_resolved: after[e as int]->0.gate_resolved,
                awaiting_gate_prompt: after[e as int]->0.awaiting_gate_prompt,
                ready_for_tools: after[e as int]->0.ready_for_tools,
                ..world[e as int]->0
            })
        }),
{
    lemma_noted(world, outs, e, id);
    lemma_release_keeps(with_outcomes(world, outs), outs, e as int);
}

/// A denied call has its own message, whatever else is resolved with it: the one of its last
/// denial.
pub proof fn law_denied_call_has_its_message(
    world: Seq<Option<AgentView>>,
    outs: Seq<(GatePromptOutcome, Option<String>)>,
    k: int,
)
    requires
        0 <= k < outs.len(),
        outs[k].0.resolution is Deny,
        outs[k].1 is Some,
        forall|j: int|
            k < j < outs.len() ==> !((#[trigger] outs[j]).0.entity == outs[k].0.entity
                && outs[j].0.tool_id@ == outs[k].0.tool_id@ && outs[j].0.resolution is Deny),
        outs[k].0.entity < world.len(),
        world[outs[k].0.entity as int] is Some,
        world[outs[k].0.entity as int]->0.awaiting_gate_prompt is Some,
        world[outs[k].0.entity as int]->0.gate_resolved is Some,
    ensures
        ({
            let e = outs[k].0.entity as int;
            let after = all_released(with_outcomes(world, outs), outs);
            lookup(after[e]->0.gate_resolved->0.denied, outs[k].0.tool_id@) == Some(
                outs[k].1->0@,
            )
        }),
{
    let e = outs[k].0.entity;
    lemma_noted(world, outs, e, outs[k].0.tool_id@);
    lemma_release_keeps(with_outcomes(world, outs), outs, e as int);
    lemma_last_denial(world, outs, k, outs.len() as int);
    assert(outs.take(outs.len() as int) =~= outs);
}

/// A message stays until the call is denied again.
proof fn lemma_last_denial(
    world: Seq<Option<AgentView>>,
    outs: Seq<(GatePromptOutcome, Option<String>)>,
    k: int,
    n: int,
)
    requires
        0 <= k < n <= outs.len(),
        outs[k].0.resolution is Deny,
        outs[k].1 is Some,
        forall|j: int|
            k < j < outs.len() ==> !((#[trigger] outs[j]).0.entity == outs[k].0.entity
                && outs[j].0.tool_id@ == outs[k].0.tool_id@ && outs[j].0.resolution is Deny),
        outs[k].0.entity < world.len(),
        world[outs[k].0.entity as int] is Some,
        world[outs[k].0.entity as int]->0.awaiting_gate_prompt is Some,
        world[outs[k].0.entity as int]->0.gate_resolved is Some,
    ensures
        ({
            let e = outs[k].0.entity as int;
            let after = with_outcomes(world, outs.take(n));
            lookup(after[e]->0.gate_resolved->0.denied, outs[k].0.tool_id@) == Some(
                outs[k].1->0@,
            )
        }),
    decreases n,
{
    let e = outs[k].0.entity;
    let id = outs[k].0.tool_id@;
    let (out, message) = outs[n - 1];
    assert(outs.take(n).drop_last() =~= outs.take(n - 1));
    lemma_noted(world, outs.take(n - 1), e, id);
    let mid = with_outcomes(world, outs.take(n - 1));
    if k < n - 1 {
        lemma_last_denial(world, outs, k, n - 1);
    }
    if out.entity == e {
        law_outcomes_add_up(mid[e as int]->0.gate_resolved->0, out, message, id);
    }
}

/// An agent that no outcome is for is left as it was, and so is one that waits for none.
pub proof fn law_outcomes_leave_others_alone(
    world: Seq<Option<AgentView>>,
    outs: Seq<(GatePromptOutcome, Option<String>)>,
    i: int,
)
    requires
        0 <= i < world.len(),
    ensures
        all_released(with_outcomes(world, outs), outs).len() == world.len(),
        (forall|k: int| 0 <= k < outs.len() ==> (#[trigger] outs[k]).0.entity != i)
            ==> all_released(with_outcomes(world, outs), outs)[i] == world[i],
        world[i] is None || world[i]->0.awaiting_gate_prompt is None || world[i]->0.gate_resolved
            is None ==> all_released(with_outcomes(world, outs), outs)[i] == world[i],
{
    lemma_outcomes_elsewhere(world, outs, i);
    lemma_release_keeps(with_outcomes(world, outs), outs, i);
    if world[i] is None || world[i]->0.awaiting_gate_prompt is None || world[i]->0.gate_resolved
        is None {
        lemma_no_release(with_outcomes(world, outs), outs, i);
    }
}

/// Outcomes change nothing of an agent that they are not for, or that waits for none.
proof fn lemma_outcomes_elsewhere(
    world: Seq<Option<AgentView>>,
    outs: Seq<(GatePromptOutcome, Option<String>)>,
    i: int,
)
    requires
        0 <= i < world.len(),
    ensures
        with_outcomes(world, outs).len() == world.len(),
        (forall|k: int| 0 <= k < outs.len() ==> (#[trigger] outs[k]).0.entity != i)
            ==> with_outcomes(world, outs)[i] == world[i],
        world[i] is None || world[i]->0.awaiting_gate_prompt is None || world[i]->0.gate_resolved
            is None ==> with_outcomes(world, outs)[i] == world[i],
    decreases outs.len(),
{
    if outs.len() > 0 {
        let front = outs.drop_last();
        lemma_outcomes_elsewhere(world, front, i);
        if forall|k: int| 0 <= k < outs.len() ==> (#[trigger] outs[k]).0.entity != i {
            assert forall|k: int| 0 <= k < front.len() implies (#[trigger] front[k]).0.entity
                != i by {
                assert(outs[k] == front[k]);
            }
            assert(outs[outs.len() - 1] == outs.last());
        }
    }
}

/// An agent that waits for nothing is not released.
proof fn lemma_no_release(
    world: Seq<Option<AgentView>>,
    outs: Seq<(GatePromptOutcome, Option<String>)>,
    i: int,
)
    requires
        0 <= i < world.len(),
        world[i] is None || world[i]->0.awaiting_gate_prompt is None || world[i]->0.gate_resolved
            is None,
    ensures
        all_released(world, outs).len() == world.len(),
        all_released(world, outs)[i] == world[i],
    decreases outs.len(),
{
    if outs.len() > 0 {
        lemma_no_release(world, outs.drop_last(), i);
    }
}

/// The question names the tool, the level of the data and the clearance of the channel.
pub proof fn law_question_says_what_would_leak(
    tool: Seq<char>,
    taint: TaintLevel,
    clearance: TaintLevel,
)
    ensures
        ({
            let name = |level: TaintLevel|
                match level {
                    TaintLevel::Public => "Public"@,
                    TaintLevel::Internal => "Internal"@,
                    TaintLevel::Private => "Private"@,
                };
            gate_question(tool, taint, clearance) == "Tool '"@ + tool + "' would send "@ + name(
                taint,
            ) + "-level data over a channel cleared only for "@ + name(clearance)
                + ". Allow it?"@
        }),
{
}

/// Each outcome for a batch settles one of the prompts that it waits for: while some are left
/// the batch waits for those, and is no more due than it was; with the last it is due and
/// waits no longer.
pub proof fn law_outcomes_count_down(
    world: Seq<Option<AgentView>>,
    outs: Seq<(GatePromptOutcome, Option<String>)>,
    e: Entity,
    n: usize,
)
    requires
        e < world.len(),
        world[e as int] is Some,
        world[e as int]->0.awaiting_gate_prompt == Some(AwaitingGatePrompt(n)),
        world[e as int]->0.gate_resolved is Some,
        n > 0,
    ensures
        ({
            let came = outs.filter(
                |out: (GatePromptOutcome, Option<String>)| out.0.entity == e,
            ).len();
            let after = all_released(with_outcomes(world, outs), outs)[e as int];
            &&& after is Some
            &&& came < n ==> after->0.awaiting_gate_prompt == Some(
                AwaitingGatePrompt((n - came) as usize),
            )
            &&& came < n ==> after->0.ready_for_tools == world[e as int]->0.ready_for_tools
            &&& came >= n ==> after->0.awaiting_gate_prompt is None
            &&& came >= n ==> after->0.ready_for_tools
        }),
{
    lemma_outcomes_are_filtered(outs, e);
    lemma_outstanding(world, outs, e);
    lemma_released(with_outcomes(world, outs), outs, e);
    lemma_noted(world, outs, e, Seq::empty());
    let mid = with_outcomes(world, outs)[e as int]->0;
    assert(mid.awaiting_gate_prompt == Some(AwaitingGatePrompt(outstanding_prompts(mid))));
}

/// The outcomes for an agent are counted.
proof fn lemma_outcomes_are_filtered(outs: Seq<(GatePromptOutcome, Option<String>)>, e: Entity)
    ensures
        outcomes_for(outs, e) == outs.filter(
            |out: (GatePromptOutcome, Option<String>)| out.0.entity == e,
        ).len(),
    decreases outs.len(),
{
    reveal(Seq::filter);
    if outs.len() > 0 {
        lemma_outcomes_are_filtered(outs.drop_last(), e);
    }
}

} // verus!
