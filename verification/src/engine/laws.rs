//! What holds of an agent's inference loop as a whole.

use super::{
    addressee, delivered, inbox_emptied, inbox_of, placed, routed_message, text_ends_loop,
    usage_sum, LoopView,
};
use crate::components::{AgentMessage, Entity, InferenceResponseView, TokenUsage};
use crate::context::{lemma_region_at, region_at, EntryKindView, TaintLevel, WindowView};
use crate::world::AgentView;
use vstd::prelude::*;

verus! {

/// Every tool call gets its result: as long as the region it goes to has room for a
/// placeholder, exactly one entry for the call is added behind those that were there,
/// whole, shortened or as the placeholder.
pub proof fn law_every_result_leaves_an_entry(
    w: WindowView,
    region: Seq<char>,
    id: Seq<char>,
    tool: Seq<char>,
    text: Seq<char>,
    taint: TaintLevel,
)
    requires
        w.has_region(region),
        w.room_in(region) >= 5,
    ensures
        ({
            let at = region_at(w.regions, region)->0;
            let before = w.regions[at].content;
            let after = placed(w, region, id, tool, text, taint).regions[at].content;
            &&& after.len() == before.len() + 1
            &&& after.drop_last() == before
            &&& after.last().kind == (EntryKindView::ToolResult {
                tool_call_id: id,
                tool_name: tool,
                is_error: false,
            })
            &&& after.last().taint == taint
        }),
{
    lemma_region_at(w.regions, region);
    let at = region_at(w.regions, region)->0;
    let after = placed(w, region, id, tool, text, taint).regions[at].content;
    assert(after.drop_last() =~= w.regions[at].content);
}

/// The loop after one iteration that took in a response and, where it called tools,
/// ran them.
pub open spec fn iterated(l: LoopView, response: InferenceResponseView) -> LoopView {
    let received = l.received(response);
    if received.pending is Some {
        received.tools_run()
    } else {
        received
    }
}

/// The loop after several iterations.
pub open spec fn after_iterations(l: LoopView, responses: Seq<InferenceResponseView>) -> LoopView
    decreases responses.len(),
{
    if responses.len() == 0 {
        l
    } else {
        iterated(after_iterations(l, responses.drop_last()), responses.last())
    }
}

/// What several responses used together, on top of something.
pub open spec fn usage_total(start: TokenUsage, responses: Seq<InferenceResponseView>) -> TokenUsage
    decreases responses.len(),
{
    if responses.len() == 0 {
        start
    } else {
        usage_sum(usage_total(start, responses.drop_last()), responses.last().tokens_used)
    }
}

/// A loop reports what all of its responses used together, not only the last.
pub proof fn law_usage_is_cumulative(l: LoopView, responses: Seq<InferenceResponseView>)
    ensures
        after_iterations(l, responses).cumulative == usage_total(l.cumulative, responses),
    decreases responses.len(),
{
    if responses.len() > 0 {
        law_usage_is_cumulative(l, responses.drop_last());
    }
}

/// Iterations and nudges stay within their limits, whatever the model answers.
pub proof fn law_loop_keeps_its_limits(l: LoopView, response: InferenceResponseView)
    requires
        l.wf(),
        l.iteration < l.max_iterations,
        l.pending is None,
    ensures
        l.received(response).wf(),
        iterated(l, response).wf(),
        iterated(l, response).pending is None,
        iterated(l, response).max_iterations == l.max_iterations,
{
}

/// Whether a loop goes on after a response.
pub open spec fn goes_on(l: LoopView, response: InferenceResponseView) -> bool {
    response.tool_calls.len() > 0 || !text_ends_loop(l.total_tool_calls, l.text_only_nudges)
}

/// Whether a loop asked for each of some responses: it had an iteration left, and it went
/// on after every earlier one.
pub open spec fn asked_for(l: LoopView, responses: Seq<InferenceResponseView>) -> bool
    decreases responses.len(),
{
    responses.len() > 0 ==> {
        let front = responses.drop_last();
        let here = after_iterations(l, front);
        &&& asked_for(l, front)
        &&& here.iteration < here.max_iterations
        &&& front.len() > 0 ==> goes_on(
            after_iterations(l, front.drop_last()),
            front.last(),
        )
    }
}

/// Every response after which a loop goes on takes up one iteration.
proof fn lemma_iterations_count(l: LoopView, responses: Seq<InferenceResponseView>)
    requires
        l.pending is None,
        asked_for(l, responses),
    ensures
        after_iterations(l, responses).pending is None,
        after_iterations(l, responses).max_iterations == l.max_iterations,
        responses.len() > 0 ==> after_iterations(l, responses.drop_last()).iteration
            == l.iteration + responses.len() - 1,
    decreases responses.len(),
{
    if responses.len() > 0 {
        lemma_iterations_count(l, responses.drop_last());
    }
}

/// A loop asks the model no more often than it has iterations, whatever the model answers.
pub proof fn law_loop_asks_within_its_limit(l: LoopView, responses: Seq<InferenceResponseView>)
    requires
        l.wf(),
        l.pending is None,
        asked_for(l, responses),
    ensures
        responses.len() <= l.max_iterations - l.iteration,
{
    lemma_iterations_count(l, responses);
    if responses.len() > 0 {
        lemma_iterations_count(l, responses.drop_last());
    }
}

/// An agent that has used a tool is never nudged again: its next response without tool
/// calls ends the loop.
pub proof fn law_working_agent_is_not_nudged(l: LoopView, response: InferenceResponseView)
    requires
        l.total_tool_calls > 0,
        response.tool_calls.len() == 0,
    ensures
        text_ends_loop(l.total_tool_calls, l.text_only_nudges),
        l.received(response).text_only_nudges == l.text_only_nudges,
        l.received(response).iteration == l.iteration,
{
}

/// A stage that takes no messages loses none: they stay in the inbox. One that takes
/// them leaves the inbox empty.
pub proof fn law_inbox_waits_for_a_stage_that_takes_messages(agent: AgentView)
    ensures
        !agent.state.accepts_messages ==> delivered(agent) == agent,
        agent.state.accepts_messages && agent.inbox is Some ==> delivered(agent).inbox == Some(
            Seq::<AgentMessage>::empty(),
        ),
{
}

/// After messages are drained at a stage's end, nothing is left to pile up.
pub proof fn law_drained_inbox_is_empty(world: Seq<Option<AgentView>>, e: Entity)
    ensures
        inbox_of(inbox_emptied(world, e), e) == Seq::<AgentMessage>::empty(),
{
    assert(inbox_of(inbox_emptied(world, e), e) =~= Seq::empty());
}

/// An addressee is an agent with the id that was asked for and an inbox.
proof fn lemma_addressee(world: Seq<Option<AgentView>>, id: Seq<char>, from: int)
    ensures
        match addressee(world, id, from) {
            Some(i) => from <= i < world.len() && world[i] is Some && world[i]->0.inbox is Some
                && world[i]->0.state.agent_id == id,
            None => true,
        },
    decreases world.len() - from,
{
    if 0 <= from < world.len() {
        lemma_addressee(world, id, from + 1);
    }
}

/// A message reaches one inbox or none: that of an agent with the id it is addressed to,
/// behind the messages that were there. Every other agent is left alone.
pub proof fn law_message_reaches_one_inbox(world: Seq<Option<AgentView>>, msg: AgentMessage)
    ensures
        match addressee(world, msg.agent_id@, 0) {
            Some(i) => {
                let after = routed_message(world, msg);
                &&& 0 <= i < world.len()
                &&& after.len() == world.len()
                &&& after[i]->0.state.agent_id == msg.agent_id@
                &&& after[i]->0.inbox == Some(world[i]->0.inbox->0.push(msg))
                &&& forall|j: int|
                    0 <= j < world.len() && j != i ==> #[trigger] after[j] == world[j]
            },
            None => routed_message(world, msg) == world,
        },
{
    lemma_addressee(world, msg.agent_id@, 0);
}

} // verus!
