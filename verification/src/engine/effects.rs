//! What the steps of an inference loop come to, field by field, and where messages go.

use super::{
    addressee, agent_after_tools, all_delivered, cancellable, cancelled_agent, executed, filtered, history_at,
    inbox_emptied, inbox_of, listed_tools, refused, region_compacted, region_text, response_budget,
    routed_message, routed_messages, text_ends_loop, told_to_stop, watched, with_response,
    GatedCall, LoopView, Tool,
};
use super::drive::{advanced, begun, DriveView, LoopEventView};
use super::driver::{taint_tracked, with_reply};
use super::iteration::responded;
use super::results::{
    has_room_for, holds_also, law_every_tool_result_is_put_in, law_nudge_follows_what_was_said,
    nudge_log, results_log, said, turn,
};
use crate::components::{AgentMessage, Entity, InferenceResponseView, ToolCallView};
use crate::context::{
    lemma_region_at, EntryKindView, EntryView, RegionView, TaintLevel, WindowView,
};
use crate::graph::contents;
use crate::json::written_json;
use crate::table::NameTable;
use crate::text::{joined, texts, tokens_of};
use crate::world::AgentView;
use vstd::prelude::*;

verus! {

/// A model that only talks is told three times to use its tools, and then believed; one that
/// has used a tool is believed at once.
pub proof fn law_three_nudges(tool_calls: nat, nudges: nat)
    ensures
        tool_calls > 0 ==> text_ends_loop(tool_calls, nudges),
        tool_calls == 0 ==> (text_ends_loop(tool_calls, nudges) <==> nudges >= 3),
{
}

/// What a response does to a loop: its usage is added to each count, its tool calls are
/// counted and wait to be run; without tool calls the loop is over, or it goes on to its next
/// iteration with one nudge more.
pub proof fn law_response_is_accounted_for(l: LoopView, response: InferenceResponseView)
    requires
        l.cumulative.prompt_tokens + response.tokens_used.prompt_tokens <= usize::MAX,
        l.cumulative.completion_tokens + response.tokens_used.completion_tokens <= usize::MAX,
        l.cumulative.total_tokens + response.tokens_used.total_tokens <= usize::MAX,
        l.cumulative.cached_tokens + response.tokens_used.cached_tokens <= usize::MAX,
        l.cumulative.cache_write_tokens + response.tokens_used.cache_write_tokens <= usize::MAX,
    ensures
        ({
            let after = l.received(response);
            let used = response.tokens_used;
            &&& after.max_iterations == l.max_iterations
            &&& after.cumulative.prompt_tokens == l.cumulative.prompt_tokens + used.prompt_tokens
            &&& after.cumulative.completion_tokens == l.cumulative.completion_tokens
                + used.completion_tokens
            &&& after.cumulative.total_tokens == l.cumulative.total_tokens + used.total_tokens
            &&& after.cumulative.cached_tokens == l.cumulative.cached_tokens + used.cached_tokens
            &&& after.cumulative.cache_write_tokens == l.cumulative.cache_write_tokens
                + used.cache_write_tokens
            &&& after.total_tool_calls == l.total_tool_calls + response.tool_calls.len()
            &&& response.tool_calls.len() > 0 ==> {
                &&& after.pending == Some(response)
                &&& after.last_response == l.last_response
                &&& after.iteration == l.iteration
                &&& after.text_only_nudges == l.text_only_nudges
            }
            &&& response.tool_calls.len() == 0 && (l.total_tool_calls > 0 || l.text_only_nudges
                >= 3) ==> {
                &&& after.pending == l.pending
                &&& after.last_response == l.last_response
                &&& after.iteration == l.iteration
                &&& after.text_only_nudges == l.text_only_nudges
            }
            &&& response.tool_calls.len() == 0 && l.total_tool_calls == 0 && l.text_only_nudges < 3
                ==> {
                &&& after.pending == l.pending
                &&& after.last_response == Some(response)
                &&& after.iteration == l.iteration + 1
                &&& after.text_only_nudges == l.text_only_nudges + 1
            }
        }),
{
}

/// Running the pending tools ends the iteration and makes their response the last one; no
/// count but that of the iterations changes.
pub proof fn law_tools_end_the_iteration(l: LoopView)
    ensures
        ({
            let after = l.tools_run();
            &&& after.iteration == l.iteration + 1
            &&& after.last_response == l.pending
            &&& after.pending is None
            &&& after.max_iterations == l.max_iterations
            &&& after.cumulative == l.cumulative
            &&& after.total_tool_calls == l.total_tool_calls
            &&& after.text_only_nudges == l.text_only_nudges
        }),
{
}

/// A loop that gives up hands back its last response with everything that was used, and its
/// reason only where there is none.
pub proof fn law_giving_up_keeps_the_last_response(l: LoopView, reason: Seq<char>)
    ensures
        match l.last_response {
            Some(last) => {
                let out = l.given_up(reason);
                &&& out is Ok
                &&& out->Ok_0.content == last.content
                &&& out->Ok_0.tool_calls == last.tool_calls
                &&& out->Ok_0.finish_reason == last.finish_reason
                &&& out->Ok_0.tokens_used == l.cumulative
            },
            None => l.given_up(reason) == Err::<InferenceResponseView, Seq<char>>(reason),
        },
{
}

/// A stored response is the one that came, with its own count of tokens, and counts as one
/// iteration; nothing else of the agent changes.
pub proof fn law_response_is_stored(agent: AgentView, response: InferenceResponseView, now: i64)
    ensures
        ({
            let after = with_response(agent, response, now);
            &&& after.inference is Some
            &&& after.inference->0.response == response.content
            &&& after.inference->0.tool_calls == response.tool_calls
            &&& after.inference->0.tokens_used == response.tokens_used.total_tokens
            &&& after.inference->0.timestamp == now
            &&& after.state.iteration == agent.state.iteration + 1
            &&& after.state.status == agent.state.status
            &&& after.state.agent_id == agent.state.agent_id
            &&& after.state.current_stage == agent.state.current_stage
            &&& (AgentView { inference: agent.inference, state: agent.state, ..after }) == agent
        }),
{
}

/// A loop that has used up its iterations asks no more, nor one whose agent was told to stop,
/// which is then marked as cancelled; any other loop asks the model.
pub proof fn law_loop_asks_until_it_is_stopped(d: DriveView, e: Entity)
    ensures
        ({
            let (after, action) = begun(d, e);
            let stopped = e < d.world.len() && d.world[e as int] is Some
                && d.world[e as int]->0.cancel_token == Some(true);
            &&& action is Infer <==> d.run.iteration < d.run.max_iterations && !stopped
            &&& !(action is Infer) ==> action is Return
            &&& action is Return ==> after.pending == d.pending && match d.run.last_response {
                Some(last) => action->outcome is Ok && action->outcome->Ok_0.content
                    == last.content && action->outcome->Ok_0.tokens_used == d.run.cumulative,
                None => action->outcome is Err,
            }
            &&& action is Return && d.run.iteration < d.run.max_iterations ==> e < after.world.len()
                && after.world[e as int] is Some && after.world[e as int]->0.state.status
                is Cancelled
            &&& action is Return && d.run.iteration >= d.run.max_iterations ==> after.world
                == d.world
            &&& action is Infer ==> after.pending.len() == 0 && after.run == d.run
        }),
{
}

/// What a driver is to do with a response: run its tools where it calls any; else end the
/// loop with everything that was used, where it has used a tool before or was nudged three
/// times; else begin again.
pub proof fn law_response_decides_what_follows(
    d: DriveView,
    e: Entity,
    response: InferenceResponseView,
    now: i64,
)
    ensures
        ({
            let event = LoopEventView::Answered { response, now };
            let (after, action) = advanced(d, e, event);
            &&& action is RunTools <==> response.tool_calls.len() > 0
            &&& action is Return <==> response.tool_calls.len() == 0 && (d.run.total_tool_calls > 0
                || d.run.text_only_nudges >= 3)
            &&& action is Again <==> response.tool_calls.len() == 0 && d.run.total_tool_calls == 0
                && d.run.text_only_nudges < 3
            &&& action is Return ==> action->outcome is Ok && action->outcome->Ok_0.content
                == response.content && action->outcome->Ok_0.tokens_used == after.run.cumulative
            &&& after.run == d.run.received(response)
            &&& after.pending == d.pending
        }),
{
}

/// The tools that a request offers: all of them without a filter or with an empty one, and
/// else those that it names, in their order.
pub proof fn law_request_offers_the_listed_tools(tools: Seq<Tool>, listed: Vec<String>)
    ensures
        filtered(tools, None) == tools,
        listed@.len() == 0 ==> filtered(tools, Some(listed)) == tools,
        listed@.len() > 0 ==> filtered(tools, Some(listed)) == tools.filter(
            |tool: Tool|
                exists|i: int| 0 <= i < listed@.len() && (#[trigger] listed@[i])@ == tool.name@,
        ),
{
    let rule = |tool: Tool|
        exists|i: int| 0 <= i < listed@.len() && (#[trigger] listed@[i])@ == tool.name@;
    if listed@.len() > 0 {
        lemma_listed_tools(tools, texts(listed@), rule);
    }
    assert forall|tool: Tool| #[trigger] rule(tool) == texts(listed@).contains(tool.name@) by {
        if rule(tool) {
            let i = choose|i: int|
                0 <= i < listed@.len() && (#[trigger] listed@[i])@ == tool.name@;
            assert(texts(listed@)[i] == tool.name@);
        }
        if texts(listed@).contains(tool.name@) {
            let i = choose|i: int|
                0 <= i < texts(listed@).len() && texts(listed@)[i] == tool.name@;
            assert(listed@[i]@ == tool.name@);
        }
    }
}

/// The listed tools are those that a rule holds of, where it holds of exactly those.
proof fn lemma_listed_tools(tools: Seq<Tool>, listed: Seq<Seq<char>>, rule: spec_fn(Tool) -> bool)
    ensures
        (forall|tool: Tool| #[trigger] rule(tool) == listed.contains(tool.name@)) ==> listed_tools(
            tools,
            listed,
        ) == tools.filter(rule),
    decreases tools.len(),
{
    reveal(Seq::filter);
    if tools.len() > 0 {
        lemma_listed_tools(tools.drop_last(), listed, rule);
    }
}

/// A response may be as long as what is left of the window, the stage's own limit and, where
/// it has none, the model's allow: no longer than any, and as long as the smallest.
pub proof fn law_response_has_what_is_left(w: WindowView, stage: Option<usize>, model: usize)
    ensures
        ({
            let most = response_budget(w, stage, model);
            let limit = if stage is Some {
                stage->0
            } else {
                model
            };
            &&& most <= limit
            &&& w.current_tokens + most <= w.max_tokens || most == 0
            &&& most == limit || w.current_tokens + most == w.max_tokens || (most == 0
                && w.current_tokens >= w.max_tokens)
        }),
{
}

/// Which calls of a batch run: all but those that were blocked and refused, in their order;
/// and each refused one is answered with its refusal, in order too.
pub proof fn law_batch_is_parted_by_the_gate(batch: Seq<GatedCall>)
    ensures
        executed(batch) == batch.filter(
            |g: GatedCall| !(g.decision is Blocked) || g.refusal is None,
        ).map(|i: int, g: GatedCall| g.call),
        refused(batch) == batch.filter(
            |g: GatedCall| g.decision is Blocked && g.refusal is Some,
        ).map(|i: int, g: GatedCall| g.refusal->0),
    decreases batch.len(),
{
    reveal(Seq::filter);
    let runs = |g: GatedCall| !(g.decision is Blocked) || g.refusal is None;
    let held = |g: GatedCall| g.decision is Blocked && g.refusal is Some;
    if batch.len() > 0 {
        let front = batch.drop_last();
        law_batch_is_parted_by_the_gate(front);
        if runs(batch.last()) {
            assert(batch.filter(runs) == front.filter(runs).push(batch.last()));
            assert(batch.filter(held) == front.filter(held));
        } else {
            assert(batch.filter(runs) == front.filter(runs));
            assert(batch.filter(held) == front.filter(held).push(batch.last()));
        }
    }
    assert(executed(batch) =~= batch.filter(runs).map(|i: int, g: GatedCall| g.call));
    assert(refused(batch) =~= batch.filter(held).map(|i: int, g: GatedCall| g.refusal->0));
}

/// Whether this is the first agent with an id and an inbox.
pub open spec fn is_addressee(world: Seq<Option<AgentView>>, id: Seq<char>, i: int) -> bool {
    &&& 0 <= i < world.len()
    &&& world[i] is Some && world[i]->0.state.agent_id == id && world[i]->0.inbox is Some
    &&& forall|j: int|
        0 <= j < i ==> !((#[trigger] world[j]) is Some && world[j]->0.state.agent_id == id
            && world[j]->0.inbox is Some)
}

/// The first agent that has an id and an inbox is found.
proof fn lemma_addressee_found(world: Seq<Option<AgentView>>, id: Seq<char>, from: int, i: int)
    requires
        is_addressee(world, id, i),
        0 <= from <= i,
    ensures
        addressee(world, id, from) == Some(i),
    decreases i - from,
{
    if from < i {
        assert(!(world[from] is Some && world[from]->0.state.agent_id == id
            && world[from]->0.inbox is Some));
        lemma_addressee_found(world, id, from + 1, i);
    }
}

/// Nobody is found where nobody has the id and an inbox.
proof fn lemma_nobody_found(world: Seq<Option<AgentView>>, id: Seq<char>, from: int)
    requires
        0 <= from,
        forall|j: int|
            0 <= j < world.len() ==> !((#[trigger] world[j]) is Some && world[j]->0.state.agent_id
                == id && world[j]->0.inbox is Some),
    ensures
        addressee(world, id, from) is None,
    decreases world.len() - from,
{
    if from < world.len() {
        assert(!(world[from] is Some && world[from]->0.state.agent_id == id
            && world[from]->0.inbox is Some));
        lemma_nobody_found(world, id, from + 1);
    }
}

/// A message goes to the first agent that has the id it is addressed to and an inbox, behind
/// the messages there; where there is none, nothing changes.
pub proof fn law_message_finds_its_addressee(world: Seq<Option<AgentView>>, msg: AgentMessage, i: int)
    ensures
        is_addressee(world, msg.agent_id@, i) ==> {
            let after = routed_message(world, msg);
            &&& after.len() == world.len()
            &&& after[i] is Some
            &&& after[i]->0 == (AgentView {
                inbox: Some(world[i]->0.inbox->0.push(msg)),
                ..world[i]->0
            })
            &&& forall|j: int| 0 <= j < world.len() && j != i ==> #[trigger] after[j] == world[j]
        },
        (forall|j: int|
            0 <= j < world.len() ==> !((#[trigger] world[j]) is Some && world[j]->0.state.agent_id
                == msg.agent_id@ && world[j]->0.inbox is Some)) ==> routed_message(world, msg)
            == world,
{
    if is_addressee(world, msg.agent_id@, i) {
        lemma_addressee_found(world, msg.agent_id@, 0, i);
    }
    if forall|j: int|
        0 <= j < world.len() ==> !((#[trigger] world[j]) is Some && world[j]->0.state.agent_id
            == msg.agent_id@ && world[j]->0.inbox is Some) {
        lemma_nobody_found(world, msg.agent_id@, 0);
    }
}

/// The messages for an id, in order.
pub open spec fn messages_for(messages: Seq<AgentMessage>, id: Seq<char>) -> Seq<AgentMessage> {
    messages.filter(|m: AgentMessage| m.agent_id@ == id)
}

/// Two worlds have the same agents with the same inboxes to put messages into.
pub open spec fn same_boxes(a: Seq<Option<AgentView>>, b: Seq<Option<AgentView>>) -> bool {
    &&& a.len() == b.len()
    &&& forall|j: int|
        #![trigger a[j]]
        #![trigger b[j]]
        0 <= j < a.len() ==> {
            &&& a[j] is Some <==> b[j] is Some
            &&& a[j] is Some ==> a[j]->0.state.agent_id == b[j]->0.state.agent_id
            &&& a[j] is Some ==> (a[j]->0.inbox is Some <==> b[j]->0.inbox is Some)
        }
}

/// Such worlds have the same addressees.
proof fn lemma_same_addressees(
    a: Seq<Option<AgentView>>,
    b: Seq<Option<AgentView>>,
    id: Seq<char>,
    i: int,
)
    requires
        same_boxes(a, b),
        is_addressee(a, id, i),
    ensures
        is_addressee(b, id, i),
{
    assert forall|j: int| 0 <= j < i implies !((#[trigger] b[j]) is Some
        && b[j]->0.state.agent_id == id && b[j]->0.inbox is Some) by {
        assert(!(a[j] is Some && a[j]->0.state.agent_id == id && a[j]->0.inbox is Some));
    }
    assert(b[i] is Some);
}

/// Putting messages into inboxes leaves the inboxes where they are.
proof fn lemma_boxes_stay(world: Seq<Option<AgentView>>, messages: Seq<AgentMessage>)
    ensures
        same_boxes(world, routed_messages(world, messages)),
    decreases messages.len(),
{
    if messages.len() > 0 {
        lemma_boxes_stay(world, messages.drop_last());
        let mid = routed_messages(world, messages.drop_last());
        lemma_addressee_of(mid, messages.last().agent_id@, 0);
    }
}

/// Every message that has an addressee is in its inbox afterwards, in the order in which they
/// were sent; nothing else of any agent changes, and no agent gets another's messages.
pub proof fn law_every_message_reaches_its_addressee(
    world: Seq<Option<AgentView>>,
    messages: Seq<AgentMessage>,
    i: int,
)
    requires
        0 <= i < world.len(),
    ensures
        ({
            let after = routed_messages(world, messages);
            &&& after.len() == world.len()
            &&& world[i] is None ==> after[i] is None
            &&& world[i] is Some ==> {
                let agent = world[i]->0;
                &&& after[i] is Some
                &&& is_addressee(world, agent.state.agent_id, i) ==> after[i]->0 == (AgentView {
                    inbox: Some(agent.inbox->0 + messages_for(messages, agent.state.agent_id)),
                    ..agent
                })
                &&& !is_addressee(world, agent.state.agent_id, i) ==> after[i]->0 == agent
            }
        }),
    decreases messages.len(),
{
    reveal(Seq::filter);
    if messages.len() > 0 {
        let front = messages.drop_last();
        let msg = messages.last();
        law_every_message_reaches_its_addressee(world, front, i);
        lemma_boxes_stay(world, front);
        let mid = routed_messages(world, front);
        let to = addressee(mid, msg.agent_id@, 0);
        lemma_addressee_of(mid, msg.agent_id@, 0);
        if world[i] is Some {
            let agent = world[i]->0;
            let rule = |m: AgentMessage| m.agent_id@ == agent.state.agent_id;
            assert(mid[i]->0.state.agent_id == agent.state.agent_id);
            if agent.state.agent_id == msg.agent_id@ {
                assert(messages.filter(rule) == front.filter(rule).push(msg));
                if is_addressee(world, agent.state.agent_id, i) {
                    lemma_same_addressees(world, mid, msg.agent_id@, i);
                    lemma_addressee_found(mid, msg.agent_id@, 0, i);
                    assert(agent.inbox->0 + front.filter(rule).push(msg) =~= (agent.inbox->0
                        + front.filter(rule)).push(msg));
                } else if to == Some(i) {
                    assert(is_addressee(mid, msg.agent_id@, i));
                    lemma_same_addressees(mid, world, msg.agent_id@, i);
                }
            } else {
                assert(messages.filter(rule) == front.filter(rule));
                assert(to != Some(i));
            }
        }
    } else if world[i] is Some {
        let agent = world[i]->0;
        assert(messages_for(messages, agent.state.agent_id) =~= Seq::empty());
        if agent.inbox is Some {
            assert(agent.inbox->0 + Seq::<AgentMessage>::empty() =~= agent.inbox->0);
        }
    }
}

/// An addressee is the first agent with the id and an inbox.
proof fn lemma_addressee_of(world: Seq<Option<AgentView>>, id: Seq<char>, from: int)
    requires
        0 <= from,
        forall|j: int|
            0 <= j < from && j < world.len() ==> !((#[trigger] world[j]) is Some
                && world[j]->0.state.agent_id == id && world[j]->0.inbox is Some),
    ensures
        addressee(world, id, from) is Some ==> is_addressee(
            world,
            id,
            addressee(world, id, from)->0,
        ),
    decreases world.len() - from,
{
    if from < world.len() {
        if !(world[from] is Some && world[from]->0.state.agent_id == id && world[from]->0.inbox
            is Some) {
            lemma_addressee_of(world, id, from + 1);
        }
    }
}

/// Cancelling by id ends the first agent that has the id and can be stopped: it is told to
/// stop and is cancelled. Where there is none, there is nobody to cancel.
pub proof fn law_cancel_finds_the_agent(world: Seq<Option<AgentView>>, id: Seq<char>, from: int)
    requires
        0 <= from <= world.len(),
    ensures
        match cancellable(world, id, from) {
            Some(i) => {
                &&& from <= i < world.len()
                &&& world[i] is Some
                &&& world[i]->0.state.agent_id == id
                &&& world[i]->0.cancel_token is Some
                &&& cancelled_agent(world[i]->0).cancel_token == Some(true)
                &&& cancelled_agent(world[i]->0).state.status is Cancelled
                &&& forall|j: int|
                    from <= j < i ==> !((#[trigger] world[j]) is Some && world[j]->0.state.agent_id
                        == id && world[j]->0.cancel_token is Some)
            },
            None => forall|j: int|
                from <= j < world.len() ==> !((#[trigger] world[j]) is Some
                    && world[j]->0.state.agent_id == id && world[j]->0.cancel_token is Some),
        },
    decreases world.len() - from,
{
    if from < world.len() {
        law_cancel_finds_the_agent(world, id, from + 1);
    }
}

/// An agent stops where its token is set, and nowhere else.
pub proof fn law_only_the_token_stops(world: Seq<Option<AgentView>>, e: Entity)
    ensures
        told_to_stop(world, e) <==> e < world.len() && world[e as int] is Some
            && world[e as int]->0.cancel_token == Some(true),
{
}

/// Draining an agent hands back what its inbox held and leaves everybody else alone.
pub proof fn law_draining_hands_back_the_inbox(world: Seq<Option<AgentView>>, e: Entity, i: int)
    requires
        0 <= i < world.len(),
    ensures
        inbox_emptied(world, e).len() == world.len(),
        i != e ==> inbox_emptied(world, e)[i] == world[i],
        i == e && world[i] is Some && world[i]->0.inbox is Some ==> inbox_of(world, e)
            == world[i]->0.inbox->0 && inbox_emptied(world, e)[i] == Some(
            AgentView { inbox: Some(Seq::<AgentMessage>::empty()), ..world[i]->0 },
        ),
        i == e && (world[i] is None || world[i]->0.inbox is None) ==> inbox_of(world, e)
            == Seq::<AgentMessage>::empty() && inbox_emptied(world, e)[i] == world[i],
{
}

/// Delivering concerns each agent by itself: its inbox is empty afterwards where its stage
/// takes messages, and as it was where it does not.
pub proof fn law_each_inbox_is_delivered(world: Seq<Option<AgentView>>, i: int)
    requires
        0 <= i < world.len(),
    ensures
        all_delivered(world).len() == world.len(),
        world[i] is None ==> all_delivered(world)[i] is None,
        world[i] is Some ==> all_delivered(world)[i] is Some,
        world[i] is Some && (!world[i]->0.state.accepts_messages || world[i]->0.inbox is None)
            ==> all_delivered(world)[i] == world[i],
        world[i] is Some && world[i]->0.state.accepts_messages && world[i]->0.inbox is Some ==> (
        AgentView {
            window: world[i]->0.window,
            inbox: world[i]->0.inbox,
            ..all_delivered(world)[i]->0
        }) == world[i]->0 && all_delivered(world)[i]->0.inbox == Some(Seq::<AgentMessage>::empty()),
        world[i] is Some && world[i]->0.window is None ==> all_delivered(world)[i]->0.window is None,
{
}

/// Compacting a region empties it, and puts the summary into the first region that keeps its
/// history, where there is one with room for it and it is not the region itself. No other
/// region changes.
pub proof fn law_compaction_keeps_the_summary(
    w: WindowView,
    region: Seq<char>,
    summary: Seq<char>,
    at: int,
    h: int,
)
    requires
        0 <= at < w.regions.len(),
        w.regions[at].name == region,
        forall|j: int| 0 <= j < at ==> (#[trigger] w.regions[j]).name != region,
        0 <= h < w.regions.len(),
        h != at,
        w.regions[h].kind is CompactHistory,
        w.regions[h].kind->source_region@ == region,
        forall|j: int|
            0 <= j < h ==> !((#[trigger] w.regions[j]).kind is CompactHistory
                && w.regions[j].kind->source_region@ == region),
        forall|j: int| 0 <= j < h ==> (#[trigger] w.regions[j]).name != w.regions[h].name,
        w.regions[h].current_tokens + tokens_of(summary) <= w.regions[h].max_tokens,
    ensures
        ({
            let after = region_compacted(w, region, summary);
            &&& after.regions.len() == w.regions.len()
            &&& after.regions[at].content.len() == 0
            &&& after.regions[at].current_tokens == 0
            &&& after.regions[h].content.len() == w.regions[h].content.len() + 1
            &&& after.regions[h].content.drop_last() == w.regions[h].content
            &&& after.regions[h].content.last().content == summary
            &&& after.regions[h].content.last().kind is Text
            &&& forall|j: int|
                0 <= j < w.regions.len() && j != at && j != h ==> #[trigger] after.regions[j]
                    == w.regions[j]
        }),
{
    lemma_region_at(w.regions, region);
    lemma_region_at(w.regions, w.regions[h].name);
    lemma_history(w.regions, region, 0, h);
    let kept = w.offered(
        w.regions[h].name,
        crate::context::public_entry(EntryKindView::Text, summary, tokens_of(summary)),
    );
    assert forall|j: int| 0 <= j < w.regions.len() implies (#[trigger] kept.regions[j]).name
        == w.regions[j].name by {}
    lemma_region_at(kept.regions, region);
    assert(kept.regions[at].name == region);
    assert forall|j: int| 0 <= j < at implies (#[trigger] kept.regions[j]).name != region by {
        assert(w.regions[j].name != region);
    }
    let after = region_compacted(w, region, summary);
    assert(after.regions[h].content.drop_last() =~= w.regions[h].content);
}

/// The first history of a region is found.
proof fn lemma_history(regions: Seq<RegionView>, region: Seq<char>, from: int, h: int)
    requires
        0 <= from <= h < regions.len(),
        regions[h].kind is CompactHistory,
        regions[h].kind->source_region@ == region,
        forall|j: int|
            0 <= j < h ==> !((#[trigger] regions[j]).kind is CompactHistory
                && regions[j].kind->source_region@ == region),
    ensures
        history_at(regions, region, from) == Some(h),
    decreases h - from,
{
    if from < h {
        assert(!(regions[from].kind is CompactHistory && regions[from].kind->source_region@
            == region));
        lemma_history(regions, region, from + 1, h);
    }
}

/// A region that nothing keeps the history of is only emptied.
pub proof fn law_compaction_without_history_only_clears(
    w: WindowView,
    region: Seq<char>,
    summary: Seq<char>,
    at: int,
)
    requires
        0 <= at < w.regions.len(),
        w.regions[at].name == region,
        forall|j: int| 0 <= j < at ==> (#[trigger] w.regions[j]).name != region,
        forall|j: int|
            0 <= j < w.regions.len() ==> !((#[trigger] w.regions[j]).kind is CompactHistory
                && w.regions[j].kind->source_region@ == region),
    ensures
        ({
            let after = region_compacted(w, region, summary);
            &&& after.regions.len() == w.regions.len()
            &&& after.regions[at].content.len() == 0
            &&& forall|j: int|
                0 <= j < w.regions.len() && j != at ==> #[trigger] after.regions[j] == w.regions[j]
        }),
{
    lemma_region_at(w.regions, region);
    lemma_no_history(w.regions, region, 0);
}

/// No history is found where there is none.
proof fn lemma_no_history(regions: Seq<RegionView>, region: Seq<char>, from: int)
    requires
        0 <= from,
        forall|j: int|
            0 <= j < regions.len() ==> !((#[trigger] regions[j]).kind is CompactHistory
                && regions[j].kind->source_region@ == region),
    ensures
        history_at(regions, region, from) is None,
    decreases regions.len() - from,
{
    if from < regions.len() {
        assert(!(regions[from].kind is CompactHistory && regions[from].kind->source_region@
            == region));
        lemma_no_history(regions, region, from + 1);
    }
}

/// What taking in a response does to an agent: it is stored and the iteration counted; the
/// window gains the turn and the nudge behind it exactly where the model only talked, has used
/// no tool so far and was told less than three times to use one.
pub proof fn law_only_idle_talk_is_nudged(
    agent: AgentView,
    l: LoopView,
    response: InferenceResponseView,
    now: i64,
)
    requires
        agent.window is Some,
    ensures
        ({
            let after = responded(agent, l, response, now);
            let idle = response.tool_calls.len() == 0 && l.total_tool_calls == 0
                && l.text_only_nudges < 3;
            &&& after.inference is Some
            &&& after.inference->0.response == response.content
            &&& after.inference->0.tool_calls == response.tool_calls
            &&& after.inference->0.tokens_used == response.tokens_used.total_tokens
            &&& after.inference->0.timestamp == now
            &&& after.state.iteration == agent.state.iteration + 1
            &&& after.state.status == agent.state.status
            &&& !idle ==> after.window == agent.window
            &&& idle && has_room_for(agent.window->0, nudge_log(response.content)) ==> after.window
                is Some && holds_also(
                agent.window->0,
                nudge_log(response.content),
                after.window->0,
            )
            &&& after.inbox == agent.inbox
            &&& after.cancel_token == agent.cancel_token
            &&& after.final_output == agent.final_output
        }),
{
    if has_room_for(agent.window->0, nudge_log(response.content)) {
        law_nudge_follows_what_was_said(agent.window->0, response.content);
    }
}

/// A reply outside a loop is stored, and its turn stands in the conversation.
pub proof fn law_reply_is_stored_and_said(
    agent: AgentView,
    response: InferenceResponseView,
    now: i64,
)
    ensures
        ({
            let after = with_reply(agent, response, now);
            &&& after.inference is Some
            &&& after.inference->0.response == response.content
            &&& after.inference->0.tool_calls == response.tool_calls
            &&& after.inference->0.timestamp == now
            &&& after.state.iteration == agent.state.iteration + 1
            &&& agent.window is None ==> after.window is None
            &&& agent.window is Some ==> after.window == Some(
                agent.window->0.offered(
                    "conversation"@,
                    EntryView {
                        kind: EntryKindView::AssistantTurn { tool_calls: response.tool_calls },
                        content: response.content,
                        tokens: tokens_of(response.content),
                        taint: TaintLevel::Public,
                    },
                ),
            )
        }),
{
}

/// Tracking the sensitivity of one agent's window changes nothing else of the world.
pub proof fn law_tracking_is_of_one_window(world: Seq<Option<AgentView>>, e: Entity, i: int)
    requires
        0 <= i < world.len(),
    ensures
        ({
            let after = taint_tracked(world, e);
            &&& after.len() == world.len()
            &&& i != e ==> after[i] == world[i]
            &&& i == e && world[i] is Some && world[i]->0.window is Some ==> {
                &&& after[i] is Some
                &&& after[i]->0.window is Some
                &&& after[i]->0.window->0.tracks_taint
                &&& after[i]->0.window->0.regions == world[i]->0.window->0.regions
                &&& after[i]->0.state == world[i]->0.state
            }
            &&& i == e && (world[i] is None || world[i]->0.window is None) ==> after[i] == world[i]
        }),
{
}

/// What a model is given to summarize of a region is all of its entries, in order, with an
/// empty line between each two.
pub proof fn law_region_is_read_whole(w: WindowView, region: Seq<char>, i: int)
    requires
        0 <= i < w.regions.len(),
        w.regions[i].name == region,
        forall|j: int| 0 <= j < i ==> (#[trigger] w.regions[j]).name != region,
    ensures
        region_text(w, region) == joined(
            w.regions[i].content.map(|_k: int, entry: EntryView| entry.content),
            "\n\n"@,
        ),
{
    lemma_region_at(w.regions, region);
    assert(contents(w.regions[i].content) =~= w.regions[i].content.map(
        |_k: int, entry: EntryView| entry.content,
    ));
}

/// The repetition detector is told of every call, in order: its tool and its arguments as they
/// are written.
pub proof fn law_every_call_is_watched(calls: Seq<ToolCallView>)
    ensures
        watched(calls) == calls.map(
            |_i: int, call: ToolCallView| (call.name, written_json(call.arguments)),
        ),
{
}

/// What the results of the pending calls do: the calls that were run are answered, and behind
/// them those that were refused, each with one result; the messages that came meanwhile are
/// routed, and the iteration is over. Here for an agent whose stage takes no messages, so that
/// nothing comes behind the results but what the repetition detector said.
pub proof fn law_run_and_refused_calls_are_answered(
    d: DriveView,
    e: Entity,
    results: Seq<(String, String)>,
    denied: Seq<(String, String)>,
    sensitivities: Option<NameTable<TaintLevel>>,
    nudges: Seq<String>,
)
    requires
        e < d.world.len(),
        d.world[e as int] is Some,
        d.world[e as int]->0.window is Some,
        !d.world[e as int]->0.state.accepts_messages,
        d.run.pending is Some,
        has_room_for(
            d.world[e as int]->0.window->0,
            seq![turn(d.run.pending->0.content, d.run.pending->0.tool_calls)] + results_log(
                d.world[e as int]->0.window->0,
                d.world[e as int]->0.routing,
                sensitivities,
                d.run.pending->0.tool_calls,
                results + denied,
            ) + said(nudges),
        ),
    ensures
        ({
            let agent = d.world[e as int]->0;
            let event = LoopEventView::ToolsRun { results, denied, sensitivities, nudges };
            let (after, action) = advanced(d, e, event);
            &&& action is Settle
            &&& after.pending.len() == 0
            &&& after.run.iteration == d.run.iteration + 1
            &&& after.run.last_response == d.run.pending
            &&& after.run.pending is None
            &&& after.world.len() == d.world.len()
            &&& after.world[e as int] is Some
            &&& after.world[e as int]->0.state == agent.state
            &&& after.world[e as int]->0.window is Some
            &&& holds_also(
                agent.window->0,
                seq![turn(d.run.pending->0.content, d.run.pending->0.tool_calls)] + results_log(
                    agent.window->0,
                    agent.routing,
                    sensitivities,
                    d.run.pending->0.tool_calls,
                    results + denied,
                ) + said(nudges),
                after.world[e as int]->0.window->0,
            )
        }),
{
    let agent = d.world[e as int]->0;
    let response = d.run.pending->0;
    law_every_tool_result_is_put_in(
        agent.window->0,
        agent.routing,
        sensitivities,
        response.content,
        response.tool_calls,
        results + denied,
        nudges,
    );
    let told = d.world.update(
        e as int,
        Some(
            agent_after_tools(agent, sensitivities, response, results + denied, nudges),
        ),
    );
    law_every_message_reaches_its_addressee(told, d.pending, e as int);
    law_each_inbox_is_delivered(routed_messages(told, d.pending), e as int);
}

} // verus!
