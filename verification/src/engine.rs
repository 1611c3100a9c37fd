//! The agent engine: the steps of an inference loop and what they do to an
//! agent's context.

pub mod drive;
pub mod driver;
pub mod effects;
pub mod iteration;
pub mod laws;
pub mod results;

pub use driver::AgentEngine;

use crate::components::{
    call_views, copy_calls, AgentMessage, AgentStatus, CompactionConfig, Entity, InferenceResponse,
    InferenceResponseView, InferenceResult, InferenceResultView, RoutingView, StatusView,
    TokenUsage, ToolCall, ToolCallView, ToolResultRouting,
};
use crate::context::{
    public_entry, region_at, ContextWindow, EntryKind, EntryKindView, EntryView, RegionKind,
    RegionView, TaintLevel, WindowView,
};
use crate::blueprint::names;
use crate::graph::{contents, join_entries, with_user_message};
use crate::json::{json_text, written_json};
use crate::table::{inserted, lemma_modelled_lookup, lookup, NameTable};
use crate::text::{
    byte_count, byte_len, decimal, decimal_text, estimate_tokens, joined, lemma_prefix_bytes,
    message_tokens, prefix, same_text, take_chars, texts, tokens_of,
};
use crate::world::{agent_at, opt_view, Agent, AgentView, World};
use vstd::prelude::*;

verus! {

/// Truncates `text` to at most `max_chars` characters, cutting only between
/// characters.
pub fn truncate_on_char_boundary(text: &str, max_chars: usize) -> (out: String)
    ensures
        out@ == prefix(text@, max_chars as nat),
{
    take_chars(text, max_chars)
}

/// The providers an engine can call, by name.
pub struct ProviderRegistry<P> {
    pub providers: NameTable<P>,
}

impl<P> ProviderRegistry<P> {
    /// A registry without providers.
    pub fn new() -> (registry: ProviderRegistry<P>)
        ensures
            registry.providers@ == Seq::<(Seq<char>, P)>::empty(),
    {
        ProviderRegistry { providers: NameTable::new() }
    }

    /// Registers a provider by name, in place of one of that name.
    pub fn register(&mut self, name: String, provider: P)
        ensures
            final(self).providers@ == inserted(old(self).providers@, name@, provider),
    {
        self.providers.insert(name, provider);
    }

    /// The provider of a name.
    pub fn get(&self, name: &str) -> (found: Option<&P>)
        ensures
            match found {
                Some(provider) => lookup(self.providers@, name@) == Some(*provider),
                None => lookup(self.providers@, name@) is None,
            },
    {
        self.providers.get(name)
    }

    /// Whether there is a provider of this name.
    pub fn has(&self, name: &str) -> (b: bool)
        ensures
            b == lookup(self.providers@, name@) is Some,
    {
        self.providers.contains(name)
    }

    /// The names of all providers, in the order in which they came.
    pub fn provider_names(&self) -> (out: Vec<&str>)
        ensures
            out@.len() == self.providers@.len(),
            forall|i: int|
                0 <= i < out@.len() ==> (#[trigger] out@[i])@ == self.providers@[i].0,
    {
        let mut out: Vec<&str> = Vec::new();
        let mut i: usize = 0;
        while i < self.providers.entries.len()
            invariant
                i <= self.providers@.len(),
                out@.len() == i,
                forall|j: int|
                    0 <= j < i ==> (#[trigger] out@[j])@ == self.providers@[j].0,
            decreases self.providers.entries.len() - i,
        {
            out.push(self.providers.entries[i].0.as_str());
            i = i + 1;
        }
        out
    }
}

impl<P> Default for ProviderRegistry<P> {
    fn default() -> (registry: Self)
        ensures
            registry.providers@ == Seq::<(Seq<char>, P)>::empty(),
    {
        ProviderRegistry::new()
    }
}

/// The sum of two usages.
pub open spec fn usage_sum(a: TokenUsage, b: TokenUsage) -> TokenUsage {
    TokenUsage {
        prompt_tokens: (a.prompt_tokens + b.prompt_tokens) as usize,
        completion_tokens: (a.completion_tokens + b.completion_tokens) as usize,
        total_tokens: (a.total_tokens + b.total_tokens) as usize,
        cached_tokens: (a.cached_tokens + b.cached_tokens) as usize,
        cache_write_tokens: (a.cache_write_tokens + b.cache_write_tokens) as usize,
    }
}

/// Whether the sum of two usages can be counted.
pub open spec fn usage_fits(a: TokenUsage, b: TokenUsage) -> bool {
    &&& a.prompt_tokens + b.prompt_tokens <= usize::MAX
    &&& a.completion_tokens + b.completion_tokens <= usize::MAX
    &&& a.total_tokens + b.total_tokens <= usize::MAX
    &&& a.cached_tokens + b.cached_tokens <= usize::MAX
    &&& a.cache_write_tokens + b.cache_write_tokens <= usize::MAX
}

/// Adds one inference call's usage to a running total.
pub fn accumulate_tokens(cumulative: &mut TokenUsage, used: &TokenUsage)
    requires
        usage_fits(*old(cumulative), *used),
    ensures
        *final(cumulative) == usage_sum(*old(cumulative), *used),
{
    cumulative.prompt_tokens = cumulative.prompt_tokens + used.prompt_tokens;
    cumulative.completion_tokens = cumulative.completion_tokens + used.completion_tokens;
    cumulative.total_tokens = cumulative.total_tokens + used.total_tokens;
    cumulative.cached_tokens = cumulative.cached_tokens + used.cached_tokens;
    cumulative.cache_write_tokens = cumulative.cache_write_tokens + used.cache_write_tokens;
}

/// The name of the first call with this id; no name where there is none.
pub open spec fn tool_name_of(calls: Seq<ToolCallView>, id: Seq<char>) -> Seq<char>
    decreases calls.len(),
{
    if calls.len() == 0 {
        Seq::empty()
    } else if calls[0].id == id {
        calls[0].name
    } else {
        tool_name_of(calls.skip(1), id)
    }
}

/// The name of the first call with this id.
fn find_tool_name(calls: &Vec<ToolCall>, id: &str) -> (name: String)
    ensures
        name@ == tool_name_of(call_views(calls@), id@),
{
    let ghost all = call_views(calls@);
    let mut i: usize = 0;
    proof {
        assert(all.skip(0) =~= all);
    }
    while i < calls.len()
        invariant
            i <= calls.len(),
            all == call_views(calls@),
            tool_name_of(all, id@) == tool_name_of(all.skip(i as int), id@),
        decreases calls.len() - i,
    {
        proof {
            assert(all.skip(i as int).skip(1) =~= all.skip(i + 1));
        }
        if same_text(calls[i].id.as_str(), id) {
            return calls[i].name.clone();
        }
        i = i + 1;
    }
    String::new()
}

/// A tool result as it is kept: cut down to the routing's limit where it is
/// longer than that.
pub open spec fn limited(routing: Option<RoutingView>, text: Seq<char>) -> Seq<char> {
    match routing {
        Some(r) => match r.max_result_tokens {
            Some(most) => if byte_count(text) > most * 4 {
                prefix(text, (most * 4) as nat) + "\n[...truncated]"@
            } else {
                text
            },
            None => text,
        },
        None => text,
    }
}

/// The region that a tool's results go to: the tool's own, else the default one,
/// and the scratch region in its place for results that are not kept.
pub open spec fn routed(
    routing: Option<RoutingView>,
    w: WindowView,
    tool: Seq<char>,
) -> Seq<char> {
    match routing {
        Some(r) => if !r.persist && w.has_region("scratch"@) {
            "scratch"@
        } else {
            match lookup(r.tool_overrides, tool) {
                Some(region) => region,
                None => r.default_region,
            }
        },
        None => "conversation"@,
    }
}

/// The sensitivity that a tool's output is tagged with: the tool's own where
/// taint is tracked, and public otherwise.
pub open spec fn sensitivity_of(
    sensitivities: Option<NameTable<TaintLevel>>,
    tool: Seq<char>,
) -> TaintLevel {
    match sensitivities {
        Some(table) => match lookup(table@, tool) {
            Some(level) => level,
            None => TaintLevel::Public,
        },
        None => TaintLevel::Public,
    }
}

/// What stands for a tool result that its region has no room for: as much of it
/// as fits the room, or a word that it was left out.
pub open spec fn shortened(text: Seq<char>, room: nat) -> Seq<char> {
    if room > 100 {
        let kept = prefix(text, ((room - 10) * 4) as nat);
        kept + "... [truncated, "@ + decimal((byte_count(text) - byte_count(kept)) as nat)
            + " chars omitted]"@
    } else {
        "[tool result truncated — context window full]"@
    }
}

/// The entry of a tool result.
pub open spec fn result_entry(
    id: Seq<char>,
    tool: Seq<char>,
    content: Seq<char>,
    tokens: nat,
    taint: TaintLevel,
) -> EntryView {
    EntryView {
        kind: EntryKindView::ToolResult { tool_call_id: id, tool_name: tool, is_error: false },
        content,
        tokens,
        taint,
    }
}

/// The window after one tool result is put into a region: whole where it fits,
/// else shortened, else as a placeholder.
pub open spec fn placed(
    w: WindowView,
    region: Seq<char>,
    id: Seq<char>,
    tool: Seq<char>,
    text: Seq<char>,
    taint: TaintLevel,
) -> WindowView {
    match w.adding(region, result_entry(id, tool, text, tokens_of(text) + 1, taint)) {
        Ok(after) => after,
        Err(_) => {
            let short = shortened(text, w.room_in(region));
            match w.adding(region, result_entry(id, tool, short, tokens_of(short) + 1, taint)) {
                Ok(after) => after,
                Err(_) => w.offered(region, result_entry(id, tool, "[result omitted]"@, 5, taint)),
            }
        },
    }
}

/// The window after one tool result has been routed.
pub open spec fn with_tool_result(
    w: WindowView,
    routing: Option<RoutingView>,
    sensitivities: Option<NameTable<TaintLevel>>,
    calls: Seq<ToolCallView>,
    id: Seq<char>,
    result: Seq<char>,
) -> WindowView {
    let tool = tool_name_of(calls, id);
    placed(
        w,
        routed(routing, w, tool),
        id,
        tool,
        limited(routing, result),
        sensitivity_of(sensitivities, tool),
    )
}

/// A tool result as it is kept under a routing.
fn limit_result(routing: &Option<ToolResultRouting>, text: &str) -> (out: String)
    ensures
        out@ == limited(opt_view(*routing), text@),
{
    if let Some(r) = routing {
        if let Some(most) = r.max_result_tokens {
            let max_chars: u128 = most as u128 * 4;
            if byte_len(text) as u128 > max_chars {
                let mut kept = truncate_on_char_boundary(text, max_chars as usize);
                kept.append("\n[...truncated]");
                return kept;
            }
        }
    }
    text.to_owned()
}

/// The region that a tool's results go to.
fn route_result(routing: &Option<ToolResultRouting>, window: &ContextWindow, tool: &str) -> (region:
    String)
    ensures
        region@ == routed(opt_view(*routing), window@, tool@),
{
    match routing {
        Some(r) => {
            if !r.persist && window.region_index("scratch").is_some() {
                return "scratch".to_owned();
            }
            proof {
                lemma_modelled_lookup(r.tool_overrides@, tool@);
            }
            match r.tool_overrides.get(tool) {
                Some(region) => region.clone(),
                None => r.default_region.clone(),
            }
        },
        None => "conversation".to_owned(),
    }
}

/// The sensitivity that a tool's output is tagged with.
fn tag_level(sensitivities: &Option<NameTable<TaintLevel>>, tool: &str) -> (level: TaintLevel)
    ensures
        level == sensitivity_of(*sensitivities, tool@),
{
    match sensitivities {
        Some(table) => match table.get(tool) {
            Some(level) => *level,
            None => TaintLevel::Public,
        },
        None => TaintLevel::Public,
    }
}

/// What stands for a tool result that its region has no room for.
fn shorten_result(text: &str, room: usize) -> (out: String)
    ensures
        out@ == shortened(text@, room as nat),
{
    if room > 100 {
        let wide: u128 = (room - 10) as u128 * 4;
        let char_budget: usize = if wide > usize::MAX as u128 {
            usize::MAX
        } else {
            wide as usize
        };
        let total: usize = text.unicode_len();
        let kept = truncate_on_char_boundary(text, char_budget);
        proof {
            assert(total == text@.len());
            assert(kept@ == prefix(text@, ((room - 10) * 4) as nat));
            assert(text@.take(text@.len() as int) =~= text@);
            lemma_prefix_bytes(text@, kept@.len() as int, text@.len() as int);
        }
        let omitted: usize = byte_len(text) - byte_len(kept.as_str());
        let mut out = kept;
        out.append("... [truncated, ");
        out.append(decimal_text(omitted as u64).as_str());
        out.append(" chars omitted]");
        out
    } else {
        "[tool result truncated — context window full]".to_owned()
    }
}

/// Puts one tool result into a region. It always leaves something for the call,
/// as long as the region has room for the placeholder: a call without a result
/// would be an orphan.
fn place_result(
    window: &mut ContextWindow,
    region: &str,
    id: &str,
    tool: &str,
    text: &str,
    taint: TaintLevel,
)
    ensures
        final(window)@ == placed(old(window)@, region@, id@, tool@, text@, taint),
{
    let tokens: usize = message_tokens(text);
    let kind = EntryKind::ToolResult {
        tool_call_id: id.to_owned(),
        tool_name: tool.to_owned(),
        is_error: false,
    };
    if window.add_typed_tainted_to_region(region, kind, text.to_owned(), tokens, taint).is_ok() {
        return ;
    }
    let room: usize = match window.get_region(region) {
        Some(r) => r.max_tokens.saturating_sub(r.current_tokens),
        None => 0,
    };
    let short = shorten_result(text, room);
    let short_tokens: usize = message_tokens(short.as_str());
    let kind = EntryKind::ToolResult {
        tool_call_id: id.to_owned(),
        tool_name: tool.to_owned(),
        is_error: false,
    };
    if window.add_typed_tainted_to_region(region, kind, short, short_tokens, taint).is_ok() {
        return ;
    }
    let kind = EntryKind::ToolResult {
        tool_call_id: id.to_owned(),
        tool_name: tool.to_owned(),
        is_error: false,
    };
    let _ = window.add_typed_tainted_to_region(
        region,
        kind,
        "[result omitted]".to_owned(),
        5,
        taint,
    );
}

/// The window after all tool results have been routed, one after the other.
pub open spec fn with_tool_results(
    w: WindowView,
    routing: Option<RoutingView>,
    sensitivities: Option<NameTable<TaintLevel>>,
    calls: Seq<ToolCallView>,
    results: Seq<(String, String)>,
) -> WindowView
    decreases results.len(),
{
    if results.len() == 0 {
        w
    } else {
        with_tool_result(
            with_tool_results(w, routing, sensitivities, calls, results.drop_last()),
            routing,
            sensitivities,
            calls,
            results.last().0@,
            results.last().1@,
        )
    }
}

/// The window after several messages of the user's, one after the other.
pub open spec fn with_user_messages(w: WindowView, messages: Seq<String>) -> WindowView
    decreases messages.len(),
{
    if messages.len() == 0 {
        w
    } else {
        with_user_message(with_user_messages(w, messages.drop_last()), messages.last()@)
    }
}

/// The window with a turn of the assistant's at the end of the conversation.
pub open spec fn with_assistant_turn(
    w: WindowView,
    content: Seq<char>,
    calls: Seq<ToolCallView>,
    tokens: nat,
) -> WindowView {
    w.offered(
        "conversation"@,
        public_entry(EntryKindView::AssistantTurn { tool_calls: calls }, content, tokens),
    )
}

/// The window after a response with tool calls: the assistant's turn, a result
/// for each call that was answered, and the nudges.
pub open spec fn after_tools(
    w: WindowView,
    routing: Option<RoutingView>,
    sensitivities: Option<NameTable<TaintLevel>>,
    content: Seq<char>,
    calls: Seq<ToolCallView>,
    results: Seq<(String, String)>,
    nudges: Seq<String>,
) -> WindowView {
    with_user_messages(
        with_tool_results(
            with_assistant_turn(w, content, calls, tokens_of(content)),
            routing,
            sensitivities,
            calls,
            results,
        ),
        nudges,
    )
}

/// Puts a message of the user's at the end of the conversation.
pub fn add_user_message(window: &mut ContextWindow, text: &str)
    ensures
        final(window)@ == with_user_message(old(window)@, text@),
{
    let tokens: usize = message_tokens(text);
    let _ = window.add_typed_entry(
        "conversation",
        EntryKind::UserMessage,
        text.to_owned(),
        tokens,
    );
}

/// Appends the assistant's turn and all tool results to the window, with routing,
/// truncation and taint tags, and then the nudges that the calls gave rise to.
pub fn apply_tool_results(
    window: &mut ContextWindow,
    routing: &Option<ToolResultRouting>,
    sensitivities: &Option<NameTable<TaintLevel>>,
    content: &str,
    calls: &Vec<ToolCall>,
    results: &Vec<(String, String)>,
    nudges: &Vec<String>,
)
    ensures
        final(window)@ == after_tools(
            old(window)@,
            opt_view(*routing),
            *sensitivities,
            content@,
            call_views(calls@),
            results@,
            nudges@,
        ),
{
    let ghost w0 = window@;
    let ghost views = call_views(calls@);
    let turn = EntryKind::AssistantTurn { tool_calls: copy_calls(calls) };
    let _ = window.add_typed_entry(
        "conversation",
        turn,
        content.to_owned(),
        estimate_tokens(content),
    );
    let ghost w1 = window@;
    proof {
        assert(w1 == with_assistant_turn(w0, content@, views, tokens_of(content@)));
        assert(results@.take(0) =~= Seq::empty());
        assert(nudges@.take(0) =~= Seq::empty());
    }
    let mut i: usize = 0;
    while i < results.len()
        invariant
            i <= results.len(),
            views == call_views(calls@),
            window@ == with_tool_results(
                w1,
                opt_view(*routing),
                *sensitivities,
                views,
                results@.take(i as int),
            ),
        decreases results.len() - i,
    {
        proof {
            assert(results@.take(i + 1).drop_last() =~= results@.take(i as int));
        }
        let id = results[i].0.as_str();
        let tool = find_tool_name(calls, id);
        let text = limit_result(routing, results[i].1.as_str());
        let region = route_result(routing, window, tool.as_str());
        let taint = tag_level(sensitivities, tool.as_str());
        place_result(window, region.as_str(), id, tool.as_str(), text.as_str(), taint);
        i = i + 1;
    }
    let ghost w2 = window@;
    proof {
        assert(results@.take(i as int) =~= results@);
    }
    let mut k: usize = 0;
    while k < nudges.len()
        invariant
            k <= nudges.len(),
            window@ == with_user_messages(w2, nudges@.take(k as int)),
        decreases nudges.len() - k,
    {
        proof {
            assert(nudges@.take(k + 1).drop_last() =~= nudges@.take(k as int));
        }
        add_user_message(window, nudges[k].as_str());
        k = k + 1;
    }
    proof {
        assert(nudges@.take(k as int) =~= nudges@);
    }
}

/// The first agent, at or after `from`, that has this id and an inbox.
pub open spec fn addressee(world: Seq<Option<AgentView>>, id: Seq<char>, from: int) -> Option<int>
    decreases world.len() - from,
{
    if from < 0 || from >= world.len() {
        None
    } else {
        match world[from] {
            Some(agent) => if agent.state.agent_id == id && agent.inbox is Some {
                Some(from)
            } else {
                addressee(world, id, from + 1)
            },
            None => addressee(world, id, from + 1),
        }
    }
}

/// The world after a message is put into its addressee's inbox. A message to
/// nobody is dropped.
pub open spec fn routed_message(world: Seq<Option<AgentView>>, msg: AgentMessage) -> Seq<
    Option<AgentView>,
> {
    match addressee(world, msg.agent_id@, 0) {
        Some(i) => {
            let agent = world[i]->0;
            world.update(i, Some(AgentView { inbox: Some(agent.inbox->0.push(msg)), ..agent }))
        },
        None => world,
    }
}

/// The world after several messages are put into inboxes, one after the other.
pub open spec fn routed_messages(world: Seq<Option<AgentView>>, messages: Seq<AgentMessage>) -> Seq<
    Option<AgentView>,
>
    decreases messages.len(),
{
    if messages.len() == 0 {
        world
    } else {
        routed_message(routed_messages(world, messages.drop_last()), messages.last())
    }
}

/// The window after a message is delivered into the region it is meant for.
pub open spec fn with_message(w: WindowView, msg: AgentMessage) -> WindowView {
    w.offered(
        match msg.target_region {
            Some(region) => region@,
            None => "conversation"@,
        },
        public_entry(EntryKindView::UserMessage, msg.content@, tokens_of(msg.content@) + 1),
    )
}

/// The window after several messages are delivered, one after the other.
pub open spec fn with_messages(w: WindowView, messages: Seq<AgentMessage>) -> WindowView
    decreases messages.len(),
{
    if messages.len() == 0 {
        w
    } else {
        with_message(with_messages(w, messages.drop_last()), messages.last())
    }
}

/// The agent after its inbox is delivered. An agent whose stage takes no messages
/// keeps them; for one without a window they are lost.
pub open spec fn delivered(agent: AgentView) -> AgentView {
    match agent.inbox {
        Some(messages) => if agent.state.accepts_messages {
            AgentView {
                inbox: Some(Seq::empty()),
                window: match agent.window {
                    Some(w) => Some(with_messages(w, messages)),
                    None => None,
                },
                ..agent
            }
        } else {
            agent
        },
        None => agent,
    }
}

/// The world after every inbox is delivered.
pub open spec fn all_delivered(world: Seq<Option<AgentView>>) -> Seq<Option<AgentView>> {
    Seq::new(
        world.len(),
        |i: int|
            match world[i] {
                Some(agent) => Some(delivered(agent)),
                None => None,
            },
    )
}

/// Delivers messages into a window.
fn deliver_messages(window: &mut ContextWindow, messages: &Vec<AgentMessage>)
    ensures
        final(window)@ == with_messages(old(window)@, messages@),
{
    let ghost w0 = window@;
    let mut i: usize = 0;
    proof {
        assert(messages@.take(0) =~= Seq::empty());
    }
    while i < messages.len()
        invariant
            i <= messages.len(),
            window@ == with_messages(w0, messages@.take(i as int)),
        decreases messages.len() - i,
    {
        proof {
            assert(messages@.take(i + 1).drop_last() =~= messages@.take(i as int));
        }
        let msg = &messages[i];
        let region = match &msg.target_region {
            Some(region) => region.as_str(),
            None => "conversation",
        };
        let tokens: usize = message_tokens(msg.content.as_str());
        let _ = window.add_typed_entry(
            region,
            EntryKind::UserMessage,
            msg.content.clone(),
            tokens,
        );
        i = i + 1;
    }
    proof {
        assert(messages@.take(i as int) =~= messages@);
    }
}

/// Delivers an agent's inbox.
fn deliver_inbox(agent: &mut Agent)
    ensures
        final(agent)@ == delivered(old(agent)@),
{
    if !agent.state.accepts_messages {
        return ;
    }
    match agent.inbox.take() {
        Some(messages) => {
            if let Some(window) = &mut agent.window {
                deliver_messages(window, &messages);
            }
            agent.inbox = Some(Vec::new());
            proof {
                assert(agent@ =~= delivered(old(agent)@));
            }
        },
        None => {},
    }
}

/// Delivers the messages in the agents' inboxes into their windows.
pub fn deliver_inbox_messages(world: &mut World)
    ensures
        final(world)@ == all_delivered(old(world)@),
{
    let ghost before = world@;
    let mut i: usize = 0;
    while i < world.agents.len()
        invariant
            i <= world.agents@.len(),
            world@.len() == before.len(),
            forall|j: int|
                0 <= j < before.len() ==> (#[trigger] world@[j]) == (if j < i {
                    all_delivered(before)[j]
                } else {
                    before[j]
                }),
        decreases world.agents.len() - i,
    {
        let ghost step = world@;
        if let Some(agent) = &mut world.agents[i] {
            deliver_inbox(agent);
        }
        proof {
            assert(step[i as int] == before[i as int]);
            assert(world@ =~= step.update(i as int, all_delivered(before)[i as int]));
        }
        i = i + 1;
    }
    proof {
        assert(world@ =~= all_delivered(before));
    }
}

/// The first agent that has this id and an inbox.
fn find_addressee(world: &World, id: &str) -> (found: Option<usize>)
    ensures
        found is Some <==> addressee(world@, id@, 0) is Some,
        found is Some ==> addressee(world@, id@, 0) == Some(found->0 as int) && found->0
            < world@.len() && world@[found->0 as int] is Some && world@[found->0 as int]->0.inbox
            is Some,
{
    let mut i: usize = 0;
    while i < world.agents.len()
        invariant
            i <= world.agents@.len(),
            addressee(world@, id@, 0) == addressee(world@, id@, i as int),
        decreases world.agents.len() - i,
    {
        if let Some(agent) = &world.agents[i] {
            if same_text(agent.state.agent_id.as_str(), id) && agent.inbox.is_some() {
                return Some(i);
            }
        }
        i = i + 1;
    }
    None
}

/// Puts a message into its addressee's inbox, and says whether there was one.
fn route_message(world: &mut World, msg: AgentMessage) -> (found: bool)
    ensures
        final(world)@ == routed_message(old(world)@, msg),
        found == addressee(old(world)@, msg.agent_id@, 0) is Some,
{
    match find_addressee(world, msg.agent_id.as_str()) {
        Some(i) => {
            if let Some(agent) = &mut world.agents[i] {
                if let Some(inbox) = &mut agent.inbox {
                    inbox.push(msg);
                }
            }
            proof {
                assert(world@ =~= routed_message(old(world)@, msg));
            }
            true
        },
        None => false,
    }
}

/// Puts pending messages into inboxes and delivers what can be delivered.
pub fn process_messages(world: &mut World, messages: Vec<AgentMessage>)
    ensures
        final(world)@ == all_delivered(routed_messages(old(world)@, messages@)),
{
    let ghost before = world@;
    proof {
        assert(messages@.take(0) =~= Seq::empty());
    }
    for msg in it: messages
        invariant
            it.seq() == messages@,
            world@ == routed_messages(before, messages@.take(it.index() as int)),
    {
        proof {
            let n = it.index() as int;
            assert(messages@.take(n + 1).drop_last() =~= messages@.take(n));
        }
        let _ = route_message(world, msg);
    }
    proof {
        assert(messages@.take(messages@.len() as int) =~= messages@);
    }
    deliver_inbox_messages(world);
}

/// The world after the inbox of the agent at a place is emptied.
pub open spec fn inbox_emptied(world: Seq<Option<AgentView>>, e: Entity) -> Seq<Option<AgentView>> {
    match agent_at(world, e) {
        Some(agent) => if agent.inbox is Some {
            world.update(e as int, Some(AgentView { inbox: Some(Seq::empty()), ..agent }))
        } else {
            world
        },
        None => world,
    }
}

/// The messages in the inbox of the agent at a place.
pub open spec fn inbox_of(world: Seq<Option<AgentView>>, e: Entity) -> Seq<AgentMessage> {
    match agent_at(world, e) {
        Some(agent) => match agent.inbox {
            Some(messages) => messages,
            None => Seq::empty(),
        },
        None => Seq::empty(),
    }
}

/// Takes in pending messages and then discards what an agent's stage never took,
/// so that it does not pile up across stages. Hands back what was discarded.
pub fn drain_pending_messages(world: &mut World, e: Entity, messages: Vec<AgentMessage>) -> (dropped:
    Vec<AgentMessage>)
    ensures
        ({
            let processed = all_delivered(routed_messages(old(world)@, messages@));
            &&& final(world)@ == inbox_emptied(processed, e)
            &&& dropped@ == inbox_of(processed, e)
        }),
{
    process_messages(world, messages);
    let ghost processed = world@;
    let mut dropped: Vec<AgentMessage> = Vec::new();
    if e < world.agents.len() {
        if let Some(agent) = &mut world.agents[e] {
            if let Some(pending) = agent.inbox.take() {
                agent.inbox = Some(Vec::new());
                dropped = pending;
            }
        }
    }
    proof {
        assert(world@ =~= inbox_emptied(processed, e));
    }
    dropped
}

/// The first agent, at or after `from`, that has this id and can be cancelled.
pub open spec fn cancellable(world: Seq<Option<AgentView>>, id: Seq<char>, from: int) -> Option<int>
    decreases world.len() - from,
{
    if from < 0 || from >= world.len() {
        None
    } else {
        match world[from] {
            Some(agent) => if agent.state.agent_id == id && agent.cancel_token is Some {
                Some(from)
            } else {
                cancellable(world, id, from + 1)
            },
            None => cancellable(world, id, from + 1),
        }
    }
}

/// The agent, cancelled.
pub open spec fn cancelled_agent(agent: AgentView) -> AgentView {
    AgentView {
        cancel_token: Some(true),
        ..crate::world::agent_with_status(agent, StatusView::Cancelled)
    }
}

/// Cancels a running agent: its token is set and its status says so.
pub fn cancel_agent(world: &mut World, agent_id: &str) -> (done: Result<(), String>)
    ensures
        match cancellable(old(world)@, agent_id@, 0) {
            Some(i) => done is Ok && final(world)@ == old(world)@.update(
                i,
                Some(cancelled_agent(old(world)@[i]->0)),
            ),
            None => done is Err && done->Err_0@ == "Agent '"@ + agent_id@ + "' not found"@
                && final(world)@ == old(world)@,
        },
{
    let ghost before = world@;
    let mut i: usize = 0;
    let mut found: Option<usize> = None;
    while i < world.agents.len() && found.is_none()
        invariant
            i <= world.agents@.len(),
            world@ == before,
            found is None ==> cancellable(before, agent_id@, 0) == cancellable(
                before,
                agent_id@,
                i as int,
            ),
            found is Some ==> cancellable(before, agent_id@, 0) == Some(found->0 as int)
                && found->0 < before.len() && before[found->0 as int] is Some,
        decreases world.agents.len() - i,
    {
        if let Some(agent) = &world.agents[i] {
            if same_text(agent.state.agent_id.as_str(), agent_id) && agent.cancel_token.is_some() {
                found = Some(i);
            }
        }
        i = i + 1;
    }
    match found {
        Some(at) => {
            if let Some(agent) = &mut world.agents[at] {
                agent.cancel_token = Some(true);
                agent.state.status = AgentStatus::Cancelled;
            }
            proof {
                assert(world@ =~= before.update(
                    at as int,
                    Some(cancelled_agent(before[at as int]->0)),
                ));
            }
            Ok(())
        },
        None => {
            let mut message = "Agent '".to_owned();
            message.append(agent_id);
            message.append("' not found");
            Err(message)
        },
    }
}

/// Whether the agent at a place has been told to stop.
pub open spec fn told_to_stop(world: Seq<Option<AgentView>>, e: Entity) -> bool {
    match agent_at(world, e) {
        Some(agent) => agent.cancel_token == Some(true),
        None => false,
    }
}

/// Whether an agent's loop should stop because it has been cancelled; if so, its
/// status says so.
pub fn loop_check_cancelled(world: &mut World, e: Entity) -> (stop: bool)
    ensures
        stop == told_to_stop(old(world)@, e),
        final(world)@ == if stop {
            crate::world::with_status(old(world)@, e, StatusView::Cancelled)
        } else {
            old(world)@
        },
{
    let stop = match world.get(e) {
        Some(agent) => match agent.cancel_token {
            Some(set) => set,
            None => false,
        },
        None => false,
    };
    if stop {
        world.set_status(e, AgentStatus::Cancelled);
    }
    stop
}

/// The agent after an inference response has been stored on it.
pub open spec fn with_response(
    agent: AgentView,
    response: InferenceResponseView,
    now: i64,
) -> AgentView {
    AgentView {
        inference: Some(
            InferenceResultView {
                response: response.content,
                tool_calls: response.tool_calls,
                tokens_used: response.tokens_used.total_tokens as nat,
                timestamp: now,
            },
        ),
        state: crate::components::AgentStateView {
            iteration: agent.state.iteration + 1,
            ..agent.state
        },
        ..agent
    }
}

/// Stores an inference response on an agent and counts the iteration.
pub fn apply_inference_response(
    world: &mut World,
    e: Entity,
    response: &InferenceResponse,
    now: i64,
)
    requires
        agent_at(old(world)@, e) is Some,
        agent_at(old(world)@, e)->0.state.iteration < usize::MAX,
    ensures
        final(world)@ == old(world)@.update(
            e as int,
            Some(with_response(agent_at(old(world)@, e)->0, response@, now)),
        ),
{
    let calls = copy_calls(&response.tool_calls);
    if let Some(agent) = &mut world.agents[e] {
        agent.inference = Some(
            InferenceResult {
                response: response.content.clone(),
                tool_calls: calls,
                tokens_used: response.tokens_used.total_tokens,
                timestamp: now,
            },
        );
        agent.state.iteration = agent.state.iteration + 1;
    }
    proof {
        assert(world@ =~= old(world)@.update(
            e as int,
            Some(with_response(agent_at(old(world)@, e)->0, response@, now)),
        ));
    }
}

/// How often a model that only talks is told to use its tools.
pub const MAX_TEXT_ONLY_NUDGES: usize = 3;

/// What follows from a response without tool calls.
#[derive(Clone, Copy, Debug, PartialEq, Eq, Structural)]
pub enum EmptyToolCallsOutcome {
    /// The agent is done: it did real work earlier, or the nudges are used up.
    Finish,
    /// The agent was told to use its tools, and the loop goes on.
    Nudged,
}

/// Whether a response without tool calls ends the loop.
pub open spec fn text_ends_loop(total_tool_calls: nat, text_only_nudges: nat) -> bool {
    total_tool_calls > 0 || text_only_nudges >= MAX_TEXT_ONLY_NUDGES
}

/// The window after a response without tool calls and the nudge it earns.
pub open spec fn nudged(w: WindowView, content: Seq<char>) -> WindowView {
    with_user_message(
        with_assistant_turn(w, content, Seq::empty(), tokens_of(content) + 1),
        "You have tools available. Please use them to complete the task. Start by reading the relevant files in the working directory."@,
    )
}

/// Handles a response that carried no tool calls: either the loop is done, or the
/// text goes into the conversation with a nudge behind it.
pub fn loop_handle_empty_tool_calls(
    window: &mut ContextWindow,
    content: &str,
    total_tool_calls: usize,
    text_only_nudges: &mut usize,
) -> (outcome: EmptyToolCallsOutcome)
    ensures
        text_ends_loop(total_tool_calls as nat, *old(text_only_nudges) as nat) ==> outcome
            == EmptyToolCallsOutcome::Finish && *final(text_only_nudges) == *old(text_only_nudges)
            && final(window)@ == old(window)@,
        !text_ends_loop(total_tool_calls as nat, *old(text_only_nudges) as nat) ==> outcome
            == EmptyToolCallsOutcome::Nudged && *final(text_only_nudges) == *old(text_only_nudges)
            + 1 && final(window)@ == nudged(old(window)@, content@),
{
    if total_tool_calls > 0 || *text_only_nudges >= MAX_TEXT_ONLY_NUDGES {
        return EmptyToolCallsOutcome::Finish;
    }
    *text_only_nudges = *text_only_nudges + 1;
    let turn = EntryKind::AssistantTurn { tool_calls: Vec::new() };
    proof {
        assert(turn@->tool_calls =~= Seq::empty());
    }
    let tokens: usize = message_tokens(content);
    let _ = window.add_typed_entry("conversation", turn, content.to_owned(), tokens);
    add_user_message(
        window,
        "You have tools available. Please use them to complete the task. Start by reading the relevant files in the working directory.",
    );
    EmptyToolCallsOutcome::Nudged
}

/// When repeated tool calls are pointed out to the model.
#[derive(Clone, Copy, Debug, PartialEq, Eq, Structural)]
pub struct RepetitionConfig {
    pub enabled: bool,
    /// How often the same call may be made.
    pub max_repeat_calls: usize,
    /// How many reading calls may follow one another.
    pub max_readonly_streak: usize,
}

/// What a watch for repetition is told of some tool calls: of each its name and its
/// arguments as JSON text.
pub open spec fn watched(calls: Seq<ToolCallView>) -> Seq<(Seq<char>, Seq<char>)> {
    Seq::new(calls.len(), |i: int| (calls[i].name, written_json(calls[i].arguments)))
}

/// What a watch for repetition is told of the tool calls of a response, in their order.
pub fn watched_calls(calls: &Vec<ToolCall>) -> (told: Vec<(String, String)>)
    ensures
        told@.len() == calls@.len(),
        forall|i: int|
            0 <= i < told@.len() ==> (#[trigger] told@[i]).0@ == watched(call_views(calls@))[i].0
                && told@[i].1@ == watched(call_views(calls@))[i].1,
{
    let mut told: Vec<(String, String)> = Vec::new();
    let mut i: usize = 0;
    while i < calls.len()
        invariant
            i <= calls@.len(),
            told@.len() == i,
            forall|k: int|
                0 <= k < i ==> (#[trigger] told@[k]).0@ == watched(call_views(calls@))[k].0
                    && told@[k].1@ == watched(call_views(calls@))[k].1,
        decreases calls.len() - i,
    {
        told.push((calls[i].name.clone(), json_text(&calls[i].arguments)));
        i = i + 1;
    }
    told
}

/// The repetition settings of a loop, what is not set being on at its usual limits.
pub fn repetition_config(
    enabled: Option<bool>,
    max_repeat_calls: Option<usize>,
    max_readonly_streak: Option<usize>,
) -> (config: RepetitionConfig)
    ensures
        config == (RepetitionConfig {
            enabled: enabled != Some(false),
            max_repeat_calls: match max_repeat_calls {
                Some(n) => n,
                None => 3,
            },
            max_readonly_streak: match max_readonly_streak {
                Some(n) => n,
                None => 10,
            },
        }),
{
    RepetitionConfig {
        enabled: match enabled {
            Some(b) => b,
            None => true,
        },
        max_repeat_calls: match max_repeat_calls {
            Some(n) => n,
            None => 3,
        },
        max_readonly_streak: match max_readonly_streak {
            Some(n) => n,
            None => 10,
        },
    }
}

/// How an inference loop stands between two calls to the outside.
pub struct InferenceLoop {
    pub max_iterations: usize,
    /// How many iterations are over.
    pub iteration: usize,
    pub total_tool_calls: usize,
    pub text_only_nudges: usize,
    /// What all responses so far have used.
    pub cumulative: TokenUsage,
    pub last_response: Option<InferenceResponse>,
    /// The response whose tool calls are being run.
    pub pending: Option<InferenceResponse>,
}

/// The model of an [`InferenceLoop`].
pub struct LoopView {
    pub max_iterations: nat,
    pub iteration: nat,
    pub total_tool_calls: nat,
    pub text_only_nudges: nat,
    pub cumulative: TokenUsage,
    pub last_response: Option<InferenceResponseView>,
    pub pending: Option<InferenceResponseView>,
}

impl View for InferenceLoop {
    type V = LoopView;

    open spec fn view(&self) -> LoopView {
        LoopView {
            max_iterations: self.max_iterations as nat,
            iteration: self.iteration as nat,
            total_tool_calls: self.total_tool_calls as nat,
            text_only_nudges: self.text_only_nudges as nat,
            cumulative: self.cumulative,
            last_response: opt_view(self.last_response),
            pending: opt_view(self.pending),
        }
    }
}

impl LoopView {
    /// What every loop keeps: it is never past its last iteration, while it waits
    /// for tools it is not past it either, and the nudges stay within their limit.
    pub open spec fn wf(self) -> bool {
        &&& self.iteration <= self.max_iterations
        &&& self.pending is Some ==> self.iteration < self.max_iterations
        &&& self.text_only_nudges <= MAX_TEXT_ONLY_NUDGES
    }

    /// The loop after a response that ends it, or that has to wait for its tools,
    /// or that only earned a nudge.
    pub open spec fn received(self, response: InferenceResponseView) -> LoopView {
        let counted = LoopView {
            cumulative: usage_sum(self.cumulative, response.tokens_used),
            ..self
        };
        if response.tool_calls.len() > 0 {
            LoopView {
                total_tool_calls: self.total_tool_calls + response.tool_calls.len(),
                pending: Some(response),
                ..counted
            }
        } else if text_ends_loop(self.total_tool_calls, self.text_only_nudges) {
            counted
        } else {
            LoopView {
                text_only_nudges: self.text_only_nudges + 1,
                iteration: self.iteration + 1,
                last_response: Some(response),
                ..counted
            }
        }
    }

    /// The loop after the tools of its pending response have been run.
    pub open spec fn tools_run(self) -> LoopView {
        LoopView {
            iteration: self.iteration + 1,
            last_response: self.pending,
            pending: None,
            ..self
        }
    }

    /// What a loop that stops early, or is out of iterations, gives back: its last
    /// response with everything that was used, or the given reason.
    pub open spec fn given_up(self, reason: Seq<char>) -> Result<
        InferenceResponseView,
        Seq<char>,
    > {
        match self.last_response {
            Some(r) => Ok(InferenceResponseView { tokens_used: self.cumulative, ..r }),
            None => Err(reason),
        }
    }
}

/// What an inference loop does next.
pub enum LoopStep {
    /// Ask the model.
    Infer,
    /// Return this.
    Return { outcome: Result<InferenceResponse, String> },
}

/// What an inference loop does with a response.
pub enum ResponseStep {
    /// Return this response.
    Finished { response: InferenceResponse },
    /// Start the next iteration.
    Nudged,
    /// Run the tool calls of the pending response.
    RunTools,
}

/// Whether an exec outcome is the modelled one.
pub open spec fn loop_outcome(
    got: Result<InferenceResponse, String>,
    want: Result<InferenceResponseView, Seq<char>>,
) -> bool {
    match (got, want) {
        (Ok(response), Ok(view)) => response@ == view,
        (Err(e), Err(text)) => e@ == text,
        _ => false,
    }
}

impl InferenceLoop {
    /// A loop that has not started.
    pub fn new(max_iterations: usize) -> (out: InferenceLoop)
        ensures
            out@.wf(),
            out@ == (LoopView {
                max_iterations: max_iterations as nat,
                iteration: 0,
                total_tool_calls: 0,
                text_only_nudges: 0,
                cumulative: no_usage(),
                last_response: None,
                pending: None,
            }),
    {
        InferenceLoop {
            max_iterations,
            iteration: 0,
            total_tool_calls: 0,
            text_only_nudges: 0,
            cumulative: TokenUsage {
                prompt_tokens: 0,
                completion_tokens: 0,
                total_tokens: 0,
                cached_tokens: 0,
                cache_write_tokens: 0,
            },
            last_response: None,
            pending: None,
        }
    }

    /// Gives back the last response with everything that was used, or the reason.
    fn give_up(&mut self, reason: &str) -> (outcome: Result<InferenceResponse, String>)
        ensures
            loop_outcome(outcome, old(self)@.given_up(reason@)),
            final(self)@ == (LoopView { last_response: None, ..old(self)@ }),
    {
        match self.last_response.take() {
            Some(r) => Ok(
                InferenceResponse {
                    content: r.content,
                    tool_calls: r.tool_calls,
                    tokens_used: self.cumulative,
                    finish_reason: r.finish_reason,
                },
            ),
            None => Err(reason.to_owned()),
        }
    }

    /// Starts an iteration: ask the model, unless the agent has been cancelled or
    /// the iterations are used up.
    pub fn begin(&mut self, cancelled: bool) -> (step: LoopStep)
        requires
            old(self)@.wf(),
        ensures
            final(self)@.wf(),
            final(self)@ == (if old(self)@.iteration >= old(self)@.max_iterations || cancelled {
                LoopView { last_response: None, ..old(self)@ }
            } else {
                old(self)@
            }),
            ({
                let s = old(self)@;
                if s.iteration >= s.max_iterations {
                    step is Return && loop_outcome(
                        step->outcome,
                        s.given_up("No response generated"@),
                    )
                } else if cancelled {
                    step is Return && loop_outcome(
                        step->outcome,
                        s.given_up("Agent cancelled before producing a response"@),
                    )
                } else {
                    step is Infer
                }
            }),
    {
        if self.iteration >= self.max_iterations {
            return LoopStep::Return { outcome: self.give_up("No response generated") };
        }
        if cancelled {
            return LoopStep::Return {
                outcome: self.give_up("Agent cancelled before producing a response"),
            };
        }
        LoopStep::Infer
    }

    /// Takes in a response: it counts what was used, and then either ends the
    /// loop, earns a nudge, or has its tools run.
    pub fn on_response(&mut self, response: InferenceResponse, window: &mut ContextWindow) -> (step:
        ResponseStep)
        requires
            old(self)@.wf(),
            old(self)@.iteration < old(self)@.max_iterations,
            old(self)@.pending is None,
            usage_fits(old(self)@.cumulative, response.tokens_used),
            old(self)@.total_tool_calls + response.tool_calls@.len() <= usize::MAX,
        ensures
            final(self)@.wf(),
            final(self)@ == old(self)@.received(response@),
            ({
                let s = old(self)@;
                if response@.tool_calls.len() > 0 {
                    step is RunTools && final(window)@ == old(window)@
                } else if text_ends_loop(s.total_tool_calls, s.text_only_nudges) {
                    step is Finished && final(window)@ == old(window)@ && step->response@ == (
                    InferenceResponseView {
                        tokens_used: usage_sum(s.cumulative, response.tokens_used),
                        ..response@
                    })
                } else {
                    step is Nudged && final(window)@ == nudged(old(window)@, response@.content)
                }
            }),
    {
        accumulate_tokens(&mut self.cumulative, &response.tokens_used);
        proof {
            assert(response@.tool_calls.len() == response.tool_calls@.len());
        }
        if response.tool_calls.len() == 0 {
            let mut nudges: usize = self.text_only_nudges;
            let outcome = loop_handle_empty_tool_calls(
                window,
                response.content.as_str(),
                self.total_tool_calls,
                &mut nudges,
            );
            self.text_only_nudges = nudges;
            match outcome {
                EmptyToolCallsOutcome::Finish => ResponseStep::Finished {
                    response: InferenceResponse {
                        content: response.content,
                        tool_calls: response.tool_calls,
                        tokens_used: self.cumulative,
                        finish_reason: response.finish_reason,
                    },
                },
                EmptyToolCallsOutcome::Nudged => {
                    self.last_response = Some(response);
                    self.iteration = self.iteration + 1;
                    ResponseStep::Nudged
                },
            }
        } else {
            self.total_tool_calls = self.total_tool_calls + response.tool_calls.len();
            self.pending = Some(response);
            ResponseStep::RunTools
        }
    }

    /// Ends an iteration whose tools have been run.
    pub fn on_tools_run(&mut self)
        requires
            old(self)@.wf(),
            old(self)@.pending is Some,
        ensures
            final(self)@.wf(),
            final(self)@ == old(self)@.tools_run(),
    {
        self.last_response = self.pending.take();
        self.iteration = self.iteration + 1;
    }
}

/// The usage of nothing at all.
pub open spec fn no_usage() -> TokenUsage {
    TokenUsage {
        prompt_tokens: 0,
        completion_tokens: 0,
        total_tokens: 0,
        cached_tokens: 0,
        cache_write_tokens: 0,
    }
}

/// A tool that a model may call.
pub struct Tool {
    pub name: String,
    pub description: String,
    pub parameters: crate::json::Json,
}

/// The tools that a filter lets through: all of them without a filter or with an
/// empty one, else those it names, in their order.
pub open spec fn filtered(tools: Seq<Tool>, filter: Option<Vec<String>>) -> Seq<Tool> {
    match filter {
        None => tools,
        Some(listed) => if listed@.len() == 0 {
            tools
        } else {
            listed_tools(tools, texts(listed@))
        },
    }
}

/// The tools whose names are listed, in their order.
pub open spec fn listed_tools(tools: Seq<Tool>, listed: Seq<Seq<char>>) -> Seq<Tool>
    decreases tools.len(),
{
    if tools.len() == 0 {
        Seq::empty()
    } else {
        let before = listed_tools(tools.drop_last(), listed);
        if listed.contains(tools.last().name@) {
            before.push(tools.last())
        } else {
            before
        }
    }
}

/// The tools that a filter lets through.
pub fn filter_tools(tools: Vec<Tool>, filter: &Option<Vec<String>>) -> (out: Vec<Tool>)
    ensures
        out@ == filtered(tools@, *filter),
{
    match filter {
        None => tools,
        Some(listed) => {
            if listed.len() == 0 {
                return tools;
            }
            let mut out: Vec<Tool> = Vec::new();
            proof {
                assert(tools@.take(0) =~= Seq::empty());
            }
            for tool in it: tools
                invariant
                    it.seq() == tools@,
                    out@ == listed_tools(tools@.take(it.index() as int), texts(listed@)),
            {
                proof {
                    let n = it.index() as int;
                    assert(tools@.take(n + 1).drop_last() =~= tools@.take(n));
                }
                if names(listed, tool.name.as_str()) {
                    out.push(tool);
                }
            }
            proof {
                assert(tools@.take(tools@.len() as int) =~= tools@);
            }
            out
        },
    }
}

/// What an inference request is made from, besides the assembled context.
pub struct RequestPlan {
    pub max_tokens: usize,
    pub tools: Vec<Tool>,
}

/// How long a response may be: what is left of the window, and never more than
/// the stage's own limit or, without one, the model's.
pub open spec fn response_budget(
    w: WindowView,
    stage_limit: Option<usize>,
    model_limit: usize,
) -> nat {
    let limit = match stage_limit {
        Some(n) => n as nat,
        None => model_limit as nat,
    };
    let left = if w.current_tokens <= w.max_tokens {
        (w.max_tokens - w.current_tokens) as nat
    } else {
        0
    };
    if left <= limit {
        left
    } else {
        limit
    }
}

/// Plans an inference request for an agent. Fails where the provider is not
/// registered or the agent has no window.
pub fn build_inference_request<P>(
    registry: &ProviderRegistry<P>,
    window: &Option<ContextWindow>,
    provider_name: &str,
    stage_limit: Option<usize>,
    model_limit: usize,
    tools: Vec<Tool>,
    tool_filter: &Option<Vec<String>>,
) -> (out: Result<RequestPlan, String>)
    ensures
        match out {
            Ok(plan) => {
                &&& lookup(registry.providers@, provider_name@) is Some
                &&& *window is Some
                &&& plan.max_tokens == response_budget(window->0@, stage_limit, model_limit)
                &&& plan.tools@ == filtered(tools@, *tool_filter)
            },
            Err(e) => if lookup(registry.providers@, provider_name@) is None {
                e@ == "Provider '"@ + provider_name@ + "' not registered"@
            } else {
                *window is None && e@ == "Entity has no ContextWindow"@
            },
        },
{
    if !registry.has(provider_name) {
        let mut message = "Provider '".to_owned();
        message.append(provider_name);
        message.append("' not registered");
        return Err(message);
    }
    match window {
        None => Err("Entity has no ContextWindow".to_owned()),
        Some(w) => {
            let left: usize = w.max_tokens.saturating_sub(w.current_tokens);
            let limit: usize = match stage_limit {
                Some(n) => n,
                None => model_limit,
            };
            let max_tokens: usize = if left <= limit {
                left
            } else {
                limit
            };
            Ok(RequestPlan { max_tokens, tools: filter_tools(tools, tool_filter) })
        },
    }
}

/// The level of sensitivity that a call was blocked at and the one its channel is
/// cleared for.
#[derive(Clone, Copy, Debug, PartialEq, Eq, Structural)]
pub enum GateDecision {
    Allowed,
    Blocked { taint: TaintLevel, clearance: TaintLevel },
}

impl GateDecision {
    /// The levels of a block.
    pub fn blocked_levels(&self) -> (levels: Option<(TaintLevel, TaintLevel)>)
        ensures
            levels == match *self {
                GateDecision::Blocked { taint, clearance } => Some((taint, clearance)),
                GateDecision::Allowed => None,
            },
    {
        match self {
            GateDecision::Blocked { taint, clearance } => Some((*taint, *clearance)),
            GateDecision::Allowed => None,
        }
    }
}

/// A tool call with what the taint gate made of it.
pub struct GatedCall {
    pub call: ToolCall,
    pub decision: GateDecision,
    /// The blocked result that the resolution of a block left, if any.
    pub refusal: Option<(String, String)>,
}

impl GatedCall {
    /// Whether the call is run: it was not blocked, or its resolution left no
    /// blocked result to stand for it.
    pub open spec fn let_through(self) -> bool {
        !(self.decision is Blocked && self.refusal is Some)
    }
}

/// The calls of a batch that are run, in order.
pub open spec fn executed(batch: Seq<GatedCall>) -> Seq<ToolCall>
    decreases batch.len(),
{
    if batch.len() == 0 {
        Seq::empty()
    } else if batch.last().let_through() {
        executed(batch.drop_last()).push(batch.last().call)
    } else {
        executed(batch.drop_last())
    }
}

/// The blocked results of a batch, in order.
pub open spec fn refused(batch: Seq<GatedCall>) -> Seq<(String, String)>
    decreases batch.len(),
{
    if batch.len() == 0 {
        Seq::empty()
    } else if batch.last().let_through() {
        refused(batch.drop_last())
    } else {
        refused(batch.drop_last()).push(batch.last().refusal->0)
    }
}

/// All calls of a batch, in order.
pub open spec fn all_calls(batch: Seq<GatedCall>) -> Seq<ToolCall> {
    Seq::new(batch.len(), |i: int| batch[i].call)
}

/// Partitions a batch of tool calls that went through the taint gate into the
/// calls to run and the results that stand for refused ones. Without an active taint
/// gate every call is run.
pub fn taint_gate_partition(active: bool, batch: Vec<GatedCall>) -> (out: (
    Vec<ToolCall>,
    Vec<(String, String)>,
))
    ensures
        active ==> out.0@ == executed(batch@) && out.1@ == refused(batch@),
        !active ==> out.0@ == all_calls(batch@) && out.1@.len() == 0,
{
    let mut to_execute: Vec<ToolCall> = Vec::new();
    let mut denied: Vec<(String, String)> = Vec::new();
    if !active {
        for gated in it: batch
            invariant
                it.seq() == batch@,
                to_execute@ == all_calls(batch@).take(it.index() as int),
        {
            proof {
                let n = it.index() as int;
                assert(all_calls(batch@).take(n + 1) =~= all_calls(batch@).take(n).push(
                    batch@[n].call,
                ));
            }
            to_execute.push(gated.call);
        }
        proof {
            assert(all_calls(batch@).take(batch@.len() as int) =~= all_calls(batch@));
        }
        return (to_execute, denied);
    }
    proof {
        assert(batch@.take(0) =~= Seq::empty());
    }
    for gated in it: batch
        invariant
            it.seq() == batch@,
            to_execute@ == executed(batch@.take(it.index() as int)),
            denied@ == refused(batch@.take(it.index() as int)),
    {
        proof {
            let n = it.index() as int;
            assert(batch@.take(n + 1).drop_last() =~= batch@.take(n));
        }
        match gated.decision.blocked_levels() {
            None => {
                to_execute.push(gated.call);
            },
            Some(_) => match gated.refusal {
                Some(blocked) => {
                    denied.push(blocked);
                },
                None => {
                    to_execute.push(gated.call);
                },
            },
        }
    }
    proof {
        assert(batch@.take(batch@.len() as int) =~= batch@);
    }
    (to_execute, denied)
}

/// Every call of a batch is either run or answered with a blocked result, and no
/// call is both.
pub proof fn law_partition_keeps_every_call(batch: Seq<GatedCall>)
    ensures
        executed(batch).len() + refused(batch).len() == batch.len(),
        forall|i: int|
            0 <= i < batch.len() ==> if (#[trigger] batch[i]).let_through() {
                executed(batch).contains(batch[i].call)
            } else {
                refused(batch).contains(batch[i].refusal->0)
            },
    decreases batch.len(),
{
    if batch.len() > 0 {
        let front = batch.drop_last();
        law_partition_keeps_every_call(front);
        assert forall|i: int| 0 <= i < batch.len() implies if (#[trigger] batch[i]).let_through() {
            executed(batch).contains(batch[i].call)
        } else {
            refused(batch).contains(batch[i].refusal->0)
        } by {
            if i < front.len() {
                assert(front[i] == batch[i]);
                if batch[i].let_through() {
                    let k = choose|k: int|
                        0 <= k < executed(front).len() && executed(front)[k] == batch[i].call;
                    assert(executed(batch)[k] == batch[i].call);
                } else {
                    let k = choose|k: int|
                        0 <= k < refused(front).len() && refused(front)[k] == batch[i].refusal->0;
                    assert(refused(batch)[k] == batch[i].refusal->0);
                }
            } else if batch[i].let_through() {
                assert(executed(batch).last() == batch[i].call);
            } else {
                assert(refused(batch).last() == batch[i].refusal->0);
            }
        }
    }
}

/// Without a block nothing is refused, and the calls run in the order in which
/// they came.
pub proof fn law_unblocked_batch_runs_whole(batch: Seq<GatedCall>)
    requires
        forall|i: int| 0 <= i < batch.len() ==> (#[trigger] batch[i]).decision is Allowed,
    ensures
        refused(batch) == Seq::<(String, String)>::empty(),
        executed(batch) == all_calls(batch),
    decreases batch.len(),
{
    if batch.len() > 0 {
        let front = batch.drop_last();
        assert forall|i: int| 0 <= i < front.len() implies (#[trigger] front[i]).decision
            is Allowed by {
            assert(front[i] == batch[i]);
        }
        law_unblocked_batch_runs_whole(front);
    }
    assert(executed(batch) =~= all_calls(batch));
}

/// The agent after a response with tool calls has been worked into its window.
pub open spec fn agent_after_tools(
    agent: AgentView,
    sensitivities: Option<NameTable<TaintLevel>>,
    response: InferenceResponseView,
    results: Seq<(String, String)>,
    nudges: Seq<String>,
) -> AgentView {
    AgentView {
        window: Some(
            after_tools(
                agent.window->0,
                agent.routing,
                sensitivities,
                response.content,
                response.tool_calls,
                results,
                nudges,
            ),
        ),
        ..agent
    }
}

/// Works a response with tool calls into an agent's window and then takes in the
/// messages that arrived meanwhile. `nudges` is what the repetition detector said
/// of the calls, in their order.
pub fn loop_apply_tool_results(
    world: &mut World,
    e: Entity,
    response: &InferenceResponse,
    results: &Vec<(String, String)>,
    sensitivities: &Option<NameTable<TaintLevel>>,
    nudges: &Vec<String>,
    messages: Vec<AgentMessage>,
)
    requires
        agent_at(old(world)@, e) is Some,
        agent_at(old(world)@, e)->0.window is Some,
    ensures
        final(world)@ == all_delivered(
            routed_messages(
                old(world)@.update(
                    e as int,
                    Some(
                        agent_after_tools(
                            agent_at(old(world)@, e)->0,
                            *sensitivities,
                            response@,
                            results@,
                            nudges@,
                        ),
                    ),
                ),
                messages@,
            ),
        ),
{
    if let Some(agent) = &mut world.agents[e] {
        if let Some(window) = &mut agent.window {
            apply_tool_results(
                window,
                &agent.routing,
                sensitivities,
                response.content.as_str(),
                &response.tool_calls,
                results,
                nudges,
            );
        }
    }
    proof {
        assert(world@ =~= old(world)@.update(
            e as int,
            Some(
                agent_after_tools(
                    agent_at(old(world)@, e)->0,
                    *sensitivities,
                    response@,
                    results@,
                    nudges@,
                ),
            ),
        ));
    }
    process_messages(world, messages);
}

/// How many tokens an eviction should free: a tenth of the window, where one is
/// needed at all.
pub fn eviction_target(window: &Option<ContextWindow>, needs_eviction: bool) -> (target: Result<
    Option<usize>,
    String,
>)
    ensures
        match target {
            Ok(free) => *window is Some && free == (if needs_eviction {
                Some((window->0.max_tokens / 10) as usize)
            } else {
                None
            }),
            Err(e) => *window is None && e@ == "No ContextWindow"@,
        },
{
    match window {
        None => Err("No ContextWindow".to_owned()),
        Some(w) => if needs_eviction {
            Ok(Some(w.max_tokens / 10))
        } else {
            Ok(None)
        },
    }
}

/// The text of a region that is to be compacted: its entries with blank lines
/// between them.
pub open spec fn region_text(w: WindowView, region: Seq<char>) -> Seq<char> {
    joined(contents(w.regions[region_at(w.regions, region)->0].content), "\n\n"@)
}

/// The content of a region that is to be compacted; none where the region is
/// empty. Fails where the provider is not registered, the agent has no window or
/// the window no such region.
pub fn region_to_compact<P>(
    registry: &ProviderRegistry<P>,
    config: &CompactionConfig,
    window: &Option<ContextWindow>,
    region_name: &str,
) -> (content: Result<Option<String>, String>)
    ensures
        ({
            let known = lookup(registry.providers@, config.provider@) is Some;
            match content {
                Ok(text) => {
                    &&& known
                    &&& *window is Some
                    &&& window->0@.has_region(region_name@)
                    &&& match text {
                        Some(t) => t@ == region_text(window->0@, region_name@) && t@.len() > 0,
                        None => region_text(window->0@, region_name@).len() == 0,
                    }
                },
                Err(e) => if !known {
                    e@ == "Compaction provider '"@ + config.provider@ + "' not registered"@
                } else if *window is None {
                    e@ == "Entity has no ContextWindow"@
                } else {
                    !window->0@.has_region(region_name@) && e@ == "Region '"@ + region_name@
                        + "' not found"@
                },
            }
        }),
{
    if !registry.has(config.provider.as_str()) {
        let mut message = "Compaction provider '".to_owned();
        message.append(config.provider.as_str());
        message.append("' not registered");
        return Err(message);
    }
    match window {
        None => Err("Entity has no ContextWindow".to_owned()),
        Some(w) => match w.get_region(region_name) {
            None => {
                let mut message = "Region '".to_owned();
                message.append(region_name);
                message.append("' not found");
                Err(message)
            },
            Some(region) => {
                let text = join_entries(region, "\n\n");
                if text.as_str().is_empty() {
                    Ok(None)
                } else {
                    Ok(Some(text))
                }
            },
        },
    }
}

/// The first region that holds the history of another.
pub open spec fn history_at(regions: Seq<RegionView>, region: Seq<char>, from: int) -> Option<int>
    decreases regions.len() - from,
{
    if from < 0 || from >= regions.len() {
        None
    } else if regions[from].kind is CompactHistory && regions[from].kind->source_region@
        == region {
        Some(from)
    } else {
        history_at(regions, region, from + 1)
    }
}

/// The window after a region has been compacted: the summary stands in the
/// region's history, where it has one, and the region is empty.
pub open spec fn region_compacted(w: WindowView, region: Seq<char>, summary: Seq<char>) -> WindowView {
    let kept = match history_at(w.regions, region, 0) {
        Some(h) => w.offered(
            w.regions[h].name,
            public_entry(EntryKindView::Text, summary, tokens_of(summary)),
        ),
        None => w,
    };
    let at = region_at(kept.regions, region)->0;
    WindowView {
        regions: kept.regions.update(at, kept.regions[at].cleared()),
        ..kept
    }.recounted()
}

/// Adding an entry leaves every region under the name it had.
pub proof fn lemma_offered_names(w: WindowView, name: Seq<char>, entry: EntryView)
    ensures
        w.offered(name, entry).regions.len() == w.regions.len(),
        forall|i: int|
            0 <= i < w.regions.len() ==> (#[trigger] w.offered(name, entry).regions[i]).name
                == w.regions[i].name,
{
    crate::context::lemma_region_at(w.regions, name);
}

/// Regions under the same names are found at the same places.
pub proof fn lemma_same_names(a: Seq<RegionView>, b: Seq<RegionView>, name: Seq<char>)
    requires
        a.len() == b.len(),
        forall|i: int| 0 <= i < a.len() ==> (#[trigger] a[i]).name == b[i].name,
    ensures
        region_at(a, name) == region_at(b, name),
    decreases a.len(),
{
    if a.len() > 0 {
        assert forall|i: int| 0 <= i < a.len() - 1 implies (#[trigger] a.drop_last()[i]).name
            == b.drop_last()[i].name by {
            assert(a[i].name == b[i].name);
        }
        lemma_same_names(a.drop_last(), b.drop_last(), name);
        assert(a[a.len() - 1].name == b[a.len() - 1].name);
    }
}

/// Stores the summary of a region in its history and clears the region.
pub fn compact_region(window: &mut ContextWindow, region_name: &str, summary: &str)
    requires
        old(window)@.has_region(region_name@),
    ensures
        final(window)@ == region_compacted(old(window)@, region_name@, summary@),
{
    let ghost before = window@;
    let mut history: Option<usize> = None;
    let mut i: usize = 0;
    while i < window.regions.len() && history.is_none()
        invariant
            i <= window@.regions.len(),
            window@ == before,
            history is None ==> history_at(before.regions, region_name@, 0) == history_at(
                before.regions,
                region_name@,
                i as int,
            ),
            history is Some ==> history_at(before.regions, region_name@, 0) == Some(
                history->0 as int,
            ) && history->0 < before.regions.len(),
        decreases window.regions.len() - i,
    {
        if let RegionKind::CompactHistory { source_region } = &window.regions[i].kind {
            if same_text(source_region.as_str(), region_name) {
                history = Some(i);
            }
        }
        i = i + 1;
    }
    if let Some(h) = history {
        let name = window.regions[h].name.clone();
        let tokens: usize = estimate_tokens(summary);
        let _ = window.add_to_region(name.as_str(), summary.to_owned(), tokens);
        proof {
            let entry = public_entry(EntryKindView::Text, summary@, tokens_of(summary@));
            lemma_offered_names(before, name@, entry);
            lemma_same_names(before.regions, window@.regions, region_name@);
        }
    }
    if let Some(at) = window.region_index(region_name) {
        window.clear_at(at);
        window.recount();
    }
}

} // verus!
