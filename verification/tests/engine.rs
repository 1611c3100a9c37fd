use leviath_runtime::components::{
    AgentMessage, AgentState, AgentStatus, CompactionConfig, InferenceResponse, TokenUsage,
    ToolCall, ToolResultRouting,
};
use leviath_runtime::context::{
    ContextWindow, Entry, EntryKind, Region, RegionKind, TaintLevel, WindowError,
};
use leviath_runtime::engine::drive::{LoopAction, LoopEvent};
use leviath_runtime::engine::{
    accumulate_tokens, apply_tool_results, deliver_inbox_messages, eviction_target, filter_tools,
    region_to_compact, repetition_config, taint_gate_partition,
    truncate_on_char_boundary, watched_calls, AgentEngine, GateDecision, GatedCall, InferenceLoop,
    LoopStep, ProviderRegistry, ResponseStep, Tool, MAX_TEXT_ONLY_NUDGES,
};
use leviath_runtime::json::{parse_json, Json, JSON_DEPTH};
use leviath_runtime::table::NameTable;
use leviath_runtime::world::{Agent, World};

type Engine = AgentEngine<&'static str>;

fn state(agent_id: &str, stage: &str) -> AgentState {
    AgentState {
        agent_id: agent_id.to_string(),
        current_stage: stage.to_string(),
        iteration: 0,
        status: AgentStatus::Active,
        spawned_children_ids: Vec::new(),
        accepts_messages: true,
    }
}

fn sliding(name: &str, max_items: usize, max_tokens: usize) -> Region {
    Region::new(name.to_string(), RegionKind::SlidingWindow { max_items }, max_tokens)
}

/// An agent with an empty inbox and a conversation.
fn agent(agent_id: &str, stage: &str, accepts_messages: bool) -> Agent {
    let mut agent = Agent::new(state(agent_id, stage));
    agent.state.accepts_messages = accepts_messages;
    agent.inbox = Some(Vec::new());
    let mut window = ContextWindow::new(10000);
    window.add_region(sliding("conversation", 50, 8000));
    agent.window = Some(window);
    agent
}

fn message(agent_id: &str, content: &str) -> AgentMessage {
    AgentMessage {
        agent_id: agent_id.to_string(),
        content: content.to_string(),
        target_region: None,
    }
}

fn get(engine: &Engine, e: usize) -> &Agent {
    engine.world().get(e).unwrap()
}

fn region<'a>(engine: &'a Engine, e: usize, name: &str) -> &'a Region {
    get(engine, e).window.as_ref().unwrap().get_region(name).unwrap()
}

fn one_provider(name: &str) -> ProviderRegistry<&'static str> {
    let mut registry = ProviderRegistry::new();
    registry.register(name.to_string(), "ollama");
    registry
}

fn usage(prompt: usize, completion: usize, total: usize) -> TokenUsage {
    TokenUsage {
        prompt_tokens: prompt,
        completion_tokens: completion,
        total_tokens: total,
        cached_tokens: 0,
        cache_write_tokens: 0,
    }
}

fn call(id: &str, name: &str) -> ToolCall {
    ToolCall {
        id: id.to_string(),
        name: name.to_string(),
        arguments: Json::Object(vec![]),
    }
}

fn tool_response(content: &str, calls: Vec<ToolCall>) -> InferenceResponse {
    InferenceResponse {
        content: content.to_string(),
        tool_calls: calls,
        tokens_used: usage(10, 5, 15),
        finish_reason: "tool_call".to_string(),
    }
}

fn text_response() -> InferenceResponse {
    InferenceResponse {
        content: "mock response".to_string(),
        tool_calls: vec![],
        tokens_used: usage(10, 5, 15),
        finish_reason: "stop".to_string(),
    }
}

fn is_result(entry: &Entry) -> bool {
    matches!(entry.kind, EntryKind::ToolResult { .. })
}

fn results(region: &Region) -> Vec<&Entry> {
    region.content.iter().filter(|e| is_result(e)).collect()
}

fn tool(name: &str) -> Tool {
    Tool {
        name: name.to_string(),
        description: String::new(),
        parameters: Json::Null,
    }
}

/// Drives a whole loop of an agent: each response in turn, and for each batch of
/// tool calls the results that `run` gives.
fn drive(
    engine: &mut Engine,
    e: usize,
    responses: Vec<InferenceResponse>,
    max_iterations: usize,
    run: impl Fn(&ToolCall) -> Option<(String, String)>,
) -> Result<InferenceResponse, String> {
    let mut run_state = InferenceLoop::new(max_iterations);
    let mut responses = responses.into_iter();
    loop {
        if let LoopStep::Return { outcome } = engine.begin_iteration(e, &mut run_state) {
            return outcome;
        }
        let response = match responses.next() {
            Some(response) => response,
            None => return Err("intentional test failure".to_string()),
        };
        match engine.take_response(e, &mut run_state, response, 7) {
            ResponseStep::Finished { response } => return Ok(response),
            ResponseStep::Nudged => {}
            ResponseStep::RunTools => {
                let calls = &run_state.pending.as_ref().unwrap().tool_calls;
                let results = calls.iter().filter_map(|c| run(c)).collect();
                let denied = vec![];
                engine.take_tool_results(e, &mut run_state, results, denied, &None, &vec![]);
            }
        }
    }
}

fn nothing(_call: &ToolCall) -> Option<(String, String)> {
    None
}

/// An engine with one agent, whose conversation holds a greeting.
fn engine_with_mock() -> (Engine, usize) {
    let mut engine = AgentEngine::with_providers(one_provider("mock"));
    let mut a = agent("test-mock", "main", true);
    a.cancel_token = Some(false);
    let _ = a.window.as_mut().unwrap().add_to_region("conversation", "User: hi".to_string(), 2);
    let e = engine.world_mut().spawn(a);
    (engine, e)
}

#[test]
fn test_engine_creation() {
    let engine = Engine::new();
    assert!(engine.world().agents.is_empty());
}

#[test]
fn test_truncate_on_char_boundary_never_panics_on_multibyte() {
    let text = "café — “quote” 🚀 ".repeat(64);
    assert!(
        text.len() > text.chars().count(),
        "must contain multi-byte chars"
    );

    for max_chars in 0..=text.chars().count() + 5 {
        let out = truncate_on_char_boundary(&text, max_chars);
        assert_eq!(out.chars().count(), max_chars.min(text.chars().count()));
        assert!(text.starts_with(&out));
    }
}

#[test]
fn test_truncation_call_sites_are_char_safe() {
    let result_text = "αβγδε— smart “quotes” 🚀".repeat(16);

    // A result over its routing's limit.
    let max_chars = 25; // lands inside a multi-byte character by bytes
    let mut a = truncate_on_char_boundary(&result_text, max_chars);
    a.push_str("\n[...truncated]");
    assert!(a.ends_with("[...truncated]"));

    // A result that its region has no room for.
    let char_budget = 37;
    let prefix = truncate_on_char_boundary(&result_text, char_budget);
    let omitted = result_text.len().saturating_sub(prefix.len());
    let b = format!("{}... [truncated, {} chars omitted]", prefix, omitted);
    assert!(b.contains("chars omitted"));
    assert!(result_text.starts_with(&prefix));
}

#[test]
fn test_engine_with_providers() {
    let engine = AgentEngine::with_providers(one_provider("ollama"));
    assert!(engine.providers().has("ollama"));
}

#[test]
fn test_provider_registry() {
    let mut registry: ProviderRegistry<&str> = ProviderRegistry::new();
    assert!(!registry.has("anthropic"));

    registry.register("anthropic".to_string(), "test-key");
    assert!(registry.has("anthropic"));
    assert!(registry.get("anthropic").is_some());
    assert_eq!(registry.provider_names().len(), 1);
}

#[test]
fn a_provider_replaces_one_of_its_name() {
    let mut registry = one_provider("a");
    registry.register("b".to_string(), "second");
    registry.register("a".to_string(), "third");
    assert_eq!(registry.provider_names(), ["a", "b"]);
    assert_eq!(registry.get("a"), Some(&"third"));
}

#[test]
fn test_message_sender() {
    let mut engine = Engine::new();
    engine.send_message(message("test-1", "hello"));
    assert_eq!(engine.pending.len(), 1);
}

#[test]
fn test_process_messages_no_agents() {
    let mut engine = Engine::new();
    engine.send_message(message("nonexistent", "hello"));
    // Nobody to deliver it to.
    engine.process_messages();
    assert!(engine.pending.is_empty());
}

#[test]
fn test_cancel_nonexistent_agent() {
    let mut engine = Engine::new();
    let result = engine.cancel_agent("nonexistent");
    assert!(result.is_err());
}

#[test]
fn test_deliver_inbox_messages_respects_accepts_messages_false() {
    let mut engine = Engine::new();
    let e = engine.world_mut().spawn(agent("test-agent", "report", false));

    engine.send_message(message("test-agent", "hello"));

    // It goes into the inbox and no further.
    engine.process_messages();

    assert_eq!(get(&engine, e).inbox.as_ref().unwrap().len(), 1);
    assert!(region(&engine, e, "conversation").content.is_empty());
}

#[test]
fn test_deliver_inbox_messages_delivers_when_accepts_messages_true() {
    let mut engine = Engine::new();
    let e = engine.world_mut().spawn(agent("test-agent", "analyze", true));

    engine.send_message(message("test-agent", "focus on error handling"));
    engine.process_messages();

    let conv = region(&engine, e, "conversation");
    assert_eq!(conv.content.len(), 1);
    assert!(matches!(conv.content[0].kind, EntryKind::UserMessage));
    assert!(conv.content[0].content.contains("focus on error handling"));

    // The inbox is drained.
    assert!(get(&engine, e).inbox.as_ref().unwrap().is_empty());
}

#[test]
fn test_provider_registry_default() {
    let registry: ProviderRegistry<&str> = ProviderRegistry::default();
    assert!(registry.provider_names().is_empty());
}

#[test]
fn test_provider_registry_has_returns_false_for_missing() {
    let registry: ProviderRegistry<&str> = ProviderRegistry::new();
    assert!(!registry.has("nonexistent"));
}

#[test]
fn test_provider_registry_get_returns_none_for_missing() {
    let registry: ProviderRegistry<&str> = ProviderRegistry::new();
    assert!(registry.get("nonexistent").is_none());
}

#[test]
fn test_provider_registry_multiple_providers() {
    let mut registry = ProviderRegistry::new();
    registry.register("a".to_string(), "ollama");
    registry.register("b".to_string(), "ollama");
    assert_eq!(registry.provider_names().len(), 2);
    assert!(registry.has("a"));
    assert!(registry.has("b"));
}

#[test]
fn test_engine_default() {
    let engine = Engine::default();
    assert!(engine.world().agents.is_empty());
}

#[test]
fn test_engine_providers_accessor() {
    let engine = AgentEngine::with_providers(one_provider("test"));
    assert!(engine.providers().has("test"));
}

#[test]
fn test_engine_providers_mut_accessor() {
    let mut engine = Engine::new();
    assert!(!engine.providers().has("test"));
    engine.providers_mut().register("test".to_string(), "ollama");
    assert!(engine.providers().has("test"));
}

#[test]
fn test_engine_get_provider() {
    let engine = AgentEngine::with_providers(one_provider("test"));
    assert!(engine.get_provider("test").is_some());
    assert!(engine.get_provider("nonexistent").is_none());
}

#[test]
fn test_cancel_agent_with_cancellation_token() {
    let mut engine = Engine::new();
    // Another agent comes first and has to be passed over.
    let mut other = Agent::new(state("not-me", "main"));
    other.cancel_token = Some(false);
    let other = engine.world_mut().spawn(other);
    let mut a = Agent::new(state("cancel-me", "main"));
    a.cancel_token = Some(false);
    let e = engine.world_mut().spawn(a);

    let result = engine.cancel_agent("cancel-me");
    assert!(result.is_ok());

    assert!(matches!(get(&engine, e).state.status, AgentStatus::Cancelled));
    assert_eq!(get(&engine, e).cancel_token, Some(true));
    assert!(matches!(get(&engine, other).state.status, AgentStatus::Active));
    assert_eq!(get(&engine, other).cancel_token, Some(false));
}

#[test]
fn test_send_message_to_existing_agent() {
    let mut engine = Engine::new();
    let e = engine.world_mut().spawn(agent("msg-agent", "main", true));

    engine.send_message(message("msg-agent", "message 1"));
    engine.send_message(message("msg-agent", "message 2"));
    engine.process_messages();

    assert_eq!(region(&engine, e, "conversation").content.len(), 2);
}

#[test]
fn test_message_with_target_region() {
    let mut engine = Engine::new();
    let mut a = agent("region-agent", "main", true);
    a.window.as_mut().unwrap().add_region(sliding("custom", 10, 2000));
    let e = engine.world_mut().spawn(a);

    let mut msg = message("region-agent", "custom message");
    msg.target_region = Some("custom".to_string());
    engine.send_message(msg);
    engine.process_messages();

    assert_eq!(region(&engine, e, "custom").content.len(), 1);
    // The conversation is left alone.
    assert!(region(&engine, e, "conversation").content.is_empty());
}

#[test]
fn process_messages_logs_warning_for_unknown_agent_id() {
    let mut engine = Engine::new();
    let mut known = Agent::new(state("known", "main"));
    known.inbox = Some(Vec::new());
    let e = engine.world_mut().spawn(known);

    engine.send_message(message("unknown", "hello"));
    engine.process_messages();
    assert!(get(&engine, e).inbox.as_ref().unwrap().is_empty());
}

#[test]
fn deliver_inbox_messages_skips_entity_without_context_window() {
    let mut world = World::new();
    let mut a = Agent::new(state("no-window", "main"));
    a.inbox = Some(vec![message("no-window", "orphan msg")]);
    let e = world.spawn(a);
    deliver_inbox_messages(&mut world);
    assert!(world.get(e).unwrap().inbox.as_ref().unwrap().is_empty());
}

#[test]
fn cancel_agent_for_unknown_id_returns_err() {
    let mut engine = Engine::new();
    let result = engine.cancel_agent("does-not-exist");
    assert!(result.is_err());
    assert!(result.unwrap_err().contains("not found"));
}

#[test]
fn add_to_region_returns_err_when_token_budget_exceeded() {
    let mut window = ContextWindow::new(10000);
    window.add_region(Region::new(
        "tiny".to_string(),
        RegionKind::Pinned,
        5, // only 5 tokens allowed
    ));
    let result = window.add_to_region("tiny", "content".to_string(), 100);
    assert!(result.is_err());
    assert!(matches!(result, Err(WindowError::TokenBudgetExceeded)));
    assert!(matches!(
        window.add_to_region("other", "content".to_string(), 1),
        Err(WindowError::UnknownRegion)
    ));
}

#[test]
fn enable_entity_taint_tracking_turns_on_region_taint() {
    let mut engine = Engine::new();
    let mut a = Agent::new(state("tainted", "main"));
    let mut window = ContextWindow::new(1000);
    window.add_region(Region::new("notes".to_string(), RegionKind::Pinned, 500));
    a.window = Some(window);
    let e = engine.world_mut().spawn(a);
    // No tracking yet.
    assert!(get(&engine, e).window.as_ref().unwrap().overall_taint().is_none());
    engine.enable_entity_taint_tracking(e);
    // On, with nothing tainted.
    assert_eq!(
        get(&engine, e).window.as_ref().unwrap().overall_taint(),
        Some(TaintLevel::Public)
    );
    engine.enable_entity_taint_tracking(e);
}

#[test]
fn enable_entity_taint_tracking_on_missing_entity_is_noop() {
    let mut engine = Engine::new();
    let gone = engine.world_mut().spawn(Agent::new(state("gone", "main")));
    engine.world_mut().despawn(gone);
    engine.enable_entity_taint_tracking(gone);
    assert!(engine.world().get(gone).is_none());
}

#[test]
fn drain_pending_messages_noop_when_entity_has_no_inbox() {
    let mut engine = Engine::new();
    let e = engine.world_mut().spawn(Agent::new(state("no-inbox", "main")));
    assert!(engine.drain_pending_messages(e).is_empty());
    assert!(get(&engine, e).inbox.is_none());
}

#[test]
fn drain_pending_messages_clears_inbox() {
    let (mut engine, e) = engine_with_mock();
    engine.send_message(message("test-mock", "hello"));
    engine.send_message(message("test-mock", "world"));

    // A stage that takes no messages leaves them in the inbox.
    engine.world_mut().agents[e].as_mut().unwrap().state.accepts_messages = false;

    let dropped = engine.drain_pending_messages(e);
    assert!(get(&engine, e).inbox.as_ref().unwrap().is_empty());
    let texts: Vec<&str> = dropped.iter().map(|m| m.content.as_str()).collect();
    assert_eq!(texts, ["hello", "world"]);
}

#[test]
fn drain_pending_messages_noop_when_empty() {
    let (mut engine, e) = engine_with_mock();
    assert!(engine.drain_pending_messages(e).is_empty());
    assert!(get(&engine, e).inbox.as_ref().unwrap().is_empty());
}

#[test]
fn test_run_inference_missing_provider() {
    let mut engine = Engine::new();
    let mut a = Agent::new(state("a", "main"));
    a.window = Some(ContextWindow::new(1000));
    let e = engine.world_mut().spawn(a);
    let result = engine.build_inference_request(e, "nonexistent", None, 100, vec![], &None);
    assert!(result.is_err());
    assert!(result.err().unwrap().contains("not registered"));
}

#[test]
fn test_run_inference_missing_context_window() {
    let mut engine = AgentEngine::with_providers(one_provider("test"));
    let e = engine.world_mut().spawn(Agent::new(state("a", "main")));
    let result = engine.build_inference_request(e, "test", None, 100, vec![], &None);
    assert!(result.is_err());
    assert!(result.err().unwrap().contains("ContextWindow"));
}

#[test]
fn a_response_may_be_as_long_as_the_window_and_the_limits_leave() {
    let (engine, e) = engine_with_mock();
    let budget = |stage: Option<usize>, model: usize| {
        engine
            .build_inference_request(e, "mock", stage, model, vec![], &None)
            .ok()
            .unwrap()
            .max_tokens
    };
    // 10000 less the greeting's 2.
    assert_eq!(budget(None, 20_000), 9_998);
    assert_eq!(budget(None, 500), 500);
    assert_eq!(budget(Some(300), 500), 300);
    assert_eq!(budget(Some(700), 500), 700);
}

#[test]
fn test_run_inference_filtered_with_matching_filter() {
    let names = |tools: Vec<Tool>| tools.into_iter().map(|t| t.name).collect::<Vec<_>>();
    let tools = || vec![tool("bash"), tool("read"), tool("write")];
    assert_eq!(
        names(filter_tools(tools(), &Some(vec!["write".to_string(), "bash".to_string()]))),
        ["bash", "write"]
    );
    assert_eq!(names(filter_tools(tools(), &None)).len(), 3);
    assert_eq!(names(filter_tools(tools(), &Some(vec![]))).len(), 3);
    assert!(names(filter_tools(tools(), &Some(vec!["rm".to_string()]))).is_empty());
}

#[test]
fn test_run_inference_loop_no_tool_calls() {
    let (mut engine, e) = engine_with_mock();
    // A model that only talks is told to use its tools, and then believed.
    let responses = (0..10).map(|_| text_response()).collect();
    let resp = drive(&mut engine, e, responses, 10, nothing).ok().unwrap();
    assert_eq!(resp.content, "mock response");
    assert_eq!(get(&engine, e).state.iteration, MAX_TEXT_ONLY_NUDGES + 1);
    assert_eq!(resp.tokens_used, usage(40, 20, 60));
}

#[test]
fn text_only_nudge_eventually_accepts_after_max_nudges() {
    let (mut engine, e) = engine_with_mock();
    let responses = (0..20).map(|_| text_response()).collect();
    assert!(drive(&mut engine, e, responses, 20, nothing).is_ok());
    let nudges = region(&engine, e, "conversation")
        .content
        .iter()
        .filter(|e| {
            matches!(e.kind, EntryKind::UserMessage) && e.content.contains("tools available")
        })
        .count();
    assert_eq!(nudges, 3);
}

#[test]
fn test_run_inference_loop_with_cancellation() {
    let (mut engine, e) = engine_with_mock();
    engine.world_mut().agents[e].as_mut().unwrap().cancel_token = Some(true);

    let result = drive(&mut engine, e, vec![text_response()], 10, nothing);
    assert!(result.is_err());
    assert!(result.err().unwrap().contains("cancelled"));
    assert!(matches!(get(&engine, e).state.status, AgentStatus::Cancelled));
}

#[test]
fn a_cancelled_loop_gives_back_its_last_response() {
    let mut states = InferenceLoop::new(5);
    let mut window = ContextWindow::new(100);
    assert!(matches!(states.begin(false), LoopStep::Infer));
    let step = states.on_response(tool_response("x", vec![call("1", "bash")]), &mut window);
    assert!(matches!(step, ResponseStep::RunTools));
    states.on_tools_run();
    match states.begin(true) {
        LoopStep::Return { outcome } => assert_eq!(outcome.ok().unwrap().content, "x"),
        LoopStep::Infer => panic!("the loop was cancelled"),
    }
}

#[test]
fn test_run_inference_loop_with_tool_calls_then_completion() {
    let (mut engine, e) = engine_with_mock();
    let responses = vec![
        tool_response("let me run a tool", vec![call("call_1", "bash")]),
        text_response(),
    ];
    let resp = drive(&mut engine, e, responses, 10, nothing).ok().unwrap();
    assert_eq!(resp.content, "mock response");
    // Everything that was used, over both inferences.
    assert_eq!(resp.tokens_used, usage(20, 10, 30));
    assert_eq!(get(&engine, e).state.iteration, 2);
    assert_eq!(get(&engine, e).inference.as_ref().unwrap().response, "mock response");
    assert_eq!(get(&engine, e).inference.as_ref().unwrap().timestamp, 7);
}

#[test]
fn test_run_inference_loop_max_iterations() {
    let (mut engine, e) = engine_with_mock();
    let responses = (0..3)
        .map(|_| tool_response("running tools", vec![call("call_1", "bash")]))
        .collect();
    let result = drive(&mut engine, e, responses, 3, |c| Some((c.id.clone(), "ok".to_string())));
    // The last response, with everything that was used.
    let resp = result.ok().unwrap();
    assert_eq!(resp.content, "running tools");
    assert_eq!(resp.tokens_used.total_tokens, 45);
    assert_eq!(results(region(&engine, e, "conversation")).len(), 3);
}

#[test]
fn run_inference_loop_with_zero_max_iterations_returns_err() {
    let (mut engine, e) = engine_with_mock();
    let result = drive(&mut engine, e, vec![text_response()], 0, nothing);
    assert!(result.is_err());
    assert!(result.err().unwrap().contains("No response"));
}

#[test]
fn messages_reach_an_agent_between_its_iterations() {
    let (mut engine, e) = engine_with_mock();
    let mut run = InferenceLoop::new(5);
    engine.send_message(message("test-mock", "before"));
    assert!(matches!(engine.begin_iteration(e, &mut run), LoopStep::Infer));
    let response = tool_response("x", vec![call("1", "bash"), call("2", "curl")]);
    assert!(matches!(
        engine.take_response(e, &mut run, response, 7),
        ResponseStep::RunTools
    ));
    engine.send_message(message("test-mock", "during"));
    engine.take_tool_results(
        e,
        &mut run,
        vec![("1".to_string(), "ran".to_string())],
        vec![("2".to_string(), "[blocked]".to_string())],
        &None,
        &vec!["again?".to_string()],
    );
    let texts: Vec<&str> = region(&engine, e, "conversation")
        .content
        .iter()
        .map(|entry| entry.content.as_str())
        .collect();
    assert_eq!(
        texts,
        ["User: hi", "before", "x", "ran", "[blocked]", "again?", "during"]
    );
    assert!(engine.pending.is_empty());
    assert_eq!(run.iteration, 1);
}

#[test]
fn usage_adds_up() {
    let mut sum = usage(1, 2, 3);
    let more = TokenUsage { cached_tokens: 4, cache_write_tokens: 5, ..usage(10, 20, 30) };
    accumulate_tokens(&mut sum, &more);
    assert_eq!(
        sum,
        TokenUsage { cached_tokens: 4, cache_write_tokens: 5, ..usage(11, 22, 33) }
    );
}

fn basic_window() -> ContextWindow {
    let mut window = ContextWindow::new(20000);
    window.add_region(sliding("conversation", 50, 6000));
    let _ = window.add_to_region("conversation", "User: hi".to_string(), 2);
    window
}

fn routing(default_region: &str, persist: bool, most: Option<usize>) -> Option<ToolResultRouting> {
    Some(ToolResultRouting {
        default_region: default_region.to_string(),
        tool_overrides: NameTable::new(),
        persist,
        max_result_tokens: most,
    })
}

/// The window after one call of `bash` and its result.
fn after_result(
    mut window: ContextWindow,
    routing: Option<ToolResultRouting>,
    result: &str,
) -> ContextWindow {
    apply_tool_results(
        &mut window,
        &routing,
        &None,
        "calling tool",
        &vec![call("call_1", "bash")],
        &vec![("call_1".to_string(), result.to_string())],
        &vec![],
    );
    window
}

#[test]
fn test_tool_result_routes_to_conversation_when_no_routing_component() {
    let window = after_result(basic_window(), None, "hello world");
    let conv = window.get_region("conversation").unwrap();
    assert_eq!(conv.content.len(), 3, "greeting, turn, result");
    assert!(matches!(&conv.content[1].kind, EntryKind::AssistantTurn { tool_calls } if tool_calls.len() == 1));
    let found = results(conv);
    assert_eq!(found.len(), 1, "tool result should be in conversation region");
    assert!(found[0].content.contains("hello world"));
    match &found[0].kind {
        EntryKind::ToolResult { tool_call_id, tool_name, is_error } => {
            assert_eq!((tool_call_id.as_str(), tool_name.as_str()), ("call_1", "bash"));
            assert!(!is_error);
        }
        _ => unreachable!(),
    }
    assert_eq!(found[0].tokens, 3); // 11 bytes / 4 + 1
}

#[test]
fn test_tool_result_routes_to_default_region_from_routing_component() {
    let mut window = basic_window();
    window.add_region(sliding("tool_output", 50, 4000));
    let window = after_result(window, routing("tool_output", true, None), "routed result");

    let found = results(window.get_region("tool_output").unwrap());
    assert_eq!(found.len(), 1, "tool result should be in tool_output region");
    assert!(found[0].content.contains("routed result"));
    assert_eq!(
        results(window.get_region("conversation").unwrap()).len(),
        0,
        "tool result should NOT be in conversation"
    );
}

#[test]
fn test_tool_result_per_tool_override_routes_to_different_region() {
    let mut window = basic_window();
    window.add_region(sliding("tool_output", 50, 4000));
    window.add_region(sliding("bash_output", 50, 4000));
    let mut routing = routing("tool_output", true, None);
    routing
        .as_mut()
        .unwrap()
        .tool_overrides
        .insert("bash".to_string(), "bash_output".to_string());
    apply_tool_results(
        &mut window,
        &routing,
        &None,
        "calling tools",
        &vec![call("call_bash", "bash"), call("call_read", "read_file")],
        &vec![
            ("call_bash".to_string(), "bash output".to_string()),
            ("call_read".to_string(), "file content".to_string()),
        ],
        &vec![],
    );

    let bash = results(window.get_region("bash_output").unwrap());
    assert_eq!(bash.len(), 1, "bash result should be in bash_output");
    assert!(bash[0].content.contains("bash output"));
    let read = results(window.get_region("tool_output").unwrap());
    assert_eq!(read.len(), 1, "read_file result should be in tool_output");
    assert!(read[0].content.contains("file content"));
}

#[test]
fn test_tool_result_max_result_tokens_truncation() {
    let long_result = "a]".repeat(20); // 40 characters, the limit is 20
    let window = after_result(basic_window(), routing("conversation", true, Some(5)), &long_result);
    let found = results(window.get_region("conversation").unwrap());
    assert_eq!(found.len(), 1);
    assert!(
        found[0].content.contains("[...truncated]"),
        "result should contain truncation marker, got: {}",
        found[0].content
    );
    assert!(
        found[0].content.len() < long_result.len(),
        "truncated result ({}) should be shorter than original ({})",
        found[0].content.len(),
        long_result.len()
    );
    assert_eq!(found[0].content, "a]a]a]a]a]a]a]a]a]a]\n[...truncated]");
}

#[test]
fn test_tool_result_truncation_multibyte_utf8_does_not_panic() {
    // Byte 20 of this lies inside a character.
    let long_result = "café—🚀 ".repeat(8);
    let window = after_result(basic_window(), routing("conversation", true, Some(5)), &long_result);
    let found = results(window.get_region("conversation").unwrap());
    assert_eq!(found.len(), 1);
    assert!(found[0].content.contains("[...truncated]"));
    assert!(found[0].content.len() < long_result.len());
}

#[test]
fn run_inference_loop_filtered_routing_with_short_result_no_truncation() {
    let window = after_result(basic_window(), routing("conversation", true, Some(5)), "short");
    assert_eq!(
        results(window.get_region("conversation").unwrap())[0].content,
        "short"
    );
}

#[test]
fn test_tool_result_persist_false_routes_to_scratch_when_available() {
    let mut window = basic_window();
    window.add_region(sliding("scratch", 50, 4000));
    let window = after_result(window, routing("conversation", false, None), "ephemeral data");
    let scratch = results(window.get_region("scratch").unwrap());
    assert_eq!(scratch.len(), 1, "tool result should be in scratch region");
    assert!(scratch[0].content.contains("ephemeral data"));
    assert_eq!(
        results(window.get_region("conversation").unwrap()).len(),
        0,
        "tool result should NOT be in conversation"
    );
}

#[test]
fn test_tool_result_persist_false_falls_back_when_no_scratch_region() {
    let mut window = basic_window();
    // A target region, and no scratch region.
    window.add_region(sliding("tool_output", 50, 4000));
    let window = after_result(window, routing("tool_output", false, None), "fallback data");
    let found = results(window.get_region("tool_output").unwrap());
    assert_eq!(found.len(), 1, "tool result should fall back to tool_output");
    assert!(found[0].content.contains("fallback data"));
    assert_eq!(results(window.get_region("conversation").unwrap()).len(), 0);
}

#[test]
fn tool_result_truncated_when_region_is_full() {
    let mut window = ContextWindow::new(500);
    window.add_region(sliding("conversation", 200, 200));
    let _ = window.add_to_region("conversation", "User: hi".to_string(), 2);
    let window = after_result(window, None, &"x".repeat(10_000));
    let found = results(window.get_region("conversation").unwrap());
    assert_eq!(found.len(), 1, "Truncated tool result should still be present");
    // 195 tokens of room: 185 * 4 characters are kept.
    assert_eq!(
        found[0].content,
        format!("{}... [truncated, 9260 chars omitted]", "x".repeat(740))
    );
}

#[test]
fn a_result_without_room_leaves_a_placeholder() {
    // Room for a word that it was left out.
    let mut window = ContextWindow::new(500);
    window.add_region(sliding("conversation", 200, 40));
    let window = after_result(window, None, &"x".repeat(10_000));
    assert_eq!(
        results(window.get_region("conversation").unwrap())[0].content,
        "[tool result truncated — context window full]"
    );
    // Room for less than that.
    let mut window = ContextWindow::new(500);
    window.add_region(sliding("conversation", 200, 9));
    let window = after_result(window, None, &"x".repeat(10_000));
    let found = results(window.get_region("conversation").unwrap());
    assert_eq!(found[0].content, "[result omitted]");
    assert_eq!(found[0].tokens, 5);
}

#[test]
fn taint_gate_tags_tool_results_with_sensitivity() {
    let mut window = basic_window();
    window.enable_taint_tracking();
    let mut levels = NameTable::new();
    levels.insert("read_file".to_string(), TaintLevel::Private);
    apply_tool_results(
        &mut window,
        &None,
        &Some(levels),
        "",
        &vec![call("1", "bash"), call("2", "read_file")],
        &vec![("1".to_string(), "a".to_string()), ("2".to_string(), "b".to_string())],
        &vec![],
    );
    let conv = window.get_region("conversation").unwrap();
    let levels: Vec<TaintLevel> = results(conv).iter().map(|e| e.taint).collect();
    assert_eq!(levels, [TaintLevel::Public, TaintLevel::Private]);
    assert_eq!(window.overall_taint(), Some(TaintLevel::Private));
}

#[test]
fn repetition_detector_injects_nudge_in_inference_loop() {
    let mut window = basic_window();
    apply_tool_results(
        &mut window,
        &None,
        &None,
        "reading",
        &vec![call("c3", "read_file")],
        &vec![("c3".to_string(), "file contents".to_string())],
        &vec!["You called read_file 3 times".to_string()],
    );
    let last = window.get_region("conversation").unwrap().content.last().unwrap();
    assert!(matches!(last.kind, EntryKind::UserMessage));
    assert_eq!(last.content, "You called read_file 3 times");
}

#[test]
fn repetition_is_watched_unless_it_is_turned_off() {
    let usual = repetition_config(None, None, None);
    assert!(usual.enabled);
    assert_eq!((usual.max_repeat_calls, usual.max_readonly_streak), (3, 10));
    let set = repetition_config(Some(false), Some(7), Some(8));
    assert!(!set.enabled);
    assert_eq!((set.max_repeat_calls, set.max_readonly_streak), (7, 8));
}

fn gated(id: &str, blocked: bool, refusal: Option<&str>) -> GatedCall {
    GatedCall {
        call: call(id, "shell"),
        decision: if blocked {
            GateDecision::Blocked { taint: TaintLevel::Private, clearance: TaintLevel::Public }
        } else {
            GateDecision::Allowed
        },
        refusal: refusal.map(|text| (id.to_string(), text.to_string())),
    }
}

#[test]
fn taint_gate_denies_blocked_outbound_call() {
    let (run, denied) = taint_gate_partition(true, vec![
        gated("a", false, None),
        gated("b", true, Some("[blocked] b")),
        gated("c", true, None),
    ]);
    let run: Vec<&str> = run.iter().map(|c| c.id.as_str()).collect();
    assert_eq!(run, ["a", "c"]);
    assert_eq!(denied, vec![("b".to_string(), "[blocked] b".to_string())]);
    assert_eq!(
        gated("b", true, None).decision.blocked_levels(),
        Some((TaintLevel::Private, TaintLevel::Public))
    );
    assert_eq!(gated("a", false, None).decision.blocked_levels(), None);
}

#[test]
fn taint_gate_disabled_executes_everything() {
    let (run, denied) = taint_gate_partition(
        false,
        vec![gated("a", true, Some("[blocked] a")), gated("b", false, None)],
    );
    let run: Vec<&str> = run.iter().map(|c| c.id.as_str()).collect();
    assert_eq!(run, ["a", "b"]);
    assert!(denied.is_empty());
}

#[test]
fn test_evict_and_compact_missing_context_window() {
    assert_eq!(eviction_target(&None, true), Err("No ContextWindow".to_string()));
}

#[test]
fn test_evict_and_compact_below_threshold() {
    let window = Some(ContextWindow::new(1000));
    assert_eq!(eviction_target(&window, false), Ok(None));
    assert_eq!(eviction_target(&window, true), Ok(Some(100)));
}

fn compaction(provider: &str) -> CompactionConfig {
    CompactionConfig {
        provider: provider.to_string(),
        model: "test".to_string(),
        max_summary_tokens: 200,
    }
}

fn history_window() -> ContextWindow {
    let mut window = ContextWindow::new(10000);
    window.add_region(Region::new(
        "impl".to_string(),
        RegionKind::Compacting { threshold_tokens: 100 },
        5000,
    ));
    let _ = window.add_to_region("impl", "detailed analysis here".to_string(), 500);
    window.add_region(Region::new(
        "impl_history".to_string(),
        RegionKind::CompactHistory { source_region: "impl".to_string() },
        5000,
    ));
    window
}

#[test]
fn test_compact_region_stores_summary_in_compact_history() {
    let mut engine = AgentEngine::with_providers(one_provider("compact-provider"));
    let mut a = Agent::new(state("a", "main"));
    a.window = Some(history_window());
    let e = engine.world_mut().spawn(a);
    let text = region_to_compact(
        engine.providers(),
        &compaction("compact-provider"),
        &get(&engine, e).window,
        "impl",
    );
    assert_eq!(text, Ok(Some("detailed analysis here".to_string())));

    engine.compact_region(e, "impl", "mock response");

    assert!(region(&engine, e, "impl").content.is_empty());
    let history = region(&engine, e, "impl_history");
    assert_eq!(history.content.len(), 1);
    assert_eq!(history.content[0].content, "mock response");
    assert_eq!(get(&engine, e).window.as_ref().unwrap().current_tokens, 3);
}

#[test]
fn test_compact_region_empty_content_is_noop() {
    let window = Some(history_window());
    let registry = one_provider("p");
    assert_eq!(
        region_to_compact(&registry, &compaction("p"), &window, "impl_history"),
        Ok(None)
    );
}

#[test]
fn test_compact_region_missing_provider() {
    let window = Some(history_window());
    assert_eq!(
        region_to_compact(&one_provider("p"), &compaction("q"), &window, "impl"),
        Err("Compaction provider 'q' not registered".to_string())
    );
}

#[test]
fn compact_region_returns_err_when_entity_has_no_context_window() {
    assert_eq!(
        region_to_compact(&one_provider("p"), &compaction("p"), &None, "impl"),
        Err("Entity has no ContextWindow".to_string())
    );
}

#[test]
fn test_compact_region_missing_region() {
    let window = Some(history_window());
    assert_eq!(
        region_to_compact(&one_provider("p"), &compaction("p"), &window, "nope"),
        Err("Region 'nope' not found".to_string())
    );
}

#[test]
fn a_loop_asks_no_more_often_than_it_may() {
    for answers_with_tools in [true, false] {
        let mut run = InferenceLoop::new(6);
        let mut window = basic_window();
        let mut asked = 0;
        loop {
            match run.begin(false) {
                LoopStep::Return { .. } => break,
                LoopStep::Infer => {}
            }
            asked += 1;
            let response = if answers_with_tools {
                tool_response("x", vec![call("1", "bash")])
            } else {
                text_response()
            };
            match run.on_response(response, &mut window) {
                ResponseStep::Finished { .. } => break,
                ResponseStep::Nudged => {}
                ResponseStep::RunTools => run.on_tools_run(),
            }
        }
        // Without tools, the loop ends after its nudges are used up.
        assert_eq!(asked, if answers_with_tools { 6 } else { 4 });
    }
}

#[test]
fn a_single_reply_joins_the_conversation() {
    let (mut engine, e) = engine_with_mock();
    let response = tool_response("let me look", vec![call("1", "bash")]);
    engine.take_reply(e, &response, 7);
    assert_eq!(get(&engine, e).state.iteration, 1);
    assert_eq!(get(&engine, e).inference.as_ref().unwrap().response, "let me look");
    let last = region(&engine, e, "conversation").content.last().unwrap();
    assert_eq!(last.content, "let me look");
    match &last.kind {
        EntryKind::AssistantTurn { tool_calls } => assert_eq!(tool_calls.len(), 1),
        _ => panic!("not a turn of the assistant's"),
    }
}

#[test]
fn repetition_is_watched_by_name_and_arguments() {
    let arguments = Json::Object(vec![
        ("b".to_string(), Json::Array(vec![Json::PosInt(1), Json::NegInt(-2), Json::Null])),
        ("c\"".to_string(), Json::Float("1.5".to_string())),
        ("d".to_string(), Json::Bool(true)),
    ]);
    let calls = vec![
        call("1", "curl"),
        ToolCall { id: "2".to_string(), name: "bash".to_string(), arguments },
    ];
    let told = watched_calls(&calls);
    assert_eq!(told[0].0, "curl");
    assert_eq!(
        told[1],
        ("bash".to_string(), "{\"b\":[1,-2,null],\"c\\\"\":1.5,\"d\":true}".to_string())
    );
}

#[test]
fn what_is_written_is_read_back() {
    let value = Json::Array(vec![
        Json::Object(vec![
            ("context".to_string(), Json::Object(vec![])),
            ("id".to_string(), Json::Text("a \"b\" \u{1}\n[".to_string())),
        ]),
        Json::PosInt(u64::MAX),
        Json::NegInt(i64::MIN),
        Json::Bool(false),
        Json::Null,
    ]);
    let calls = vec![ToolCall { id: "1".to_string(), name: "x".to_string(), arguments: value }];
    let text = watched_calls(&calls).remove(0).1;
    assert_eq!(format!("{:?}", parse_json(&text).unwrap()), format!("{:?}", calls[0].arguments));
}

#[test]
fn a_text_that_is_too_deep_is_not_read() {
    let nested = |n: usize| format!("{}{}", "[".repeat(n), "]".repeat(n));
    assert!(parse_json(&nested(JSON_DEPTH)).is_ok());
    assert!(parse_json(&nested(JSON_DEPTH + 1)).is_err());
}

#[test]
fn test_run_inference_with_mock_provider() {
    let (mut engine, e) = engine_with_mock();
    assert!(engine.build_inference_request(e, "mock", None, 4096, vec![], &None).is_ok());
    let response = text_response();
    engine.take_reply(e, &response, 7);
    assert_eq!(get(&engine, e).state.iteration, 1);
    let stored = get(&engine, e).inference.as_ref().unwrap();
    assert_eq!(stored.response, "mock response");
    assert_eq!(stored.tokens_used, 15);
}

/// The names of the tools that a request offers.
fn offered(filter: Option<Vec<String>>) -> Vec<String> {
    let (engine, e) = engine_with_mock();
    let tools = vec![Tool {
        name: "bash".to_string(),
        description: "Run command".to_string(),
        parameters: Json::Object(vec![]),
    }];
    let plan = engine.build_inference_request(e, "mock", None, 4096, tools, &filter);
    assert!(plan.is_ok());
    plan.ok().unwrap().tools.into_iter().map(|t| t.name).collect()
}

#[test]
fn test_run_inference_filtered_empty_filter_includes_all() {
    assert_eq!(offered(Some(vec![])), ["bash"]);
}

#[test]
fn test_run_inference_filtered_none_filter_includes_all() {
    assert_eq!(offered(None), ["bash"]);
}

#[test]
fn inference_config_max_output_tokens_override() {
    let mut engine = AgentEngine::with_providers(one_provider("max-echo"));
    let mut window = ContextWindow::new(10000);
    window.add_region(Region::new("system".to_string(), RegionKind::Pinned, 2000));
    let _ = window.add_to_region("system", "prompt".to_string(), 6);
    let mut a = Agent::new(state("test", "main"));
    a.window = Some(window);
    let e = engine.world_mut().spawn(a);
    let budget = |config: Option<usize>| {
        engine
            .build_inference_request(e, "max-echo", config, 8192, vec![], &None)
            .ok()
            .unwrap()
            .max_tokens
    };
    // Without a limit of its own, the agent has the model's.
    assert_eq!(budget(None), 8192);
    assert_eq!(budget(Some(2048)), 2048);
}

/// An engine with one agent whose window has these regions, the first with a greeting.
fn engine_with_regions(agent_id: &str, regions: &[(&str, usize)], greeted: bool) -> (Engine, usize) {
    let mut engine = AgentEngine::with_providers(one_provider("mock"));
    let mut a = Agent::new(state(agent_id, "main"));
    a.inbox = Some(Vec::new());
    a.cancel_token = Some(false);
    let mut window = ContextWindow::new(10000);
    for (name, tokens) in regions {
        window.add_region(sliding(name, 50, *tokens));
    }
    if greeted {
        let _ = window.add_to_region("conversation", "User: hi".to_string(), 2);
    }
    a.window = Some(window);
    let e = engine.world_mut().spawn(a);
    (engine, e)
}

/// Runs one call of `bash`, which gives this, and then the mock's response.
fn one_call(engine: &mut Engine, e: usize, arguments: Json, output: &str) {
    let bash = ToolCall { id: "call_1".to_string(), name: "bash".to_string(), arguments };
    let responses = vec![tool_response("calling tool", vec![bash]), text_response()];
    let result = drive(engine, e, responses, 10, |c| Some((c.id.clone(), output.to_string())));
    assert_eq!(result.ok().unwrap().content, "mock response");
}

#[test]
fn test_run_inference_loop_filtered_with_routing_and_truncation() {
    let regions = [("conversation", 6000), ("tool_results", 2000)];
    let (mut engine, e) = engine_with_regions("routing-test", &regions, true);
    let arguments = Json::Object(vec![("cmd".to_string(), Json::Text("ls".to_string()))]);
    let long = "this is a very long tool result that should be truncated";
    one_call(&mut engine, e, arguments, long);
    // Without a routing nothing is cut.
    assert_eq!(results(region(&engine, e, "conversation"))[0].content, long);
}

#[test]
fn test_run_inference_loop_filtered_non_persist_routing() {
    let regions = [("conversation", 4000), ("tool_results", 2000), ("scratch", 2000)];
    let (mut engine, e) = engine_with_regions("persist-test", &regions, true);
    one_call(&mut engine, e, Json::Object(vec![]), "tool output");
    assert!(region(&engine, e, "conversation").content.iter().any(is_result));
}

#[test]
fn test_run_inference_loop_filtered_non_persist_routing_falls_back_without_scratch() {
    let regions = [("conversation", 4000), ("tool_results", 2000)];
    let (mut engine, e) = engine_with_regions("persist-test-no-scratch", &regions, false);
    one_call(&mut engine, e, Json::Object(vec![]), "tool output");
    assert!(region(&engine, e, "conversation").content.iter().any(is_result));
}

#[test]
fn test_run_inference_loop_filtered_tool_override_routing() {
    let regions = [("conversation", 4000), ("tool_results", 2000), ("bash_output", 2000)];
    let (mut engine, e) = engine_with_regions("override-test", &regions, true);
    one_call(&mut engine, e, Json::Object(vec![]), "file listing");
    assert!(region(&engine, e, "conversation").content.iter().any(is_result));
}

#[test]
fn test_compact_region_with_mock() {
    let mut engine = AgentEngine::with_providers(one_provider("compact-provider"));
    let mut window = ContextWindow::new(10000);
    window.add_region(sliding("conversation", 50, 6000));
    window.add_region(Region::new(
        "conversation_history".to_string(),
        RegionKind::CompactHistory { source_region: "conversation".to_string() },
        2000,
    ));
    let _ = window.add_to_region("conversation", "Message 1".to_string(), 5);
    let _ = window.add_to_region("conversation", "Message 2".to_string(), 5);
    let mut a = Agent::new(state("a", "main"));
    a.window = Some(window);
    let e = engine.world_mut().spawn(a);
    let config = CompactionConfig {
        provider: "compact-provider".to_string(),
        model: "test-model".to_string(),
        max_summary_tokens: 200,
    };
    let window = &get(&engine, e).window;
    let text = region_to_compact(engine.providers(), &config, window, "conversation");
    assert_eq!(text, Ok(Some("Message 1\n\nMessage 2".to_string())));
    engine.compact_region(e, "conversation", "mock response");
    assert!(region(&engine, e, "conversation").content.is_empty());
    assert!(!region(&engine, e, "conversation_history").content.is_empty());
}

#[test]
fn compact_region_returns_err_when_provider_not_registered() {
    let engine = Engine::new();
    let mut window = ContextWindow::new(10000);
    window.add_region(Region::new(
        "analysis".to_string(),
        RegionKind::CompactHistory { source_region: "analysis".to_string() },
        5000,
    ));
    let _ = window.add_to_region("analysis", "some content".to_string(), 10);
    let config = CompactionConfig {
        provider: "nonexistent".to_string(),
        model: "model".to_string(),
        max_summary_tokens: 500,
    };
    let result = region_to_compact(engine.providers(), &config, &Some(window), "analysis");
    assert!(result.is_err());
    assert!(result.unwrap_err().contains("not registered"));
}

/// Drives a whole loop of an agent by the events that the engine asks for, and notes each
/// of its actions. The tool calls are judged as `judge` says.
fn drive_by_events(
    engine: &mut Engine,
    e: usize,
    responses: Vec<InferenceResponse>,
    max_iterations: usize,
    judge: impl Fn(&ToolCall) -> (GateDecision, Option<(String, String)>),
    notes: &mut Vec<String>,
) -> Result<InferenceResponse, String> {
    let mut run = InferenceLoop::new(max_iterations);
    let mut responses = responses.into_iter();
    let mut event = LoopEvent::Begin;
    loop {
        event = match engine.advance(e, &mut run, event) {
            LoopAction::Return { outcome } => return outcome,
            LoopAction::Again => {
                notes.push("again".to_string());
                LoopEvent::Begin
            }
            LoopAction::Settle => {
                notes.push("settle".to_string());
                LoopEvent::Begin
            }
            LoopAction::Infer => {
                notes.push("infer".to_string());
                match responses.next() {
                    Some(response) => LoopEvent::Answered { response, now: 7 },
                    None => return Err("intentional test failure".to_string()),
                }
            }
            LoopAction::RunTools => {
                let calls = &run.pending.as_ref().unwrap().tool_calls;
                let mut batch = Vec::new();
                for c in calls {
                    let (decision, refusal) = judge(c);
                    batch.push(GatedCall { call: c.copy(), decision, refusal });
                }
                let (allowed, denied) = taint_gate_partition(true, batch);
                let mut results = Vec::new();
                for c in allowed {
                    notes.push(format!("run {}", c.name));
                    results.push((c.id, "tool ok".to_string()));
                }
                LoopEvent::ToolsRun { results, denied, sensitivities: None, nudges: vec![] }
            }
        };
    }
}

fn allowed(_call: &ToolCall) -> (GateDecision, Option<(String, String)>) {
    (GateDecision::Allowed, None)
}

#[test]
fn test_run_inference_loop_shared_drives_via_handle() {
    let (mut engine, e) = engine_with_mock();
    let responses = (0..10).map(|_| text_response()).collect();
    let mut notes = Vec::new();
    let result = drive_by_events(&mut engine, e, responses, 10, allowed, &mut notes);
    assert_eq!(result.ok().unwrap().content, "mock response");
    assert_eq!(notes, ["infer", "again", "infer", "again", "infer", "again", "infer"]);
}

#[test]
fn test_run_inference_loop_shared_cancellation() {
    let (mut engine, e) = engine_with_mock();
    engine.world_mut().agents[e].as_mut().unwrap().cancel_token = Some(true);
    let mut notes = Vec::new();
    let result = drive_by_events(&mut engine, e, vec![text_response()], 10, allowed, &mut notes);
    assert!(result.err().unwrap().contains("cancelled"));
    assert!(notes.is_empty());
    assert!(matches!(get(&engine, e).state.status, AgentStatus::Cancelled));
}

fn tools_and_text() -> Vec<InferenceResponse> {
    let calls = vec![call("call_1", "bash"), call("call_2", "shell")];
    vec![tool_response("let me run a tool", calls), text_response()]
}

#[test]
fn test_run_inference_loop_shared_with_tool_calls_then_completion() {
    let (mut engine, e) = engine_with_mock();
    let mut notes = Vec::new();
    let result = drive_by_events(&mut engine, e, tools_and_text(), 10, allowed, &mut notes);
    assert_eq!(result.ok().unwrap().content, "mock response");
    assert_eq!(notes, ["infer", "run bash", "run shell", "settle", "infer"]);
    assert_eq!(results(region(&engine, e, "conversation"))[0].content, "tool ok");
}

#[test]
fn drivers_with_the_same_answers_agree() {
    let texts = |engine: &Engine, e: usize| -> Vec<(String, usize)> {
        let conversation = &region(engine, e, "conversation").content;
        conversation.iter().map(|entry| (entry.content.clone(), entry.tokens)).collect()
    };
    let ran = |c: &ToolCall| Some((c.id.clone(), "tool ok".to_string()));
    for max_iterations in [0, 1, 2, 10] {
        let (mut one, e) = engine_with_mock();
        let (mut other, f) = engine_with_mock();
        one.send_message(message("test-mock", "hello"));
        other.send_message(message("test-mock", "hello"));
        let first = drive(&mut one, e, tools_and_text(), max_iterations, ran);
        let mut notes = Vec::new();
        let second =
            drive_by_events(&mut other, f, tools_and_text(), max_iterations, allowed, &mut notes);
        let told = |outcome: Result<InferenceResponse, String>| {
            outcome.map(|r| (r.content, r.tokens_used, r.finish_reason))
        };
        assert_eq!(told(first), told(second));
        assert_eq!(texts(&one, e), texts(&other, f));
        assert_eq!(get(&one, e).state.iteration, get(&other, f).state.iteration);
    }
}

/// An engine whose agent has seen private data.
fn tainted_engine() -> (Engine, usize) {
    let mut engine = AgentEngine::with_providers(one_provider("mock"));
    let mut window = ContextWindow::new(1000);
    window.add_region(Region::new("notes".to_string(), RegionKind::Pinned, 500));
    window.add_region(sliding("conversation", 50, 200));
    window.enable_taint_tracking();
    let secret = Entry {
        kind: EntryKind::Text,
        content: "secret data".to_string(),
        tokens: 10,
        taint: TaintLevel::Private,
    };
    assert!(window.add("notes", secret).is_ok());
    let mut a = Agent::new(state("a", "main"));
    a.window = Some(window);
    let e = engine.world_mut().spawn(a);
    (engine, e)
}

/// Runs one call of a tool that is judged so: what was run, and the conversation.
fn judged(
    tool: &str,
    decision: fn() -> GateDecision,
    refusal: Option<&str>,
) -> (Vec<String>, String) {
    let (mut engine, e) = tainted_engine();
    let responses = vec![tool_response("calling a tool", vec![call("call_1", tool)]), text_response()];
    let mut notes = Vec::new();
    let judge = |c: &ToolCall| (decision(), refusal.map(|text| (c.id.clone(), text.to_string())));
    assert!(drive_by_events(&mut engine, e, responses, 5, judge, &mut notes).is_ok());
    let conversation = &region(&engine, e, "conversation").content;
    let text: Vec<&str> = conversation.iter().map(|entry| entry.content.as_str()).collect();
    (notes, text.join("\n"))
}

fn blocked() -> GateDecision {
    GateDecision::Blocked { taint: TaintLevel::Private, clearance: TaintLevel::Public }
}

#[test]
fn taint_gate_allow_once_executes_blocked_call() {
    // Blocked, and let through by whoever was asked.
    let (notes, text) = judged("shell", blocked, None);
    assert!(notes.contains(&"run shell".to_string()));
    assert!(!text.contains("[blocked]"));
    // A refused call is not run, and answered with the refusal.
    let (notes, text) = judged("shell", blocked, Some("[blocked] no"));
    assert!(!notes.contains(&"run shell".to_string()));
    assert!(text.contains("[blocked] no"));
}

#[test]
fn taint_gate_allows_non_outbound_tool() {
    let (notes, text) = judged("read_file", || GateDecision::Allowed, None);
    assert!(notes.contains(&"run read_file".to_string()));
    assert!(!text.contains("[blocked]"));
}
