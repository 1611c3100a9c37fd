use leviath_runtime::components::{AgentState, AgentStatus};
use leviath_runtime::context::TaintLevel;
use leviath_runtime::gate_prompt::{
    build_gate_request, collect_gate_prompt, gate_outcome, gate_prompt_for,
    resolution_from_answer, resolution_or_deny, AwaitingGatePrompt, GatePromptOutcome, GateResolution, GateResolved,
};
use leviath_runtime::interaction::{
    InteractionHub, InteractionKind, InteractionRequest, InteractionResponse,
};
use leviath_runtime::world::{Agent, World};

fn resp(choice: Option<usize>) -> InteractionResponse {
    let mut r = InteractionResponse::text("q", "");
    r.choice_index = choice;
    r
}

#[test]
fn resolution_from_answer_maps_choices_and_defaults_deny() {
    assert_eq!(
        resolution_from_answer(&resp(Some(0))),
        GateResolution::AllowOnce
    );
    assert_eq!(
        resolution_from_answer(&resp(Some(1))),
        GateResolution::AlwaysAllow
    );
    assert_eq!(resolution_from_answer(&resp(Some(2))), GateResolution::Deny);
    assert_eq!(resolution_from_answer(&resp(None)), GateResolution::Deny);
}

#[test]
fn taint_gate_no_prompt_auto_denies() {
    assert_eq!(resolution_or_deny(None), GateResolution::Deny);
    assert_eq!(resolution_or_deny(Some(GateResolution::AllowOnce)), GateResolution::AllowOnce);
}

#[test]
fn build_gate_request_is_a_three_way_choice() {
    let req = build_gate_request(
        "id".to_string(),
        "shell",
        TaintLevel::Internal,
        TaintLevel::Public,
    );
    assert_eq!(req.kind, InteractionKind::MultipleChoice);
    assert_eq!(req.options.len(), 3);
    assert!(req.prompt.contains("shell"));
    assert_eq!(
        req.prompt,
        "Tool 'shell' would send Internal-level data over a channel cleared only for Public. Allow it?"
    );
    assert_eq!(req.options, ["Allow once", "Allow for this session", "Deny"]);
    assert_eq!(req.source, "taint_gate");
}

#[test]
fn run_gate_prompt_reports_the_resolution() {
    let mut hub = InteractionHub::new();
    let req = gate_prompt_for("c1", "shell", TaintLevel::Internal, TaintLevel::Public);
    assert_eq!(req.id, "gate-c1");
    hub.ask("run".to_string(), req);
    let id = hub.pending()[0].1.id.clone();
    let mut answer = InteractionResponse::text(&id, "");
    answer.choice_index = Some(1); // Allow for session
    let out = gate_outcome(
        1,
        "c1".to_string(),
        "shell".to_string(),
        TaintLevel::Internal,
        TaintLevel::Public,
        &answer,
    );
    assert!(hub.answer(answer));
    assert!(hub.pending().is_empty());
    assert_eq!(out.tool_id, "c1");
    assert_eq!(out.resolution, GateResolution::AlwaysAllow);
}

fn state() -> AgentState {
    AgentState {
        agent_id: "run".to_string(),
        current_stage: "s".to_string(),
        iteration: 0,
        status: AgentStatus::Active,
        spawned_children_ids: vec![],
        accepts_messages: true,
    }
}

fn outcome(e: usize, id: &str, tool: &str, resolution: GateResolution) -> GatePromptOutcome {
    GatePromptOutcome {
        entity: e,
        tool_id: id.to_string(),
        tool_name: tool.to_string(),
        taint: TaintLevel::Internal,
        clearance: TaintLevel::Public,
        resolution,
    }
}

fn held(prompts: usize) -> (World, usize) {
    let mut world = World::new();
    let mut agent = Agent::new(state());
    agent.awaiting_gate_prompt = Some(AwaitingGatePrompt(prompts));
    agent.gate_resolved = Some(GateResolved::new());
    let e = world.spawn(agent);
    (world, e)
}

#[test]
fn collect_records_approval_and_rearms_when_last_resolves() {
    let (mut world, e) = held(2);
    // Allowed once: approved, and one is still outstanding.
    collect_gate_prompt(
        &mut world,
        vec![(outcome(e, "c1", "shell", GateResolution::AllowOnce), None)],
    );
    let agent = world.get(e).unwrap();
    assert!(agent.awaiting_gate_prompt.is_some());
    assert!(agent
        .gate_resolved
        .as_ref()
        .unwrap()
        .approved
        .contains(&"c1".to_string()));
    assert!(!agent.ready_for_tools);

    // Denied: the message is kept, none is outstanding, and the batch is due.
    collect_gate_prompt(
        &mut world,
        vec![(
            outcome(e, "c2", "curl", GateResolution::Deny),
            Some("[blocked] curl".to_string()),
        )],
    );
    let agent = world.get(e).unwrap();
    assert!(agent.awaiting_gate_prompt.is_none());
    let resolved = agent.gate_resolved.as_ref().unwrap();
    assert!(resolved.denied.contains("c2"));
    assert_eq!(resolved.denied.get("c2"), Some(&"[blocked] curl".to_string()));
    assert_eq!(resolved.approved, ["c1"]);
    assert!(agent.ready_for_tools);
}

#[test]
fn outcomes_that_come_together_release_the_batch_at_once() {
    let (mut world, e) = held(2);
    collect_gate_prompt(
        &mut world,
        vec![
            (outcome(e, "c1", "a", GateResolution::AlwaysAllow), None),
            (outcome(e, "c2", "b", GateResolution::AllowOnce), None),
        ],
    );
    let agent = world.get(e).unwrap();
    assert!(agent.ready_for_tools && agent.awaiting_gate_prompt.is_none());
    assert_eq!(agent.gate_resolved.as_ref().unwrap().approved, ["c1", "c2"]);
}

#[test]
fn collect_drops_outcome_for_missing_agent() {
    let mut world = World::new();
    collect_gate_prompt(
        &mut world,
        vec![(outcome(999, "c1", "shell", GateResolution::Deny), None)],
    );
    assert!(world.agents.is_empty());
}

fn question(id: &str) -> InteractionRequest {
    InteractionRequest::multiple_choice(id.to_string(), String::new(), vec![], "test")
}

#[test]
fn a_hub_closes_the_questions_of_one_agent() {
    let mut hub = InteractionHub::new();
    hub.ask("a".to_string(), question("1"));
    hub.ask("b".to_string(), question("2"));
    hub.ask("a".to_string(), question("3"));
    hub.cancel_for_agent("a");
    let open: Vec<String> = hub.pending().into_iter().map(|(_, q)| q.id).collect();
    assert_eq!(open, ["2"]);
    assert!(!hub.close("1"));
    assert!(!hub.answer(InteractionResponse::text("1", "late")));
    assert!(hub.close("2"));
    assert!(hub.pending().is_empty());
}

#[test]
fn a_denial_without_a_message_approves_nothing() {
    let mut world = World::new();
    let mut agent = Agent::new(state());
    agent.awaiting_gate_prompt = Some(AwaitingGatePrompt(1));
    agent.gate_resolved = Some(GateResolved::new());
    let e = world.spawn(agent);
    collect_gate_prompt(
        &mut world,
        vec![(outcome(e, "c1", "curl", GateResolution::Deny), None)],
    );
    let agent = world.get(e).unwrap();
    let resolved = agent.gate_resolved.as_ref().unwrap();
    assert!(resolved.approved.is_empty());
    assert_eq!(
        resolved.denied.get("c1"),
        Some(&"[blocked] the call was denied".to_string())
    );
    assert!(agent.ready_for_tools);
}
