use leviath_runtime::blueprint::{
    Blueprint, FanOutConfig, Stage, StageMode, WorkerFailurePolicy,
};
use leviath_runtime::components::{
    AgentState, AgentStatus, FinalOutput, InferenceResult, ParentRef, PersistWatermark,
    RunMetadata, RunStatus, StageSetup, SubAgentChildren, TokenTotals, ToolResultRouting,
};
use leviath_runtime::context::{ContextWindow, EntryKind, Region, RegionKind};
use leviath_runtime::fanout::{
    build_report, bytes_per_worker, fan_out_collect, fan_out_split, fit_worker_section,
    inject_results, parse_work_items, response_snippet, restore_fan_out_waiting,
    slim_merged_workers, split_correction, worker_requires_output, worker_terminal_result,
    FanOutSpawner, FanOutState, NewWorker, SplitAttempts, WorkItem, DEFAULT_REPORT_BYTES_PER_WORKER,
    MAX_SPLIT_RETRIES, MAX_SPLIT_SNIPPET, MIN_REPORT_BYTES_PER_WORKER, REPORT_TRUNCATION_MARKER,
};
use leviath_runtime::json::{parse_json, Json};
use leviath_runtime::stages::force_transition;
use leviath_runtime::table::NameTable;
use leviath_runtime::text::estimate_tokens;
use leviath_runtime::world::{Agent, World};

/// Makes a plain active worker per item, and refuses the ids in `fail`.
struct TestSpawner {
    fail: Vec<String>,
}

impl TestSpawner {
    fn ok() -> TestSpawner {
        TestSpawner { fail: Vec::new() }
    }

    fn refusing(ids: &[&str]) -> TestSpawner {
        TestSpawner {
            fail: ids.iter().map(|s| s.to_string()).collect(),
        }
    }
}

impl FanOutSpawner for TestSpawner {
    fn spawn_worker(
        &self,
        _world: &World,
        _parent: usize,
        _config: &FanOutConfig,
        item_id: &str,
        _item_context: &Json,
    ) -> Result<NewWorker, String> {
        if self.fail.iter().any(|f| f == item_id) {
            return Err(format!("spawn refused for '{item_id}'"));
        }
        Ok(NewWorker {
            agent: Agent::new(state(&format!("worker-{item_id}"), "w")),
            metadata: RunMetadata {
                run_id: format!("run-{item_id}"),
                agent_name: "worker".to_string(),
                num_stages: 1,
                unattended: false,
                read_paths: None,
            },
        })
    }

    fn seed_worker(&self, world: &World, parent: usize, worker: Agent) -> Agent {
        let mut worker = worker;
        let from = world.get(parent).unwrap();
        worker.totals = Some(TokenTotals {
            prompt_tokens: from.window.as_ref().map_or(0, |w| w.current_tokens),
            completion_tokens: 0,
            cached_tokens: 0,
            cache_write_tokens: 0,
            tool_calls: 0,
        });
        worker
    }
}

fn state(agent_id: &str, stage: &str) -> AgentState {
    AgentState {
        agent_id: agent_id.to_string(),
        current_stage: stage.to_string(),
        iteration: 0,
        status: AgentStatus::Active,
        spawned_children_ids: vec![],
        accepts_messages: true,
    }
}

fn parent_state() -> AgentState {
    state("parent", "fan")
}

fn cfg(merge: Option<&str>, max_workers: usize, policy: WorkerFailurePolicy) -> FanOutConfig {
    FanOutConfig {
        worker_agent: None,
        worker_stage: Some("w".to_string()),
        worker_query: None,
        merge_stage: merge.map(String::from),
        max_workers,
        on_worker_failure: policy,
        split_prompt: "split".to_string(),
        results_region: None,
        max_items: None,
    }
}

fn window() -> ContextWindow {
    window_with("conversation", 12_000, 10_000)
}

fn window_with(region: &str, max: usize, budget: usize) -> ContextWindow {
    let mut w = ContextWindow::new(max);
    w.add_region(Region::new(region.to_string(), RegionKind::Clearable, budget));
    w
}

fn stage(name: &str, mode: StageMode) -> Stage {
    Stage {
        name: name.to_string(),
        mode,
        transitions: None,
        max_revisits: None,
        allow_complete: false,
        transition_prompt: None,
        require_output: false,
    }
}

/// A blueprint whose first stage is a fan-out stage and whose second is `merge`.
fn fanout_blueprint(config: FanOutConfig) -> Blueprint {
    Blueprint {
        stages: vec![
            stage("fan", StageMode::FanOut { config }),
            stage("merge", StageMode::Standard),
        ],
        max_child_depth: None,
    }
}

fn inference(response: &str) -> InferenceResult {
    InferenceResult {
        response: response.to_string(),
        tool_calls: vec![],
        tokens_used: 0,
        timestamp: 0,
    }
}

/// A parent whose response is due as a split.
fn spawn_parent(world: &mut World, bp: Blueprint, response: &str) -> usize {
    let mut agent = Agent::new(parent_state());
    agent.blueprint = Some(bp);
    agent.cursor = Some(0);
    agent.window = Some(window());
    agent.inference = Some(inference(response));
    agent.process_response = true;
    world.spawn(agent)
}

/// Reads an array of work items.
fn parse_array(text: &str) -> Result<Vec<WorkItem>, String> {
    let value: serde_json::Value = serde_json::from_str(text).map_err(|e| e.to_string())?;
    let elements = value.as_array().ok_or("not an array")?;
    elements
        .iter()
        .map(|v| {
            let members = v.as_object().ok_or("not an object")?;
            let id = match members.get("id") {
                Some(id) => id.as_str().ok_or("not a string")?.to_string(),
                None => String::new(),
            };
            let context = match members.get("context") {
                Some(c) => parse_json(&c.to_string())?,
                None => Json::Null,
            };
            Ok(WorkItem { id, context })
        })
        .collect()
}

fn split(world: &mut World) {
    fan_out_split(world, &parse_array);
}

fn collect(world: &mut World, spawner: &TestSpawner) {
    fan_out_collect(world, Some(spawner));
}

fn agent(world: &World, e: usize) -> &Agent {
    world.get(e).unwrap()
}

fn children(world: &World, e: usize) -> Vec<usize> {
    agent(world, e).children.as_ref().unwrap().children.clone()
}

fn edit(world: &mut World, e: usize, change: impl FnOnce(&mut Agent)) {
    change(world.agents[e].as_mut().unwrap());
}

fn set_status(world: &mut World, e: usize, status: AgentStatus) {
    world.set_status(e, status);
}

fn error(message: &str) -> AgentStatus {
    AgentStatus::Error {
        message: message.to_string(),
    }
}

fn assert_errored(world: &World, e: usize) {
    assert!(matches!(agent(world, e).state.status, AgentStatus::Error { .. }));
}

fn complete_worker(world: &mut World, worker: usize, content: &str) {
    set_status(world, worker, AgentStatus::Complete);
    edit(world, worker, |a| a.inference = Some(inference(content)));
}

fn conversation_text(world: &World, e: usize) -> String {
    agent(world, e)
        .window
        .as_ref()
        .unwrap()
        .get_region("conversation")
        .unwrap()
        .content
        .iter()
        .map(|entry| entry.content.clone())
        .collect::<Vec<_>>()
        .join("\n")
}

/// Puts the parent back where a fresh inference would leave it.
fn redrive_split(world: &mut World, e: usize, response: &str) {
    edit(world, e, |a| {
        a.ready_to_infer = false;
        a.inference = Some(inference(response));
        a.process_response = true;
    });
}

fn pairs(n: usize, content: &str) -> Vec<(String, String)> {
    (0..n).map(|i| (format!("w{i}"), content.to_string())).collect()
}

#[test]
fn fanout_parse_work_items_handles_array_prose_and_errors() {
    let parse = |text: &str| parse_work_items(text, &parse_array);
    let ok = parse(r#"[{"id":"a"},{"id":"b","context":{"k":1}}]"#).unwrap();
    assert_eq!(ok.len(), 2);
    assert_eq!(ok[0].id, "a");
    match &ok[1].context {
        Json::Object(members) => {
            assert_eq!(members[0].0, "k");
            assert!(matches!(members[0].1, Json::PosInt(1)));
        }
        other => panic!("{other:?}"),
    }
    // Missing fields default.
    assert_eq!(parse("[{}]").unwrap()[0].id, "");
    // Prose around the array is tolerated.
    assert_eq!(
        parse("Here you go:\n```json\n[{\"id\":\"x\"}]\n```").unwrap().len(),
        1
    );
    // No brackets at all.
    assert!(parse("no array here").is_err());
    // Closing before opening.
    assert!(parse("]nope[").is_err());
    // Brackets but not valid JSON.
    assert!(parse("[not json]").is_err());
}

#[test]
fn the_reason_of_a_failed_parse_is_put_into_words() {
    let parse = |text: &str| parse_work_items(text, &|_: &str| Err("why".to_string()));
    assert_eq!(parse("none").unwrap_err(), "split output is not a JSON array");
    assert_eq!(
        parse("[1]").unwrap_err(),
        "split output is not a valid JSON array of work items: why"
    );
}

#[test]
fn split_parks_a_fanout_stage_and_consumes_the_response() {
    let mut world = World::new();
    let e = spawn_parent(
        &mut world,
        fanout_blueprint(cfg(Some("merge"), 2, WorkerFailurePolicy::Continue)),
        r#"[{"id":"a"},{"id":"b"}]"#,
    );
    split(&mut world);
    assert!(agent(&world, e).fan_out.is_some());
    assert!(matches!(agent(&world, e).state.status, AgentStatus::Waiting));
    // The response was consumed.
    assert!(!agent(&world, e).process_response);
    assert!(agent(&world, e).inference.is_none());
    assert_eq!(agent(&world, e).fan_out.as_ref().unwrap().pending.len(), 2);
}

#[test]
fn split_keeps_only_the_first_max_items() {
    let mut world = World::new();
    let mut config = cfg(Some("merge"), 2, WorkerFailurePolicy::Continue);
    config.max_items = Some(3);
    let items: Vec<String> = (0..10).map(|i| format!(r#"{{"id":"w{i}"}}"#)).collect();
    let e = spawn_parent(
        &mut world,
        fanout_blueprint(config),
        &format!("[{}]", items.join(",")),
    );

    split(&mut world);

    let w = agent(&world, e).fan_out.as_ref().expect("parked");
    assert_eq!(w.pending.len(), 3, "kept the cap, not the ten produced");
    let kept: Vec<&str> = w.pending.iter().map(|i| i.id.as_str()).collect();
    assert_eq!(kept, ["w0", "w1", "w2"], "and kept the first of them");
}

#[test]
fn split_keeps_everything_under_the_cap() {
    let mut world = World::new();
    let mut config = cfg(Some("merge"), 2, WorkerFailurePolicy::Continue);
    config.max_items = Some(9);
    let e = spawn_parent(
        &mut world,
        fanout_blueprint(config),
        r#"[{"id":"a"},{"id":"b"}]"#,
    );

    split(&mut world);

    assert_eq!(
        agent(&world, e).fan_out.as_ref().expect("parked").pending.len(),
        2
    );
}

#[test]
fn split_errors_on_non_array_output() {
    let mut world = World::new();
    let e = spawn_parent(
        &mut world,
        fanout_blueprint(cfg(None, 2, WorkerFailurePolicy::Continue)),
        "definitely not a json array",
    );
    for _ in 0..=MAX_SPLIT_RETRIES {
        split(&mut world);
        redrive_split(&mut world, e, "definitely not a json array");
    }
    assert!(agent(&world, e).fan_out.is_none());
    assert_errored(&world, e);
}

#[test]
fn a_split_that_is_not_an_array_is_corrected_rather_than_fatal() {
    let mut world = World::new();
    let e = spawn_parent(
        &mut world,
        fanout_blueprint(cfg(None, 2, WorkerFailurePolicy::Continue)),
        "Sure! I will research these topics for you.",
    );

    split(&mut world);

    assert!(matches!(agent(&world, e).state.status, AgentStatus::Active), "still running");
    assert_eq!(agent(&world, e).split_attempts, Some(SplitAttempts(1)));
    assert!(
        agent(&world, e).ready_to_infer,
        "the parent is queued for another attempt"
    );
    assert!(agent(&world, e).fan_out.is_none());
    let convo = conversation_text(&world, e);
    assert!(
        convo.contains("Sure! I will research"),
        "the model sees its own answer: {convo}"
    );
    assert!(
        convo.contains("[System]") && convo.contains("start with `[`"),
        "and the correction: {convo}"
    );
}

#[test]
fn a_corrected_split_proceeds_to_the_fan_out() {
    let mut world = World::new();
    let e = spawn_parent(
        &mut world,
        fanout_blueprint(cfg(None, 2, WorkerFailurePolicy::Continue)),
        "no array here",
    );
    split(&mut world);
    redrive_split(&mut world, e, r#"[{"id":"a","context":{}}]"#);

    split(&mut world);

    assert!(agent(&world, e).fan_out.is_some(), "the split took");
    assert!(matches!(agent(&world, e).state.status, AgentStatus::Waiting));
}

#[test]
fn the_failure_message_quotes_what_the_model_actually_said() {
    let mut world = World::new();
    let e = spawn_parent(
        &mut world,
        fanout_blueprint(cfg(None, 2, WorkerFailurePolicy::Continue)),
        "I cannot help with that request.",
    );
    for _ in 0..=MAX_SPLIT_RETRIES {
        split(&mut world);
        redrive_split(&mut world, e, "I cannot help with that request.");
    }
    let status = format!("{:?}", agent(&world, e).state.status);
    assert!(status.contains("Error"), "{status}");
    assert!(status.contains("I cannot help with that"), "{status}");
    assert!(status.contains("correction(s)"), "{status}");
    assert!(
        status.contains("fan_out split failed after 2 correction(s): split output is not a JSON array (the response was: I cannot help with that request.)"),
        "{status}"
    );
}

#[test]
fn a_split_with_nowhere_to_put_a_correction_fails_at_once() {
    let mut world = World::new();
    let e = spawn_parent(
        &mut world,
        fanout_blueprint(cfg(None, 2, WorkerFailurePolicy::Continue)),
        "not an array",
    );
    edit(&mut world, e, |a| a.window = None);

    split(&mut world);

    assert_errored(&world, e);
    assert!(agent(&world, e).split_attempts.is_none());
}

#[test]
fn the_snippet_reports_an_empty_response_as_empty() {
    assert_eq!(response_snippet("   \n "), "the response was empty");
}

#[test]
fn the_snippet_quotes_a_short_response_whole() {
    assert_eq!(response_snippet("  nope  "), "the response was: nope");
}

#[test]
fn the_snippet_truncates_a_long_response_on_a_character_boundary() {
    let long = "€".repeat(MAX_SPLIT_SNIPPET + 10);
    let snippet = response_snippet(&long);
    assert!(snippet.starts_with("the response began: "), "{snippet}");
    assert!(snippet.ends_with('…'), "{snippet}");
    let kept = snippet
        .trim_start_matches("the response began: ")
        .trim_end_matches('…');
    assert_eq!(kept.chars().count(), MAX_SPLIT_SNIPPET);
    assert!(kept.chars().all(|c| c == '€'), "no character was split");
}

#[test]
fn split_skips_non_active_and_non_fanout_agents() {
    // An agent that is not active is left untouched.
    let mut world = World::new();
    let e = spawn_parent(
        &mut world,
        fanout_blueprint(cfg(None, 2, WorkerFailurePolicy::Continue)),
        "[]",
    );
    set_status(&mut world, e, AgentStatus::Idle);
    split(&mut world);
    assert!(agent(&world, e).process_response);
    assert!(agent(&world, e).fan_out.is_none());

    // A stage that is no fan-out stage is no candidate at all.
    let bp = Blueprint {
        stages: vec![stage("plain", StageMode::Standard)],
        max_child_depth: None,
    };
    let e2 = spawn_parent(&mut world, bp, "[]");
    split(&mut world);
    assert!(agent(&world, e2).process_response);
}

#[test]
fn collect_starts_workers_then_merges_on_completion() {
    let mut world = World::new();
    let spawner = TestSpawner::ok();
    let e = spawn_parent(
        &mut world,
        fanout_blueprint(cfg(Some("merge"), 2, WorkerFailurePolicy::Continue)),
        r#"[{"id":"a"},{"id":"b"}]"#,
    );
    split(&mut world);
    collect(&mut world, &spawner);
    // Two workers started and tracked.
    let kids = children(&world, e);
    assert_eq!(kids.len(), 2);
    assert!(agent(&world, e).fan_out.is_some());
    // Each worker got a link to its parent, one level down.
    for k in &kids {
        assert_eq!(agent(&world, *k).parent.as_ref().unwrap().depth, 1);
        assert_eq!(agent(&world, *k).parent.as_ref().unwrap().parent_entity, e);
    }
    assert_eq!(agent(&world, e).state.spawned_children_ids, ["run-a", "run-b"]);

    // Both workers done: the parent goes on in the merge stage.
    for k in &kids {
        complete_worker(&mut world, *k, "fixed it");
    }
    collect(&mut world, &spawner);
    assert!(agent(&world, e).fan_out.is_none());
    assert!(matches!(agent(&world, e).state.status, AgentStatus::Active));
    assert_eq!(agent(&world, e).cursor, Some(1));
    assert!(agent(&world, e).ready_to_infer);
    // The consolidated report landed in the parent's conversation.
    assert!(
        agent(&world, e)
            .window
            .as_ref()
            .unwrap()
            .get_region("conversation")
            .unwrap()
            .current_tokens
            > 0
    );
}

#[test]
fn merged_workers_are_slimmed_once_their_terminal_state_is_persisted() {
    let mut world = World::new();
    let spawner = TestSpawner::ok();
    let e = spawn_parent(
        &mut world,
        fanout_blueprint(cfg(Some("merge"), 2, WorkerFailurePolicy::Continue)),
        r#"[{"id":"a"}]"#,
    );
    split(&mut world);
    collect(&mut world, &spawner);
    let worker = children(&world, e)[0];
    // Something to shed.
    edit(&mut world, worker, |a| {
        a.window = Some(window());
        a.watermark = Some(PersistWatermark {
            persisted_status: None,
            last_progress_at: None,
        });
    });
    complete_worker(&mut world, worker, "done");
    collect(&mut world, &spawner);

    // Consumed and marked, but its end is not written yet.
    assert!(agent(&world, worker).merged_worker);
    slim_merged_workers(&mut world);
    assert!(
        agent(&world, worker).window.is_some(),
        "unpersisted terminal state stays resident"
    );

    // Once it is written, the worker sheds its heavy parts.
    edit(&mut world, worker, |a| {
        a.watermark = Some(PersistWatermark {
            persisted_status: Some(RunStatus::Complete),
            last_progress_at: None,
        })
    });
    slim_merged_workers(&mut world);
    assert!(agent(&world, worker).window.is_none());
    assert!(!agent(&world, worker).merged_worker);
    // The agent itself survives.
    assert_eq!(agent(&world, worker).state.agent_id, "worker-a");
}

#[test]
fn collect_respects_max_workers_and_stages_pending() {
    let mut world = World::new();
    let spawner = TestSpawner::ok();
    let e = spawn_parent(
        &mut world,
        fanout_blueprint(cfg(Some("merge"), 1, WorkerFailurePolicy::Continue)),
        r#"[{"id":"a"},{"id":"b"}]"#,
    );
    split(&mut world);
    collect(&mut world, &spawner);
    // Only one worker at a time.
    assert_eq!(children(&world, e).len(), 1);
    let first = children(&world, e)[0];
    // A pass while the worker is still running starts nothing new.
    collect(&mut world, &spawner);
    assert_eq!(children(&world, e).len(), 1);
    assert!(agent(&world, e).fan_out.is_some());
    complete_worker(&mut world, first, "one");
    collect(&mut world, &spawner);
    // The second starts after the first finished.
    assert_eq!(children(&world, e).len(), 2);
    let second = children(&world, e)[1];
    complete_worker(&mut world, second, "two");
    collect(&mut world, &spawner);
    assert!(agent(&world, e).fan_out.is_none());
    assert_eq!(agent(&world, e).cursor, Some(1));
}

type Pairs = Vec<(String, String)>;

type ConfigParts = (
    Option<String>,
    Option<String>,
    Option<String>,
    Option<String>,
    usize,
    bool,
    String,
    Option<String>,
    Option<usize>,
);

/// A state with nothing pending, written as JSON and read again.
fn through_json(state: FanOutState) -> FanOutState {
    assert!(state.pending.is_empty());
    let c = &state.config;
    let fails_all = matches!(c.on_worker_failure, WorkerFailurePolicy::FailAll);
    let config = (
        &c.worker_agent,
        &c.worker_stage,
        &c.worker_query,
        &c.merge_stage,
        c.max_workers,
        fails_all,
        &c.split_prompt,
        &c.results_region,
        c.max_items,
    );
    let parts = (config, state.max_workers, &state.active, &state.summaries, &state.failures);
    let json = serde_json::to_string(&parts).unwrap();
    let back: (ConfigParts, usize, Pairs, Pairs, Pairs) = serde_json::from_str(&json).unwrap();
    let (c, max_workers, active, summaries, failures) = back;
    let config = FanOutConfig {
        worker_agent: c.0,
        worker_stage: c.1,
        worker_query: c.2,
        merge_stage: c.3,
        max_workers: c.4,
        on_worker_failure: if c.5 {
            WorkerFailurePolicy::FailAll
        } else {
            WorkerFailurePolicy::Continue
        },
        split_prompt: c.6,
        results_region: c.7,
        max_items: c.8,
    };
    FanOutState { config, max_workers, pending: Vec::new(), active, summaries, failures }
}

#[test]
fn collect_with_max_workers_zero_starts_every_item_at_once() {
    let mut world = World::new();
    let spawner = TestSpawner::ok();
    let e = spawn_parent(
        &mut world,
        fanout_blueprint(cfg(Some("merge"), 0, WorkerFailurePolicy::Continue)),
        r#"[{"id":"a"},{"id":"b"},{"id":"c"},{"id":"d"},{"id":"e"}]"#,
    );
    split(&mut world);
    collect(&mut world, &spawner);
    assert_eq!(children(&world, e).len(), 5);
    let state = agent(&world, e).fan_out.as_ref().unwrap().to_state();
    assert_eq!(state.max_workers, usize::MAX);
    assert!(state.pending.is_empty());
    // The whole state comes back from its JSON text.
    let active = state.active.clone();
    let back = through_json(state);
    assert_eq!(back.max_workers, usize::MAX);
    assert!(back.pending.is_empty());
    assert_eq!(back.active, active);
    assert_eq!(back.config.max_workers, 0);
    assert_eq!(back.config.merge_stage.as_deref(), Some("merge"));
    let fresh = world.spawn(Agent::new(parent_state()));
    let workers = children(&world, e);
    restore_fan_out_waiting(&mut world, fresh, back, &|run_id: &str| {
        active.iter().position(|(_, id)| id == run_id).map(|i| workers[i])
    });
    let restored = agent(&world, fresh).fan_out.as_ref().unwrap().to_state();
    assert_eq!(restored.max_workers, usize::MAX);
    assert_eq!(restored.active, active);
}

#[test]
fn a_restored_parent_above_its_cap_starts_no_more() {
    let mut world = World::new();
    let spawner = TestSpawner::ok();
    let e = spawn_parent(
        &mut world,
        fanout_blueprint(cfg(Some("merge"), 0, WorkerFailurePolicy::Continue)),
        r#"[{"id":"a"},{"id":"b"},{"id":"c"}]"#,
    );
    split(&mut world);
    collect(&mut world, &spawner);
    let mut state = agent(&world, e).fan_out.as_ref().unwrap().to_state();
    // Three workers run where one is allowed, and another item waits.
    state.max_workers = 1;
    state.pending = vec![WorkItem { id: "d".to_string(), context: Json::Null }];
    let runs = state.active.clone();
    let workers = children(&world, e);
    restore_fan_out_waiting(&mut world, e, state, &|run_id: &str| {
        runs.iter().position(|(_, id)| id == run_id).map(|i| workers[i])
    });
    collect(&mut world, &spawner);
    let after = agent(&world, e).fan_out.as_ref().unwrap().to_state();
    assert_eq!(after.active, runs);
    assert_eq!(after.pending.len(), 1);
    assert_eq!(after.max_workers, 1);
}

#[test]
fn fan_out_state_roundtrips_and_unresolved_workers_become_failures() {
    let mut world = World::new();
    let spawner = TestSpawner::ok();
    let e = spawn_parent(
        &mut world,
        fanout_blueprint(cfg(Some("merge"), 2, WorkerFailurePolicy::Continue)),
        r#"[{"id":"a"},{"id":"b"}]"#,
    );
    split(&mut world);
    collect(&mut world, &spawner);

    // The written state carries each worker's run id.
    let state = agent(&world, e).fan_out.as_ref().unwrap().to_state();
    assert_eq!(state.active.len(), 2);
    assert!(state.active.iter().all(|(_id, run_id)| !run_id.is_empty()));

    // Restored onto a fresh parent, the run ids are found again.
    let by_run: Vec<(String, usize)> = children(&world, e)
        .into_iter()
        .map(|c| (agent(&world, c).metadata.as_ref().unwrap().run_id.clone(), c))
        .collect();
    let fresh = world.spawn(Agent::new(parent_state()));
    restore_fan_out_waiting(&mut world, fresh, state, &|rid: &str| {
        by_run.iter().find(|(id, _)| id == rid).map(|(_, c)| *c)
    });
    assert_eq!(
        agent(&world, fresh).fan_out.as_ref().unwrap().to_state().active.len(),
        2
    );

    // Workers that are not found become failures, so the merge still completes.
    let state = agent(&world, fresh).fan_out.as_ref().unwrap().to_state();
    let orphaned = world.spawn(Agent::new(parent_state()));
    restore_fan_out_waiting(&mut world, orphaned, state, &|_: &str| None);
    let s = agent(&world, orphaned).fan_out.as_ref().unwrap().to_state();
    assert!(s.active.is_empty());
    assert_eq!(s.failures.len(), 2);
    assert_eq!(s.failures[0].1, "worker did not reload after restart");
}

#[test]
fn collect_fail_all_marks_parent_error() {
    let mut world = World::new();
    let spawner = TestSpawner::ok();
    let e = spawn_parent(
        &mut world,
        fanout_blueprint(cfg(Some("merge"), 2, WorkerFailurePolicy::FailAll)),
        r#"[{"id":"a"}]"#,
    );
    split(&mut world);
    collect(&mut world, &spawner);
    let worker = children(&world, e)[0];
    set_status(&mut world, worker, error("boom"));
    collect(&mut world, &spawner);
    assert_errored(&world, e);
    assert_eq!(agent(&world, e).cursor, Some(0)); // no merge
    match &agent(&world, e).state.status {
        AgentStatus::Error { message } => assert_eq!(
            message,
            "fan_out: 1 worker(s) failed (on_worker_failure = fail_all)"
        ),
        other => panic!("{other:?}"),
    }
}

#[test]
fn collect_continue_reports_failures_and_proceeds_without_merge() {
    let mut world = World::new();
    let spawner = TestSpawner::ok();
    let e = spawn_parent(
        &mut world,
        fanout_blueprint(cfg(None, 2, WorkerFailurePolicy::Continue)),
        r#"[{"id":"a"},{"id":"b"}]"#,
    );
    split(&mut world);
    collect(&mut world, &spawner);
    let kids = children(&world, e);
    set_status(&mut world, kids[0], error("worker a died"));
    complete_worker(&mut world, kids[1], "b ok");
    collect(&mut world, &spawner);
    assert!(agent(&world, e).fan_out.is_none());
    assert!(agent(&world, e).resolve_transition);
    assert_eq!(agent(&world, e).cursor, Some(0));
    let convo = conversation_text(&world, e);
    assert_eq!(
        convo,
        "[fan_out results: 1 succeeded, 1 failed]\n\n## worker b\nb ok\n\n## worker a FAILED\nworker a died\n"
    );
}

#[test]
fn collect_finishes_immediately_when_there_are_no_work_items() {
    let mut world = World::new();
    let e = spawn_parent(
        &mut world,
        fanout_blueprint(cfg(Some("merge"), 2, WorkerFailurePolicy::Continue)),
        "[]",
    );
    split(&mut world);
    collect(&mut world, &TestSpawner::ok());
    // No workers; straight to merge.
    assert!(agent(&world, e).children.is_none());
    assert!(agent(&world, e).fan_out.is_none());
    assert_eq!(agent(&world, e).cursor, Some(1));
}

#[test]
fn collect_merge_stage_not_found_falls_through_to_transition() {
    let mut world = World::new();
    let e = spawn_parent(
        &mut world,
        fanout_blueprint(cfg(Some("ghost"), 2, WorkerFailurePolicy::Continue)),
        "[]",
    );
    split(&mut world);
    collect(&mut world, &TestSpawner::ok());
    // No such stage: the stage's own transition, no jump.
    assert!(agent(&world, e).resolve_transition);
    assert_eq!(agent(&world, e).cursor, Some(0));
}

#[test]
fn collect_abandons_a_cancelled_parent() {
    let mut world = World::new();
    let e = spawn_parent(
        &mut world,
        fanout_blueprint(cfg(Some("merge"), 2, WorkerFailurePolicy::Continue)),
        r#"[{"id":"a"}]"#,
    );
    split(&mut world);
    set_status(&mut world, e, AgentStatus::Cancelled);
    collect(&mut world, &TestSpawner::ok());
    assert!(agent(&world, e).fan_out.is_none());
    assert!(matches!(agent(&world, e).state.status, AgentStatus::Cancelled));
}

#[test]
fn collect_without_a_spawner_records_failures() {
    let mut world = World::new();
    let e = spawn_parent(
        &mut world,
        fanout_blueprint(cfg(Some("merge"), 2, WorkerFailurePolicy::Continue)),
        r#"[{"id":"a"}]"#,
    );
    split(&mut world);
    fan_out_collect::<TestSpawner>(&mut world, None);
    // The item failed to start, and the parent still goes on to merge.
    assert!(agent(&world, e).fan_out.is_none());
    assert_eq!(agent(&world, e).cursor, Some(1));
    assert!(conversation_text(&world, e).contains("no fan-out spawner installed"));
}

#[test]
fn collect_spawner_error_becomes_a_failure() {
    let mut world = World::new();
    let e = spawn_parent(
        &mut world,
        fanout_blueprint(cfg(None, 2, WorkerFailurePolicy::FailAll)),
        r#"[{"id":"a"}]"#,
    );
    split(&mut world);
    collect(&mut world, &TestSpawner::refusing(&["a"]));
    // Spawn refused and every worker must succeed: the parent fails.
    assert_errored(&world, e);
}

#[test]
fn start_worker_enforces_depth_cap() {
    let mut world = World::new();
    let mut bp = fanout_blueprint(cfg(None, 2, WorkerFailurePolicy::Continue));
    bp.max_child_depth = Some(3);
    let e = spawn_parent(&mut world, bp, r#"[{"id":"deep"}]"#);
    // The parent is itself three levels down.
    edit(&mut world, e, |a| {
        a.parent = Some(ParentRef {
            parent_entity: 999,
            parent_agent_id: "root".to_string(),
            depth: 3,
        })
    });
    split(&mut world);
    collect(&mut world, &TestSpawner::ok());
    // No worker spawned.
    assert!(agent(&world, e).children.is_none());
    assert!(agent(&world, e).fan_out.is_none());
    assert!(
        conversation_text(&world, e)
            .contains("fan-out worker depth limit (3) reached; not spawning")
    );
}

#[test]
fn start_worker_uses_existing_subagentchildren_cap_and_appends() {
    let mut world = World::new();
    let e = spawn_parent(
        &mut world,
        fanout_blueprint(cfg(Some("merge"), 2, WorkerFailurePolicy::Continue)),
        r#"[{"id":"a"}]"#,
    );
    // Children are there already, with a generous cap.
    edit(&mut world, e, |a| {
        a.children = Some(SubAgentChildren {
            children: vec![1000],
            max_child_depth: 9,
        })
    });
    split(&mut world);
    collect(&mut world, &TestSpawner::ok());
    let kids = agent(&world, e).children.as_ref().unwrap();
    assert_eq!(kids.max_child_depth, 9);
    assert_eq!(kids.children.len(), 2); // appended to the existing one
}

#[test]
fn a_submitted_answer_beats_the_last_assistant_text() {
    let mut world = World::new();
    let mut worker = Agent::new(parent_state());
    worker.inference = Some(inference("Let me run the tests one more time."));
    worker.final_output = Some(FinalOutput {
        content: "changed src/lib.rs; the failing test now passes".to_string(),
        format: None,
        stage: "fix_worker".to_string(),
        submitted_at: 0,
        truncated: false,
    });
    let worker = world.spawn(worker);
    set_status(&mut world, worker, AgentStatus::Complete);
    assert_eq!(
        worker_terminal_result(&world, worker),
        Some(Ok(
            "changed src/lib.rs; the failing test now passes".to_string()
        ))
    );
}

#[test]
fn a_worker_that_submitted_nothing_still_falls_back_to_its_text() {
    let mut world = World::new();
    let mut worker = Agent::new(parent_state());
    worker.inference = Some(inference("the old behaviour"));
    let worker = world.spawn(worker);
    set_status(&mut world, worker, AgentStatus::Complete);
    assert_eq!(
        worker_terminal_result(&world, worker),
        Some(Ok("the old behaviour".to_string()))
    );
}

/// A finished worker in a stage that demands a final output.
fn spawn_required_output_worker(world: &mut World) -> usize {
    let mut s = stage("w", StageMode::Standard);
    s.require_output = true;
    let mut worker = Agent::new(parent_state());
    worker.blueprint = Some(Blueprint {
        stages: vec![s],
        max_child_depth: None,
    });
    worker.cursor = Some(0);
    let worker = world.spawn(worker);
    set_status(world, worker, AgentStatus::Complete);
    worker
}

#[test]
fn a_worker_that_owes_an_output_and_has_none_is_a_failure() {
    let mut world = World::new();
    let worker = spawn_required_output_worker(&mut world);

    assert_eq!(
        worker_terminal_result(&world, worker),
        Some(Err(
            "worker finished without the final output its stage requires".to_string()
        )),
        "the merge has to be told a worker failed, and why"
    );
}

#[test]
fn a_worker_that_owes_an_output_and_has_one_contributes_it() {
    let mut world = World::new();
    let worker = spawn_required_output_worker(&mut world);
    edit(&mut world, worker, |a| {
        a.final_output = Some(FinalOutput {
            content: "the rows".to_string(),
            format: Some("csv".to_string()),
            stage: "w".to_string(),
            submitted_at: 0,
            truncated: false,
        })
    });

    assert_eq!(
        worker_terminal_result(&world, worker),
        Some(Ok("the rows".to_string()))
    );
}

#[test]
fn a_worker_with_no_stage_to_read_owes_nothing() {
    let mut world = World::new();

    // No blueprint at all.
    let bare = world.spawn(Agent::new(parent_state()));
    assert!(!worker_requires_output(&world, bare));

    // A blueprint, but no cursor saying which stage it is in.
    let mut no_cursor = Agent::new(parent_state());
    no_cursor.blueprint = Some(fanout_blueprint(cfg(None, 1, WorkerFailurePolicy::Continue)));
    let no_cursor = world.spawn(no_cursor);
    assert!(!worker_requires_output(&world, no_cursor));

    // A cursor pointing past the end of the stage list.
    let mut past_end = Agent::new(parent_state());
    past_end.blueprint = Some(fanout_blueprint(cfg(None, 1, WorkerFailurePolicy::Continue)));
    past_end.cursor = Some(99);
    let past_end = world.spawn(past_end);
    assert!(!worker_requires_output(&world, past_end));
}

#[test]
fn a_worker_that_owes_nothing_keeps_the_last_turn_fallback() {
    let mut world = World::new();
    let worker = world.spawn(Agent::new(parent_state()));
    set_status(&mut world, worker, AgentStatus::Complete);

    assert_eq!(
        worker_terminal_result(&world, worker),
        Some(Ok(String::new()))
    );
}

#[test]
fn worker_terminal_result_covers_every_status() {
    let mut world = World::new();
    let mut complete = Agent::new(parent_state());
    complete.inference = Some(inference("done text"));
    let complete = world.spawn(complete);
    set_status(&mut world, complete, AgentStatus::Complete);
    assert_eq!(
        worker_terminal_result(&world, complete),
        Some(Ok("done text".to_string()))
    );

    let complete_no_infer = world.spawn(Agent::new(parent_state()));
    set_status(&mut world, complete_no_infer, AgentStatus::Complete);
    assert_eq!(
        worker_terminal_result(&world, complete_no_infer),
        Some(Ok(String::new()))
    );

    let errored = world.spawn(Agent::new(parent_state()));
    set_status(&mut world, errored, error("x"));
    assert_eq!(
        worker_terminal_result(&world, errored),
        Some(Err("x".to_string()))
    );

    let cancelled = world.spawn(Agent::new(parent_state()));
    set_status(&mut world, cancelled, AgentStatus::Cancelled);
    assert!(worker_terminal_result(&world, cancelled).is_some_and(|r| r.is_err()));

    let running = world.spawn(Agent::new(parent_state())); // active
    assert_eq!(worker_terminal_result(&world, running), None);

    assert!(worker_terminal_result(&world, 4242).is_some_and(|r| r.is_err()));
}

#[test]
fn a_huge_fan_out_still_reaches_the_merge_stage() {
    let mut world = World::new();
    let mut parent = Agent::new(parent_state());
    parent.window = Some(window_with("conversation", 100_000, 10_000));
    let parent = world.spawn(parent);

    // A hundred workers, each answering at the longest a submission may be.
    let huge = "x".repeat(256 * 1024);
    let summaries = pairs(100, &huge);
    let report = build_report(&summaries, &vec![], Some(10_000));
    inject_results(&mut world, parent, "conversation", &report);

    let region = agent(&world, parent)
        .window
        .as_ref()
        .expect("window")
        .get_region("conversation")
        .expect("region");
    assert!(
        !region.content.is_empty(),
        "the merge stage must receive something rather than nothing"
    );
    let landed = &region.content[0].content;
    assert!(landed.contains("100 succeeded"), "header survives");
    assert!(landed.contains("truncated"), "and says it was cut");
    assert!(region.current_tokens <= region.max_tokens, "within budget");
}

#[test]
fn a_report_larger_than_what_is_left_of_the_region_is_trimmed_not_dropped() {
    const REGION_TOKENS: usize = 2_000;
    let mut world = World::new();
    let mut window = window_with("worker_results", 100_000, REGION_TOKENS);
    // Most of the region is already spoken for.
    let filler = "f".repeat(REGION_TOKENS * 4 * 8 / 10);
    let filler_tokens = estimate_tokens(&filler);
    assert!(
        window
            .add_typed_entry("worker_results", EntryKind::UserMessage, filler, filler_tokens)
            .is_ok(),
        "the filler fits"
    );
    let mut parent = Agent::new(parent_state());
    parent.window = Some(window);
    let parent = world.spawn(parent);

    // A report sized for the whole region, landing in what is left of it.
    let long = "x".repeat(5_000);
    let summaries = pairs(8, &long);
    let report = build_report(&summaries, &vec![], Some(REGION_TOKENS));
    assert!(report.len() > REGION_TOKENS * 4 / 5, "the report is big");
    inject_results(&mut world, parent, "worker_results", &report);

    let region = agent(&world, parent)
        .window
        .as_ref()
        .expect("window")
        .get_region("worker_results")
        .expect("region");
    assert_eq!(
        region.content.len(),
        2,
        "the report landed beside the filler"
    );
    let landed = &region.content[1].content;
    assert!(
        landed.contains("8 succeeded"),
        "the header survives the cut"
    );
    assert!(
        landed.contains(REPORT_TRUNCATION_MARKER.trim()),
        "and it says it was cut"
    );
    assert!(region.current_tokens <= region.max_tokens, "within budget");
}

#[test]
fn every_worker_appears_in_a_large_fan_out() {
    const REGION_TOKENS: usize = 40_000;
    let mut world = World::new();
    let mut parent = Agent::new(parent_state());
    parent.window = Some(window_with("worker_results", 400_000, REGION_TOKENS));
    let parent = world.spawn(parent);

    let long = "x".repeat(50_000);
    let summaries = pairs(100, &long);
    let report = build_report(&summaries, &vec![], Some(REGION_TOKENS));
    inject_results(&mut world, parent, "worker_results", &report);

    let landed = agent(&world, parent)
        .window
        .as_ref()
        .expect("window")
        .get_region("worker_results")
        .expect("region")
        .content[0]
        .content
        .clone();
    for i in 0..100 {
        assert!(
            landed.contains(&format!("## worker w{i}\n")),
            "worker w{i} never reached the merge stage"
        );
    }
    // And it says the sections are extracts.
    assert!(landed.contains("read a worker's own run"));
}

#[test]
fn the_share_shrinks_as_the_worker_count_grows() {
    assert!(bytes_per_worker(Some(40_000), 4) > bytes_per_worker(Some(40_000), 100));
    // A bigger region means a bigger share for the same workers.
    assert!(bytes_per_worker(Some(80_000), 10) > bytes_per_worker(Some(40_000), 10));
    // Never so small a section says nothing at all.
    assert_eq!(
        bytes_per_worker(Some(10), 10_000),
        MIN_REPORT_BYTES_PER_WORKER
    );
    // No readable budget falls back rather than dividing by nothing.
    assert_eq!(bytes_per_worker(None, 4), DEFAULT_REPORT_BYTES_PER_WORKER);
    assert_eq!(bytes_per_worker(Some(0), 4), DEFAULT_REPORT_BYTES_PER_WORKER);
    assert_eq!(bytes_per_worker(Some(40_000), 4), 36_000);
}

#[test]
fn results_go_to_the_named_region() {
    let mut world = World::new();
    let mut window = window_with("conversation", 100_000, 10_000);
    window.add_region(Region::new(
        "worker_results".to_string(),
        RegionKind::Clearable,
        20_000,
    ));
    let mut parent = Agent::new(parent_state());
    parent.window = Some(window);
    let parent = world.spawn(parent);
    inject_results(&mut world, parent, "worker_results", "the report");

    let w = agent(&world, parent).window.as_ref().expect("window");
    assert_eq!(
        w.get_region("worker_results")
            .expect("region")
            .content
            .len(),
        1
    );
    assert!(
        w.get_region("conversation")
            .expect("region")
            .content
            .is_empty(),
        "the default region is left alone"
    );
}

#[test]
fn an_unknown_results_region_falls_back_to_the_conversation() {
    let mut world = World::new();
    let mut parent = Agent::new(parent_state());
    parent.window = Some(window_with("conversation", 100_000, 10_000));
    let parent = world.spawn(parent);
    inject_results(&mut world, parent, "typo_region", "the report");

    assert_eq!(
        agent(&world, parent)
            .window
            .as_ref()
            .expect("window")
            .get_region("conversation")
            .expect("region")
            .content
            .len(),
        1
    );
}

#[test]
fn a_small_fan_out_report_is_not_trimmed() {
    let mut world = World::new();
    let mut parent = Agent::new(parent_state());
    parent.window = Some(window_with("conversation", 100_000, 10_000));
    let parent = world.spawn(parent);
    let report = build_report(
        &vec![("a".to_string(), "did the thing".to_string())],
        &vec![],
        Some(10_000),
    );
    inject_results(&mut world, parent, "conversation", &report);
    let landed = agent(&world, parent)
        .window
        .as_ref()
        .expect("window")
        .get_region("conversation")
        .expect("region")
        .content[0]
        .content
        .clone();
    assert_eq!(landed, report);
}

#[test]
fn build_report_lists_successes_and_failures() {
    let report = build_report(
        &vec![("a".to_string(), "ok-a".to_string())],
        &vec![("b".to_string(), "boom".to_string())],
        None,
    );
    assert!(report.contains("1 succeeded, 1 failed"));
    assert!(report.contains("## worker a\nok-a"));
    assert!(report.contains("## worker b FAILED\nboom"));
}

#[test]
fn inject_conversation_is_a_noop_without_a_window() {
    let mut world = World::new();
    let mut has_window = Agent::new(parent_state());
    has_window.window = Some(window());
    let has_window = world.spawn(has_window);
    inject_results(&mut world, has_window, "conversation", "hello");
    assert!(
        agent(&world, has_window)
            .window
            .as_ref()
            .unwrap()
            .get_region("conversation")
            .unwrap()
            .current_tokens
            > 0
    );
    // Without a window: silently ignored.
    let no_window = world.spawn(Agent::new(parent_state()));
    inject_results(&mut world, no_window, "conversation", "hello");
}

#[test]
fn set_status_is_a_noop_for_a_missing_agent() {
    let mut world = World::new();
    set_status(&mut world, 77, AgentStatus::Complete);
    assert!(world.agent_status(77).is_none());
}

#[test]
fn a_long_section_is_cut_between_characters() {
    let marker = REPORT_TRUNCATION_MARKER.len();
    let cut = fit_worker_section("€€€€€€€€€€€€€€€€€€€€€€€€€€€€€€", marker + 7);
    assert_eq!(cut, format!("€€{REPORT_TRUNCATION_MARKER}"));
    assert_eq!(fit_worker_section("short", 200), "short");
    assert_eq!(fit_worker_section("toolong", 3), REPORT_TRUNCATION_MARKER);
}

#[test]
fn the_correction_names_the_reason() {
    assert_eq!(
        split_correction("why"),
        "Your previous response could not be used: why. Reply with the JSON array of work items and nothing else - no prose before or after it, no markdown fences, no explanation. It must start with `[` and end with `]`."
    );
}

#[test]
fn outstanding_counts_what_runs_and_what_waits() {
    let mut world = World::new();
    let e = spawn_parent(
        &mut world,
        fanout_blueprint(cfg(None, 1, WorkerFailurePolicy::Continue)),
        r#"[{"id":"a"},{"id":"b"},{"id":"c"}]"#,
    );
    split(&mut world);
    collect(&mut world, &TestSpawner::ok());
    let w = agent(&world, e).fan_out.as_ref().unwrap();
    assert_eq!((w.active.len(), w.pending.len()), (1, 2));
    assert_eq!(w.outstanding(), 3);
}

#[test]
fn no_item_is_lost_on_the_way() {
    let mut world = World::new();
    let spawner = TestSpawner::refusing(&["b"]);
    let e = spawn_parent(
        &mut world,
        fanout_blueprint(cfg(None, 2, WorkerFailurePolicy::Continue)),
        r#"[{"id":"a"},{"id":"b"},{"id":"c"},{"id":"d"}]"#,
    );
    split(&mut world);
    collect(&mut world, &spawner);
    // A refused item takes no place: a and c run, d waits.
    let w = agent(&world, e).fan_out.as_ref().unwrap();
    let running: Vec<&str> = w.active.iter().map(|a| a.item_id.as_str()).collect();
    assert_eq!(running, ["a", "c"]);
    assert_eq!(w.pending[0].id, "d");
    assert_eq!(w.failures, vec![("b".to_string(), "spawn refused for 'b'".to_string())]);
    let a = w.active[0].entity;
    complete_worker(&mut world, a, "A");
    world.despawn(children(&world, e)[1]);
    collect(&mut world, &spawner);
    let w = agent(&world, e).fan_out.as_ref().unwrap();
    assert_eq!(w.summaries, vec![("a".to_string(), "A".to_string())]);
    assert_eq!(w.failures[1], ("c".to_string(), "worker vanished".to_string()));
    assert_eq!(w.active.len(), 1);
    assert!(w.pending.is_empty());
}

fn setup() -> StageSetup {
    StageSetup { routing: None, accepts_messages: true, system_prompt: None }
}

/// A world with one agent in a fan-out stage, with these setups and this window.
fn world_with(setups: Vec<StageSetup>, w: ContextWindow) -> (World, usize) {
    let mut world = World::new();
    let mut agent = Agent::new(parent_state());
    agent.blueprint =
        Some(fanout_blueprint(cfg(Some("merge"), 2, WorkerFailurePolicy::Continue)));
    agent.cursor = Some(0);
    agent.setups = Some(setups);
    agent.window = Some(w);
    let e = world.spawn(agent);
    (world, e)
}

#[test]
fn force_transition_applies_routing_and_handles_despawn_and_overflow() {
    // Routing on the target stage is taken up.
    let mut setups = vec![setup(), setup()];
    setups[1].routing = Some(ToolResultRouting {
        default_region: "conversation".to_string(),
        tool_overrides: NameTable::new(),
        persist: true,
        max_result_tokens: None,
    });
    let (mut world, e) = world_with(setups, window());
    force_transition(&mut world, e, 1);
    assert!(agent(&world, e).routing.is_some());
    assert!(agent(&world, e).ready_to_infer);
    assert_eq!(agent(&world, e).state.current_stage, "merge");

    // No agent: no panic, no effect.
    force_transition(&mut world, 9191, 1);
    assert_eq!(world.agents.len(), 1);
}

#[test]
fn force_transition_marks_error_on_prompt_overflow() {
    // A tiny pinned region and a huge system prompt.
    let mut setups = vec![setup(), setup()];
    setups[1].system_prompt = Some("x".repeat(10_000));
    let mut w = ContextWindow::new(1000);
    w.add_region(Region::new("task".to_string(), RegionKind::Pinned, 20));
    let (mut world, e) = world_with(setups, w);
    force_transition(&mut world, e, 1);
    assert_errored(&world, e);
    assert!(!agent(&world, e).ready_to_infer);
}

#[test]
fn a_stage_that_is_entered_has_its_prompt_in_the_window() {
    let mut setups = vec![setup(), setup()];
    setups[1].system_prompt = Some("merge them".to_string());
    setups[1].accepts_messages = false;
    let mut w = window();
    w.add_region(Region::new("task".to_string(), RegionKind::Pinned, 20));
    let (mut world, e) = world_with(setups, w);
    force_transition(&mut world, e, 1);
    let entered = agent(&world, e);
    assert!(entered.ready_to_infer && !entered.state.accepts_messages);
    assert_eq!(entered.cursor, Some(1));
    let task = entered.window.as_ref().unwrap().get_region("task").unwrap();
    assert_eq!(task.content[0].content, "merge them");
}

#[test]
fn a_worker_is_seeded_from_its_parent() {
    let mut world = World::new();
    let e = spawn_parent(
        &mut world,
        fanout_blueprint(cfg(Some("merge"), 2, WorkerFailurePolicy::Continue)),
        r#"[{"id":"a"}]"#,
    );
    split(&mut world);
    edit(&mut world, e, |a| {
        let w = a.window.as_mut().unwrap();
        let _ = w.add_to_region("conversation", "notes".to_string(), 33);
    });
    let before = agent(&world, e).window.as_ref().unwrap().current_tokens;
    collect(&mut world, &TestSpawner::ok());
    let kid = agent(&world, e).children.as_ref().unwrap().children[0];
    assert!(before >= 33);
    assert_eq!(agent(&world, kid).totals.as_ref().unwrap().prompt_tokens, before);
}
